//! Taking a store from the first schema version to the second.
//!
//! The schema file is replaced before the configuration is, so a store with the first version
//! in its configuration and the second schema was left half way.
use vstd::prelude::*;

use crate::config::{self, Config, ConfigModel};
use crate::documents;
use crate::error::{self, Error, ErrorModel, IssueModel, ValidationIssue};
use crate::frontmatter;
use crate::order;
use crate::schema::{self, JsonFault};
use crate::text;
use crate::yaml;

verus! {

/// What an upgrade did, or would do.
#[derive(Debug, Clone, Copy, PartialEq, Eq, Structural)]
pub enum UpgradeStatus {
    /// The store is as it should be.
    AlreadyCurrent,
    /// The upgrade could be done.
    Planned,
    /// The upgrade is to be done.
    Upgraded,
    /// An upgrade that was left half way is to be finished.
    Resumed,
}

/// The word for a status.
pub open spec fn status_word(status: UpgradeStatus) -> Seq<char> {
    match status {
        UpgradeStatus::AlreadyCurrent => "already_current"@,
        UpgradeStatus::Planned => "planned"@,
        UpgradeStatus::Upgraded => "upgraded"@,
        UpgradeStatus::Resumed => "resumed"@,
    }
}

impl UpgradeStatus {
    /// The word for a status.
    pub fn as_str(self) -> (r: &'static str)
        ensures
            r@ == status_word(self),
    {
        match self {
            UpgradeStatus::AlreadyCurrent => "already_current",
            UpgradeStatus::Planned => "planned",
            UpgradeStatus::Upgraded => "upgraded",
            UpgradeStatus::Resumed => "resumed",
        }
    }
}

/// The schema that a store has.
#[derive(Debug, Clone, Copy, PartialEq, Eq, Structural)]
pub enum SchemaFound {
    First,
    Second,
    Neither,
}

/// Which schema was read, by the two that are known.
pub open spec fn schema_among(
    found: Result<Seq<char>, (Seq<char>, usize, usize)>,
    first: Result<Seq<char>, (Seq<char>, usize, usize)>,
    second: Result<Seq<char>, (Seq<char>, usize, usize)>,
) -> SchemaFound {
    match found {
        Err(_) => SchemaFound::Neither,
        Ok(found) => if first matches Ok(first) && schema::json_equal(found, first) {
            SchemaFound::First
        } else if second matches Ok(second) && schema::json_equal(found, second) {
            SchemaFound::Second
        } else {
            SchemaFound::Neither
        },
    }
}

/// Which schema was read, by the two that are known.
pub fn tell_schema(
    found: Result<serde_json::Value, JsonFault>,
    first: Result<serde_json::Value, JsonFault>,
    second: Result<serde_json::Value, JsonFault>,
) -> (r: SchemaFound)
    ensures
        r == schema_among(
            schema::read_outcome(found),
            schema::read_outcome(first),
            schema::read_outcome(second),
        ),
{
    let found = match found {
        Ok(found) => found,
        Err(_) => {
            return SchemaFound::Neither;
        },
    };
    if let Ok(first) = first {
        if schema::are_equal(&found, &first) {
            return SchemaFound::First;
        }
    }
    if let Ok(second) = second {
        if schema::are_equal(&found, &second) {
            return SchemaFound::Second;
        }
    }
    SchemaFound::Neither
}

/// Which schema the bytes of a schema file are.
pub fn find_schema(bytes: &[u8], schemas: &schema::Schemas) -> (r: SchemaFound)
    ensures
        r == schema_among(
            schema::json_read(bytes@),
            schema::json_read(vstd::utf8::encode_utf8(schemas@.first)),
            schema::json_read(vstd::utf8::encode_utf8(schemas@.second)),
        ),
{
    tell_schema(
        schema::read_json(bytes),
        schema::read_json(schemas.first.as_str().as_bytes()),
        schema::read_json(schemas.second.as_str().as_bytes()),
    )
}

/// Whether bytes are a record that has a property named `parent`, whatever its value.
pub open spec fn has_parent_key(bytes: Seq<u8>) -> bool {
    frontmatter::document_of(bytes) matches Ok(document) && yaml::value_at(
        document.properties,
        "parent"@,
    ) is Some
}

/// The issue for a task with a property that the second version gives a meaning.
pub open spec fn parent_key_issue(path: Seq<char>) -> IssueModel {
    IssueModel::error(
        "legacy_parent_property"@,
        "The property parent would become a relation; move or remove it before upgrading"@,
    ).at_path(path).at_field("parent"@)
}

/// The issues for the first `n` tasks, each given by its path and its bytes.
pub open spec fn parent_key_issues(records: Seq<(String, Vec<u8>)>, n: int) -> Seq<IssueModel>
    decreases n,
{
    if n <= 0 {
        seq![]
    } else if has_parent_key(records[n - 1].1@) {
        parent_key_issues(records, n - 1).push(parent_key_issue(records[n - 1].0@))
    } else {
        parent_key_issues(records, n - 1)
    }
}

/// The first `n` issues that stand in the way. Where an upgrade was left half way, that the
/// schema is another is none of them.
pub open spec fn standing(issues: Seq<IssueModel>, half_way: bool, n: int) -> Seq<IssueModel>
    decreases n,
{
    if n <= 0 {
        seq![]
    } else if half_way && issues[n - 1].code == "schema_version_mismatch"@ {
        standing(issues, half_way, n - 1)
    } else {
        standing(issues, half_way, n - 1).push(issues[n - 1])
    }
}

/// The issues with a store that is to be upgraded: those of its validation, and the properties
/// that the second version gives a meaning.
pub open spec fn preflight(
    issues: Seq<IssueModel>,
    half_way: bool,
    records: Seq<(String, Vec<u8>)>,
) -> Seq<IssueModel> {
    standing(issues, half_way, issues.len() as int) + parent_key_issues(
        records,
        records.len() as int,
    )
}

fn is_parent_key(bytes: &Vec<u8>) -> (r: bool)
    ensures
        r == has_parent_key(bytes@),
{
    match frontmatter::parse_document(bytes.as_slice()) {
        Ok(document) => yaml::get(&document.properties, "parent").is_some(),
        Err(_) => false,
    }
}

/// The issues with a store that is to be upgraded. See [`preflight`].
pub fn preflight_issues(
    issues: &Vec<ValidationIssue>,
    half_way: bool,
    records: &Vec<(String, Vec<u8>)>,
) -> (r: Vec<ValidationIssue>)
    ensures
        error::issue_models(r@) == preflight(error::issue_models(issues@), half_way, records@),
{
    let ghost models = error::issue_models(issues@);
    let mut r: Vec<ValidationIssue> = Vec::new();
    assert(error::issue_models(r@) =~= Seq::<IssueModel>::empty());
    let mut i: usize = 0;
    while i < issues.len()
        invariant
            i <= issues@.len(),
            models == error::issue_models(issues@),
            error::issue_models(r@) == standing(models, half_way, i as int),
        decreases issues.len() - i,
    {
        assert(models[i as int] == issues@[i as int]@);
        if !(half_way && text::same(issues[i].code.as_str(), "schema_version_mismatch")) {
            error::add_issue(&mut r, issues[i].clone());
        }
        i += 1;
    }
    let ghost first = error::issue_models(r@);
    let mut k: usize = 0;
    assert(first =~= first + parent_key_issues(records@, 0));
    while k < records.len()
        invariant
            k <= records@.len(),
            error::issue_models(r@) == first + parent_key_issues(records@, k as int),
        decreases records.len() - k,
    {
        if is_parent_key(&records[k].1) {
            error::add_issue(
                &mut r,
                ValidationIssue::error(
                    "legacy_parent_property",
                    "The property parent would become a relation; move or remove it before upgrading",
                ).at_path(records[k].0.as_str()).at_field("parent"),
            );
            assert(error::issue_models(r@) =~= first + parent_key_issues(records@, k + 1));
        }
        k += 1;
    }
    r
}

/// The error for an upgrade to another version.
pub open spec fn target_error(to: u32) -> ErrorModel {
    ErrorModel::unsupported(
        "unsupported_schema"@,
        "Cannot upgrade to schema version "@ + text::decimal(to as nat)
            + "; only version 2 is supported"@,
    )
}

/// What an upgrade does, unless issues stand in the way.
pub open spec fn status_of(to: u32, version: u32, found: SchemaFound, dry_run: bool) -> Result<
    UpgradeStatus,
    ErrorModel,
> {
    if to != 2 {
        Err(target_error(to))
    } else if version == 2 {
        if found == SchemaFound::Second {
            Ok(UpgradeStatus::AlreadyCurrent)
        } else {
            Err(schema::mismatch())
        }
    } else if found == SchemaFound::Neither {
        Err(schema::mismatch())
    } else if dry_run {
        Ok(UpgradeStatus::Planned)
    } else if found == SchemaFound::First {
        Ok(UpgradeStatus::Upgraded)
    } else {
        Ok(UpgradeStatus::Resumed)
    }
}

/// Whether the result is what an upgrade does. A store that is as it should be is left alone;
/// any other has to have no errors.
pub open spec fn is_upgrade(
    r: Result<UpgradeStatus, ErrorModel>,
    to: u32,
    version: u32,
    found: SchemaFound,
    dry_run: bool,
    issues: Seq<ValidationIssue>,
) -> bool {
    match status_of(to, version, found, dry_run) {
        Ok(status) if status != UpgradeStatus::AlreadyCurrent && error::error_count(
            error::issue_models(issues),
        ) > 0 => exists|sorted: Seq<ValidationIssue>|
            #![trigger error::issue_models(sorted)]
            order::arranged(issues, sorted) && r == Err::<UpgradeStatus, ErrorModel>(
                error::issues_error(error::issue_models(sorted)),
            ),
        other => r == other,
    }
}

/// What an upgrade to a version does, by the version of the configuration, the schema, and the
/// issues of the preflight. See [`is_upgrade`].
pub fn upgrade(
    to: u32,
    version: u32,
    found: SchemaFound,
    dry_run: bool,
    issues: Vec<ValidationIssue>,
) -> (r: Result<UpgradeStatus, Error>)
    ensures
        is_upgrade(error::outcome(r), to, version, found, dry_run, issues@),
{
    if to != 2 {
        return Err(
            Error::unsupported(
                "unsupported_schema",
                text::join3(
                    "Cannot upgrade to schema version ",
                    text::format_number(to as u64).as_str(),
                    "; only version 2 is supported",
                ).as_str(),
            ),
        );
    }
    if version == 2 && found == SchemaFound::Second {
        return Ok(UpgradeStatus::AlreadyCurrent);
    }
    if version == 2 || found == SchemaFound::Neither {
        return Err(
            Error::unsupported(
                "schema_version_mismatch",
                "schema.json does not match the configured schema version",
            ).with_path(config::SCHEMA_PATH),
        );
    }
    if error::count_errors(&issues) > 0 {
        return Err(Error::from_issues(issues));
    }
    if dry_run {
        Ok(UpgradeStatus::Planned)
    } else if found == SchemaFound::First {
        Ok(UpgradeStatus::Upgraded)
    } else {
        Ok(UpgradeStatus::Resumed)
    }
}

/// Where the spaces and tabs from `from` on end.
pub open spec fn skip_blanks(s: Seq<char>, from: int) -> int
    decreases s.len() - from,
{
    if 0 <= from < s.len() && (s[from] == ' ' || s[from] == '\t') {
        skip_blanks(s, from + 1)
    } else {
        from
    }
}

/// The place of the value of the schema version, where the line that begins at `from` is the one
/// with it.
pub open spec fn value_in_line(s: Seq<char>, from: int) -> Option<int> {
    let key = skip_blanks(s, from);
    let equals = skip_blanks(s, key + "schema_version"@.len());
    let value = skip_blanks(s, equals + 1);
    if text::stands_at(s, "schema_version"@, key) && equals < s.len() && s[equals] == '=' && value
        < s.len() {
        Some(value)
    } else {
        None
    }
}

/// The place of the value of the schema version, in the lines from the one at `from` on.
pub open spec fn value_from(s: Seq<char>, from: int) -> Option<int>
    decreases s.len() - from + 1,
{
    if !(0 <= from < s.len()) {
        None
    } else if value_in_line(s, from) is Some {
        value_in_line(s, from)
    } else {
        proof {
            text::lemma_find_from(s, '\n', from);
        }
        value_from(s, text::find_from(s, '\n', from) + 1)
    }
}

fn skip(s: &Vec<char>, from: usize) -> (r: usize)
    requires
        from <= s@.len(),
    ensures
        r == skip_blanks(s@, from as int),
        from <= r <= s@.len(),
{
    let mut i: usize = from;
    while i < s.len() && (s[i] == ' ' || s[i] == '\t')
        invariant
            from <= i <= s@.len(),
            skip_blanks(s@, from as int) == skip_blanks(s@, i as int),
        decreases s.len() - i,
    {
        i += 1;
    }
    i
}

fn find_value_in_line(s: &Vec<char>, from: usize) -> (r: Option<usize>)
    requires
        from <= s@.len(),
    ensures
        match r {
            Some(at) => value_in_line(s@, from as int) == Some(at as int) && at < s@.len(),
            None => value_in_line(s@, from as int) is None,
        },
{
    proof {
        reveal_strlit("schema_version");
        assert("schema_version"@.len() == 14);
    }
    let n: usize = s.len();
    let key: usize = skip(s, from);
    if !text::is_at(s, "schema_version", key) {
        return None;
    }
    let equals: usize = skip(s, key + 14);
    if equals >= n || s[equals] != '=' {
        return None;
    }
    let value: usize = skip(s, equals + 1);
    if value < n {
        Some(value)
    } else {
        None
    }
}

fn find_value(s: &Vec<char>) -> (r: Option<usize>)
    ensures
        match r {
            Some(at) => value_from(s@, 0) == Some(at as int) && at < s@.len(),
            None => value_from(s@, 0) is None,
        },
{
    let n: usize = s.len();
    let mut from: usize = 0;
    while from < n
        invariant
            n == s@.len(),
            from <= n,
            value_from(s@, 0) == value_from(s@, from as int),
        decreases n - from,
    {
        if let Some(at) = find_value_in_line(s, from) {
            return Some(at);
        }
        let end: usize = text::find_char(s, '\n', from);
        proof {
            text::lemma_find_from(s@, '\n', from as int);
        }
        if end >= n {
            assert(value_from(s@, end + 1) is None);
            return None;
        }
        from = end + 1;
    }
    None
}

/// The error for a configuration in which the version cannot be replaced.
pub open spec fn rewrite_error() -> ErrorModel {
    ErrorModel::validation(
        "config_upgrade_failed"@,
        "Could not replace the schema version in the configuration"@,
    ).with_path(".todo/config.toml"@).with_field("schema_version"@)
}

/// A configuration with the second version.
pub open spec fn second(config: ConfigModel) -> ConfigModel {
    ConfigModel { schema_version: 2, ..config }
}

/// The text of a configuration with the second version in place of the first. Nothing else is
/// changed, and the text has to hold the same configuration but for the version.
pub open spec fn rewritten(source: Seq<char>, config: ConfigModel) -> Result<Seq<char>, ErrorModel> {
    match value_from(source, 0) {
        Some(at) if source[at] == '1' => {
            let text = source.update(at, '2');
            if config::config_from(text, documents::toml_outcome(text)) == Ok::<
                ConfigModel,
                ErrorModel,
            >(second(config)) {
                Ok(text)
            } else {
                Err(rewrite_error())
            }
        },
        _ => Err(rewrite_error()),
    }
}

fn cannot_rewrite() -> (r: Error)
    ensures
        r@ == rewrite_error(),
{
    Error::validation(
        "config_upgrade_failed",
        "Could not replace the schema version in the configuration",
    ).with_path(config::CONFIG_PATH).with_field("schema_version")
}

/// The text of a configuration with the second version in place of the first. See
/// [`rewritten`].
pub fn upgraded_config(source: &str, config: &Config) -> (r: Result<String, Error>)
    requires
        source@.len() < usize::MAX,
    ensures
        error::viewed(r) == rewritten(source@, config@),
{
    let mut chars = text::chars(source);
    match find_value(&chars) {
        Some(at) => {
            if chars[at] != '1' {
                return Err(cannot_rewrite());
            }
            chars.set(at, '2');
            let replaced = text::string(&chars);
            let mut expected = config.clone();
            expected.schema_version = 2;
            assert(expected@ =~= second(config@));
            match Config::parse(replaced.as_str()) {
                Ok(parsed) => if parsed.is_same(&expected) {
                    Ok(replaced)
                } else {
                    Err(cannot_rewrite())
                },
                Err(_) => Err(cannot_rewrite()),
            }
        },
        None => Err(cannot_rewrite()),
    }
}

/// An upgraded configuration is the one before with the second version, and its text differs
/// from the one before in one character.
pub proof fn upgrades_change_only_the_version(source: Seq<char>, config: ConfigModel, text: Seq<char>)
    requires
        rewritten(source, config) == Ok::<Seq<char>, ErrorModel>(text),
    ensures
        config::config_from(text, documents::toml_outcome(text)) == Ok::<ConfigModel, ErrorModel>(
            ConfigModel { schema_version: 2, ..config },
        ),
        exists|at: int|
            0 <= at < source.len() && source[at] == '1' && text == #[trigger] source.update(at, '2'),
{
    lemma_value_in_text(source, 0);
    let at = value_from(source, 0)->0;
    assert(text == source.update(at, '2'));
}

proof fn lemma_blanks(s: Seq<char>, from: int)
    requires
        0 <= from,
    ensures
        skip_blanks(s, from) >= from,
    decreases s.len() - from,
{
    if from < s.len() && (s[from] == ' ' || s[from] == '\t') {
        lemma_blanks(s, from + 1);
    }
}

proof fn lemma_value_in_text(s: Seq<char>, from: int)
    requires
        0 <= from,
    ensures
        value_from(s, from) matches Some(at) ==> 0 <= at < s.len(),
    decreases s.len() - from + 1,
{
    if from < s.len() {
        if value_in_line(s, from) is Some {
            let key = skip_blanks(s, from);
            let equals = skip_blanks(s, key + "schema_version"@.len());
            lemma_blanks(s, from);
            lemma_blanks(s, key + "schema_version"@.len());
            lemma_blanks(s, equals + 1);
        } else {
            text::lemma_find_from(s, '\n', from);
            lemma_value_in_text(s, text::find_from(s, '\n', from) + 1);
        }
    }
}

} // verus!
