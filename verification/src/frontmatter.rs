//! Markdown records: YAML front matter between `---` lines, then a body.
use vstd::prelude::*;

use crate::calendar::{self, Date, Time};
use crate::config::{Config, ConfigModel};
use crate::error::{self, Error, ErrorKind, ErrorModel};
use crate::model::{self, Project, ProjectModel, Task, TaskModel};
use crate::record_laws;
use crate::recurrence::{self, RecurrenceMode, RecurrenceRule, RuleModel};
use crate::scan;
use crate::text;
use crate::yaml::{self, YamlFault, YamlNode, YamlTree};

verus! {

/// How many bytes a record may have.
pub const MAX_RECORD_BYTES: usize = 8388608;

/// How many values the front matter of a record may have.
pub const MAX_YAML_NODES: usize = 100_000;

/// The front matter of a record, and what follows it.
#[derive(Debug, PartialEq)]
pub struct FrontMatterDocument {
    pub properties: serde_yaml_ng::Mapping,
    pub body: String,
}

/// What a record holds.
#[verifier::ext_equal]
pub struct DocumentModel {
    pub properties: Seq<(YamlTree, YamlTree)>,
    pub body: Seq<char>,
}

impl View for FrontMatterDocument {
    type V = DocumentModel;

    open spec fn view(&self) -> DocumentModel {
        DocumentModel {
            properties: yaml::mapping_entries(self.properties),
            body: self.body@,
        }
    }
}

/// The error for a record that is too large.
pub open spec fn too_large() -> ErrorModel {
    ErrorModel::validation(
        "record_too_large"@,
        "Markdown record exceeds the "@ + text::decimal(MAX_RECORD_BYTES as nat)
            + "-byte limit"@,
    )
}

fn record_too_large() -> (r: Error)
    ensures
        r@ == too_large(),
{
    Error::validation(
        "record_too_large",
        text::join3(
            "Markdown record exceeds the ",
            text::format_number(MAX_RECORD_BYTES as u64).as_str(),
            "-byte limit",
        ).as_str(),
    )
}

/// Whether a line begins with a conflict marker.
pub open spec fn conflict_marker(line: Seq<char>) -> bool {
    text::begins(line, "<<<<<<<"@) || text::begins(line, "|||||||"@) || text::begins(
        line,
        "======="@,
    ) || text::begins(line, ">>>>>>>"@)
}

/// Whether no line from the `i`-th on begins with a conflict marker, or where the first does.
pub open spec fn check_conflicts(lines: Seq<Seq<char>>, i: int) -> Result<(), ErrorModel>
    decreases lines.len() - i,
{
    if i >= lines.len() {
        Ok(())
    } else if conflict_marker(lines[i]) {
        Err(
            ErrorModel::new(
                ErrorKind::Concurrent,
                "unresolved_conflict"@,
                "Markdown record contains an unresolved conflict marker"@,
            ).with_location((i + 1) as usize, 1),
        )
    } else {
        check_conflicts(lines, i + 1)
    }
}

fn reject_conflict_markers(source: &str) -> (r: Result<(), Error>)
    ensures
        error::outcome(r) == check_conflicts(text::lines(source@), 0),
{
    let chars = text::chars(source);
    let lines = text::split_lines(&chars);
    let ghost all = text::lines(source@);
    let mut i: usize = 0;
    while i < lines.len()
        invariant
            i <= lines@.len(),
            all == text::texts(lines@),
            all == text::lines(source@),
            check_conflicts(all, 0) == check_conflicts(all, i as int),
        decreases lines.len() - i,
    {
        assert(all[i as int] == lines@[i as int]@);
        let line = &lines[i];
        if text::is_at(line, "<<<<<<<", 0) || text::is_at(line, "|||||||", 0) || text::is_at(
            line,
            "=======",
            0,
        ) || text::is_at(line, ">>>>>>>", 0) {
            return Err(
                Error::new(
                    ErrorKind::Concurrent,
                    "unresolved_conflict",
                    "Markdown record contains an unresolved conflict marker",
                ).with_location(i + 1, 1),
            );
        }
        i += 1;
    }
    Ok(())
}

/// Whether the line from `from` to its `\n` at `at` is a delimiter: `---`, perhaps with a
/// carriage return.
pub open spec fn delimiter(s: Seq<char>, from: int, at: int) -> bool {
    let line = s.subrange(from, at);
    line == seq!['-', '-', '-'] || line == seq!['-', '-', '-', '\r']
}

fn is_delimiter(s: &Vec<char>, from: usize, at: usize) -> (r: bool)
    requires
        from <= at <= s@.len(),
    ensures
        r == delimiter(s@, from as int, at as int),
{
    let line = text::cut(s, from, at);
    let dashes = line.len() >= 3 && line[0] == '-' && line[1] == '-' && line[2] == '-';
    let short = dashes && line.len() == 3;
    let long = dashes && line.len() == 4 && line[3] == '\r';
    assert(short == (line@ =~= seq!['-', '-', '-']));
    assert(long == (line@ =~= seq!['-', '-', '-', '\r']));
    short || long
}

/// Where the first delimiter line, from the line at `from` on, begins and ends.
pub open spec fn closing(s: Seq<char>, from: int) -> Option<(int, int)>
    decreases s.len() - from,
    when 0 <= from
{
    let at = text::find_from(s, '\n', from);
    if from >= s.len() || at >= s.len() || at < from {
        None
    } else if delimiter(s, from, at) {
        Some((from, at + 1))
    } else {
        closing(s, at + 1)
    }
}

/// The front matter and the body of a text.
pub open spec fn parts(source: Seq<char>) -> Result<(Seq<char>, Seq<char>), ErrorModel> {
    let opening = text::find_from(source, '\n', 0);
    if check_conflicts(text::lines(source), 0) is Err {
        Err(check_conflicts(text::lines(source), 0)->Err_0)
    } else if opening >= source.len() {
        Err(
            ErrorModel::validation(
                "missing_frontmatter"@,
                "Markdown record must begin with a front-matter delimiter"@,
            ),
        )
    } else if !delimiter(source, 0, opening) {
        Err(
            ErrorModel::validation(
                "missing_frontmatter"@,
                "Front matter must begin with '---' at byte zero"@,
            ),
        )
    } else {
        match closing(source, opening + 1) {
            None => Err(
                ErrorModel::validation(
                    "missing_frontmatter_delimiter"@,
                    "Front matter requires a closing '---' line terminated by a newline"@,
                ),
            ),
            Some((start, end)) => Ok(
                (
                    source.subrange(opening + 1, start),
                    source.subrange(end, source.len() as int),
                ),
            ),
        }
    }
}

/// What a closing delimiter's place can be.
proof fn lemma_closing(s: Seq<char>, from: int)
    requires
        0 <= from <= s.len(),
    ensures
        closing(s, from) matches Some((start, end)) ==> from <= start < end <= s.len(),
    decreases s.len() - from,
{
    text::lemma_find_from(s, '\n', from);
    let at = text::find_from(s, '\n', from);
    if at < s.len() && !delimiter(s, from, at) {
        lemma_closing(s, at + 1);
    }
}

/// The result of taking a text apart, as values.
spec fn parts_outcome(r: Result<(String, String), Error>) -> Result<
    (Seq<char>, Seq<char>),
    ErrorModel,
> {
    match r {
        Ok((a, b)) => Ok((a@, b@)),
        Err(e) => Err(e@),
    }
}

fn take_apart(source: &str) -> (r: Result<(String, String), Error>)
    ensures
        parts_outcome(r) == parts(source@),
{
    if let Err(e) = reject_conflict_markers(source) {
        return Err(e);
    }
    let s = text::chars(source);
    let opening: usize = text::find_char(&s, '\n', 0);
    if opening >= s.len() {
        return Err(
            Error::validation(
                "missing_frontmatter",
                "Markdown record must begin with a front-matter delimiter",
            ),
        );
    }
    if !is_delimiter(&s, 0, opening) {
        return Err(
            Error::validation(
                "missing_frontmatter",
                "Front matter must begin with '---' at byte zero",
            ),
        );
    }
    let mut from: usize = opening + 1;
    while from < s.len()
        invariant
            opening < from <= s@.len(),
            s@ == source@,
            opening == text::find_from(source@, '\n', 0),
            check_conflicts(text::lines(source@), 0) is Ok,
            opening < source@.len(),
            delimiter(source@, 0, opening as int),
            closing(source@, opening + 1) == closing(source@, from as int),
        decreases s.len() - from,
    {
        let at: usize = text::find_char(&s, '\n', from);
        proof {
            text::lemma_find_from(source@, '\n', from as int);
            lemma_closing(source@, from as int);
        }
        if at >= s.len() {
            return Err(
                Error::validation(
                    "missing_frontmatter_delimiter",
                    "Front matter requires a closing '---' line terminated by a newline",
                ),
            );
        }
        if is_delimiter(&s, from, at) {
            let yaml = text::string(&text::cut(&s, opening + 1, from));
            let body = text::string(&text::cut(&s, at + 1, s.len()));
            return Ok((yaml, body));
        }
        from = at + 1;
    }
    Err(
        Error::validation(
            "missing_frontmatter_delimiter",
            "Front matter requires a closing '---' line terminated by a newline",
        ),
    )
}

/// Count one more value at the given depth.
pub open spec fn count_node(depth: int, nodes: nat) -> Result<nat, ErrorModel> {
    if nodes + 1 > MAX_YAML_NODES {
        Err(
            ErrorModel::validation(
                "yaml_too_complex"@,
                "YAML front matter contains too many values"@,
            ),
        )
    } else if depth > scan::MAX_YAML_DEPTH {
        Err(scan::too_deep())
    } else {
        Ok(nodes + 1)
    }
}

/// How many values there are with the given one, where it and all below it can be kept: there
/// are not too many, none nests too deep, no number is infinite, nothing is tagged, and all
/// keys are texts other than `<<`.
pub open spec fn check_value(tree: YamlTree, depth: int, nodes: nat) -> Result<nat, ErrorModel>
    decreases tree, 0int,
{
    match count_node(depth, nodes) {
        Err(e) => Err(e),
        Ok(nodes) => match tree {
            YamlTree::Tagged(_, _) => Err(
                ErrorModel::validation(
                    "unsafe_yaml_construct"@,
                    "YAML custom tags are not supported"@,
                ),
            ),
            YamlTree::List(items) => check_items(items, 0, depth, nodes),
            YamlTree::Table(entries) => check_entries(entries, 0, depth, nodes),
            YamlTree::Number(_, finite) => if finite {
                Ok(nodes)
            } else {
                Err(
                    ErrorModel::validation(
                        "invalid_yaml_number"@,
                        "YAML numbers must have a finite JSON representation"@,
                    ),
                )
            },
            _ => Ok(nodes),
        },
    }
}

/// How many values there are with the items from the `i`-th on.
pub open spec fn check_items(items: Seq<YamlTree>, i: int, depth: int, nodes: nat) -> Result<
    nat,
    ErrorModel,
>
    decreases items, items.len() - i,
    when 0 <= i
{
    if i >= items.len() {
        Ok(nodes)
    } else {
        match check_value(items[i], depth + 1, nodes) {
            Err(e) => Err(e),
            Ok(nodes) => check_items(items, i + 1, depth, nodes),
        }
    }
}

/// How many values there are with the entries from the `i`-th on.
pub open spec fn check_entries(
    entries: Seq<(YamlTree, YamlTree)>,
    i: int,
    depth: int,
    nodes: nat,
) -> Result<nat, ErrorModel>
    decreases entries, entries.len() - i,
    when 0 <= i
{
    if i >= entries.len() {
        Ok(nodes)
    } else {
        match entries[i].0 {
            YamlTree::Text(key) => if key == "<<"@ {
                Err(
                    ErrorModel::validation(
                        "unsafe_yaml_construct"@,
                        "YAML merge keys are not supported"@,
                    ),
                )
            } else {
                match check_value(entries[i].1, depth + 1, nodes) {
                    Err(e) => Err(e),
                    Ok(nodes) => check_entries(entries, i + 1, depth, nodes),
                }
            },
            _ => Err(
                ErrorModel::validation(
                    "unsupported_yaml_key"@,
                    "YAML mapping keys must be strings"@,
                ),
            ),
        }
    }
}

/// Whether the entries of a mapping can be kept.
pub open spec fn check_mapping(entries: Seq<(YamlTree, YamlTree)>) -> Result<nat, ErrorModel> {
    match count_node(0, 0) {
        Err(e) => Err(e),
        Ok(nodes) => check_entries(entries, 0, 0, nodes),
    }
}

/// The result of counting, as values.
spec fn count_outcome(r: Result<usize, Error>) -> Result<nat, ErrorModel> {
    match r {
        Ok(n) => Ok(n as nat),
        Err(e) => Err(e@),
    }
}

fn count_yaml_node(depth: usize, nodes: usize) -> (r: Result<usize, Error>)
    ensures
        count_outcome(r) == count_node(depth as int, nodes as nat),
        r is Ok ==> depth <= scan::MAX_YAML_DEPTH,
{
    if nodes >= MAX_YAML_NODES {
        return Err(
            Error::validation("yaml_too_complex", "YAML front matter contains too many values"),
        );
    }
    if depth > scan::MAX_YAML_DEPTH {
        return Err(
            Error::validation(
                "yaml_too_deep",
                "YAML front matter exceeds the supported nesting depth",
            ),
        );
    }
    Ok(nodes + 1)
}

fn validate_yaml_value(value: &serde_yaml_ng::Value, depth: usize, nodes: usize) -> (r: Result<
    usize,
    Error,
>)
    ensures
        count_outcome(r) == check_value(yaml::yaml_tree(*value), depth as int, nodes as nat),
    decreases yaml::yaml_tree(*value), 0int,
{
    let first: usize = match count_yaml_node(depth, nodes) {
        Ok(first) => first,
        Err(e) => {
            return Err(e);
        },
    };
    match yaml::open(value) {
        YamlNode::Tagged(_, _) => Err(
            Error::validation("unsafe_yaml_construct", "YAML custom tags are not supported"),
        ),
        YamlNode::List(values) => {
            let ghost items = yaml::value_trees(values@);
            assert(yaml::yaml_tree(*value) == YamlTree::List(items));
            let mut counted: usize = first;
            let mut i: usize = 0;
            while i < values.len()
                invariant
                    i <= values@.len(),
                    items == yaml::value_trees(values@),
                    yaml::yaml_tree(*value) == YamlTree::List(items),
                    depth <= scan::MAX_YAML_DEPTH,
                    count_node(depth as int, nodes as nat) == Ok::<nat, ErrorModel>(first as nat),
                    check_items(items, 0, depth as int, first as nat) == check_items(
                        items,
                        i as int,
                        depth as int,
                        counted as nat,
                    ),
                decreases values.len() - i,
            {
                assert(items[i as int] == yaml::yaml_tree(*values@[i as int]));
                match validate_yaml_value(values[i], depth + 1, counted) {
                    Ok(next) => {
                        counted = next;
                    },
                    Err(e) => {
                        return Err(e);
                    },
                }
                i += 1;
            }
            Ok(counted)
        },
        YamlNode::Table(entries) => {
            assert(yaml::yaml_tree(*value) == YamlTree::Table(yaml::mapping_entries(*entries)));
            validate_yaml_mapping_entries(entries, depth, first)
        },
        YamlNode::Number(_, finite) => if finite {
            Ok(first)
        } else {
            Err(
                Error::validation(
                    "invalid_yaml_number",
                    "YAML numbers must have a finite JSON representation",
                ),
            )
        },
        _ => Ok(first),
    }
}

fn validate_yaml_mapping_entries(
    values: &serde_yaml_ng::Mapping,
    depth: usize,
    nodes: usize,
) -> (r: Result<usize, Error>)
    requires
        depth <= scan::MAX_YAML_DEPTH,
    ensures
        count_outcome(r) == check_entries(
            yaml::mapping_entries(*values),
            0,
            depth as int,
            nodes as nat,
        ),
    decreases yaml::mapping_entries(*values), yaml::mapping_entries(*values).len() + 1,
{
    let pairs = yaml::entries(values);
    let ghost entries = yaml::mapping_entries(*values);
    let mut counted: usize = nodes;
    let mut i: usize = 0;
    while i < pairs.len()
        invariant
            i <= pairs@.len(),
            entries == yaml::pair_trees(pairs@),
            entries == yaml::mapping_entries(*values),
            depth <= scan::MAX_YAML_DEPTH,
            check_entries(entries, 0, depth as int, nodes as nat) == check_entries(
                entries,
                i as int,
                depth as int,
                counted as nat,
            ),
        decreases pairs.len() - i,
    {
        let (key, value) = pairs[i];
        assert(entries[i as int] == (yaml::yaml_tree(*key), yaml::yaml_tree(*value)));
        match yaml::open(key) {
            YamlNode::Text(key) => {
                if text::same(key, "<<") {
                    return Err(
                        Error::validation(
                            "unsafe_yaml_construct",
                            "YAML merge keys are not supported",
                        ),
                    );
                }
            },
            _ => {
                return Err(
                    Error::validation(
                        "unsupported_yaml_key",
                        "YAML mapping keys must be strings",
                    ),
                );
            },
        }
        match validate_yaml_value(value, depth + 1, counted) {
            Ok(next) => {
                counted = next;
            },
            Err(e) => {
                return Err(e);
            },
        }
        i += 1;
    }
    Ok(counted)
}

fn validate_yaml_mapping(values: &serde_yaml_ng::Mapping) -> (r: Result<usize, Error>)
    ensures
        count_outcome(r) == check_mapping(yaml::mapping_entries(*values)),
{
    match count_yaml_node(0, 0) {
        Ok(nodes) => validate_yaml_mapping_entries(values, 0, nodes),
        Err(e) => Err(e),
    }
}

/// Whether every line is blank or a comment.
pub open spec fn only_comments(lines: Seq<Seq<char>>) -> bool {
    forall|i: int|
        0 <= i < lines.len() ==> text::blank(#[trigger] lines[i]) || scan::is_comment(lines[i])
}

fn has_only_comments(source: &str) -> (r: bool)
    ensures
        r == only_comments(text::lines(source@)),
{
    let chars = text::chars(source);
    let lines = text::split_lines(&chars);
    let ghost all = text::lines(source@);
    let mut i: usize = 0;
    while i < lines.len()
        invariant
            i <= lines@.len(),
            all == text::texts(lines@),
            all == text::lines(source@),
            forall|k: int|
                0 <= k < i ==> text::blank(#[trigger] all[k]) || scan::is_comment(all[k]),
        decreases lines.len() - i,
    {
        assert(all[i as int] == lines@[i as int]@);
        let rest = text::trimmed_start(&lines[i]);
        let comment = rest.len() > 0 && rest[0] == '#';
        if !text::is_blank(&lines[i]) && !comment {
            return false;
        }
        i += 1;
    }
    true
}

/// The error for front matter that is no YAML.
pub open spec fn yaml_error(message: Seq<char>, place: Option<(usize, usize)>) -> ErrorModel {
    let error = ErrorModel::validation(
        if text::within(message, "duplicate entry"@) {
            "duplicate_yaml_key"@
        } else {
            "invalid_yaml_syntax"@
        },
        "Invalid YAML front matter: "@ + message,
    );
    match place {
        Some((line, column)) => error.with_location(
            if line < usize::MAX {
                (line + 1) as usize
            } else {
                line
            },
            column,
        ),
        None => error,
    }
}

/// The record that the outcome of parsing its front matter amounts to. Front matter of
/// comments alone is empty.
pub open spec fn document_from(
    yaml: Seq<char>,
    body: Seq<char>,
    outcome: Result<YamlTree, (Seq<char>, Option<(usize, usize)>)>,
) -> Result<DocumentModel, ErrorModel> {
    match outcome {
        Err((message, place)) => Err(yaml_error(message, place)),
        Ok(tree) => {
            let properties = match tree {
                YamlTree::Table(entries) => Some(entries),
                YamlTree::Null => if only_comments(text::lines(yaml)) {
                    Some(seq![])
                } else {
                    None
                },
                _ => None,
            };
            match properties {
                None => Err(
                    ErrorModel::validation(
                        "invalid_frontmatter_type"@,
                        "YAML front matter must be a property mapping"@,
                    ).with_location(2, 1),
                ),
                Some(properties) => match check_mapping(properties) {
                    Err(e) => Err(e),
                    Ok(_) => Ok(DocumentModel { properties, body }),
                },
            }
        },
    }
}

/// The record that a text holds.
pub open spec fn document(source: Seq<char>) -> Result<DocumentModel, ErrorModel> {
    match parts(source) {
        Err(e) => Err(e),
        Ok((yaml, body)) => match scan::scan(yaml) {
            Err(e) => Err(e),
            Ok(_) => document_from(yaml, body, yaml::yaml_outcome(yaml)),
        },
    }
}

/// The record that bytes hold.
pub open spec fn document_of(bytes: Seq<u8>) -> Result<DocumentModel, ErrorModel> {
    if bytes.len() > MAX_RECORD_BYTES {
        Err(too_large())
    } else if bytes.len() >= 3 && bytes[0] == 0xEF && bytes[1] == 0xBB && bytes[2] == 0xBF {
        Err(
            ErrorModel::validation(
                "utf8_bom_not_allowed"@,
                "Front matter must begin at the first byte; a UTF-8 BOM is not allowed"@,
            ),
        )
    } else if !vstd::utf8::valid_utf8(bytes) {
        Err(
            ErrorModel::validation(
                "invalid_utf8"@,
                "Markdown records must be UTF-8: "@ + text::utf8_fault(bytes),
            ),
        )
    } else {
        document(vstd::utf8::decode_utf8(bytes))
    }
}

impl FrontMatterDocument {
    /// The record that the outcome of parsing its front matter amounts to.
    pub fn from_yaml(
        yaml: &str,
        body: String,
        outcome: Result<serde_yaml_ng::Value, YamlFault>,
    ) -> (r: Result<Self, Error>)
        ensures
            error::viewed(r) == document_from(yaml@, body@, yaml::document_outcome(outcome)),
    {
        let value = match outcome {
            Ok(value) => value,
            Err(fault) => {
                let message = text::chars(fault.message.as_str());
                let code = if text::is_within(&message, "duplicate entry") {
                    "duplicate_yaml_key"
                } else {
                    "invalid_yaml_syntax"
                };
                let error = Error::validation(
                    code,
                    text::join2("Invalid YAML front matter: ", fault.message.as_str()).as_str(),
                );
                return Err(
                    match fault.place {
                        Some((line, column)) => {
                            let next: usize = if line < usize::MAX {
                                line + 1
                            } else {
                                line
                            };
                            error.with_location(next, column)
                        },
                        None => error,
                    },
                );
            },
        };
        let empty = match yaml::open(&value) {
            YamlNode::Null => has_only_comments(yaml),
            _ => false,
        };
        let properties = if empty {
            yaml::new_mapping()
        } else {
            match yaml::into_mapping(value) {
                Some(mapping) => mapping,
                None => {
                    return Err(
                        Error::validation(
                            "invalid_frontmatter_type",
                            "YAML front matter must be a property mapping",
                        ).with_location(2, 1),
                    );
                },
            }
        };
        match validate_yaml_mapping(&properties) {
            Ok(_) => Ok(FrontMatterDocument { properties, body }),
            Err(e) => Err(e),
        }
    }
}

/// Whether the front matter of a record is read as properties where it is written so.
pub(crate) open spec fn reads_as_written(bytes: Seq<u8>) -> bool {
    bytes.len() <= MAX_RECORD_BYTES && bytes[0] != 0xEF && vstd::utf8::valid_utf8(bytes) ==> match parts(
        vstd::utf8::decode_utf8(bytes),
    ) {
        Ok((yaml, _)) => scan::scan(yaml) is Ok ==> yaml::reads_properties(
            yaml::yaml_outcome(yaml),
            yaml,
        ),
        Err(_) => true,
    }
}

/// The record that bytes hold.
pub fn parse_document(bytes: &[u8]) -> (r: Result<FrontMatterDocument, Error>)
    ensures
        error::viewed(r) == document_of(bytes@),
        record_laws::holds_properties(bytes@, error::viewed(r)),
{
    proof {
        record_laws::lemma_documents(bytes@);
    }
    read_document(bytes)
}

fn read_document(bytes: &[u8]) -> (r: Result<FrontMatterDocument, Error>)
    ensures
        error::viewed(r) == document_of(bytes@),
        reads_as_written(bytes@),
{
    if bytes.len() > MAX_RECORD_BYTES {
        return Err(record_too_large());
    }
    if bytes.len() >= 3 && bytes[0] == 0xEF && bytes[1] == 0xBB && bytes[2] == 0xBF {
        return Err(
            Error::validation(
                "utf8_bom_not_allowed",
                "Front matter must begin at the first byte; a UTF-8 BOM is not allowed",
            ),
        );
    }
    let source = match text::decode(bytes) {
        Ok(source) => source,
        Err(message) => {
            return Err(
                Error::validation(
                    "invalid_utf8",
                    text::join2("Markdown records must be UTF-8: ", message.as_str()).as_str(),
                ),
            );
        },
    };
    proof {
        text::lemma_decoded_fits(bytes@);
    }
    let (yaml, body) = match take_apart(source) {
        Ok(parts) => parts,
        Err(e) => {
            return Err(e);
        },
    };
    proof {
        lemma_parts_fit(source@);
    }
    if let Err(e) = scan::reject_unsafe_yaml_tokens(yaml.as_str()) {
        return Err(e);
    }
    let outcome = yaml::read(yaml.as_str());
    FrontMatterDocument::from_yaml(yaml.as_str(), body, outcome)
}

/// The parts of a text are no longer than the text.
proof fn lemma_parts_fit(source: Seq<char>)
    ensures
        parts(source) matches Ok((yaml, body)) ==> yaml.len() <= source.len() && body.len()
            <= source.len(),
{
    let opening = text::find_from(source, '\n', 0);
    text::lemma_find_from(source, '\n', 0);
    if opening < source.len() {
        lemma_closing(source, opening + 1);
    }
}

/// The error for a required property that is not there.
pub open spec fn missing_property(key: Seq<char>) -> ErrorModel {
    ErrorModel::validation(
        "missing_property"@,
        "Required property "@ + text::debug_text(key) + " is missing"@,
    ).with_field(key)
}

/// The error for a property of another type.
pub open spec fn property_type(message: Seq<char>, key: Seq<char>) -> ErrorModel {
    ErrorModel::validation("invalid_property_type"@, message).with_field(key)
}

/// The text that a property's value is.
pub open spec fn tree_text(tree: YamlTree, key: Seq<char>) -> Result<Seq<char>, ErrorModel> {
    match tree {
        YamlTree::Text(s) => Ok(s),
        _ => Err(
            property_type("Property "@ + text::debug_text(key) + " must be a string"@, key),
        ),
    }
}

/// The text of a required property.
pub open spec fn required_text(entries: Seq<(YamlTree, YamlTree)>, key: Seq<char>) -> Result<
    Seq<char>,
    ErrorModel,
> {
    match yaml::value_at(entries, key) {
        None => Err(missing_property(key)),
        Some(tree) => tree_text(tree, key),
    }
}

/// The texts that the items from the `i`-th on are, after those found.
pub open spec fn item_texts(
    items: Seq<YamlTree>,
    i: int,
    found: Seq<Seq<char>>,
    key: Seq<char>,
) -> Result<Seq<Seq<char>>, ErrorModel>
    decreases items.len() - i,
{
    if i >= items.len() {
        Ok(found)
    } else {
        match items[i] {
            YamlTree::Text(s) => item_texts(items, i + 1, found.push(s), key),
            _ => Err(
                property_type(
                    "Every item in "@ + text::debug_text(key) + " must be a string"@,
                    key,
                ),
            ),
        }
    }
}

/// The texts of a required list property.
pub open spec fn required_list(entries: Seq<(YamlTree, YamlTree)>, key: Seq<char>) -> Result<
    Seq<Seq<char>>,
    ErrorModel,
> {
    match yaml::value_at(entries, key) {
        None => Err(missing_property(key)),
        Some(YamlTree::List(items)) => item_texts(items, 0, seq![], key),
        Some(_) => Err(
            property_type("Property "@ + text::debug_text(key) + " must be a list"@, key),
        ),
    }
}

fn missing(key: &str) -> (r: Error)
    ensures
        r@ == missing_property(key@),
{
    Error::validation(
        "missing_property",
        text::join3("Required property ", text::debug(key).as_str(), " is missing").as_str(),
    ).with_field(key)
}

fn wrong_type(before: &str, after: &str, key: &str) -> (r: Error)
    ensures
        r@ == property_type(before@ + text::debug_text(key@) + after@, key@),
{
    Error::validation(
        "invalid_property_type",
        text::join3(before, text::debug(key).as_str(), after).as_str(),
    ).with_field(key)
}

fn value_as_string(value: &serde_yaml_ng::Value, key: &str) -> (r: Result<String, Error>)
    ensures
        error::viewed(r) == tree_text(yaml::yaml_tree(*value), key@),
{
    match yaml::open(value) {
        YamlNode::Text(s) => Ok(s.to_owned()),
        _ => Err(wrong_type("Property ", " must be a string", key)),
    }
}

fn take_required_string(properties: &mut serde_yaml_ng::Mapping, key: &str) -> (r: Result<
    String,
    Error,
>)
    ensures
        error::viewed(r) == required_text(yaml::mapping_entries(*old(properties)), key@),
        yaml::mapping_entries(*final(properties)) == yaml::without(
            yaml::mapping_entries(*old(properties)),
            key@,
        ),
{
    match yaml::shift_remove(properties, key) {
        Some(value) => value_as_string(&value, key),
        None => Err(missing(key)),
    }
}

/// The result of reading texts, as values.
pub open spec fn texts_outcome(r: Result<Vec<String>, Error>) -> Result<
    Seq<Seq<char>>,
    ErrorModel,
> {
    match r {
        Ok(v) => Ok(text::strings(v@)),
        Err(e) => Err(e@),
    }
}

fn value_as_list(value: &serde_yaml_ng::Value, key: &str) -> (r: Result<Vec<String>, Error>)
    ensures
        texts_outcome(r) == (match yaml::yaml_tree(*value) {
            YamlTree::List(items) => item_texts(items, 0, seq![], key@),
            _ => Err(
                property_type("Property "@ + text::debug_text(key@) + " must be a list"@, key@),
            ),
        }),
{
    let values = match yaml::open(value) {
        YamlNode::List(values) => values,
        _ => {
            return Err(wrong_type("Property ", " must be a list", key));
        },
    };
    let ghost items = yaml::value_trees(values@);
    let mut found: Vec<String> = Vec::new();
    assert(text::strings(found@) =~= Seq::<Seq<char>>::empty());
    let mut i: usize = 0;
    while i < values.len()
        invariant
            i <= values@.len(),
            items == yaml::value_trees(values@),
            yaml::yaml_tree(*value) == YamlTree::List(items),
            item_texts(items, 0, seq![], key@) == item_texts(
                items,
                i as int,
                text::strings(found@),
                key@,
            ),
        decreases values.len() - i,
    {
        assert(items[i as int] == yaml::yaml_tree(*values@[i as int]));
        match yaml::open(values[i]) {
            YamlNode::Text(s) => {
                let ghost before = text::strings(found@);
                found.push(s.to_owned());
                assert(text::strings(found@) =~= before.push(s@));
            },
            _ => {
                return Err(wrong_type("Every item in ", " must be a string", key));
            },
        }
        i += 1;
    }
    Ok(found)
}

fn take_required_string_list(properties: &mut serde_yaml_ng::Mapping, key: &str) -> (r: Result<
    Vec<String>,
    Error,
>)
    ensures
        texts_outcome(r) == required_list(yaml::mapping_entries(*old(properties)), key@),
        yaml::mapping_entries(*final(properties)) == yaml::without(
            yaml::mapping_entries(*old(properties)),
            key@,
        ),
{
    match yaml::shift_remove(properties, key) {
        Some(value) => value_as_list(&value, key),
        None => Err(missing(key)),
    }
}

/// The parent that a property names, in capitals.
pub open spec fn parent_property(entries: Seq<(YamlTree, YamlTree)>) -> Result<
    Option<Seq<char>>,
    ErrorModel,
> {
    match yaml::value_at(entries, "parent"@) {
        None => Ok(None),
        Some(YamlTree::Text(s)) => match model::parent_id(s) {
            Ok(id) => Ok(Some(id)),
            Err(e) => Err(e),
        },
        Some(_) => Err(
            ErrorModel::validation(
                "invalid_parent_id"@,
                "Parent must be a string containing a full valid ULID"@,
            ).with_field("parent"@),
        ),
    }
}

/// The result of reading an optional text, as values.
pub open spec fn opt_outcome(r: Result<Option<String>, Error>) -> Result<
    Option<Seq<char>>,
    ErrorModel,
> {
    match r {
        Ok(s) => Ok(text::opt(s)),
        Err(e) => Err(e@),
    }
}

pub(crate) fn parent_from_properties(properties: &serde_yaml_ng::Mapping) -> (r: Result<
    Option<String>,
    Error,
>)
    ensures
        opt_outcome(r) == parent_property(yaml::mapping_entries(*properties)),
{
    match yaml::get(properties, "parent") {
        None => Ok(None),
        Some(value) => match yaml::open(value) {
            YamlNode::Text(s) => match model::normalize_parent_id(s) {
                Ok(id) => Ok(Some(id)),
                Err(e) => Err(e),
            },
            _ => Err(
                Error::validation(
                    "invalid_parent_id",
                    "Parent must be a string containing a full valid ULID",
                ).with_field("parent"),
            ),
        },
    }
}

/// The text of an optional property.
pub open spec fn optional_text(entries: Seq<(YamlTree, YamlTree)>, key: Seq<char>) -> Result<
    Option<Seq<char>>,
    ErrorModel,
> {
    match yaml::value_at(entries, key) {
        None => Ok(None),
        Some(tree) => match tree_text(tree, key) {
            Ok(s) => Ok(Some(s)),
            Err(e) => Err(e),
        },
    }
}

/// The date of an optional property.
pub open spec fn optional_date(entries: Seq<(YamlTree, YamlTree)>, key: Seq<char>) -> Result<
    Option<Date>,
    ErrorModel,
> {
    match yaml::value_at(entries, key) {
        None => Ok(None),
        Some(tree) => match model::yaml_date(tree, key) {
            Ok(date) => Ok(Some(date)),
            Err(e) => Err(e),
        },
    }
}

/// The due date, which may be omitted or null.
pub open spec fn due_property(entries: Seq<(YamlTree, YamlTree)>) -> Result<
    Option<Date>,
    ErrorModel,
> {
    if yaml::value_at(entries, "due_date"@) == Some(YamlTree::Null) {
        Ok(None)
    } else {
        optional_date(entries, "due_date"@)
    }
}

/// The time that an optional text writes.
pub open spec fn optional_time(value: Option<Seq<char>>) -> Result<Option<Time>, ErrorModel> {
    match value {
        None => Ok(None),
        Some(s) => match model::read_time(s) {
            Ok(time) => Ok(Some(time)),
            Err(e) => Err(e),
        },
    }
}

/// The rule that an optional text writes.
pub open spec fn optional_rule(value: Option<Seq<char>>) -> Result<Option<RuleModel>, ErrorModel> {
    match value {
        None => Ok(None),
        Some(s) => match recurrence::parse_rule(s) {
            Ok(rule) => Ok(Some(rule)),
            Err(e) => Err(e),
        },
    }
}

/// The mode that an optional text names.
pub open spec fn optional_mode(value: Option<Seq<char>>) -> Result<
    Option<RecurrenceMode>,
    ErrorModel,
> {
    match value {
        None => Ok(None),
        Some(s) => match recurrence::parse_mode(s) {
            Ok(mode) => Ok(Some(mode)),
            Err(e) => Err(e),
        },
    }
}

fn take_optional_string(properties: &mut serde_yaml_ng::Mapping, key: &str) -> (r: Result<
    Option<String>,
    Error,
>)
    ensures
        opt_outcome(r) == optional_text(yaml::mapping_entries(*old(properties)), key@),
        yaml::mapping_entries(*final(properties)) == yaml::without(
            yaml::mapping_entries(*old(properties)),
            key@,
        ),
{
    match yaml::shift_remove(properties, key) {
        None => Ok(None),
        Some(value) => match value_as_string(&value, key) {
            Ok(s) => Ok(Some(s)),
            Err(e) => Err(e),
        },
    }
}

fn take_optional_date(properties: &mut serde_yaml_ng::Mapping, key: &str) -> (r: Result<
    Option<Date>,
    Error,
>)
    ensures
        error::outcome(r) == optional_date(yaml::mapping_entries(*old(properties)), key@),
        yaml::mapping_entries(*final(properties)) == yaml::without(
            yaml::mapping_entries(*old(properties)),
            key@,
        ),
{
    match yaml::shift_remove(properties, key) {
        None => Ok(None),
        Some(value) => match model::date_from_yaml(&value, key) {
            Ok(date) => Ok(Some(date)),
            Err(e) => Err(e),
        },
    }
}

fn take_due_date(properties: &mut serde_yaml_ng::Mapping) -> (r: Result<Option<Date>, Error>)
    ensures
        error::outcome(r) == due_property(yaml::mapping_entries(*old(properties))),
        yaml::mapping_entries(*final(properties)) == yaml::without(
            yaml::mapping_entries(*old(properties)),
            "due_date"@,
        ),
{
    match yaml::shift_remove(properties, "due_date") {
        None => Ok(None),
        Some(value) => match yaml::open(&value) {
            YamlNode::Null => Ok(None),
            _ => match model::date_from_yaml(&value, "due_date") {
                Ok(date) => Ok(Some(date)),
                Err(e) => Err(e),
            },
        },
    }
}

/// The optional properties of a task.
#[verifier::ext_equal]
pub struct Options {
    pub parent: Option<Seq<char>>,
    pub url: Option<Seq<char>>,
    pub due_date: Option<Date>,
    pub due_time: Option<Time>,
    pub recurrence: Option<RuleModel>,
    pub recurrence_from: Option<RecurrenceMode>,
    pub last_completed_date: Option<Date>,
    pub rest: Seq<(YamlTree, YamlTree)>,
}

/// The parent, with the entries left. In version 1 a parent is like any other property.
pub open spec fn read_parent(entries: Seq<(YamlTree, YamlTree)>, version: u32) -> Result<
    (Option<Seq<char>>, Seq<(YamlTree, YamlTree)>),
    ErrorModel,
> {
    if version == 2 {
        match parent_property(entries) {
            Ok(parent) => Ok((parent, yaml::without(entries, "parent"@))),
            Err(e) => Err(e),
        }
    } else {
        Ok((None, entries))
    }
}

/// The recurrence, its mode and the last completion, after the other optional properties.
pub open spec fn read_recurrence(
    parent: Option<Seq<char>>,
    url: Option<Seq<char>>,
    due_date: Option<Date>,
    due_time: Option<Time>,
    entries: Seq<(YamlTree, YamlTree)>,
) -> Result<Options, ErrorModel> {
    let e1 = yaml::without(entries, "recurrence"@);
    let e2 = yaml::without(e1, "recurrence_from"@);
    match optional_text(entries, "recurrence"@) {
        Err(e) => Err(e),
        Ok(rule) => match optional_rule(rule) {
            Err(e) => Err(e),
            Ok(recurrence) => match optional_text(e1, "recurrence_from"@) {
                Err(e) => Err(e),
                Ok(mode) => match optional_mode(mode) {
                    Err(e) => Err(e),
                    Ok(recurrence_from) => match optional_date(e2, "last_completed_date"@) {
                        Err(e) => Err(e),
                        Ok(last_completed_date) => Ok(
                            Options {
                                parent,
                                url,
                                due_date,
                                due_time,
                                recurrence,
                                recurrence_from,
                                last_completed_date,
                                rest: yaml::without(e2, "last_completed_date"@),
                            },
                        ),
                    },
                },
            },
        },
    }
}

/// The optional properties, with the entries left.
pub open spec fn read_options(entries: Seq<(YamlTree, YamlTree)>, version: u32) -> Result<
    Options,
    ErrorModel,
> {
    match read_parent(entries, version) {
        Err(e) => Err(e),
        Ok((parent, e0)) => {
            let e1 = yaml::without(e0, "url"@);
            let e2 = yaml::without(e1, "due_date"@);
            match optional_text(e0, "url"@) {
                Err(e) => Err(e),
                Ok(url) => match due_property(e1) {
                    Err(e) => Err(e),
                    Ok(due_date) => match optional_text(e2, "due_time"@) {
                        Err(e) => Err(e),
                        Ok(time) => match optional_time(time) {
                            Err(e) => Err(e),
                            Ok(due_time) => read_recurrence(
                                parent,
                                url,
                                due_date,
                                due_time,
                                yaml::without(e2, "due_time"@),
                            ),
                        },
                    },
                },
            }
        },
    }
}

/// The optional properties of a task, in code.
struct TakenOptions {
    parent: Option<String>,
    url: Option<String>,
    due_date: Option<Date>,
    due_time: Option<Time>,
    recurrence: Option<RecurrenceRule>,
    recurrence_from: Option<RecurrenceMode>,
    last_completed_date: Option<Date>,
    rest: serde_yaml_ng::Mapping,
}

impl View for TakenOptions {
    type V = Options;

    closed spec fn view(&self) -> Options {
        Options {
            parent: text::opt(self.parent),
            url: text::opt(self.url),
            due_date: self.due_date,
            due_time: self.due_time,
            recurrence: model::opt_rule(self.recurrence),
            recurrence_from: self.recurrence_from,
            last_completed_date: self.last_completed_date,
            rest: yaml::mapping_entries(self.rest),
        }
    }
}

fn take_recurrence(
    parent: Option<String>,
    url: Option<String>,
    due_date: Option<Date>,
    due_time: Option<Time>,
    entries: serde_yaml_ng::Mapping,
) -> (r: Result<TakenOptions, Error>)
    ensures
        error::viewed(r) == read_recurrence(
            text::opt(parent),
            text::opt(url),
            due_date,
            due_time,
            yaml::mapping_entries(entries),
        ),
{
    let mut properties = entries;
    let recurrence = match take_optional_string(&mut properties, "recurrence") {
        Err(e) => {
            return Err(e);
        },
        Ok(None) => None,
        Ok(Some(s)) => match RecurrenceRule::parse(s.as_str()) {
            Ok(rule) => Some(rule),
            Err(e) => {
                return Err(e);
            },
        },
    };
    let recurrence_from = match take_optional_string(&mut properties, "recurrence_from") {
        Err(e) => {
            return Err(e);
        },
        Ok(None) => None,
        Ok(Some(s)) => match RecurrenceMode::parse(s.as_str()) {
            Ok(mode) => Some(mode),
            Err(e) => {
                return Err(e);
            },
        },
    };
    let last_completed_date = match take_optional_date(&mut properties, "last_completed_date") {
        Err(e) => {
            return Err(e);
        },
        Ok(date) => date,
    };
    Ok(
        TakenOptions {
            parent,
            url,
            due_date,
            due_time,
            recurrence,
            recurrence_from,
            last_completed_date,
            rest: properties,
        },
    )
}

fn take_options(entries: serde_yaml_ng::Mapping, version: u32) -> (r: Result<
    TakenOptions,
    Error,
>)
    ensures
        error::viewed(r) == read_options(yaml::mapping_entries(entries), version),
{
    let mut properties = entries;
    let parent = if version == 2 {
        match parent_from_properties(&properties) {
            Ok(parent) => {
                let _ = yaml::shift_remove(&mut properties, "parent");
                parent
            },
            Err(e) => {
                return Err(e);
            },
        }
    } else {
        None
    };
    let url = match take_optional_string(&mut properties, "url") {
        Ok(url) => url,
        Err(e) => {
            return Err(e);
        },
    };
    let due_date = match take_due_date(&mut properties) {
        Ok(date) => date,
        Err(e) => {
            return Err(e);
        },
    };
    let due_time = match take_optional_string(&mut properties, "due_time") {
        Err(e) => {
            return Err(e);
        },
        Ok(None) => None,
        Ok(Some(s)) => match model::parse_time(s.as_str()) {
            Ok(time) => Some(time),
            Err(e) => {
                return Err(e);
            },
        },
    };
    take_recurrence(parent, url, due_date, due_time, properties)
}

/// The error for a link that is no link to a project.
pub open spec fn link_error(value: Seq<char>, config: ConfigModel) -> ErrorModel {
    ErrorModel::validation(
        "invalid_project_link"@,
        "Project reference "@ + text::debug_text(value)
            + " must be an unaliased wikilink under "@ + config.link_target_prefix(),
    ).with_field("projects"@)
}

/// The slug of the project that a link leads to: the link is the one that the configuration
/// gives for a slug.
pub open spec fn project_of(value: Seq<char>, config: ConfigModel) -> Result<
    Seq<char>,
    ErrorModel,
> {
    let start = 2 + config.link_target_prefix().len();
    let target = value.subrange(start as int, value.len() - 2);
    if value.len() >= start + 2 && value == config.link(target) && model::slug(target) {
        Ok(target)
    } else {
        Err(link_error(value, config))
    }
}

/// The project that a link leads to.
pub fn parse_project_link(value: &str, config: &Config) -> (r: Result<String, Error>)
    ensures
        error::viewed(r) == project_of(value@, config@),
{
    let prefix = config.project_link_target_prefix();
    let prefix_length: usize = text::chars(prefix.as_str()).len();
    let chars = text::chars(value);
    if chars.len() >= 4 && chars.len() - 4 >= prefix_length {
        let target = text::string(&text::cut(&chars, 2 + prefix_length, chars.len() - 2));
        let link = config.project_link(target.as_str());
        if text::same(value, link.as_str()) {
            if let Ok(_) = model::validate_project_slug(target.as_str()) {
                return Ok(target);
            }
        }
    }
    Err(
        Error::validation(
            "invalid_project_link",
            text::join4(
                "Project reference ",
                text::debug(value).as_str(),
                " must be an unaliased wikilink under ",
                prefix.as_str(),
            ).as_str(),
        ).with_field("projects"),
    )
}

/// A link to a project leads to that project.
pub proof fn project_links_lead_back(slug: Seq<char>, config: ConfigModel)
    requires
        model::slug(slug),
    ensures
        project_of(config.link(slug), config) == Ok::<Seq<char>, ErrorModel>(slug),
{
    reveal_strlit("[[");
    reveal_strlit("]]");
    assert("[["@.len() == 2 && "]]"@.len() == 2);
    let link = config.link(slug);
    let start = 2 + config.link_target_prefix().len();
    assert(link.subrange(start as int, link.len() - 2) =~= slug);
}

/// The slugs that the links from the `i`-th on lead to, after those found.
pub open spec fn projects_of(
    links: Seq<Seq<char>>,
    i: int,
    found: Seq<Seq<char>>,
    config: ConfigModel,
) -> Result<Seq<Seq<char>>, ErrorModel>
    decreases links.len() - i,
{
    if i >= links.len() {
        Ok(found)
    } else {
        match project_of(links[i], config) {
            Ok(slug) => projects_of(links, i + 1, found.push(slug), config),
            Err(e) => Err(e),
        }
    }
}

fn parse_project_links(links: &Vec<String>, config: &Config) -> (r: Result<Vec<String>, Error>)
    ensures
        texts_outcome(r) == projects_of(text::strings(links@), 0, seq![], config@),
{
    let ghost all = text::strings(links@);
    let mut found: Vec<String> = Vec::new();
    assert(text::strings(found@) =~= Seq::<Seq<char>>::empty());
    let mut i: usize = 0;
    while i < links.len()
        invariant
            i <= links@.len(),
            all == text::strings(links@),
            projects_of(all, 0, seq![], config@) == projects_of(
                all,
                i as int,
                text::strings(found@),
                config@,
            ),
        decreases links.len() - i,
    {
        assert(all[i as int] == links@[i as int]@);
        match parse_project_link(links[i].as_str(), config) {
            Ok(slug) => {
                let ghost before = text::strings(found@);
                found.push(slug);
                assert(text::strings(found@) =~= before.push(slug@));
            },
            Err(e) => {
                return Err(e);
            },
        }
        i += 1;
    }
    Ok(found)
}

/// The error for an ID among the properties.
pub open spec fn id_error() -> ErrorModel {
    ErrorModel::validation(
        "redundant_id_property"@,
        "Record identity belongs only in its filename; remove the id property"@,
    ).with_field("id"@)
}

fn reject_frontmatter_id(properties: &serde_yaml_ng::Mapping) -> (r: Result<(), Error>)
    ensures
        r is Ok <==> yaml::value_at(yaml::mapping_entries(*properties), "id"@) is None,
        r matches Err(e) ==> e@ == id_error(),
{
    match yaml::get(properties, "id") {
        Some(_) => Err(
            Error::validation(
                "redundant_id_property",
                "Record identity belongs only in its filename; remove the id property",
            ).with_field("id"),
        ),
        None => Ok(()),
    }
}

/// The task that the parts of a record make, before its rules are checked.
pub open spec fn assembled(
    id: Seq<char>,
    path: Seq<char>,
    name: Seq<char>,
    state: Seq<char>,
    projects: Seq<Seq<char>>,
    tags: Seq<Seq<char>>,
    options: Options,
    body: Seq<char>,
) -> TaskModel {
    TaskModel {
        id: text::upper(id),
        path,
        name,
        state,
        projects,
        tags,
        parent: options.parent,
        url: options.url,
        due_date: options.due_date,
        due_time: options.due_time,
        recurrence: options.recurrence,
        recurrence_from: options.recurrence_from,
        last_completed_date: options.last_completed_date,
        body,
        extra_properties: options.rest,
    }
}

/// The task that a record holds.
pub open spec fn task_from(
    id: Seq<char>,
    path: Seq<char>,
    document: DocumentModel,
    config: ConfigModel,
) -> Result<TaskModel, ErrorModel> {
    let e0 = document.properties;
    let e1 = yaml::without(e0, "name"@);
    let e2 = yaml::without(e1, "state"@);
    let e3 = yaml::without(e2, "projects"@);
    let e4 = yaml::without(e3, "tags"@);
    if yaml::value_at(e0, "id"@) is Some {
        Err(id_error())
    } else {
        match required_text(e0, "name"@) {
            Err(e) => Err(e),
            Ok(name) => match required_text(e1, "state"@) {
                Err(e) => Err(e),
                Ok(state) => match required_list(e2, "projects"@) {
                    Err(e) => Err(e),
                    Ok(links) => match required_list(e3, "tags"@) {
                        Err(e) => Err(e),
                        Ok(tags) => match read_options(e4, config.schema_version) {
                            Err(e) => Err(e),
                            Ok(options) => match projects_of(links, 0, seq![], config) {
                                Err(e) => Err(e),
                                Ok(projects) => {
                                    let task = assembled(
                                        id,
                                        path,
                                        name,
                                        state,
                                        projects,
                                        tags,
                                        options,
                                        document.body,
                                    );
                                    match task.check(config) {
                                        Err(e) => Err(e),
                                        Ok(_) => Ok(task),
                                    }
                                },
                            },
                        },
                    },
                },
            },
        }
    }
}

/// The task that the bytes of a record hold.
pub open spec fn task_of(
    id: Seq<char>,
    path: Seq<char>,
    bytes: Seq<u8>,
    config: ConfigModel,
) -> Result<TaskModel, ErrorModel> {
    match document_of(bytes) {
        Err(e) => Err(e),
        Ok(document) => task_from(id, path, document, config),
    }
}

/// The task that a record holds.
pub fn task_from_document(
    id: &str,
    path: &str,
    document: FrontMatterDocument,
    config: &Config,
) -> (r: Result<Task, Error>)
    ensures
        error::viewed(r) == task_from(id@, path@, document@, config@),
{
    let mut properties = document.properties;
    if let Err(e) = reject_frontmatter_id(&properties) {
        return Err(e);
    }
    let name = match take_required_string(&mut properties, "name") {
        Ok(name) => name,
        Err(e) => {
            return Err(e);
        },
    };
    let state = match take_required_string(&mut properties, "state") {
        Ok(state) => state,
        Err(e) => {
            return Err(e);
        },
    };
    let links = match take_required_string_list(&mut properties, "projects") {
        Ok(links) => links,
        Err(e) => {
            return Err(e);
        },
    };
    let tags = match take_required_string_list(&mut properties, "tags") {
        Ok(tags) => tags,
        Err(e) => {
            return Err(e);
        },
    };
    let options = match take_options(properties, config.schema_version) {
        Ok(options) => options,
        Err(e) => {
            return Err(e);
        },
    };
    let projects = match parse_project_links(&links, config) {
        Ok(projects) => projects,
        Err(e) => {
            return Err(e);
        },
    };
    let task = Task {
        id: text::upper_string(id),
        path: path.to_owned(),
        name,
        state,
        projects,
        tags,
        parent: options.parent,
        url: options.url,
        due_date: options.due_date,
        due_time: options.due_time,
        recurrence: options.recurrence,
        recurrence_from: options.recurrence_from,
        last_completed_date: options.last_completed_date,
        body: document.body,
        extra_properties: options.rest,
    };
    match task.validate(config) {
        Ok(_) => Ok(task),
        Err(e) => Err(e),
    }
}

/// The task that the bytes of a record hold.
#[verifier::spinoff_prover]
pub fn parse_task(id: &str, path: &str, bytes: &[u8], config: &Config) -> (r: Result<Task, Error>)
    ensures
        error::viewed(r) == task_of(id@, path@, bytes@, config@),
        forall|task: TaskModel|
            #![trigger task.serialized(config@)]
            #![trigger record_laws::recalled(task, config@, bytes@, error::viewed(r))]
            task.id == id@ && task.path == path@ ==> record_laws::recalled(
                task,
                config@,
                bytes@,
                error::viewed(r),
            ),
{
    proof {
        record_laws::lemma_tasks(id@, path@, bytes@, config@);
    }
    match parse_document(bytes) {
        Ok(document) => task_from_document(id, path, document, config),
        Err(e) => Err(e),
    }
}

/// The project that a record holds.
pub open spec fn project_from(slug: Seq<char>, path: Seq<char>, document: DocumentModel) -> Result<
    ProjectModel,
    ErrorModel,
> {
    let e0 = document.properties;
    if yaml::value_at(e0, "id"@) is Some {
        Err(id_error())
    } else {
        match required_text(e0, "name"@) {
            Err(e) => Err(e),
            Ok(name) => match model::check_name(name, "name"@) {
                Err(e) => Err(e),
                Ok(_) => Ok(
                    ProjectModel {
                        slug,
                        path,
                        name,
                        body: document.body,
                        extra_properties: yaml::without(e0, "name"@),
                    },
                ),
            },
        }
    }
}

/// The project that the bytes of a record hold.
pub open spec fn project_of_bytes(slug: Seq<char>, path: Seq<char>, bytes: Seq<u8>) -> Result<
    ProjectModel,
    ErrorModel,
> {
    if !model::slug(slug) {
        Err(model::slug_error(slug))
    } else {
        match document_of(bytes) {
            Err(e) => Err(e),
            Ok(document) => project_from(slug, path, document),
        }
    }
}

/// The project that the bytes of a record hold.
#[verifier::spinoff_prover]
pub fn parse_project(slug: &str, path: &str, bytes: &[u8]) -> (r: Result<Project, Error>)
    ensures
        error::viewed(r) == project_of_bytes(slug@, path@, bytes@),
        forall|project: ProjectModel|
            #![trigger project.serialized()]
            #![trigger record_laws::project_recalled(project, bytes@, error::viewed(r))]
            project.slug == slug@ && project.path == path@ ==> record_laws::project_recalled(
                project,
                bytes@,
                error::viewed(r),
            ),
{
    proof {
        record_laws::lemma_projects_read(slug@, path@, bytes@);
    }
    if let Err(e) = model::validate_project_slug(slug) {
        return Err(e);
    }
    let document = match parse_document(bytes) {
        Ok(document) => document,
        Err(e) => {
            return Err(e);
        },
    };
    let mut properties = document.properties;
    if let Err(e) = reject_frontmatter_id(&properties) {
        return Err(e);
    }
    let name = match take_required_string(&mut properties, "name") {
        Ok(name) => name,
        Err(e) => {
            return Err(e);
        },
    };
    if let Err(e) = model::validate_name(name.as_str(), "name") {
        return Err(e);
    }
    Ok(
        Project {
            slug: slug.to_owned(),
            path: path.to_owned(),
            name,
            body: document.body,
            extra_properties: properties,
        },
    )
}

/// The keys that a task's own properties have.
pub open spec fn task_keys(version: u32) -> Seq<Seq<char>> {
    let keys = seq![
        "name"@,
        "state"@,
        "projects"@,
        "tags"@,
        "due_date"@,
        "recurrence"@,
        "recurrence_from"@,
        "last_completed_date"@,
        "url"@,
        "due_time"@,
    ];
    if version == 2 {
        keys.push("parent"@)
    } else {
        keys
    }
}

/// Whether no key from the `i`-th on is in use, or which is the first that is.
pub open spec fn check_reserved(
    entries: Seq<(YamlTree, YamlTree)>,
    keys: Seq<Seq<char>>,
    i: int,
) -> Result<(), ErrorModel>
    decreases keys.len() - i,
{
    if i >= keys.len() {
        Ok(())
    } else if yaml::value_at(entries, keys[i]) is Some {
        Err(
            ErrorModel::validation(
                "reserved_extra_property"@,
                "Extra properties contain reserved key "@ + text::debug_text(keys[i]),
            ).with_field(keys[i]),
        )
    } else {
        check_reserved(entries, keys, i + 1)
    }
}

/// Whether properties can stand beside those with the given keys.
pub open spec fn check_extras(
    entries: Seq<(YamlTree, YamlTree)>,
    keys: Seq<Seq<char>>,
) -> Result<(), ErrorModel> {
    match check_reserved(entries, keys.push("id"@), 0) {
        Err(e) => Err(e),
        Ok(_) => match check_mapping(entries) {
            Err(e) => Err(e),
            Ok(_) => Ok(()),
        },
    }
}

/// What keys are, as texts.
spec fn key_texts(keys: Seq<&'static str>) -> Seq<Seq<char>> {
    keys.map_values(|key: &'static str| key@)
}

fn reject_reserved_extras(
    properties: &serde_yaml_ng::Mapping,
    keys: Vec<&'static str>,
) -> (r: Result<(), Error>)
    ensures
        error::outcome(r) == check_extras(yaml::mapping_entries(*properties), key_texts(keys@)),
{
    let ghost named = key_texts(keys@);
    let mut reserved = keys;
    reserved.push("id");
    let ghost all = named.push("id"@);
    let ghost entries = yaml::mapping_entries(*properties);
    assert(key_texts(reserved@) =~= all);
    let mut i: usize = 0;
    while i < reserved.len()
        invariant
            i <= reserved@.len(),
            key_texts(reserved@) == all,
            entries == yaml::mapping_entries(*properties),
            check_reserved(entries, all, 0) == check_reserved(entries, all, i as int),
            all == named.push("id"@),
            named == key_texts(keys@),
        decreases reserved.len() - i,
    {
        let key = reserved[i];
        assert(all[i as int] == key@);
        if let Some(_) = yaml::get(properties, key) {
            return Err(
                Error::validation(
                    "reserved_extra_property",
                    text::join2(
                        "Extra properties contain reserved key ",
                        text::debug(key).as_str(),
                    ).as_str(),
                ).with_field(key),
            );
        }
        i += 1;
    }
    match validate_yaml_mapping(properties) {
        Ok(_) => Ok(()),
        Err(e) => Err(e),
    }
}

/// Whether YAML might read the word as something else than a text.
pub open spec fn ambiguous_word(s: Seq<char>) -> bool {
    ||| s.len() > 0 && text::is_digit(s[0])
    ||| s == "null"@
    ||| s == "true"@
    ||| s == "false"@
    ||| s == "yes"@
    ||| s == "no"@
    ||| s == "on"@
    ||| s == "off"@
    ||| s == "y"@
    ||| s == "n"@
}

/// A state as it is written.
pub open spec fn state_text(state: Seq<char>) -> Seq<char> {
    if ambiguous_word(state) {
        yaml::json_string(state)
    } else {
        state
    }
}

pub(crate) fn quoted(s: &str) -> (r: String)
    ensures
        r@ == yaml::json_string(s@),
{
    match yaml::quote(s) {
        Ok(quoted) => quoted,
        Err(message) => message,
    }
}

fn write_state(state: &str) -> (r: String)
    ensures
        r@ == state_text(state@),
{
    let chars = text::chars(state);
    if chars.len() > 0 && text::is_digit(chars[0]) || text::same(state, "null") || text::same(
        state,
        "true",
    ) || text::same(state, "false") || text::same(state, "yes") || text::same(state, "no")
        || text::same(state, "on") || text::same(state, "off") || text::same(state, "y")
        || text::same(state, "n") {
        quoted(state)
    } else {
        state.to_owned()
    }
}

/// The items of a list, a line each.
pub open spec fn items_text(items: Seq<Seq<char>>) -> Seq<char>
    decreases items.len(),
{
    if items.len() == 0 {
        seq![]
    } else {
        items_text(items.drop_last()) + "  - "@ + yaml::json_string(items.last()) + "\n"@
    }
}

/// A list as it is written behind its key.
pub open spec fn list_text(items: Seq<Seq<char>>) -> Seq<char> {
    if items.len() == 0 {
        " []\n"@
    } else {
        "\n"@ + items_text(items)
    }
}

fn write_string_list(items: &Vec<String>) -> (r: String)
    ensures
        r@ == list_text(text::strings(items@)),
{
    if items.len() == 0 {
        return " []\n".to_owned();
    }
    let mut r = "\n".to_owned();
    let ghost all = text::strings(items@);
    let mut i: usize = 0;
    assert(r@ =~= "\n"@ + items_text(all.take(0)));
    while i < items.len()
        invariant
            i <= items@.len(),
            all == text::strings(items@),
            r@ == "\n"@ + items_text(all.take(i as int)),
        decreases items.len() - i,
    {
        assert(all.take(i + 1).drop_last() =~= all.take(i as int));
        assert(all[i as int] == items@[i as int]@);
        let ghost before = r@;
        r.append("  - ");
        r.append(quoted(items[i].as_str()).as_str());
        r.append("\n");
        assert(r@ =~= "\n"@ + items_text(all.take(i + 1)));
        i += 1;
    }
    assert(all.take(i as int) =~= all);
    r
}

/// A line with a key and a value, where there is one.
pub open spec fn opt_line(key: Seq<char>, value: Option<Seq<char>>) -> Seq<char> {
    match value {
        Some(value) => key + value + "\n"@,
        None => seq![],
    }
}

fn write_line(output: &mut String, key: &str, value: Option<String>)
    ensures
        final(output)@ == old(output)@ + opt_line(key@, text::opt(value)),
{
    if let Some(value) = value {
        output.append(key);
        output.append(value.as_str());
        output.append("\n");
        assert(output@ =~= old(output)@ + opt_line(key@, text::opt(Some(value))));
    } else {
        assert(output@ =~= old(output)@ + opt_line(key@, None));
    }
}

/// The links to projects.
pub open spec fn links(projects: Seq<Seq<char>>, config: ConfigModel) -> Seq<Seq<char>> {
    projects.map_values(|slug: Seq<char>| config.link(slug))
}

fn project_links(projects: &Vec<String>, config: &Config) -> (r: Vec<String>)
    ensures
        text::strings(r@) == links(text::strings(projects@), config@),
{
    let ghost all = text::strings(projects@);
    let mut r: Vec<String> = Vec::new();
    let mut i: usize = 0;
    while i < projects.len()
        invariant
            i <= projects@.len(),
            r@.len() == i,
            all == text::strings(projects@),
            forall|k: int| 0 <= k < i ==> (#[trigger] r@[k])@ == config@.link(all[k]),
        decreases projects.len() - i,
    {
        assert(all[i as int] == projects@[i as int]@);
        r.push(config.project_link(projects[i].as_str()));
        i += 1;
    }
    assert(text::strings(r@) =~= links(all, config@));
    r
}

/// The error for properties that cannot be written.
pub open spec fn extras_error(message: Seq<char>) -> ErrorModel {
    ErrorModel::validation(
        "yaml_serialization_failed"@,
        "Could not preserve unknown properties: "@ + message,
    )
}

/// Properties as they are written after the record's own.
pub open spec fn extras_text(entries: Seq<(YamlTree, YamlTree)>) -> Result<Seq<char>, ErrorModel> {
    if entries.len() == 0 {
        Ok(seq![])
    } else {
        match yaml::yaml_text(entries) {
            Ok(s) => Ok(s),
            Err(message) => Err(extras_error(message)),
        }
    }
}

fn serialize_extras(properties: &serde_yaml_ng::Mapping) -> (r: Result<String, Error>)
    ensures
        error::viewed(r) == extras_text(yaml::mapping_entries(*properties)),
        record_laws::writes_extras(yaml::mapping_entries(*properties)),
{
    let pairs = yaml::entries(properties);
    assert(yaml::mapping_entries(*properties).len() == pairs@.len());
    if pairs.len() == 0 {
        return Ok(String::new());
    }
    match yaml::write(properties) {
        Ok(s) => Ok(s),
        Err(message) => Err(
            Error::validation(
                "yaml_serialization_failed",
                text::join2("Could not preserve unknown properties: ", message.as_str()).as_str(),
            ),
        ),
    }
}

/// The bytes of a record's text, where they are not too many.
pub open spec fn record(source: Seq<char>, path: Seq<char>) -> Result<Seq<u8>, ErrorModel> {
    let bytes = vstd::utf8::encode_utf8(source);
    if bytes.len() > MAX_RECORD_BYTES {
        Err(too_large().with_path(path))
    } else {
        Ok(bytes)
    }
}

fn finish_record(output: String, path: &str) -> (r: Result<Vec<u8>, Error>)
    ensures
        error::viewed(r) == record(output@, path@),
{
    let bytes = output.as_str().as_bytes_vec();
    if bytes.len() > MAX_RECORD_BYTES {
        return Err(record_too_large().with_path(path));
    }
    Ok(bytes)
}

impl TaskModel {
    /// The lines of the properties that every task has.
    pub open spec fn required_lines(self, config: ConfigModel) -> Seq<char> {
        "---\nname: "@ + yaml::json_string(self.name) + "\nstate: "@ + state_text(self.state)
            + "\nprojects:"@ + list_text(links(text::sorted(self.projects), config)) + "tags:"@
            + list_text(text::sorted(self.tags))
    }

    /// The lines of the properties that not every task has.
    pub open spec fn optional_lines(self) -> Seq<char> {
        opt_line("parent: "@, quoted_opt(upper_opt(self.parent))) + opt_line(
            "url: "@,
            quoted_opt(self.url),
        ) + opt_line("due_date: "@, date_opt(self.due_date)) + opt_line(
            "due_time: "@,
            quoted_opt(time_opt(self.due_time)),
        ) + opt_line("recurrence: "@, quoted_opt(rule_opt(self.recurrence))) + opt_line(
            "recurrence_from: "@,
            mode_opt(self.recurrence_from),
        ) + opt_line("last_completed_date: "@, date_opt(self.last_completed_date))
    }

    /// The record of the task.
    pub open spec fn serialized(self, config: ConfigModel) -> Result<Seq<u8>, ErrorModel> {
        match check_conflicts(text::lines(self.body), 0) {
            Err(e) => Err(e),
            Ok(_) => match self.check(config) {
                Err(e) => Err(e),
                Ok(_) => match check_extras(
                    self.extra_properties,
                    task_keys(config.schema_version),
                ) {
                    Err(e) => Err(e),
                    Ok(_) => match extras_text(self.extra_properties) {
                        Err(e) => Err(e),
                        Ok(extras) => record(
                            self.required_lines(config) + self.optional_lines() + extras
                                + "---\n"@ + self.body,
                            self.path,
                        ),
                    },
                },
            },
        }
    }
}

/// An optional text as a JSON string.
pub open spec fn quoted_opt(s: Option<Seq<char>>) -> Option<Seq<char>> {
    match s {
        Some(s) => Some(yaml::json_string(s)),
        None => None,
    }
}

/// An optional text in capitals.
pub open spec fn upper_opt(s: Option<Seq<char>>) -> Option<Seq<char>> {
    match s {
        Some(s) => Some(text::upper(s)),
        None => None,
    }
}

/// An optional date as it is written.
pub open spec fn date_opt(date: Option<Date>) -> Option<Seq<char>> {
    match date {
        Some(date) => Some(calendar::date_text(date.y(), date.m(), date.d())),
        None => None,
    }
}

/// An optional time as it is written.
pub open spec fn time_opt(time: Option<Time>) -> Option<Seq<char>> {
    match time {
        Some(time) => Some(calendar::time_text(time.h(), time.min())),
        None => None,
    }
}

/// An optional rule as it is written.
pub open spec fn rule_opt(rule: Option<RuleModel>) -> Option<Seq<char>> {
    match rule {
        Some(rule) => Some(recurrence::rule_text(rule)),
        None => None,
    }
}

/// An optional mode as it is written.
pub open spec fn mode_opt(mode: Option<RecurrenceMode>) -> Option<Seq<char>> {
    match mode {
        Some(mode) => Some(recurrence::mode_word(mode)),
        None => None,
    }
}

fn quote_opt(s: Option<String>) -> (r: Option<String>)
    ensures
        text::opt(r) == quoted_opt(text::opt(s)),
{
    match s {
        Some(s) => Some(quoted(s.as_str())),
        None => None,
    }
}

pub(crate) fn write_date(date: Option<Date>) -> (r: Option<String>)
    ensures
        text::opt(r) == date_opt(date),
{
    match date {
        Some(date) => Some(date.to_string()),
        None => None,
    }
}

fn write_required(task: &Task, config: &Config) -> (r: String)
    ensures
        r@ == task@.required_lines(config@),
{
    let projects = project_links(&text::sort_strings(&task.projects), config);
    let tags = text::sort_strings(&task.tags);
    let mut output = "---\nname: ".to_owned();
    output.append(quoted(task.name.as_str()).as_str());
    output.append("\nstate: ");
    output.append(write_state(task.state.as_str()).as_str());
    output.append("\nprojects:");
    output.append(write_string_list(&projects).as_str());
    output.append("tags:");
    output.append(write_string_list(&tags).as_str());
    output
}

fn write_optional(task: &Task) -> (r: String)
    ensures
        r@ == task@.optional_lines(),
{
    let mut output = String::new();
    let parent = match &task.parent {
        Some(parent) => Some(quoted(text::upper_string(parent.as_str()).as_str())),
        None => None,
    };
    write_line(&mut output, "parent: ", parent);
    assert(output@ =~= opt_line("parent: "@, quoted_opt(upper_opt(task@.parent))));
    let url = quote_opt(text::clone_opt(&task.url));
    write_line(&mut output, "url: ", url);
    write_line(&mut output, "due_date: ", write_date(task.due_date));
    let time = match task.due_time {
        Some(time) => Some(quoted(time.to_string().as_str())),
        None => None,
    };
    write_line(&mut output, "due_time: ", time);
    let rule = match &task.recurrence {
        Some(rule) => Some(quoted(rule.to_string().as_str())),
        None => None,
    };
    write_line(&mut output, "recurrence: ", rule);
    let mode = match task.recurrence_from {
        Some(mode) => Some(mode.as_str().to_owned()),
        None => None,
    };
    write_line(&mut output, "recurrence_from: ", mode);
    write_line(&mut output, "last_completed_date: ", write_date(task.last_completed_date));
    output
}

/// The keys of a task's own properties, in code.
fn core_task_keys(version: u32) -> (r: Vec<&'static str>)
    ensures
        key_texts(r@) == task_keys(version),
{
    let mut r: Vec<&'static str> = Vec::new();
    r.push("name");
    r.push("state");
    r.push("projects");
    r.push("tags");
    r.push("due_date");
    r.push("recurrence");
    r.push("recurrence_from");
    r.push("last_completed_date");
    r.push("url");
    r.push("due_time");
    if version == 2 {
        r.push("parent");
    }
    assert(key_texts(r@) =~= task_keys(version));
    r
}

/// The record of a task.
pub fn serialize_task(task: &Task, config: &Config) -> (r: Result<Vec<u8>, Error>)
    ensures
        error::viewed(r) == task@.serialized(config@),
        r is Ok ==> record_laws::writes_extras(task@.extra_properties),
{
    if let Err(e) = reject_conflict_markers(task.body.as_str()) {
        return Err(e);
    }
    if let Err(e) = task.validate(config) {
        return Err(e);
    }
    if let Err(e) = reject_reserved_extras(
        &task.extra_properties,
        core_task_keys(config.schema_version),
    ) {
        return Err(e);
    }
    let mut output = write_required(task, config);
    output.append(write_optional(task).as_str());
    match serialize_extras(&task.extra_properties) {
        Ok(extras) => {
            output.append(extras.as_str());
        },
        Err(e) => {
            return Err(e);
        },
    }
    output.append("---\n");
    output.append(task.body.as_str());
    finish_record(output, task.path.as_str())
}

impl ProjectModel {
    /// The record of the project.
    pub open spec fn serialized(self) -> Result<Seq<u8>, ErrorModel> {
        if !model::slug(self.slug) {
            Err(model::slug_error(self.slug))
        } else {
            match check_conflicts(text::lines(self.body), 0) {
                Err(e) => Err(e),
                Ok(_) => match model::check_name(self.name, "name"@) {
                    Err(e) => Err(e),
                    Ok(_) => match check_extras(self.extra_properties, seq!["name"@]) {
                        Err(e) => Err(e),
                        Ok(_) => match extras_text(self.extra_properties) {
                            Err(e) => Err(e),
                            Ok(extras) => record(
                                "---\nname: "@ + yaml::json_string(self.name) + "\n"@ + extras
                                    + "---\n"@ + self.body,
                                self.path,
                            ),
                        },
                    },
                },
            }
        }
    }
}

/// The record of a project.
pub fn serialize_project(project: &Project) -> (r: Result<Vec<u8>, Error>)
    ensures
        error::viewed(r) == project@.serialized(),
        r is Ok ==> record_laws::writes_extras(project@.extra_properties),
{
    if let Err(e) = model::validate_project_slug(project.slug.as_str()) {
        return Err(e);
    }
    if let Err(e) = reject_conflict_markers(project.body.as_str()) {
        return Err(e);
    }
    if let Err(e) = model::validate_name(project.name.as_str(), "name") {
        return Err(e);
    }
    let reserved: Vec<&'static str> = vec!["name"];
    assert(key_texts(reserved@) =~= seq!["name"@]);
    if let Err(e) = reject_reserved_extras(&project.extra_properties, reserved) {
        return Err(e);
    }
    let mut output = "---\nname: ".to_owned();
    output.append(quoted(project.name.as_str()).as_str());
    output.append("\n");
    match serialize_extras(&project.extra_properties) {
        Ok(extras) => {
            output.append(extras.as_str());
        },
        Err(e) => {
            return Err(e);
        },
    }
    output.append("---\n");
    output.append(project.body.as_str());
    finish_record(output, project.path.as_str())
}

} // verus!
