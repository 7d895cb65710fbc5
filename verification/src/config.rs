//! The configuration of a store: its directories, link prefix and states.
use vstd::prelude::*;

use crate::documents::{self, TomlFault, TomlNode, TomlPart, TomlTree};
use crate::error::{self, Error, ErrorModel, IssueModel, ValidationIssue};
use crate::paths;
use crate::text;

verus! {

/// The schema version of new stores. Version 1, without typed parents, is supported too.
pub const SCHEMA_VERSION: u32 = 2;

/// Where the configuration stands in a store.
pub const CONFIG_PATH: &'static str = ".todo/config.toml";

/// Where the schema stands in a store.
pub const SCHEMA_PATH: &'static str = ".todo/schema.json";

/// The file that lists a store's tasks.
pub const TODOS_BASE_PATH: &'static str = "todos.base";

/// Whether a schema version is supported.
pub open spec fn supported(version: int) -> bool {
    version == 1 || version == 2
}

/// The configuration of a store.
#[derive(Debug, PartialEq, Eq)]
pub struct Config {
    pub schema_version: u32,
    pub tasks_directory: String,
    pub projects_directory: String,
    pub obsidian_link_prefix: String,
    pub default_state: String,
    pub states: Vec<State>,
}

/// A state that a task can be in.
#[derive(Debug, PartialEq, Eq)]
pub struct State {
    pub id: String,
    pub name: String,
    pub terminal: bool,
}

/// What a configuration says.
#[verifier::ext_equal]
pub struct ConfigModel {
    pub schema_version: u32,
    pub tasks_directory: Seq<char>,
    pub projects_directory: Seq<char>,
    pub obsidian_link_prefix: Seq<char>,
    pub default_state: Seq<char>,
    pub states: Seq<StateModel>,
}

/// What a state says.
#[verifier::ext_equal]
pub struct StateModel {
    pub id: Seq<char>,
    pub name: Seq<char>,
    pub terminal: bool,
}

impl View for State {
    type V = StateModel;

    open spec fn view(&self) -> StateModel {
        StateModel { id: self.id@, name: self.name@, terminal: self.terminal }
    }
}

/// What a list of states says.
pub open spec fn state_models(states: Seq<State>) -> Seq<StateModel> {
    states.map_values(|state: State| state@)
}

impl View for Config {
    type V = ConfigModel;

    open spec fn view(&self) -> ConfigModel {
        ConfigModel {
            schema_version: self.schema_version,
            tasks_directory: self.tasks_directory@,
            projects_directory: self.projects_directory@,
            obsidian_link_prefix: self.obsidian_link_prefix@,
            default_state: self.default_state@,
            states: state_models(self.states@),
        }
    }
}

impl Clone for State {
    fn clone(&self) -> (r: Self)
        ensures
            r@ == self@,
    {
        State { id: self.id.clone(), name: self.name.clone(), terminal: self.terminal }
    }
}

impl Clone for Config {
    fn clone(&self) -> (r: Self)
        ensures
            r@ == self@,
    {
        let mut states: Vec<State> = Vec::new();
        let mut i: usize = 0;
        while i < self.states.len()
            invariant
                i <= self.states.len(),
                state_models(states@) == state_models(self.states@).take(i as int),
            decreases self.states.len() - i,
        {
            let ghost before = state_models(states@);
            let state = self.states[i].clone();
            states.push(state);
            assert(state_models(states@) == before.push(state@));
            i += 1;
        }
        assert(state_models(self.states@).take(i as int) == state_models(self.states@));
        Config {
            schema_version: self.schema_version,
            tasks_directory: self.tasks_directory.clone(),
            projects_directory: self.projects_directory.clone(),
            obsidian_link_prefix: self.obsidian_link_prefix.clone(),
            default_state: self.default_state.clone(),
            states,
        }
    }
}

/// The line and column, from 1, of a place given by its byte offset: after the last line break
/// before it. An offset inside a character, or past the end, stands for the end.
pub open spec fn location(source: Seq<char>, byte_offset: int) -> (int, int) {
    let prefix = match text::chars_in(source, byte_offset, 0) {
        Some(i) => source.take(i),
        None => source,
    };
    (
        line_breaks(prefix) as int + 1,
        prefix.len() - text::find_back(prefix, '\n', prefix.len() as int),
    )
}

/// How many line breaks a text has.
pub open spec fn line_breaks(s: Seq<char>) -> nat
    decreases s.len(),
{
    if s.len() == 0 {
        0
    } else {
        line_breaks(s.drop_last()) + if s.last() == '\n' {
            1nat
        } else {
            0nat
        }
    }
}

/// There are no more line breaks than characters.
pub proof fn lemma_line_breaks(s: Seq<char>)
    ensures
        line_breaks(s) <= s.len(),
    decreases s.len(),
{
    if s.len() > 0 {
        lemma_line_breaks(s.drop_last());
    }
}

/// See [`location`].
pub(crate) fn source_location(source: &str, byte_offset: usize) -> (r: (usize, usize))
    requires
        source@.len() < usize::MAX,
    ensures
        (r.0 as int, r.1 as int) == location(source@, byte_offset as int),
{
    let chars = text::chars(source);
    let end: usize = match text::char_offset(&chars, byte_offset) {
        Some(i) => i,
        None => chars.len(),
    };
    let ghost prefix = source@.take(end as int);
    assert(prefix == match text::chars_in(source@, byte_offset as int, 0) {
        Some(i) => source@.take(i),
        None => source@,
    });
    let mut breaks: usize = 0;
    let mut i: usize = 0;
    while i < end
        invariant
            i <= end <= chars@.len(),
            chars@.len() < usize::MAX,
            chars@ == source@,
            prefix == source@.take(end as int),
            breaks == line_breaks(prefix.take(i as int)),
            breaks <= i,
        decreases end - i,
    {
        assert(prefix.take(i + 1).drop_last() == prefix.take(i as int));
        if chars[i] == '\n' {
            breaks += 1;
        }
        i += 1;
    }
    assert(prefix.take(i as int) == prefix);
    let before = text::cut(&chars, 0, end);
    assert(before@ == prefix);
    proof {
        text::lemma_find_back(prefix, '\n', prefix.len() as int);
    }
    let column: usize = match text::find_last(&before, '\n') {
        Some(at) => end - at,
        None => end + 1,
    };
    (breaks + 1, column)
}

/// Why a text names no managed directory, if it does not.
pub open spec fn directory_fault(value: Seq<char>) -> Option<Seq<char>> {
    if value.len() == 0 {
        Some("Managed directory cannot be empty"@)
    } else if value[0] == '/' {
        Some("Managed directory "@ + text::debug_text(value) + " must be relative"@)
    } else if value.contains('\\') || value.last() == '/' || (exists|i: int|
        0 <= i < text::split(value, '/').len() && odd_component(
            #[trigger] text::split(value, '/')[i],
        )) {
        Some(
            "Managed directory "@ + text::debug_text(value)
                + " must use normalized '/'-separated components"@,
        )
    } else if text::split(value, '/')[0] == ".todo"@ {
        Some("Managed directories must be distinct from .todo"@)
    } else {
        None
    }
}

/// Whether a component is empty, `.` or `..`.
pub open spec fn odd_component(part: Seq<char>) -> bool {
    part.len() == 0 || part == seq!['.'] || part == seq!['.', '.']
}

fn is_odd_component(part: &Vec<char>) -> (r: bool)
    ensures
        r == odd_component(part@),
{
    let dot = part.len() == 1 && part[0] == '.';
    let dots = part.len() == 2 && part[0] == '.' && part[1] == '.';
    assert(dot == (part@ =~= seq!['.']));
    assert(dots == (part@ =~= seq!['.', '.']));
    part.len() == 0 || dot || dots
}

/// The outcome of a check that gives its reason as a text.
pub open spec fn reason(r: Result<(), String>) -> Option<Seq<char>> {
    match r {
        Ok(_) => None,
        Err(message) => Some(message@),
    }
}

/// Whether a text names a directory that tasks or projects can be kept in.
pub fn validate_managed_directory(value: &str) -> (r: Result<(), String>)
    ensures
        reason(r) == directory_fault(value@),
{
    let chars = text::chars(value);
    if chars.len() == 0 {
        return Err("Managed directory cannot be empty".to_owned());
    }
    if chars[0] == '/' {
        return Err(
            text::join3("Managed directory ", text::debug(value).as_str(), " must be relative"),
        );
    }
    let pieces = text::split_on(&chars, '/');
    let ghost all = text::split(value@, '/');
    let mut odd = text::has(&chars, '\\') || chars[chars.len() - 1] == '/';
    let ghost start = odd;
    let mut i: usize = 0;
    while i < pieces.len()
        invariant
            i <= pieces.len(),
            text::texts(pieces@) == all,
            odd == (start || exists|k: int| 0 <= k < i && odd_component(#[trigger] all[k])),
        decreases pieces.len() - i,
    {
        assert(all[i as int] == pieces@[i as int]@);
        if is_odd_component(&pieces[i]) {
            assert(odd_component(all[i as int]));
            odd = true;
        }
        i += 1;
    }
    if odd {
        return Err(
            text::join3(
                "Managed directory ",
                text::debug(value).as_str(),
                " must use normalized '/'-separated components",
            ),
        );
    }
    assert(all[0] == pieces@[0]@);
    if text::spells(&pieces[0], ".todo") {
        return Err("Managed directories must be distinct from .todo".to_owned());
    }
    Ok(())
}

/// Whether a character ends or splits an Obsidian link.
#[verifier::allow_in_spec]
pub fn is_link_control(c: char) -> bool
    returns
        c == '[' || c == ']' || c == '|' || c == '#' || c == '^',
{
    c == '[' || c == ']' || c == '|' || c == '#' || c == '^'
}

/// Whether a component of a link is none, or holds what would end or split the link.
pub open spec fn bad_link_part(part: Seq<char>) -> bool {
    odd_component(part) || exists|i: int| 0 <= i < part.len() && is_link_control(#[trigger] part[i])
}

/// Why a text is no link prefix, if it is none.
pub open spec fn link_prefix_fault(value: Seq<char>) -> Option<Seq<char>> {
    if value.len() == 0 {
        None
    } else if value[0] == '/' || value.last() == '/' || value.contains('\\') {
        Some("Obsidian link prefix must be a relative '/'-separated path"@)
    } else if exists|i: int| 0 <= i < value.len() && text::is_control(#[trigger] value[i]) {
        Some("Obsidian link prefix must not contain control characters"@)
    } else if exists|i: int|
        0 <= i < text::split(value, '/').len() && bad_link_part(
            #[trigger] text::split(value, '/')[i],
        ) {
        Some("Obsidian link prefix contains an invalid path component"@)
    } else {
        None
    }
}

fn is_bad_link_part(part: &Vec<char>) -> (r: bool)
    ensures
        r == bad_link_part(part@),
{
    if is_odd_component(part) {
        return true;
    }
    let mut i: usize = 0;
    while i < part.len()
        invariant
            i <= part.len(),
            forall|k: int| 0 <= k < i ==> !is_link_control(#[trigger] part@[k]),
        decreases part.len() - i,
    {
        if is_link_control(part[i]) {
            return true;
        }
        i += 1;
    }
    false
}

/// Whether links can begin with a text.
pub fn validate_link_prefix(value: &str) -> (r: Result<(), String>)
    ensures
        reason(r) == link_prefix_fault(value@),
{
    let chars = text::chars(value);
    if chars.len() == 0 {
        return Ok(());
    }
    if chars[0] == '/' || chars[chars.len() - 1] == '/' || text::has(&chars, '\\') {
        return Err("Obsidian link prefix must be a relative '/'-separated path".to_owned());
    }
    let mut i: usize = 0;
    while i < chars.len()
        invariant
            i <= chars.len(),
            chars@ == value@,
            chars@.len() > 0,
            chars@[0] != '/',
            chars@.last() != '/',
            !chars@.contains('\\'),
            forall|k: int| 0 <= k < i ==> !text::is_control(#[trigger] chars@[k]),
        decreases chars.len() - i,
    {
        if text::is_control(chars[i]) {
            return Err("Obsidian link prefix must not contain control characters".to_owned());
        }
        i += 1;
    }
    let pieces = text::split_on(&chars, '/');
    let ghost all = text::split(value@, '/');
    let mut k: usize = 0;
    while k < pieces.len()
        invariant
            k <= pieces.len(),
            text::texts(pieces@) == all,
            all == text::split(value@, '/'),
            chars@ == value@,
            chars@.len() > 0,
            chars@[0] != '/',
            chars@.last() != '/',
            !chars@.contains('\\'),
            forall|m: int| 0 <= m < chars@.len() ==> !text::is_control(#[trigger] chars@[m]),
            forall|m: int| 0 <= m < k ==> !bad_link_part(#[trigger] all[m]),
        decreases pieces.len() - k,
    {
        assert(all[k as int] == pieces@[k as int]@);
        if is_bad_link_part(&pieces[k]) {
            return Err("Obsidian link prefix contains an invalid path component".to_owned());
        }
        k += 1;
    }
    Ok(())
}

/// Whether a text is a state ID: small letters, digits, `_` and `-`, beginning with one of
/// the first two.
pub open spec fn state_id(value: Seq<char>) -> bool {
    &&& value.len() > 0
    &&& text::is_lower(value[0]) || text::is_digit(value[0])
    &&& forall|i: int|
        0 <= i < value.len() ==> text::is_lower(#[trigger] value[i]) || text::is_digit(value[i])
            || value[i] == '_' || value[i] == '-'
}

/// See [`state_id`].
#[must_use]
pub fn is_state_id(value: &str) -> (r: bool)
    ensures
        r == state_id(value@),
{
    let chars = text::chars(value);
    if chars.len() == 0 || !(text::is_lower(chars[0]) || text::is_digit(chars[0])) {
        return false;
    }
    let mut i: usize = 0;
    while i < chars.len()
        invariant
            i <= chars.len(),
            chars@ == value@,
            forall|k: int|
                0 <= k < i ==> text::is_lower(#[trigger] chars@[k]) || text::is_digit(chars@[k])
                    || chars@[k] == '_' || chars@[k] == '-',
        decreases chars.len() - i,
    {
        let c = chars[i];
        if !(text::is_lower(c) || text::is_digit(c) || c == '_' || c == '-') {
            return false;
        }
        i += 1;
    }
    true
}

/// Whether one of two paths is the other or lies within it.
pub open spec fn overlap(left: Seq<char>, right: Seq<char>) -> bool {
    paths::path_begins(left, right) || paths::path_begins(right, left)
}

/// See [`overlap`].
pub fn managed_paths_overlap(left: &str, right: &str) -> (r: bool)
    ensures
        r == overlap(left@, right@),
{
    paths::is_path_within(left, right) || paths::is_path_within(right, left)
}

/// The path that a text names, or why it names none.
pub open spec fn managed(value: Seq<char>) -> Result<Seq<char>, ErrorModel> {
    match directory_fault(value) {
        None => Ok(value),
        Some(message) => Err(ErrorModel::validation("invalid_managed_path"@, message)),
    }
}

/// The path that a text names.
pub fn managed_path(value: &str) -> (r: Result<String, Error>)
    ensures
        error::viewed(r) == managed(value@),
{
    match validate_managed_directory(value) {
        Ok(_) => Ok(value.to_owned()),
        Err(message) => Err(Error::validation("invalid_managed_path", message.as_str())),
    }
}

/// A list of one issue, or none.
pub open spec fn issue_if(issue: Option<IssueModel>) -> Seq<IssueModel> {
    match issue {
        Some(issue) => seq![issue],
        None => seq![],
    }
}

impl ConfigModel {
    /// The issue with the schema version.
    pub open spec fn schema_issue(self) -> Option<IssueModel> {
        let version = text::decimal(self.schema_version as nat);
        if supported(self.schema_version as int) {
            None
        } else if self.schema_version > SCHEMA_VERSION {
            Some(
                IssueModel::error(
                    "unsupported_schema"@,
                    "Schema version "@ + version + " is newer than supported version "@
                        + text::decimal(SCHEMA_VERSION as nat),
                ).at_path(CONFIG_PATH@).at_field("schema_version"@),
            )
        } else {
            Some(
                IssueModel::error(
                    "unsupported_schema"@,
                    "Schema version "@ + version + " is not supported; expected 1 or "@
                        + text::decimal(SCHEMA_VERSION as nat),
                ).at_path(CONFIG_PATH@).at_field("schema_version"@),
            )
        }
    }

    /// The issue with the tasks directory.
    pub open spec fn tasks_issue(self) -> Option<IssueModel> {
        match directory_fault(self.tasks_directory) {
            Some(message) => Some(
                IssueModel::error("invalid_managed_path"@, message).at_path(
                    CONFIG_PATH@,
                ).at_field("tasks_directory"@),
            ),
            None => None,
        }
    }

    /// The issue with the projects directory, which links name too.
    pub open spec fn projects_issue(self) -> Option<IssueModel> {
        match directory_fault(self.projects_directory) {
            Some(message) => Some(
                IssueModel::error("invalid_managed_path"@, message).at_path(
                    CONFIG_PATH@,
                ).at_field("projects_directory"@),
            ),
            None => if link_prefix_fault(self.projects_directory) is Some {
                Some(
                    IssueModel::error(
                        "invalid_managed_path"@,
                        "Projects directory cannot contain Obsidian link control syntax"@,
                    ).at_path(CONFIG_PATH@).at_field("projects_directory"@),
                )
            } else {
                None
            },
        }
    }

    /// The issue with two directories that are not apart.
    pub open spec fn overlap_issue(self) -> Option<IssueModel> {
        if overlap(self.tasks_directory, self.projects_directory) {
            Some(
                IssueModel::error(
                    "managed_paths_not_distinct"@,
                    "Tasks and projects directories must be distinct and non-overlapping"@,
                ).at_path(CONFIG_PATH@),
            )
        } else {
            None
        }
    }

    /// The issue with the link prefix.
    pub open spec fn prefix_issue(self) -> Option<IssueModel> {
        match link_prefix_fault(self.obsidian_link_prefix) {
            Some(message) => Some(
                IssueModel::error("invalid_link_prefix"@, message).at_path(CONFIG_PATH@).at_field(
                    "obsidian_link_prefix"@,
                ),
            ),
            None => None,
        }
    }

    /// The issue with the `i`-th state's ID as such.
    pub open spec fn id_issue(self, i: int) -> Option<IssueModel> {
        if state_id(self.states[i].id) {
            None
        } else {
            Some(
                IssueModel::error(
                    "invalid_state_id"@,
                    "Invalid state ID "@ + text::debug_text(self.states[i].id),
                ).at_path(CONFIG_PATH@).at_field("states.id"@),
            )
        }
    }

    /// The issue with the `i`-th state's ID where an earlier state has it.
    pub open spec fn duplicate_issue(self, i: int) -> Option<IssueModel> {
        if exists|j: int| 0 <= j < i && (#[trigger] self.states[j]).id == self.states[i].id {
            Some(
                IssueModel::error(
                    "duplicate_state_id"@,
                    "State ID "@ + text::debug_text(self.states[i].id)
                        + " appears more than once"@,
                ).at_path(CONFIG_PATH@).at_field("states.id"@),
            )
        } else {
            None
        }
    }

    /// The issue with the `i`-th state's name.
    pub open spec fn name_issue(self, i: int) -> Option<IssueModel> {
        if text::blank(self.states[i].name) {
            Some(
                IssueModel::error("invalid_state_name"@, "State names cannot be empty"@).at_path(
                    CONFIG_PATH@,
                ).at_field("states.name"@),
            )
        } else {
            None
        }
    }

    /// The issues with the states before the `n`-th.
    pub open spec fn state_issues(self, n: int) -> Seq<IssueModel>
        decreases n,
    {
        if n <= 0 {
            seq![]
        } else {
            self.state_issues(n - 1) + issue_if(self.id_issue(n - 1)) + issue_if(
                self.duplicate_issue(n - 1),
            ) + issue_if(self.name_issue(n - 1))
        }
    }

    /// The issue with states that are all terminal.
    pub open spec fn nonterminal_issue(self) -> Option<IssueModel> {
        if exists|i: int| 0 <= i < self.states.len() && !(#[trigger] self.states[i]).terminal {
            None
        } else {
            Some(
                IssueModel::error(
                    "missing_nonterminal_state"@,
                    "At least one state must be nonterminal"@,
                ).at_path(CONFIG_PATH@).at_field("states"@),
            )
        }
    }

    /// The place of the first state, from the `i`-th on, with the ID.
    pub open spec fn place_from(self, id: Seq<char>, i: int) -> Option<int>
        decreases self.states.len() - i,
    {
        if i >= self.states.len() {
            None
        } else if self.states[i].id == id {
            Some(i)
        } else {
            self.place_from(id, i + 1)
        }
    }

    /// The place of the first state with the ID.
    pub open spec fn place(self, id: Seq<char>) -> Option<int> {
        self.place_from(id, 0)
    }

    /// Whether the ID names a state that is terminal.
    pub open spec fn terminal(self, id: Seq<char>) -> bool {
        match self.place(id) {
            Some(i) => self.states[i].terminal,
            None => false,
        }
    }

    /// The issue with the default state.
    pub open spec fn default_issue(self) -> Option<IssueModel> {
        match self.place(self.default_state) {
            None => Some(
                IssueModel::error(
                    "invalid_default_state"@,
                    "Default state "@ + text::debug_text(self.default_state)
                        + " does not reference a configured state"@,
                ).at_path(CONFIG_PATH@).at_field("default_state"@),
            ),
            Some(i) => if self.states[i].terminal {
                Some(
                    IssueModel::error(
                        "terminal_default_state"@,
                        "Default state must be nonterminal"@,
                    ).at_path(CONFIG_PATH@).at_field("default_state"@),
                )
            } else {
                None
            },
        }
    }

    /// All issues with the configuration.
    pub open spec fn issues(self) -> Seq<IssueModel> {
        issue_if(self.schema_issue()) + issue_if(self.tasks_issue()) + issue_if(
            self.projects_issue(),
        ) + issue_if(self.overlap_issue()) + issue_if(self.prefix_issue()) + self.state_issues(
            self.states.len() as int,
        ) + issue_if(self.nonterminal_issue()) + issue_if(self.default_issue())
    }
}

/// A state that is found has the ID, and is the first that has.
pub proof fn lemma_place(config: ConfigModel, id: Seq<char>, i: int)
    requires
        0 <= i,
    ensures
        config.place_from(id, i) matches Some(k) ==> i <= k < config.states.len()
            && config.states[k].id == id,
        config.place_from(id, i) is None ==> forall|k: int|
            i <= k < config.states.len() ==> (#[trigger] config.states[k]).id != id,
    decreases config.states.len() - i,
{
    if i < config.states.len() && config.states[i].id != id {
        lemma_place(config, id, i + 1);
    }
}

fn push_if(issues: &mut Vec<ValidationIssue>, issue: Option<ValidationIssue>)
    ensures
        error::issue_models(final(issues)@) == error::issue_models(old(issues)@) + issue_if(
            issue_view(issue),
        ),
{
    let ghost before = error::issue_models(issues@);
    match issue {
        Some(issue) => {
            issues.push(issue);
            assert(error::issue_models(issues@) =~= before + seq![issue@]);
        },
        None => {
            assert(before + Seq::<IssueModel>::empty() =~= before);
        },
    }
}

spec fn issue_view(issue: Option<ValidationIssue>) -> Option<IssueModel> {
    match issue {
        Some(issue) => Some(issue@),
        None => None,
    }
}

/// A configuration issue with a field.
fn config_issue(code: &str, message: &str, field: &str) -> (r: ValidationIssue)
    ensures
        r@ == IssueModel::error(code@, message@).at_path(CONFIG_PATH@).at_field(field@),
{
    ValidationIssue::error(code, message).at_path(CONFIG_PATH).at_field(field)
}

impl Config {
    fn schema_issue(&self) -> (r: Option<ValidationIssue>)
        ensures
            issue_view(r) == self@.schema_issue(),
    {
        if self.schema_version == 1 || self.schema_version == 2 {
            return None;
        }
        let version = text::format_number(self.schema_version as u64);
        let message = if self.schema_version > SCHEMA_VERSION {
            text::join4(
                "Schema version ",
                version.as_str(),
                " is newer than supported version ",
                text::format_number(SCHEMA_VERSION as u64).as_str(),
            )
        } else {
            text::join4(
                "Schema version ",
                version.as_str(),
                " is not supported; expected 1 or ",
                text::format_number(SCHEMA_VERSION as u64).as_str(),
            )
        };
        Some(config_issue("unsupported_schema", message.as_str(), "schema_version"))
    }

    fn tasks_issue(&self) -> (r: Option<ValidationIssue>)
        ensures
            issue_view(r) == self@.tasks_issue(),
    {
        match validate_managed_directory(self.tasks_directory.as_str()) {
            Err(message) => Some(
                config_issue("invalid_managed_path", message.as_str(), "tasks_directory"),
            ),
            Ok(_) => None,
        }
    }

    fn projects_issue(&self) -> (r: Option<ValidationIssue>)
        ensures
            issue_view(r) == self@.projects_issue(),
    {
        match validate_managed_directory(self.projects_directory.as_str()) {
            Err(message) => Some(
                config_issue("invalid_managed_path", message.as_str(), "projects_directory"),
            ),
            Ok(_) => match validate_link_prefix(self.projects_directory.as_str()) {
                Err(_) => Some(
                    config_issue(
                        "invalid_managed_path",
                        "Projects directory cannot contain Obsidian link control syntax",
                        "projects_directory",
                    ),
                ),
                Ok(_) => None,
            },
        }
    }

    fn overlap_issue(&self) -> (r: Option<ValidationIssue>)
        ensures
            issue_view(r) == self@.overlap_issue(),
    {
        if managed_paths_overlap(
            self.tasks_directory.as_str(),
            self.projects_directory.as_str(),
        ) {
            Some(
                ValidationIssue::error(
                    "managed_paths_not_distinct",
                    "Tasks and projects directories must be distinct and non-overlapping",
                ).at_path(CONFIG_PATH),
            )
        } else {
            None
        }
    }

    fn prefix_issue(&self) -> (r: Option<ValidationIssue>)
        ensures
            issue_view(r) == self@.prefix_issue(),
    {
        match validate_link_prefix(self.obsidian_link_prefix.as_str()) {
            Err(message) => Some(
                config_issue("invalid_link_prefix", message.as_str(), "obsidian_link_prefix"),
            ),
            Ok(_) => None,
        }
    }

    fn id_issue(&self, i: usize) -> (r: Option<ValidationIssue>)
        requires
            i < self.states@.len(),
        ensures
            issue_view(r) == self@.id_issue(i as int),
    {
        let id = self.states[i].id.as_str();
        if is_state_id(id) {
            None
        } else {
            let message = text::join2("Invalid state ID ", text::debug(id).as_str());
            Some(config_issue("invalid_state_id", message.as_str(), "states.id"))
        }
    }

    fn duplicate_issue(&self, i: usize) -> (r: Option<ValidationIssue>)
        requires
            i < self.states@.len(),
        ensures
            issue_view(r) == self@.duplicate_issue(i as int),
    {
        let mut j: usize = 0;
        while j < i
            invariant
                j <= i < self.states@.len(),
                forall|k: int|
                    0 <= k < j ==> (#[trigger] self@.states[k]).id != self@.states[i as int].id,
            decreases i - j,
        {
            if self.states[j].id == self.states[i].id {
                assert(self@.states[j as int].id == self@.states[i as int].id);
                let message = text::join3(
                    "State ID ",
                    text::debug(self.states[i].id.as_str()).as_str(),
                    " appears more than once",
                );
                return Some(config_issue("duplicate_state_id", message.as_str(), "states.id"));
            }
            j += 1;
        }
        None
    }

    fn name_issue(&self, i: usize) -> (r: Option<ValidationIssue>)
        requires
            i < self.states@.len(),
        ensures
            issue_view(r) == self@.name_issue(i as int),
    {
        let name = text::chars(self.states[i].name.as_str());
        if text::is_blank(&name) {
            Some(
                config_issue("invalid_state_name", "State names cannot be empty", "states.name"),
            )
        } else {
            None
        }
    }

    fn nonterminal_issue(&self) -> (r: Option<ValidationIssue>)
        ensures
            issue_view(r) == self@.nonterminal_issue(),
    {
        let mut i: usize = 0;
        while i < self.states.len()
            invariant
                i <= self.states.len(),
                forall|k: int| 0 <= k < i ==> (#[trigger] self@.states[k]).terminal,
            decreases self.states.len() - i,
        {
            if !self.states[i].terminal {
                assert(!self@.states[i as int].terminal);
                return None;
            }
            i += 1;
        }
        Some(
            config_issue(
                "missing_nonterminal_state",
                "At least one state must be nonterminal",
                "states",
            ),
        )
    }

    fn default_issue(&self) -> (r: Option<ValidationIssue>)
        ensures
            issue_view(r) == self@.default_issue(),
    {
        match self.state_order(self.default_state.as_str()) {
            None => {
                let message = text::join3(
                    "Default state ",
                    text::debug(self.default_state.as_str()).as_str(),
                    " does not reference a configured state",
                );
                Some(config_issue("invalid_default_state", message.as_str(), "default_state"))
            },
            Some(i) => if self.states[i].terminal {
                Some(
                    config_issue(
                        "terminal_default_state",
                        "Default state must be nonterminal",
                        "default_state",
                    ),
                )
            } else {
                None
            },
        }
    }

    /// What is wrong with the configuration.
    #[must_use]
    pub fn validation_issues(&self) -> (r: Vec<ValidationIssue>)
        ensures
            error::issue_models(r@) == self@.issues(),
    {
        let mut issues: Vec<ValidationIssue> = Vec::new();
        assert(error::issue_models(issues@) =~= Seq::<IssueModel>::empty());
        push_if(&mut issues, self.schema_issue());
        push_if(&mut issues, self.tasks_issue());
        push_if(&mut issues, self.projects_issue());
        push_if(&mut issues, self.overlap_issue());
        push_if(&mut issues, self.prefix_issue());
        let ghost before = error::issue_models(issues@);
        assert(before =~= issue_if(self@.schema_issue()) + issue_if(self@.tasks_issue())
            + issue_if(self@.projects_issue()) + issue_if(self@.overlap_issue()) + issue_if(
            self@.prefix_issue(),
        ));
        assert(before =~= before + self@.state_issues(0));
        let mut i: usize = 0;
        while i < self.states.len()
            invariant
                i <= self.states.len(),
                error::issue_models(issues@) == before + self@.state_issues(i as int),
            decreases self.states.len() - i,
        {
            push_if(&mut issues, self.id_issue(i));
            push_if(&mut issues, self.duplicate_issue(i));
            push_if(&mut issues, self.name_issue(i));
            assert(error::issue_models(issues@) =~= before + self@.state_issues(i + 1));
            i += 1;
        }
        push_if(&mut issues, self.nonterminal_issue());
        push_if(&mut issues, self.default_issue());
        assert(error::issue_models(issues@) =~= self@.issues());
        issues
    }

    /// The state with the ID.
    #[must_use]
    pub fn state(&self, id: &str) -> (r: Option<&State>)
        ensures
            match self@.place(id@) {
                Some(i) => r matches Some(state) && state@ == self@.states[i],
                None => r is None,
            },
    {
        match self.state_order(id) {
            Some(i) => Some(&self.states[i]),
            None => None,
        }
    }

    /// The place of the state with the ID in the order of states.
    #[must_use]
    pub fn state_order(&self, id: &str) -> (r: Option<usize>)
        ensures
            (match r {
                Some(i) => Some(i as int),
                None => None,
            }) == self@.place(id@),
            r matches Some(i) ==> i < self.states@.len(),
    {
        let mut i: usize = 0;
        while i < self.states.len()
            invariant
                i <= self.states.len(),
                self@.place(id@) == self@.place_from(id@, i as int),
            decreases self.states.len() - i,
        {
            assert(self@.states[i as int].id == self.states@[i as int].id@);
            if text::same(self.states[i].id.as_str(), id) {
                return Some(i);
            }
            i += 1;
        }
        None
    }

    /// The directory of the tasks.
    pub fn tasks_path(&self) -> (r: Result<String, Error>)
        ensures
            error::viewed(r) == managed(self@.tasks_directory),
    {
        managed_path(self.tasks_directory.as_str())
    }

    /// The directory of the projects.
    pub fn projects_path(&self) -> (r: Result<String, Error>)
        ensures
            error::viewed(r) == managed(self@.projects_directory),
    {
        managed_path(self.projects_directory.as_str())
    }
}

/// The text with `/` for each `\\`.
pub open spec fn slashes(s: Seq<char>) -> Seq<char> {
    s.map_values(
        |c: char|
            if c == '\\' {
                '/'
            } else {
                c
            },
    )
}

fn with_slashes(s: &str) -> (r: String)
    ensures
        r@ == slashes(s@),
{
    let chars = text::chars(s);
    let mut r = String::new();
    let mut i: usize = 0;
    while i < chars.len()
        invariant
            i <= chars.len(),
            chars@ == s@,
            r@ == slashes(s@).take(i as int),
        decreases chars.len() - i,
    {
        let c = chars[i];
        r.push(
            if c == '\\' {
                '/'
            } else {
                c
            },
        );
        i += 1;
    }
    assert(slashes(s@).take(i as int) =~= slashes(s@));
    r
}

/// What stands before a project's slug in a link to it.
pub open spec fn target_prefix(prefix: Seq<char>, directory: Seq<char>) -> Seq<char> {
    if prefix.len() == 0 {
        slashes(directory) + "/"@
    } else {
        prefix + "/"@ + slashes(directory) + "/"@
    }
}

impl ConfigModel {
    /// What stands before a project's slug in a link to it.
    pub open spec fn link_target_prefix(self) -> Seq<char> {
        target_prefix(self.obsidian_link_prefix, self.projects_directory)
    }

    /// The link to a project.
    pub open spec fn link(self, slug: Seq<char>) -> Seq<char> {
        "[["@ + self.link_target_prefix() + slug + "]]"@
    }

    /// The link to the file that lists a store's tasks.
    pub open spec fn base_link(self) -> Seq<char> {
        if self.obsidian_link_prefix.len() == 0 {
            "[["@ + TODOS_BASE_PATH@ + "]]"@
        } else {
            "[["@ + self.obsidian_link_prefix + "/"@ + TODOS_BASE_PATH@ + "]]"@
        }
    }

    /// The configuration of a new store.
    pub open spec fn default_with(prefix: Seq<char>) -> ConfigModel {
        ConfigModel {
            schema_version: SCHEMA_VERSION,
            tasks_directory: "Tasks"@,
            projects_directory: "Projects"@,
            obsidian_link_prefix: prefix,
            default_state: "open"@,
            states: seq![
                StateModel { id: "open"@, name: "Open"@, terminal: false },
                StateModel { id: "active"@, name: "Active"@, terminal: false },
                StateModel { id: "blocked"@, name: "Blocked"@, terminal: false },
                StateModel { id: "done"@, name: "Done"@, terminal: true },
                StateModel { id: "cancelled"@, name: "Cancelled"@, terminal: true },
            ],
        }
    }
}

fn make_state(id: &str, name: &str, terminal: bool) -> (r: State)
    ensures
        r@ == (StateModel { id: id@, name: name@, terminal }),
{
    State { id: id.to_owned(), name: name.to_owned(), terminal }
}

impl Config {
    /// The configuration of a new store.
    #[must_use]
    pub fn defaults(obsidian_link_prefix: String) -> (r: Self)
        ensures
            r@ == ConfigModel::default_with(obsidian_link_prefix@),
    {
        let mut states: Vec<State> = Vec::new();
        states.push(make_state("open", "Open", false));
        states.push(make_state("active", "Active", false));
        states.push(make_state("blocked", "Blocked", false));
        states.push(make_state("done", "Done", true));
        states.push(make_state("cancelled", "Cancelled", true));
        let r = Config {
            schema_version: SCHEMA_VERSION,
            tasks_directory: "Tasks".to_owned(),
            projects_directory: "Projects".to_owned(),
            obsidian_link_prefix,
            default_state: "open".to_owned(),
            states,
        };
        assert(r@.states =~= ConfigModel::default_with(r@.obsidian_link_prefix).states);
        r
    }

    /// The link to a project.
    #[must_use]
    pub fn project_link(&self, slug: &str) -> (r: String)
        ensures
            r@ == self@.link(slug@),
    {
        let prefix = self.project_link_target_prefix();
        text::join4("[[", prefix.as_str(), slug, "]]")
    }

    /// What stands before a project's slug in a link to it.
    #[must_use]
    pub fn project_link_target_prefix(&self) -> (r: String)
        ensures
            r@ == self@.link_target_prefix(),
    {
        let directory = with_slashes(self.projects_directory.as_str());
        if self.obsidian_link_prefix.as_str().is_empty() {
            text::join2(directory.as_str(), "/")
        } else {
            text::join4(self.obsidian_link_prefix.as_str(), "/", directory.as_str(), "/")
        }
    }

    /// The link to the file that lists a store's tasks.
    #[must_use]
    pub fn todos_base_link(&self) -> (r: String)
        ensures
            r@ == self@.base_link(),
    {
        if self.obsidian_link_prefix.as_str().is_empty() {
            text::join3("[[", TODOS_BASE_PATH, "]]")
        } else {
            text::join5("[[", self.obsidian_link_prefix.as_str(), "/", TODOS_BASE_PATH, "]]")
        }
    }
}

/// The error for a document that holds no configuration.
pub open spec fn shape_error(message: Seq<char>) -> ErrorModel {
    ErrorModel::validation("invalid_config"@, "Invalid configuration: "@ + message).with_path(
        CONFIG_PATH@,
    )
}

/// The error for a configuration with another schema version.
pub open spec fn version_error(version: int) -> ErrorModel {
    ErrorModel::unsupported(
        "unsupported_schema"@,
        "Schema version "@ + signed(version)
            + " is unsupported; supported versions are 1 and 2"@,
    ).with_path(CONFIG_PATH@).with_field("schema_version"@)
}

/// An integer as it is written.
pub open spec fn signed(n: int) -> Seq<char> {
    if n < 0 {
        "-"@ + text::decimal((-n) as nat)
    } else {
        text::decimal(n as nat)
    }
}

/// The value of the first entry, from the `i`-th on, with the key.
pub open spec fn entry_from(
    entries: Seq<(Seq<char>, TomlTree)>,
    key: Seq<char>,
    i: int,
) -> Option<TomlTree>
    decreases entries.len() - i,
{
    if i >= entries.len() {
        None
    } else if entries[i].0 == key {
        Some(entries[i].1)
    } else {
        entry_from(entries, key, i + 1)
    }
}

/// Whether a key is one of those listed.
pub open spec fn listed_key(key: Seq<char>, state: bool) -> bool {
    if state {
        key == "id"@ || key == "name"@ || key == "terminal"@
    } else {
        key == "schema_version"@ || key == "tasks_directory"@ || key == "projects_directory"@
            || key == "obsidian_link_prefix"@ || key == "default_state"@ || key == "states"@
    }
}

/// The first key, from the `i`-th on, that no configuration, or no state, has.
pub open spec fn unknown_from(
    entries: Seq<(Seq<char>, TomlTree)>,
    state: bool,
    i: int,
) -> Option<Seq<char>>
    decreases entries.len() - i,
{
    if i >= entries.len() {
        None
    } else if !listed_key(entries[i].0, state) {
        Some(entries[i].0)
    } else {
        unknown_from(entries, state, i + 1)
    }
}

/// What is said of a key that no configuration has.
pub open spec fn unknown_fault(key: Seq<char>) -> Seq<char> {
    "unknown field `"@ + key + "`"@
}

/// What is said of a key that is not there.
pub open spec fn missing_fault(key: Seq<char>) -> Seq<char> {
    "missing field `"@ + key + "`"@
}

/// What is said of a value of another type.
pub open spec fn type_fault(key: Seq<char>, expected: Seq<char>) -> Seq<char> {
    "invalid type for `"@ + key + "`, expected "@ + expected
}

/// The text that a value is. A date or a time may stand for its text.
pub open spec fn text_tree(tree: TomlTree) -> Option<Seq<char>> {
    match tree {
        TomlTree::Text(s) => Some(s),
        TomlTree::Moment(s) => Some(s),
        _ => None,
    }
}

/// The text with the key.
pub open spec fn text_entry(entries: Seq<(Seq<char>, TomlTree)>, key: Seq<char>) -> Result<
    Seq<char>,
    Seq<char>,
> {
    match entry_from(entries, key, 0) {
        Some(tree) => match text_tree(tree) {
            Some(s) => Ok(s),
            None => Err(type_fault(key, "a string"@)),
        },
        None => Err(missing_fault(key)),
    }
}

/// The boolean with the key.
pub open spec fn bool_entry(entries: Seq<(Seq<char>, TomlTree)>, key: Seq<char>) -> Result<
    bool,
    Seq<char>,
> {
    match entry_from(entries, key, 0) {
        Some(TomlTree::Boolean(b)) => Ok(b),
        Some(_) => Err(type_fault(key, "a boolean"@)),
        None => Err(missing_fault(key)),
    }
}

/// The state that a list holds: its ID, its name, and whether it is terminal.
pub open spec fn listed_state(items: Seq<TomlTree>) -> Option<StateModel> {
    if items.len() == 3 {
        match (text_tree(items[0]), text_tree(items[1]), items[2]) {
            (Some(id), Some(name), TomlTree::Boolean(terminal)) => Some(
                StateModel { id, name, terminal },
            ),
            _ => None,
        }
    } else {
        None
    }
}

/// The state that a table or a list holds. Where keys are checked, a table has no others than a
/// state's.
pub open spec fn decode_state(tree: TomlTree, strict: bool) -> Result<StateModel, Seq<char>> {
    match tree {
        TomlTree::Table(entries) => match unknown_from(entries, true, 0) {
            Some(key) if strict => Err(unknown_fault(key)),
            _ => match text_entry(entries, "id"@) {
                Err(e) => Err(e),
                Ok(id) => match text_entry(entries, "name"@) {
                    Err(e) => Err(e),
                    Ok(name) => match bool_entry(entries, "terminal"@) {
                        Err(e) => Err(e),
                        Ok(terminal) => Ok(StateModel { id, name, terminal }),
                    },
                },
            },
        },
        TomlTree::List(items) => match listed_state(items) {
            Some(state) => Ok(state),
            None => Err(type_fault("states"@, "a list of tables"@)),
        },
        _ => Err(type_fault("states"@, "a list of tables"@)),
    }
}

/// The states that the items from the `i`-th on hold, after those in `found`.
pub open spec fn decode_states(
    items: Seq<TomlTree>,
    strict: bool,
    i: int,
    found: Seq<StateModel>,
) -> Result<Seq<StateModel>, Seq<char>>
    decreases items.len() - i,
{
    if i >= items.len() {
        Ok(found)
    } else {
        match decode_state(items[i], strict) {
            Err(e) => Err(e),
            Ok(state) => decode_states(items, strict, i + 1, found.push(state)),
        }
    }
}

/// The configuration that a table holds, whose schema version is supported where it is an
/// integer. Where keys are checked, it has no others than a configuration's.
pub open spec fn decode_entries(entries: Seq<(Seq<char>, TomlTree)>, strict: bool) -> Result<
    ConfigModel,
    Seq<char>,
> {
    match unknown_from(entries, false, 0) {
        Some(key) if strict => Err(unknown_fault(key)),
        _ => match entry_from(entries, "schema_version"@, 0) {
            None => Err(missing_fault("schema_version"@)),
            Some(TomlTree::Integer(version)) => match text_entry(entries, "tasks_directory"@) {
                Err(e) => Err(e),
                Ok(tasks_directory) => match text_entry(entries, "projects_directory"@) {
                    Err(e) => Err(e),
                    Ok(projects_directory) => match text_entry(entries, "obsidian_link_prefix"@) {
                        Err(e) => Err(e),
                        Ok(obsidian_link_prefix) => match text_entry(entries, "default_state"@) {
                            Err(e) => Err(e),
                            Ok(default_state) => match entry_from(entries, "states"@, 0) {
                                None => Err(missing_fault("states"@)),
                                Some(TomlTree::List(items)) => match decode_states(
                                    items,
                                    strict,
                                    0,
                                    seq![],
                                ) {
                                    Err(e) => Err(e),
                                    Ok(states) => Ok(
                                        ConfigModel {
                                            schema_version: version as u32,
                                            tasks_directory,
                                            projects_directory,
                                            obsidian_link_prefix,
                                            default_state,
                                            states,
                                        },
                                    ),
                                },
                                Some(_) => Err(type_fault("states"@, "a list of tables"@)),
                            },
                        },
                    },
                },
            },
            Some(_) => Err(type_fault("schema_version"@, "an integer"@)),
        },
    }
}

/// The configuration that a document holds, before its rules are checked.
pub open spec fn decode_config(tree: TomlTree) -> Result<ConfigModel, ErrorModel> {
    match tree {
        TomlTree::Table(entries) => match entry_from(entries, "schema_version"@, 0) {
            Some(TomlTree::Integer(version)) if !supported(version) => Err(
                version_error(version),
            ),
            _ => match decode_entries(entries, true) {
                Ok(config) => Ok(config),
                Err(message) => Err(shape_error(message)),
            },
        },
        _ => Err(shape_error("expected a table"@)),
    }
}

/// The error for a text that is no document.
pub open spec fn syntax_error(
    source: Seq<char>,
    message: Seq<char>,
    start: Option<usize>,
) -> ErrorModel {
    let error = shape_error(message);
    match start {
        Some(offset) => {
            let (line, column) = location(source, offset as int);
            error.with_location(line as usize, column as usize)
        },
        None => error,
    }
}

/// The error for a configuration whose first issue is the given one.
pub open spec fn issue_error(issue: IssueModel) -> ErrorModel {
    let error = ErrorModel::validation(issue.code, issue.message).with_path(CONFIG_PATH@);
    match issue.field {
        Some(field) => error.with_field(field),
        None => error,
    }
}

/// The configuration that the outcome of reading a document amounts to.
pub open spec fn config_from(
    source: Seq<char>,
    outcome: Result<TomlTree, (Seq<char>, Option<usize>)>,
) -> Result<ConfigModel, ErrorModel> {
    match outcome {
        Err((message, start)) => Err(syntax_error(source, message, start)),
        Ok(tree) => match decode_config(tree) {
            Err(e) => Err(e),
            Ok(config) => if config.issues().len() > 0 {
                Err(issue_error(config.issues()[0]))
            } else {
                Ok(config)
            },
        },
    }
}

fn format_signed(n: i64) -> (r: String)
    ensures
        r@ == signed(n as int),
{
    if n < 0 {
        let size: u64 = (-(n as i128)) as u64;
        text::join2("-", text::format_number(size).as_str())
    } else {
        text::format_number(n as u64)
    }
}

fn shape(message: &str) -> (r: Error)
    ensures
        r@ == shape_error(message@),
{
    Error::validation(
        "invalid_config",
        text::join2("Invalid configuration: ", message).as_str(),
    ).with_path(CONFIG_PATH)
}

/// The result, with what its value says, and its words, in place of them.
spec fn read_as<T: View>(r: Result<T, String>) -> Result<T::V, Seq<char>> {
    match r {
        Ok(value) => Ok(value@),
        Err(message) => Err(message@),
    }
}

fn wrong_type(key: &str, expected: &str) -> (r: String)
    ensures
        r@ == type_fault(key@, expected@),
{
    text::join4("invalid type for `", key, "`, expected ", expected)
}

fn missing(key: &str) -> (r: String)
    ensures
        r@ == missing_fault(key@),
{
    text::join3("missing field `", key, "`")
}

/// What the entries of a table hold.
spec fn entry_trees(entries: Seq<(&str, &toml::Value)>) -> Seq<(Seq<char>, TomlTree)> {
    entries.map_values(|entry: (&str, &toml::Value)| (entry.0@, documents::toml_tree(*entry.1)))
}

fn lookup<'a>(entries: &Vec<(&'a str, &'a toml::Value)>, key: &str) -> (r: Option<&'a toml::Value>)
    ensures
        (match r {
            Some(value) => Some(documents::toml_tree(*value)),
            None => None,
        }) == entry_from(entry_trees(entries@), key@, 0),
{
    let mut i: usize = 0;
    while i < entries.len()
        invariant
            i <= entries.len(),
            entry_from(entry_trees(entries@), key@, 0) == entry_from(
                entry_trees(entries@),
                key@,
                i as int,
            ),
        decreases entries.len() - i,
    {
        let (name, value) = entries[i];
        assert(entry_trees(entries@)[i as int] == (name@, documents::toml_tree(*value)));
        if text::same(name, key) {
            return Some(value);
        }
        i += 1;
    }
    None
}

fn is_listed_key(key: &str, state: bool) -> (r: bool)
    ensures
        r == listed_key(key@, state),
{
    if state {
        text::same(key, "id") || text::same(key, "name") || text::same(key, "terminal")
    } else {
        text::same(key, "schema_version") || text::same(key, "tasks_directory") || text::same(
            key,
            "projects_directory",
        ) || text::same(key, "obsidian_link_prefix") || text::same(key, "default_state")
            || text::same(key, "states")
    }
}

fn find_unknown<'a>(entries: &Vec<(&'a str, &'a toml::Value)>, state: bool) -> (r: Option<&'a str>)
    ensures
        (match r {
            Some(key) => Some(key@),
            None => None,
        }) == unknown_from(entry_trees(entries@), state, 0),
{
    let mut i: usize = 0;
    while i < entries.len()
        invariant
            i <= entries.len(),
            unknown_from(entry_trees(entries@), state, 0) == unknown_from(
                entry_trees(entries@),
                state,
                i as int,
            ),
        decreases entries.len() - i,
    {
        let (name, value) = entries[i];
        assert(entry_trees(entries@)[i as int] == (name@, documents::toml_tree(*value)));
        if !is_listed_key(name, state) {
            return Some(name);
        }
        i += 1;
    }
    None
}

fn text_in(value: &toml::Value) -> (r: Option<String>)
    ensures
        text::opt(r) == text_tree(documents::toml_tree(*value)),
{
    match documents::open(value) {
        TomlNode::Text(s) => Some(s.to_owned()),
        TomlNode::Moment(s) => Some(s),
        _ => None,
    }
}

fn text_of(entries: &Vec<(&str, &toml::Value)>, key: &str) -> (r: Result<String, String>)
    ensures
        read_as(r) == text_entry(entry_trees(entries@), key@),
{
    match lookup(entries, key) {
        None => Err(missing(key)),
        Some(value) => match text_in(value) {
            Some(s) => Ok(s),
            None => Err(wrong_type(key, "a string")),
        },
    }
}

fn bool_of(entries: &Vec<(&str, &toml::Value)>, key: &str) -> (r: Result<bool, String>)
    ensures
        read_as(r) == bool_entry(entry_trees(entries@), key@),
{
    match lookup(entries, key) {
        None => Err(missing(key)),
        Some(value) => match documents::open(value) {
            TomlNode::Boolean(b) => Ok(b),
            _ => Err(wrong_type(key, "a boolean")),
        },
    }
}

fn unknown(key: &str) -> (r: String)
    ensures
        r@ == unknown_fault(key@),
{
    text::join3("unknown field `", key, "`")
}

impl State {
    fn decode(value: &toml::Value, strict: bool) -> (r: Result<State, String>)
        ensures
            read_as(r) == decode_state(documents::toml_tree(*value), strict),
    {
        match documents::open(value) {
            TomlNode::Table(entries) => {
                assert(documents::toml_tree(*value)->Table_0 =~= entry_trees(entries@));
                if strict {
                    if let Some(key) = find_unknown(&entries, true) {
                        return Err(unknown(key));
                    }
                }
                let id = match text_of(&entries, "id") {
                    Ok(id) => id,
                    Err(e) => {
                        return Err(e);
                    },
                };
                let name = match text_of(&entries, "name") {
                    Ok(name) => name,
                    Err(e) => {
                        return Err(e);
                    },
                };
                match bool_of(&entries, "terminal") {
                    Ok(terminal) => Ok(State { id, name, terminal }),
                    Err(e) => Err(e),
                }
            },
            TomlNode::List(items) => {
                let ghost trees = documents::toml_tree(*value)->List_0;
                assert(trees.len() == items@.len());
                if items.len() == 3 {
                    assert(trees[0] == documents::toml_tree(*items@[0]));
                    assert(trees[1] == documents::toml_tree(*items@[1]));
                    assert(trees[2] == documents::toml_tree(*items@[2]));
                    if let (Some(id), Some(name), TomlNode::Boolean(terminal)) = (
                        text_in(items[0]),
                        text_in(items[1]),
                        documents::open(items[2]),
                    ) {
                        return Ok(State { id, name, terminal });
                    }
                }
                Err(wrong_type("states", "a list of tables"))
            },
            _ => Err(wrong_type("states", "a list of tables")),
        }
    }
}

/// The result of reading states, as what they say.
spec fn states_outcome(r: Result<Vec<State>, String>) -> Result<Seq<StateModel>, Seq<char>> {
    match r {
        Ok(states) => Ok(state_models(states@)),
        Err(e) => Err(e@),
    }
}

fn decode_all(items: &Vec<&toml::Value>, strict: bool) -> (r: Result<Vec<State>, String>)
    ensures
        states_outcome(r) == decode_states(
            items@.map_values(|item: &toml::Value| documents::toml_tree(*item)),
            strict,
            0,
            seq![],
        ),
{
    let ghost trees = items@.map_values(|item: &toml::Value| documents::toml_tree(*item));
    let mut found: Vec<State> = Vec::new();
    assert(state_models(found@) =~= Seq::<StateModel>::empty());
    let mut i: usize = 0;
    while i < items.len()
        invariant
            i <= items.len(),
            trees == items@.map_values(|item: &toml::Value| documents::toml_tree(*item)),
            decode_states(trees, strict, 0, seq![]) == decode_states(
                trees,
                strict,
                i as int,
                state_models(found@),
            ),
        decreases items.len() - i,
    {
        assert(trees[i as int] == documents::toml_tree(*items@[i as int]));
        match State::decode(items[i], strict) {
            Ok(state) => {
                let ghost before = state_models(found@);
                found.push(state);
                assert(state_models(found@) =~= before.push(state@));
            },
            Err(e) => {
                return Err(e);
            },
        }
        i += 1;
    }
    Ok(found)
}

fn issue_code(code: &str) -> (r: &'static str)
    ensures
        known_issue_code(code@) ==> r@ == code@,
{
    if text::same(code, "unsupported_schema") {
        "unsupported_schema"
    } else if text::same(code, "invalid_managed_path") {
        "invalid_managed_path"
    } else if text::same(code, "managed_paths_not_distinct") {
        "managed_paths_not_distinct"
    } else if text::same(code, "invalid_link_prefix") {
        "invalid_link_prefix"
    } else if text::same(code, "invalid_state_id") {
        "invalid_state_id"
    } else if text::same(code, "duplicate_state_id") {
        "duplicate_state_id"
    } else if text::same(code, "invalid_state_name") {
        "invalid_state_name"
    } else if text::same(code, "missing_nonterminal_state") {
        "missing_nonterminal_state"
    } else if text::same(code, "invalid_default_state") {
        "invalid_default_state"
    } else if text::same(code, "terminal_default_state") {
        "terminal_default_state"
    } else {
        "invalid_config"
    }
}

/// Whether a code is one that a configuration issue can have.
spec fn known_issue_code(code: Seq<char>) -> bool {
    code == "unsupported_schema"@ || code == "invalid_managed_path"@ || code
        == "managed_paths_not_distinct"@ || code == "invalid_link_prefix"@ || code
        == "invalid_state_id"@ || code == "duplicate_state_id"@ || code == "invalid_state_name"@
        || code == "missing_nonterminal_state"@ || code == "invalid_default_state"@ || code
        == "terminal_default_state"@
}

proof fn lemma_state_codes(config: ConfigModel, n: int)
    ensures
        forall|k: int|
            0 <= k < config.state_issues(n).len() ==> known_issue_code(
                (#[trigger] config.state_issues(n)[k]).code,
            ),
    decreases n,
{
    if n > 0 {
        lemma_state_codes(config, n - 1);
    }
}

proof fn lemma_issue_codes(config: ConfigModel)
    ensures
        forall|k: int|
            0 <= k < config.issues().len() ==> known_issue_code(
                (#[trigger] config.issues()[k]).code,
            ),
{
    lemma_state_codes(config, config.states.len() as int);
}

fn decode_table(entries: &Vec<(&str, &toml::Value)>, strict: bool) -> (r: Result<Config, String>)
    requires
        entry_from(entry_trees(entries@), "schema_version"@, 0) matches Some(
            TomlTree::Integer(version),
        ) ==> supported(version),
    ensures
        read_as(r) == decode_entries(entry_trees(entries@), strict),
{
    if strict {
        if let Some(key) = find_unknown(entries, false) {
            return Err(unknown(key));
        }
    }
    let schema_version: u32 = match lookup(entries, "schema_version") {
        None => {
            return Err(missing("schema_version"));
        },
        Some(value) => match documents::open(value) {
            TomlNode::Integer(n) => n as u32,
            _ => {
                return Err(wrong_type("schema_version", "an integer"));
            },
        },
    };
    let tasks_directory = match text_of(entries, "tasks_directory") {
        Ok(s) => s,
        Err(e) => {
            return Err(e);
        },
    };
    let projects_directory = match text_of(entries, "projects_directory") {
        Ok(s) => s,
        Err(e) => {
            return Err(e);
        },
    };
    let obsidian_link_prefix = match text_of(entries, "obsidian_link_prefix") {
        Ok(s) => s,
        Err(e) => {
            return Err(e);
        },
    };
    let default_state = match text_of(entries, "default_state") {
        Ok(s) => s,
        Err(e) => {
            return Err(e);
        },
    };
    match lookup(entries, "states") {
        None => Err(missing("states")),
        Some(value) => match documents::open(value) {
            TomlNode::List(items) => match decode_all(&items, strict) {
                Ok(states) => Ok(
                    Config {
                        schema_version,
                        tasks_directory,
                        projects_directory,
                        obsidian_link_prefix,
                        default_state,
                        states,
                    },
                ),
                Err(e) => Err(e),
            },
            _ => Err(wrong_type("states", "a list of tables")),
        },
    }
}

/// The schema version that a table has, where it is an integer.
pub open spec fn version_in(entries: Seq<(Seq<char>, TomlTree)>) -> Option<int> {
    match entry_from(entries, "schema_version"@, 0) {
        Some(TomlTree::Integer(version)) => Some(version),
        _ => None,
    }
}

fn declared_version(entries: &Vec<(&str, &toml::Value)>) -> (r: Option<i64>)
    ensures
        match r {
            Some(n) => version_in(entry_trees(entries@)) == Some(n as int),
            None => version_in(entry_trees(entries@)) is None,
        },
{
    match lookup(entries, "schema_version") {
        Some(value) => match documents::open(value) {
            TomlNode::Integer(n) => Some(n),
            _ => None,
        },
        None => None,
    }
}

pub(crate) fn unsupported_version(n: i64) -> (r: Error)
    ensures
        r@ == version_error(n as int),
{
    Error::unsupported(
        "unsupported_schema",
        text::join3(
            "Schema version ",
            format_signed(n).as_str(),
            " is unsupported; supported versions are 1 and 2",
        ).as_str(),
    ).with_path(CONFIG_PATH).with_field("schema_version")
}

impl Config {
    fn decode(value: &toml::Value) -> (r: Result<Config, Error>)
        ensures
            error::viewed(r) == decode_config(documents::toml_tree(*value)),
    {
        let entries = match documents::open(value) {
            TomlNode::Table(entries) => entries,
            _ => {
                return Err(shape("expected a table"));
            },
        };
        assert(documents::toml_tree(*value)->Table_0 =~= entry_trees(entries@));
        if let Some(n) = declared_version(&entries) {
            if n != 1 && n != 2 {
                return Err(unsupported_version(n));
            }
        }
        match decode_table(&entries, true) {
            Ok(config) => Ok(config),
            Err(message) => Err(shape(message.as_str())),
        }
    }

    /// The configuration that the outcome of reading a document amounts to: a document that
    /// holds one, whose schema version is supported and which breaks no rule.
    pub fn from_document(source: &str, document: Result<toml::Value, TomlFault>) -> (r: Result<
        Self,
        Error,
    >)
        requires
            source@.len() < usize::MAX,
        ensures
            error::viewed(r) == config_from(source@, documents::document_outcome(document)),
    {
        let value = match document {
            Ok(value) => value,
            Err(fault) => {
                let error = shape(fault.message.as_str());
                return Err(
                    match fault.start {
                        Some(offset) => {
                            let (line, column) = source_location(source, offset);
                            error.with_location(line, column)
                        },
                        None => error,
                    },
                );
            },
        };
        let config = match Config::decode(&value) {
            Ok(config) => config,
            Err(e) => {
                return Err(e);
            },
        };
        let issues = config.validation_issues();
        proof {
            lemma_issue_codes(config@);
        }
        if issues.len() > 0 {
            let issue = &issues[0];
            assert(error::issue_models(issues@)[0] == issue@);
            let error = Error::validation(
                issue_code(issue.code.as_str()),
                issue.message.as_str(),
            ).with_path(CONFIG_PATH);
            return Err(
                match &issue.field {
                    Some(field) => error.with_field(field.as_str()),
                    None => error,
                },
            );
        }
        Ok(config)
    }

    /// The configuration that a text holds.
    pub fn parse(source: &str) -> (r: Result<Self, Error>)
        requires
            source@.len() < usize::MAX,
        ensures
            error::viewed(r) == config_from(source@, documents::toml_outcome(source@)),
    {
        Config::from_document(source, documents::read_toml(source))
    }
}

/// The issue for a key that no configuration, or no state, has.
pub open spec fn unknown_issue(key: Seq<char>, state: bool) -> IssueModel {
    if state {
        IssueModel::error(
            "unknown_config_field"@,
            "Unknown state configuration field "@ + text::debug_text(key),
        ).at_path(CONFIG_PATH@).at_field("states."@ + key)
    } else {
        IssueModel::error(
            "unknown_config_field"@,
            "Unknown configuration field "@ + text::debug_text(key),
        ).at_path(CONFIG_PATH@).at_field(key)
    }
}

/// The issues for the first `n` keys of a table.
pub open spec fn key_issues(entries: Seq<(Seq<char>, TomlTree)>, state: bool, n: int) -> Seq<
    IssueModel,
>
    decreases n,
{
    if n <= 0 {
        seq![]
    } else if listed_key(entries[n - 1].0, state) {
        key_issues(entries, state, n - 1)
    } else {
        key_issues(entries, state, n - 1).push(unknown_issue(entries[n - 1].0, state))
    }
}

/// The issues for the keys of the first `n` states.
pub open spec fn state_key_issues(items: Seq<TomlTree>, n: int) -> Seq<IssueModel>
    decreases n,
{
    if n <= 0 {
        seq![]
    } else {
        state_key_issues(items, n - 1) + match items[n - 1] {
            TomlTree::Table(entries) => key_issues(entries, true, entries.len() as int),
            _ => seq![],
        }
    }
}

/// The issues for all keys of a configuration and of its states.
pub open spec fn all_key_issues(entries: Seq<(Seq<char>, TomlTree)>) -> Seq<IssueModel> {
    key_issues(entries, false, entries.len() as int) + match entry_from(entries, "states"@, 0) {
        Some(TomlTree::List(items)) => state_key_issues(items, items.len() as int),
        _ => seq![],
    }
}

/// The issue for a text that is no document.
pub open spec fn syntax_issue(
    source: Seq<char>,
    message: Seq<char>,
    start: Option<usize>,
) -> IssueModel {
    let issue = IssueModel::error(
        "invalid_config"@,
        "Invalid configuration syntax: "@ + message,
    ).at_path(CONFIG_PATH@);
    match start {
        Some(offset) => {
            let (line, column) = location(source, offset as int);
            issue.at_location(line as usize, column as usize)
        },
        None => issue,
    }
}

/// The issue for another schema version.
pub open spec fn version_issue(version: int) -> IssueModel {
    IssueModel::error(
        "unsupported_schema"@,
        "Schema version "@ + signed(version)
            + " is unsupported; supported versions are 1 and 2"@,
    ).at_path(CONFIG_PATH@).at_field("schema_version"@)
}

/// The configuration that the outcome of reading a document amounts to, as far as it can be
/// told, and all that is wrong with it. Keys that are unknown hide nothing else.
pub open spec fn inspected(
    source: Seq<char>,
    outcome: Result<TomlTree, (Seq<char>, Option<usize>)>,
) -> (Option<ConfigModel>, Seq<IssueModel>) {
    match outcome {
        Err((message, start)) => (None, seq![syntax_issue(source, message, start)]),
        Ok(TomlTree::Table(entries)) => match version_in(entries) {
            Some(version) if !supported(version) => (None, seq![version_issue(version)]),
            _ => match decode_entries(entries, false) {
                Err(message) => (
                    None,
                    all_key_issues(entries).push(
                        IssueModel::error(
                            "invalid_config"@,
                            "Invalid configuration values: "@ + message,
                        ).at_path(CONFIG_PATH@),
                    ),
                ),
                Ok(config) => (Some(config), all_key_issues(entries) + config.issues()),
            },
        },
        Ok(_) => (
            None,
            seq![
                IssueModel::error("invalid_config"@, "Configuration root must be a table"@).at_path(
                    CONFIG_PATH@,
                ),
            ],
        ),
    }
}

fn add_key_issues(
    issues: &mut Vec<ValidationIssue>,
    entries: &Vec<(&str, &toml::Value)>,
    state: bool,
)
    ensures
        error::issue_models(final(issues)@) == error::issue_models(old(issues)@) + key_issues(
            entry_trees(entries@),
            state,
            entries@.len() as int,
        ),
{
    let ghost had = error::issue_models(issues@);
    let ghost trees = entry_trees(entries@);
    let mut i: usize = 0;
    assert(had =~= had + key_issues(trees, state, 0));
    while i < entries.len()
        invariant
            i <= entries@.len(),
            trees == entry_trees(entries@),
            error::issue_models(issues@) == had + key_issues(trees, state, i as int),
        decreases entries.len() - i,
    {
        let key = entries[i].0;
        assert(trees[i as int].0 == key@);
        if !is_listed_key(key, state) {
            let issue = if state {
                config_issue(
                    "unknown_config_field",
                    text::join2(
                        "Unknown state configuration field ",
                        text::debug(key).as_str(),
                    ).as_str(),
                    text::join2("states.", key).as_str(),
                )
            } else {
                config_issue(
                    "unknown_config_field",
                    text::join2(
                        "Unknown configuration field ",
                        text::debug(key).as_str(),
                    ).as_str(),
                    key,
                )
            };
            error::add_issue(issues, issue);
            assert(error::issue_models(issues@) =~= had + key_issues(trees, state, i + 1));
        }
        i += 1;
    }
}

fn add_state_key_issues(issues: &mut Vec<ValidationIssue>, items: &Vec<&toml::Value>)
    ensures
        error::issue_models(final(issues)@) == error::issue_models(old(issues)@) + state_key_issues(
            items@.map_values(|item: &toml::Value| documents::toml_tree(*item)),
            items@.len() as int,
        ),
{
    let ghost had = error::issue_models(issues@);
    let ghost trees = items@.map_values(|item: &toml::Value| documents::toml_tree(*item));
    let mut i: usize = 0;
    assert(had =~= had + state_key_issues(trees, 0));
    while i < items.len()
        invariant
            i <= items@.len(),
            trees == items@.map_values(|item: &toml::Value| documents::toml_tree(*item)),
            error::issue_models(issues@) == had + state_key_issues(trees, i as int),
        decreases items.len() - i,
    {
        assert(trees[i as int] == documents::toml_tree(*items@[i as int]));
        if let TomlNode::Table(entries) = documents::open(items[i]) {
            assert(trees[i as int]->Table_0 =~= entry_trees(entries@));
            add_key_issues(issues, &entries, true);
        }
        assert(error::issue_models(issues@) =~= had + state_key_issues(trees, i + 1));
        i += 1;
    }
}

/// What a configuration that may be missing says.
pub open spec fn opt_config(config: Option<Config>) -> Option<ConfigModel> {
    match config {
        Some(config) => Some(config@),
        None => None,
    }
}

impl Config {
    /// The configuration that the outcome of reading a document amounts to, as far as it can
    /// be told, and all that is wrong with it. See [`inspected`].
    pub fn inspect_document(source: &str, document: Result<toml::Value, TomlFault>) -> (r: (
        Option<Self>,
        Vec<ValidationIssue>,
    ))
        requires
            source@.len() < usize::MAX,
        ensures
            (opt_config(r.0), error::issue_models(r.1@)) == inspected(
                source@,
                documents::document_outcome(document),
            ),
    {
        let mut issues: Vec<ValidationIssue> = Vec::new();
        assert(error::issue_models(issues@) =~= Seq::<IssueModel>::empty());
        let value = match document {
            Ok(value) => value,
            Err(fault) => {
                let issue = ValidationIssue::error(
                    "invalid_config",
                    text::join2(
                        "Invalid configuration syntax: ",
                        fault.message.as_str(),
                    ).as_str(),
                ).at_path(CONFIG_PATH);
                let issue = match fault.start {
                    Some(offset) => {
                        let (line, column) = source_location(source, offset);
                        issue.at_location(line, column)
                    },
                    None => issue,
                };
                error::add_issue(&mut issues, issue);
                return (None, issues);
            },
        };
        let entries = match documents::open(&value) {
            TomlNode::Table(entries) => entries,
            _ => {
                error::add_issue(
                    &mut issues,
                    ValidationIssue::error(
                        "invalid_config",
                        "Configuration root must be a table",
                    ).at_path(CONFIG_PATH),
                );
                return (None, issues);
            },
        };
        assert(documents::toml_tree(value)->Table_0 =~= entry_trees(entries@));
        if let Some(n) = declared_version(&entries) {
            if n != 1 && n != 2 {
                error::add_issue(
                    &mut issues,
                    config_issue(
                        "unsupported_schema",
                        text::join3(
                            "Schema version ",
                            format_signed(n).as_str(),
                            " is unsupported; supported versions are 1 and 2",
                        ).as_str(),
                        "schema_version",
                    ),
                );
                return (None, issues);
            }
        }
        add_key_issues(&mut issues, &entries, false);
        if let Some(states) = lookup(&entries, "states") {
            if let TomlNode::List(items) = documents::open(states) {
                add_state_key_issues(&mut issues, &items);
            }
        }
        assert(error::issue_models(issues@) =~= all_key_issues(entry_trees(entries@)));
        match decode_table(&entries, false) {
            Ok(config) => {
                error::add_issues(&mut issues, config.validation_issues());
                (Some(config), issues)
            },
            Err(message) => {
                error::add_issue(
                    &mut issues,
                    ValidationIssue::error(
                        "invalid_config",
                        text::join2("Invalid configuration values: ", message.as_str()).as_str(),
                    ).at_path(CONFIG_PATH),
                );
                (None, issues)
            },
        }
    }

    /// The configuration that a text holds, as far as it can be told, and all that is wrong
    /// with it.
    pub fn inspect(source: &str) -> (r: (Option<Self>, Vec<ValidationIssue>))
        requires
            source@.len() < usize::MAX,
        ensures
            (opt_config(r.0), error::issue_models(r.1@)) == inspected(
                source@,
                documents::toml_outcome(source@),
            ),
    {
        Config::inspect_document(source, documents::read_toml(source))
    }
}

impl State {
    fn is_same(&self, other: &State) -> (r: bool)
        ensures
            r == (self@ == other@),
    {
        text::same(self.id.as_str(), other.id.as_str()) && text::same(
            self.name.as_str(),
            other.name.as_str(),
        ) && self.terminal == other.terminal
    }
}

impl Config {
    /// Whether two configurations say the same.
    pub(crate) fn is_same(&self, other: &Config) -> (r: bool)
        ensures
            r == (self@ == other@),
    {
        let ghost a = self@;
        let ghost b = other@;
        if self.schema_version != other.schema_version || !text::same(
            self.tasks_directory.as_str(),
            other.tasks_directory.as_str(),
        ) || !text::same(self.projects_directory.as_str(), other.projects_directory.as_str())
            || !text::same(
            self.obsidian_link_prefix.as_str(),
            other.obsidian_link_prefix.as_str(),
        ) || !text::same(self.default_state.as_str(), other.default_state.as_str())
            || self.states.len() != other.states.len() {
            assert(a.states.len() == self.states@.len() && b.states.len() == other.states@.len());
            return false;
        }
        let mut i: usize = 0;
        while i < self.states.len()
            invariant
                i <= self.states@.len() == other.states@.len(),
                a == self@,
                b == other@,
                a.states == state_models(self.states@),
                b.states == state_models(other.states@),
                forall|k: int| 0 <= k < i ==> (#[trigger] a.states[k]) == b.states[k],
            decreases self.states.len() - i,
        {
            assert(a.states[i as int] == self.states@[i as int]@);
            assert(b.states[i as int] == other.states@[i as int]@);
            if !self.states[i].is_same(&other.states[i]) {
                return false;
            }
            i += 1;
        }
        assert(a.states =~= b.states);
        true
    }
}

/// The table that a state is written as.
pub open spec fn state_tree(state: StateModel) -> TomlTree {
    TomlTree::Table(
        seq![
            ("id"@, TomlTree::Text(state.id)),
            ("name"@, TomlTree::Text(state.name)),
            ("terminal"@, TomlTree::Boolean(state.terminal)),
        ],
    )
}

/// The document that a configuration is written as.
pub open spec fn config_tree(config: ConfigModel) -> TomlTree {
    TomlTree::Table(
        seq![
            ("schema_version"@, TomlTree::Integer(config.schema_version as int)),
            ("tasks_directory"@, TomlTree::Text(config.tasks_directory)),
            ("projects_directory"@, TomlTree::Text(config.projects_directory)),
            ("obsidian_link_prefix"@, TomlTree::Text(config.obsidian_link_prefix)),
            ("default_state"@, TomlTree::Text(config.default_state)),
            ("states"@, TomlTree::List(config.states.map_values(|s: StateModel| state_tree(s)))),
        ],
    )
}

/// The result of writing a configuration as the given document.
pub open spec fn written(pretty: Result<Seq<char>, Seq<char>>) -> Result<Seq<char>, ErrorModel> {
    match pretty {
        Ok(s) => Ok(s),
        Err(message) => Err(
            ErrorModel::validation(
                "config_serialization_failed"@,
                "Could not serialize configuration: "@ + message,
            ),
        ),
    }
}

/// A configuration as a TOML document, where its texts have no 256 quotes in a row.
pub open spec fn config_text(config: ConfigModel) -> Result<Seq<char>, ErrorModel> {
    if config.few_quotes() {
        written(documents::toml_pretty(config_tree(config)))
    } else {
        written(Err("a text holds too many quotes in a row"@))
    }
}

fn text_value(s: &str) -> (r: toml::Value)
    ensures
        documents::toml_tree(r) == TomlTree::Text(s@),
{
    documents::build(TomlPart::Text(s.to_owned()))
}

proof fn lemma_config_keys()
    ensures
        "schema_version"@.len() == 14,
        "tasks_directory"@.len() == 15,
        "projects_directory"@.len() == 18,
        "obsidian_link_prefix"@.len() == 20,
        "default_state"@.len() == 13,
        "states"@.len() == 6,
        "id"@.len() == 2,
        "name"@.len() == 4,
        "terminal"@.len() == 8,
{
    reveal_strlit("schema_version");
    reveal_strlit("tasks_directory");
    reveal_strlit("projects_directory");
    reveal_strlit("obsidian_link_prefix");
    reveal_strlit("default_state");
    reveal_strlit("states");
    reveal_strlit("id");
    reveal_strlit("name");
    reveal_strlit("terminal");
}

impl State {
    fn encode(&self) -> (r: toml::Value)
        ensures
            documents::toml_tree(r) == state_tree(self@),
    {
        let id = text_value(self.id.as_str());
        let name = text_value(self.name.as_str());
        let terminal = documents::build(TomlPart::Boolean(self.terminal));
        let mut entries: Vec<(String, toml::Value)> = Vec::new();
        entries.push(("id".to_owned(), id));
        entries.push(("name".to_owned(), name));
        entries.push(("terminal".to_owned(), terminal));
        let part = TomlPart::Table(entries);
        proof {
            lemma_config_keys();
            assert(part.tree()->Table_0 =~= state_tree(self@)->Table_0);
        }
        documents::build(part)
    }
}

impl Config {
    fn encode(&self) -> (r: toml::Value)
        ensures
            documents::toml_tree(r) == config_tree(self@),
    {
        let mut states: Vec<toml::Value> = Vec::new();
        let ghost trees = self@.states.map_values(|s: StateModel| state_tree(s));
        let mut i: usize = 0;
        while i < self.states.len()
            invariant
                i <= self.states.len(),
                states@.len() == i,
                trees == self@.states.map_values(|s: StateModel| state_tree(s)),
                forall|k: int|
                    0 <= k < i ==> documents::toml_tree(#[trigger] states@[k]) == trees[k],
            decreases self.states.len() - i,
        {
            assert(self@.states[i as int] == self.states@[i as int]@);
            states.push(self.states[i].encode());
            i += 1;
        }
        let list = TomlPart::List(states);
        assert(list.tree()->List_0 =~= trees);
        let mut entries: Vec<(String, toml::Value)> = Vec::new();
        entries.push(
            (
                "schema_version".to_owned(),
                documents::build(TomlPart::Integer(self.schema_version as i64)),
            ),
        );
        entries.push(("tasks_directory".to_owned(), text_value(self.tasks_directory.as_str())));
        entries.push(
            ("projects_directory".to_owned(), text_value(self.projects_directory.as_str())),
        );
        entries.push(
            ("obsidian_link_prefix".to_owned(), text_value(self.obsidian_link_prefix.as_str())),
        );
        entries.push(("default_state".to_owned(), text_value(self.default_state.as_str())));
        entries.push(("states".to_owned(), documents::build(list)));
        let part = TomlPart::Table(entries);
        proof {
            lemma_config_keys();
            assert(part.tree()->Table_0 =~= config_tree(self@)->Table_0);
        }
        documents::build(part)
    }

    /// The configuration as a TOML document. Where no text of a configuration with states
    /// holds control characters, the document is read back as it was.
    pub fn to_toml(&self) -> (r: Result<String, Error>)
        ensures
            error::viewed(r) == config_text(self@),
            r matches Ok(s) ==> documents::record_document(config_tree(self@))
                ==> documents::toml_outcome(s@) == Ok::<TomlTree, (Seq<char>, Option<usize>)>(
                config_tree(self@),
            ),
    {
        if !self.has_few_quotes() {
            return Err(unwritten("a text holds too many quotes in a row"));
        }
        proof {
            lemma_few_quotes(self@);
        }
        match documents::write_toml(&self.encode()) {
            Ok(s) => Ok(s),
            Err(message) => Err(unwritten(message.as_str())),
        }
    }

    fn has_few_quotes(&self) -> (r: bool)
        ensures
            r == self@.few_quotes(),
    {
        if !documents::has_few_quotes(self.tasks_directory.as_str()) || !documents::has_few_quotes(
            self.projects_directory.as_str(),
        ) || !documents::has_few_quotes(self.obsidian_link_prefix.as_str())
            || !documents::has_few_quotes(self.default_state.as_str()) {
            return false;
        }
        let mut i: usize = 0;
        while i < self.states.len()
            invariant
                i <= self.states.len(),
                forall|k: int|
                    0 <= k < i ==> documents::few_quotes((#[trigger] self@.states[k]).id)
                        && documents::few_quotes(self@.states[k].name),
            decreases self.states.len() - i,
        {
            assert(self@.states[i as int] == self.states@[i as int]@);
            if !documents::has_few_quotes(self.states[i].id.as_str())
                || !documents::has_few_quotes(self.states[i].name.as_str()) {
                return false;
            }
            i += 1;
        }
        true
    }
}

fn unwritten(message: &str) -> (r: Error)
    ensures
        Err::<Seq<char>, ErrorModel>(r@) == written(Err(message@)),
{
    Error::validation(
        "config_serialization_failed",
        text::join2("Could not serialize configuration: ", message).as_str(),
    )
}

/// The document of a configuration has few quotes where its texts do.
proof fn lemma_few_quotes(config: ConfigModel)
    requires
        config.few_quotes(),
    ensures
        documents::few_quotes_in(config_tree(config)),
{
    lemma_config_keys();
    documents::lemma_few_quotes("schema_version"@);
    documents::lemma_few_quotes("tasks_directory"@);
    documents::lemma_few_quotes("projects_directory"@);
    documents::lemma_few_quotes("obsidian_link_prefix"@);
    documents::lemma_few_quotes("default_state"@);
    documents::lemma_few_quotes("states"@);
    documents::lemma_few_quotes("id"@);
    documents::lemma_few_quotes("name"@);
    documents::lemma_few_quotes("terminal"@);
    reveal_with_fuel(documents::few_quotes_in, 4);
    let entries = config_tree(config)->Table_0;
    let items = entries[5].1->List_0;
    assert forall|i: int| 0 <= i < items.len() implies documents::few_quotes_in(
        #[trigger] items[i],
    ) by {
        let state = config.states[i];
        assert(items[i] == state_tree(state));
        assert(documents::few_quotes(state.id) && documents::few_quotes(state.name));
    }
    assert(documents::few_quotes_in(entries[5].1));
}

impl ConfigModel {
    /// Whether no text of the configuration has 256 of a quote in a row.
    pub open spec fn few_quotes(self) -> bool {
        &&& documents::few_quotes(self.tasks_directory)
        &&& documents::few_quotes(self.projects_directory)
        &&& documents::few_quotes(self.obsidian_link_prefix)
        &&& documents::few_quotes(self.default_state)
        &&& forall|i: int|
            0 <= i < self.states.len() ==> documents::few_quotes((#[trigger] self.states[i]).id)
                && documents::few_quotes(self.states[i].name)
    }

    /// Whether no text of the configuration holds control characters.
    pub open spec fn printable(self) -> bool {
        &&& documents::printable(self.tasks_directory)
        &&& documents::printable(self.projects_directory)
        &&& documents::printable(self.obsidian_link_prefix)
        &&& documents::printable(self.default_state)
        &&& forall|i: int|
            0 <= i < self.states.len() ==> documents::printable((#[trigger] self.states[i]).id)
                && documents::printable(self.states[i].name)
    }
}

proof fn lemma_states_decode(config: ConfigModel, i: int)
    requires
        0 <= i <= config.states.len(),
    ensures
        decode_states(
            config.states.map_values(|s: StateModel| state_tree(s)),
            true,
            i,
            config.states.take(i),
        ) == Ok::<Seq<StateModel>, Seq<char>>(config.states),
    decreases config.states.len() - i,
{
    let trees = config.states.map_values(|s: StateModel| state_tree(s));
    if i < config.states.len() {
        let state = config.states[i];
        lemma_config_keys();
        let entries = state_tree(state)->Table_0;
        reveal_with_fuel(entry_from, 4);
        reveal_with_fuel(unknown_from, 4);
        assert(decode_state(trees[i], true) == Ok::<StateModel, Seq<char>>(state));
        assert(config.states.take(i).push(state) =~= config.states.take(i + 1));
        lemma_states_decode(config, i + 1);
    } else {
        assert(config.states.take(i) =~= config.states);
    }
}

/// The document that a configuration without issues is written as holds that configuration;
/// and where no text holds control characters it is such that the writer's document is read
/// back as it was.
pub proof fn written_configurations_are_read_back(config: ConfigModel, source: Seq<char>)
    requires
        config.issues().len() == 0,
    ensures
        config_from(source, Ok(config_tree(config))) == Ok::<ConfigModel, ErrorModel>(config),
        config.printable() ==> documents::record_document(config_tree(config)),
{
    lemma_config_keys();
    let entries = config_tree(config)->Table_0;
    reveal_with_fuel(entry_from, 7);
    reveal_with_fuel(unknown_from, 7);
    assert(config.schema_issue() is None);
    lemma_states_decode(config, 0);
    assert(config.states.take(0) =~= Seq::<StateModel>::empty());
    assert(decode_config(config_tree(config)) == Ok::<ConfigModel, ErrorModel>(config));
    if config.printable() {
        assert(config.nonterminal_issue() is None);
        lemma_printable_keys();
        let items = entries.last().1->List_0;
        assert forall|i: int| 0 <= i < items.len() implies documents::record(
            #[trigger] items[i],
        ) by {
            let state = config.states[i];
            assert(items[i] == state_tree(state));
            assert(documents::printable(state.id) && documents::printable(state.name));
        }
    }
}

proof fn lemma_printable_keys()
    ensures
        documents::plain_key("schema_version"@),
        documents::plain_key("tasks_directory"@),
        documents::plain_key("projects_directory"@),
        documents::plain_key("obsidian_link_prefix"@),
        documents::plain_key("default_state"@),
        documents::plain_key("states"@),
        documents::plain_key("id"@),
        documents::plain_key("name"@),
        documents::plain_key("terminal"@),
{
    lemma_config_keys();
    reveal_strlit("schema_version");
    reveal_strlit("tasks_directory");
    reveal_strlit("projects_directory");
    reveal_strlit("obsidian_link_prefix");
    reveal_strlit("default_state");
    reveal_strlit("states");
    reveal_strlit("id");
    reveal_strlit("name");
    reveal_strlit("terminal");
    reveal_strlit("$__toml_private_datetime");
    assert("$__toml_private_datetime"@.len() == 24);
}

proof fn lemma_simple_directory(value: Seq<char>)
    requires
        value.len() > 2,
        forall|i: int|
            0 <= i < value.len() ==> text::is_lower(#[trigger] value[i]) || text::is_upper(
                value[i],
            ),
    ensures
        directory_fault(value) is None,
        link_prefix_fault(value) is None,
        paths::parts(value) == seq![(3int, value)],
{
    assert(!value.contains('/'));
    text::lemma_split_whole(value, '/');
    let pieces = text::split(value, '/');
    assert(pieces =~= seq![value]);
    assert(!odd_component(value));
    assert(value[0] != '.');
    reveal_strlit(".todo");
    assert(".todo"@[0] == '.');
    assert(pieces[0] == value);
    reveal_with_fuel(paths::kept, 2);
    assert(value != seq!['.']);
    assert(paths::part(value) == (3int, value));
    assert(paths::kept(pieces, 1) =~= seq![]);
    assert(seq![(3int, value)] + Seq::<(int, Seq<char>)>::empty() =~= seq![(3int, value)]);
}

/// The configuration of a new store has no issues but with its link prefix.
pub proof fn default_configuration_is_sound(prefix: Seq<char>)
    requires
        link_prefix_fault(prefix) is None,
    ensures
        ConfigModel::default_with(prefix).issues().len() == 0,
{
    let config = ConfigModel::default_with(prefix);
    reveal_strlit("Tasks");
    reveal_strlit("Projects");
    assert("Tasks"@.len() == 5);
    assert("Projects"@.len() == 8);
    lemma_simple_directory("Tasks"@);
    lemma_simple_directory("Projects"@);
    assert(paths::parts("Tasks"@).take(1) =~= paths::parts("Tasks"@));
    assert(paths::parts("Projects"@).take(1) =~= paths::parts("Projects"@));
    assert(paths::parts("Tasks"@)[0] != paths::parts("Projects"@)[0]);
    reveal_strlit("open");
    reveal_strlit("active");
    reveal_strlit("blocked");
    reveal_strlit("done");
    reveal_strlit("cancelled");
    assert("open"@.len() == 4 && "active"@.len() == 6 && "blocked"@.len() == 7);
    assert("done"@.len() == 4 && "cancelled"@.len() == 9);
    assert("open"@[0] == 'o' && "done"@[0] == 'd');
    reveal_strlit("Open");
    reveal_strlit("Active");
    reveal_strlit("Blocked");
    reveal_strlit("Done");
    reveal_strlit("Cancelled");
    assert("Open"@[0] == 'O' && "Open"@.len() == 4);
    assert("Active"@[0] == 'A' && "Active"@.len() == 6);
    assert("Blocked"@[0] == 'B' && "Blocked"@.len() == 7);
    assert("Done"@[0] == 'D' && "Done"@.len() == 4);
    assert("Cancelled"@[0] == 'C' && "Cancelled"@.len() == 9);
    reveal_with_fuel(ConfigModel::state_issues, 6);
    assert(config.states[0].terminal == false);
    assert(config.id_issue(0) is None && config.id_issue(1) is None && config.id_issue(2) is None
        && config.id_issue(3) is None && config.id_issue(4) is None);
    assert(config.duplicate_issue(0) is None && config.duplicate_issue(1) is None
        && config.duplicate_issue(2) is None && config.duplicate_issue(3) is None
        && config.duplicate_issue(4) is None);
    assert(config.name_issue(0) is None && config.name_issue(1) is None && config.name_issue(
        2,
    ) is None && config.name_issue(3) is None && config.name_issue(4) is None);
    assert(config.state_issues(5).len() == 0);
    assert(config.place(config.default_state) == Some(0int));
}

} // verus!
