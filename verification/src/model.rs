//! Tasks and projects, and the rules that their properties keep.
use vstd::prelude::*;

use crate::calendar::{self, Date, Time};
use crate::config::{Config, ConfigModel};
use crate::error::{self, Error, ErrorModel};
use crate::paths;
use crate::recurrence::{self, RecurrenceMode, RecurrenceRule, RuleModel};
use crate::text;
use crate::url;
use crate::yaml::{self, YamlNode, YamlTree};

pub use crate::parents::{analyze_parents, ParentRecord};
pub use crate::url::validate_url;

verus! {

/// A task.
#[derive(Debug, PartialEq)]
pub struct Task {
    pub id: String,
    pub path: String,
    pub name: String,
    pub state: String,
    pub projects: Vec<String>,
    pub tags: Vec<String>,
    pub parent: Option<String>,
    pub url: Option<String>,
    pub due_date: Option<Date>,
    pub due_time: Option<Time>,
    pub recurrence: Option<RecurrenceRule>,
    pub recurrence_from: Option<RecurrenceMode>,
    pub last_completed_date: Option<Date>,
    pub body: String,
    pub extra_properties: serde_yaml_ng::Mapping,
}

/// What a task says.
#[verifier::ext_equal]
pub struct TaskModel {
    pub id: Seq<char>,
    pub path: Seq<char>,
    pub name: Seq<char>,
    pub state: Seq<char>,
    pub projects: Seq<Seq<char>>,
    pub tags: Seq<Seq<char>>,
    pub parent: Option<Seq<char>>,
    pub url: Option<Seq<char>>,
    pub due_date: Option<Date>,
    pub due_time: Option<Time>,
    pub recurrence: Option<RuleModel>,
    pub recurrence_from: Option<RecurrenceMode>,
    pub last_completed_date: Option<Date>,
    pub body: Seq<char>,
    pub extra_properties: Seq<(YamlTree, YamlTree)>,
}

/// What an optional rule says.
pub open spec fn opt_rule(rule: Option<RecurrenceRule>) -> Option<RuleModel> {
    match rule {
        Some(rule) => Some(rule@),
        None => None,
    }
}

impl View for Task {
    type V = TaskModel;

    open spec fn view(&self) -> TaskModel {
        TaskModel {
            id: self.id@,
            path: self.path@,
            name: self.name@,
            state: self.state@,
            projects: text::strings(self.projects@),
            tags: text::strings(self.tags@),
            parent: text::opt(self.parent),
            url: text::opt(self.url),
            due_date: self.due_date,
            due_time: self.due_time,
            recurrence: opt_rule(self.recurrence),
            recurrence_from: self.recurrence_from,
            last_completed_date: self.last_completed_date,
            body: self.body@,
            extra_properties: yaml::mapping_entries(self.extra_properties),
        }
    }
}

/// A copy of an optional rule.
pub fn clone_rule(rule: &Option<RecurrenceRule>) -> (r: Option<RecurrenceRule>)
    ensures
        opt_rule(r) == opt_rule(*rule),
{
    match rule {
        Some(rule) => Some(rule.clone()),
        None => None,
    }
}

impl Clone for Task {
    fn clone(&self) -> (r: Self)
        ensures
            r@ == self@,
    {
        Task {
            id: self.id.clone(),
            path: self.path.clone(),
            name: self.name.clone(),
            state: self.state.clone(),
            projects: text::clone_all(&self.projects),
            tags: text::clone_all(&self.tags),
            parent: text::clone_opt(&self.parent),
            url: text::clone_opt(&self.url),
            due_date: self.due_date,
            due_time: self.due_time,
            recurrence: clone_rule(&self.recurrence),
            recurrence_from: self.recurrence_from,
            last_completed_date: self.last_completed_date,
            body: self.body.clone(),
            extra_properties: yaml::clone_mapping(&self.extra_properties),
        }
    }
}

/// A project.
#[derive(Debug, PartialEq)]
pub struct Project {
    pub slug: String,
    pub path: String,
    pub name: String,
    pub body: String,
    pub extra_properties: serde_yaml_ng::Mapping,
}

/// What a project says.
#[verifier::ext_equal]
pub struct ProjectModel {
    pub slug: Seq<char>,
    pub path: Seq<char>,
    pub name: Seq<char>,
    pub body: Seq<char>,
    pub extra_properties: Seq<(YamlTree, YamlTree)>,
}

impl View for Project {
    type V = ProjectModel;

    open spec fn view(&self) -> ProjectModel {
        ProjectModel {
            slug: self.slug@,
            path: self.path@,
            name: self.name@,
            body: self.body@,
            extra_properties: yaml::mapping_entries(self.extra_properties),
        }
    }
}

impl Clone for Project {
    fn clone(&self) -> (r: Self)
        ensures
            r@ == self@,
    {
        Project {
            slug: self.slug.clone(),
            path: self.path.clone(),
            name: self.name.clone(),
            body: self.body.clone(),
            extra_properties: yaml::clone_mapping(&self.extra_properties),
        }
    }
}

/// What tells today's date.
pub trait Clock: Send + Sync {
    /// Today's date.
    fn today(&self) -> Date;
}

/// The clock of the machine.
#[derive(Debug, Clone, Copy)]
pub struct SystemClock;

impl Clock for SystemClock {
    fn today(&self) -> (r: Date) {
        calendar::local_today()
    }
}

/// A clock that always tells the same date.
#[derive(Debug, Clone, Copy)]
pub struct FixedClock {
    today: Date,
}

impl FixedClock {
    /// The date that the clock tells.
    pub closed spec fn date(self) -> Date {
        self.today
    }

    /// A clock that always tells the given date.
    #[must_use]
    pub fn new(today: Date) -> (r: Self)
        ensures
            r.date() == today,
    {
        FixedClock { today }
    }
}

impl Clock for FixedClock {
    fn today(&self) -> (r: Date)
        ensures
            r == self.date(),
    {
        self.today
    }
}

/// Whether a text has the shape `HH:MM`.
pub open spec fn time_shape(value: Seq<char>) -> bool {
    &&& value.len() == 5
    &&& value[2] == ':'
    &&& text::is_digit(value[0])
    &&& text::is_digit(value[1])
    &&& text::is_digit(value[3])
    &&& text::is_digit(value[4])
}

/// The number that two digits write.
pub open spec fn pair(a: char, b: char) -> int {
    (a as int - '0' as int) * 10 + (b as int - '0' as int)
}

/// The error for what is no time of day to the minute.
pub open spec fn time_error() -> ErrorModel {
    ErrorModel::validation(
        "invalid_due_time"@,
        "due_time must be an HH:MM time from 00:00 through 23:59"@,
    ).with_field("due_time"@)
}

/// The time of day, to the minute, that a text writes.
pub open spec fn read_time(value: Seq<char>) -> Result<Time, ErrorModel> {
    if time_shape(value) && pair(value[0], value[1]) < 24 && pair(value[3], value[4]) < 60 {
        Ok(Time::of(pair(value[0], value[1]), pair(value[3], value[4]), 0, 0))
    } else {
        Err(time_error())
    }
}

/// Parse an exact minute-granularity civil time from 00:00 through 23:59.
pub fn parse_time(value: &str) -> (r: Result<Time, Error>)
    ensures
        error::outcome(r) == read_time(value@),
{
    let chars = text::chars(value);
    if chars.len() != 5 || chars[2] != ':' || !text::is_digit(chars[0]) || !text::is_digit(
        chars[1],
    ) || !text::is_digit(chars[3]) || !text::is_digit(chars[4]) {
        return Err(invalid_time());
    }
    let hour: u32 = (chars[0] as u32 - 48) * 10 + (chars[1] as u32 - 48);
    let minute: u32 = (chars[3] as u32 - 48) * 10 + (chars[4] as u32 - 48);
    match Time::new(hour, minute, 0, 0) {
        Some(time) => {
            proof {
                calendar::lemma_time_of(hour as int, minute as int, 0, 0);
                calendar::lemma_same_time(time, Time::of(hour as int, minute as int, 0, 0));
            }
            Ok(time)
        },
        None => Err(invalid_time()),
    }
}

fn invalid_time() -> (r: Error)
    ensures
        r@ == time_error(),
{
    Error::validation(
        "invalid_due_time",
        "due_time must be an HH:MM time from 00:00 through 23:59",
    ).with_field("due_time")
}

/// Whether a time is to the minute.
pub open spec fn check_time(time: Time) -> Result<(), ErrorModel> {
    if time.s() != 0 || time.nanos() != 0 {
        Err(time_error())
    } else {
        Ok(())
    }
}

fn validate_time_value(value: Time) -> (r: Result<(), Error>)
    ensures
        error::outcome(r) == check_time(value),
{
    if value.second() != 0 || value.nanosecond() != 0 {
        return Err(invalid_time());
    }
    Ok(())
}

/// A time to the minute that is written as `HH:MM` is read back as it was.
pub proof fn written_times_are_read_back(time: Time)
    requires
        time.valid(),
        check_time(time) is Ok,
    ensures
        read_time(calendar::time_text(time.h(), time.min())) == Ok::<Time, ErrorModel>(time),
{
    let s = calendar::time_text(time.h(), time.min());
    assert(s.len() == 5);
    assert(s[0] == calendar::digit(time.h() / 10 % 10));
    assert(s[1] == calendar::digit(time.h() % 10));
    assert(s[3] == calendar::digit(time.min() / 10 % 10));
    assert(s[4] == calendar::digit(time.min() % 10));
    calendar::lemma_time_of(time.h(), time.min(), 0, 0);
    calendar::lemma_same_time(time, Time::of(time.h(), time.min(), 0, 0));
}

/// Whether a text can be a name: not blank, and one line.
pub open spec fn check_name(value: Seq<char>, field: Seq<char>) -> Result<(), ErrorModel> {
    if text::blank(value) {
        Err(
            ErrorModel::validation(
                "invalid_name"@,
                field + " must contain a non-whitespace character"@,
            ).with_field(field),
        )
    } else if value.contains('\r') || value.contains('\n') {
        Err(
            ErrorModel::validation("invalid_name"@, field + " must be a single line"@).with_field(
                field,
            ),
        )
    } else {
        Ok(())
    }
}

/// Whether a text can be a name: not blank, and one line.
pub fn validate_name(value: &str, field: &str) -> (r: Result<(), Error>)
    ensures
        error::outcome(r) == check_name(value@, field@),
{
    let chars = text::chars(value);
    if text::is_blank(&chars) {
        return Err(
            Error::validation(
                "invalid_name",
                text::join2(field, " must contain a non-whitespace character").as_str(),
            ).with_field(field),
        );
    }
    if text::has(&chars, '\r') || text::has(&chars, '\n') {
        return Err(
            Error::validation(
                "invalid_name",
                text::join2(field, " must be a single line").as_str(),
            ).with_field(field),
        );
    }
    Ok(())
}

/// Whether a character cannot stand in a tag.
#[verifier::allow_in_spec]
pub fn is_tag_breaker(c: char) -> bool
    returns
        text::is_whitespace(c) || text::is_control(c) || c == ',' || c == '[' || c == ']' || c
            == '{' || c == '}',
{
    text::is_whitespace(c) || text::is_control(c) || c == ',' || c == '[' || c == ']' || c == '{'
        || c == '}'
}

/// Whether a text is an Obsidian tag.
pub open spec fn tag(value: Seq<char>) -> bool {
    &&& value.len() > 0
    &&& value[0] != '#'
    &&& forall|i: int| 0 <= i < value.len() ==> !is_tag_breaker(#[trigger] value[i])
}

/// The error for a text that is no tag.
pub open spec fn tag_error(value: Seq<char>) -> ErrorModel {
    ErrorModel::validation(
        "invalid_tag"@,
        "Invalid Obsidian tag "@ + text::debug_text(value),
    ).with_field("tags"@)
}

/// Whether a text is an Obsidian tag.
pub fn validate_tag(value: &str) -> (r: Result<(), Error>)
    ensures
        r is Ok <==> tag(value@),
        r matches Err(e) ==> e@ == tag_error(value@),
{
    let chars = text::chars(value);
    let mut fine = chars.len() > 0 && chars[0] != '#';
    let ghost start = fine;
    let mut i: usize = 0;
    while i < chars.len()
        invariant
            i <= chars.len(),
            chars@ == value@,
            fine == (start && forall|k: int| 0 <= k < i ==> !is_tag_breaker(#[trigger] chars@[k])),
        decreases chars.len() - i,
    {
        if is_tag_breaker(chars[i]) {
            fine = false;
        }
        i += 1;
    }
    if fine {
        Ok(())
    } else {
        Err(
            Error::validation(
                "invalid_tag",
                text::join2("Invalid Obsidian tag ", text::debug(value).as_str()).as_str(),
            ).with_field("tags"),
        )
    }
}

/// Whether the texts from the `i`-th on are tags, none of them listed before it.
pub open spec fn check_tags(values: Seq<Seq<char>>, i: int) -> Result<(), ErrorModel>
    decreases values.len() - i,
{
    if i >= values.len() {
        Ok(())
    } else if !tag(values[i]) {
        Err(tag_error(values[i]))
    } else if values.take(i).contains(values[i]) {
        Err(
            ErrorModel::validation(
                "duplicate_tag"@,
                "Tag "@ + text::debug_text(values[i]) + " appears more than once"@,
            ).with_field("tags"@),
        )
    } else {
        check_tags(values, i + 1)
    }
}

/// Whether a text is among the first `n` of a list.
fn listed_before(values: &Vec<String>, n: usize, value: &str) -> (r: bool)
    requires
        n <= values@.len(),
    ensures
        r == text::strings(values@).take(n as int).contains(value@),
{
    let ghost first = text::strings(values@).take(n as int);
    let mut i: usize = 0;
    while i < n
        invariant
            i <= n <= values@.len(),
            first == text::strings(values@).take(n as int),
            forall|k: int| 0 <= k < i ==> #[trigger] first[k] != value@,
        decreases n - i,
    {
        assert(first[i as int] == values@[i as int]@);
        if text::same(values[i].as_str(), value) {
            return true;
        }
        i += 1;
    }
    false
}

/// Whether all texts are tags, and different.
pub fn validate_tags(values: &Vec<String>) -> (r: Result<(), Error>)
    ensures
        error::outcome(r) == check_tags(text::strings(values@), 0),
{
    let ghost all = text::strings(values@);
    let mut i: usize = 0;
    while i < values.len()
        invariant
            i <= values.len(),
            all == text::strings(values@),
            check_tags(all, 0) == check_tags(all, i as int),
        decreases values.len() - i,
    {
        assert(all[i as int] == values@[i as int]@);
        let value = values[i].as_str();
        if let Err(e) = validate_tag(value) {
            return Err(e);
        }
        if listed_before(values, i, value) {
            return Err(
                Error::validation(
                    "duplicate_tag",
                    text::join3(
                        "Tag ",
                        text::debug(value).as_str(),
                        " appears more than once",
                    ).as_str(),
                ).with_field("tags"),
            );
        }
        i += 1;
    }
    Ok(())
}

/// Whether a text is a project slug: `[a-z0-9][a-z0-9-]*`.
pub open spec fn slug(value: Seq<char>) -> bool {
    &&& value.len() > 0
    &&& value[0] != '-'
    &&& forall|i: int|
        0 <= i < value.len() ==> text::is_lower(#[trigger] value[i]) || text::is_digit(value[i])
            || value[i] == '-'
}

/// The error for a text that is no slug.
pub open spec fn slug_error(value: Seq<char>) -> ErrorModel {
    ErrorModel::validation(
        "invalid_project_slug"@,
        "Project slug "@ + text::debug_text(value) + " must match [a-z0-9][a-z0-9-]*"@,
    ).with_field("slug"@)
}

fn is_slug(value: &str) -> (r: bool)
    ensures
        r == slug(value@),
{
    let chars = text::chars(value);
    if chars.len() == 0 || chars[0] == '-' {
        return false;
    }
    let mut i: usize = 0;
    while i < chars.len()
        invariant
            i <= chars.len(),
            chars@ == value@,
            forall|k: int|
                0 <= k < i ==> text::is_lower(#[trigger] chars@[k]) || text::is_digit(chars@[k])
                    || chars@[k] == '-',
        decreases chars.len() - i,
    {
        let c = chars[i];
        if !(text::is_lower(c) || text::is_digit(c) || c == '-') {
            return false;
        }
        i += 1;
    }
    true
}

/// Whether a text is a project slug.
pub fn validate_project_slug(value: &str) -> (r: Result<(), Error>)
    ensures
        r is Ok <==> slug(value@),
        r matches Err(e) ==> e@ == slug_error(value@),
{
    if is_slug(value) {
        Ok(())
    } else {
        Err(
            Error::validation(
                "invalid_project_slug",
                text::join3(
                    "Project slug ",
                    text::debug(value).as_str(),
                    " must match [a-z0-9][a-z0-9-]*",
                ).as_str(),
            ).with_field("slug"),
        )
    }
}

/// Whether none of the texts from the `i`-th on is listed before it.
pub open spec fn check_unique(values: Seq<Seq<char>>, i: int) -> Result<(), ErrorModel>
    decreases values.len() - i,
{
    if i >= values.len() {
        Ok(())
    } else if values.take(i).contains(values[i]) {
        Err(
            ErrorModel::validation(
                "duplicate_project"@,
                "Project "@ + text::debug_text(values[i]) + " appears more than once"@,
            ).with_field("projects"@),
        )
    } else {
        check_unique(values, i + 1)
    }
}

/// Whether all projects are different.
pub fn validate_unique_projects(values: &Vec<String>) -> (r: Result<(), Error>)
    ensures
        error::outcome(r) == check_unique(text::strings(values@), 0),
{
    let ghost all = text::strings(values@);
    let mut i: usize = 0;
    while i < values.len()
        invariant
            i <= values.len(),
            all == text::strings(values@),
            check_unique(all, 0) == check_unique(all, i as int),
        decreases values.len() - i,
    {
        assert(all[i as int] == values@[i as int]@);
        let value = values[i].as_str();
        if listed_before(values, i, value) {
            return Err(
                Error::validation(
                    "duplicate_project",
                    text::join3(
                        "Project ",
                        text::debug(value).as_str(),
                        " appears more than once",
                    ).as_str(),
                ).with_field("projects"),
            );
        }
        i += 1;
    }
    Ok(())
}

/// Whether a character is a digit of Crockford's base 32, in either case.
pub open spec fn ulid_char(c: char) -> bool {
    let u = text::upper_char(c);
    text::is_digit(u) || ('A' <= u && u <= 'H') || u == 'J' || u == 'K' || u == 'M' || u == 'N'
        || ('P' <= u && u <= 'T') || ('V' <= u && u <= 'Z')
}

/// Whether a byte is a digit of Crockford's base 32, in either case.
#[must_use]
pub fn is_ulid_character(byte: u8) -> (r: bool)
    ensures
        r == ulid_char(byte as char),
{
    is_ulid_char(byte as char)
}

fn is_ulid_char(c: char) -> (r: bool)
    ensures
        r == ulid_char(c),
{
    let u = text::to_upper_char(c);
    text::is_digit(u) || ('A' <= u && u <= 'H') || u == 'J' || u == 'K' || u == 'M' || u == 'N' || (
    'P' <= u && u <= 'T') || ('V' <= u && u <= 'Z')
}

/// Whether all characters of a text are digits of Crockford's base 32.
pub open spec fn ulid_chars(s: Seq<char>) -> bool {
    forall|i: int| 0 <= i < s.len() ==> ulid_char(#[trigger] s[i])
}

fn are_ulid_chars(s: &Vec<char>) -> (r: bool)
    ensures
        r == ulid_chars(s@),
{
    let mut i: usize = 0;
    while i < s.len()
        invariant
            i <= s.len(),
            forall|k: int| 0 <= k < i ==> ulid_char(#[trigger] s@[k]),
        decreases s.len() - i,
    {
        if !is_ulid_char(s[i]) {
            return false;
        }
        i += 1;
    }
    true
}

/// `Ulid::from_string`: it decodes texts of 26 digits of Crockford's base 32, and no others.
#[verifier::external_body]
fn decodes_as_ulid(value: &str) -> (r: bool)
    ensures
        r == (value@.len() == 26 && ulid_chars(value@)),
{
    ulid::Ulid::from_string(value).is_ok()
}

/// Whether a text is a ULID: 26 digits of Crockford's base 32, the first at most 7.
pub open spec fn task_id(value: Seq<char>) -> bool {
    value.len() == 26 && value[0] <= '7' && ulid_chars(value)
}

/// The error for a text that is no task ID.
pub open spec fn task_id_error(value: Seq<char>) -> ErrorModel {
    ErrorModel::validation(
        "invalid_task_id"@,
        "Task ID "@ + text::debug_text(value) + " is not a valid ULID"@,
    )
}

/// Digits of Crockford's base 32 stay such digits in capitals.
pub proof fn lemma_upper_ulid(s: Seq<char>)
    ensures
        ulid_chars(s) == ulid_chars(text::upper(s)),
{
    let u = text::upper(s);
    assert forall|i: int| 0 <= i < s.len() implies ulid_char(s[i]) == ulid_char(
        #[trigger] u[i],
    ) by {
        assert(u[i] == text::upper_char(s[i]));
    }
    if ulid_chars(u) {
        assert forall|i: int| 0 <= i < s.len() implies ulid_char(#[trigger] s[i]) by {
            assert(ulid_char(u[i]));
        }
    }
}

/// Whether a text is a task ID.
pub fn validate_task_id(value: &str) -> (r: Result<(), Error>)
    ensures
        r is Ok <==> task_id(value@),
        r matches Err(e) ==> e@ == task_id_error(value@),
{
    let chars = text::chars(value);
    let capitals = text::upper_string(value);
    proof {
        lemma_upper_ulid(value@);
    }
    if chars.len() != 26 || text::to_upper_char(chars[0]) > '7' || !are_ulid_chars(&chars)
        || !decodes_as_ulid(capitals.as_str()) {
        return Err(
            Error::validation(
                "invalid_task_id",
                text::join3(
                    "Task ID ",
                    text::debug(value).as_str(),
                    " is not a valid ULID",
                ).as_str(),
            ),
        );
    }
    Ok(())
}

/// The ID of a parent in capitals, where it is a full ID.
pub open spec fn parent_id(value: Seq<char>) -> Result<Seq<char>, ErrorModel> {
    if task_id(value) {
        Ok(text::upper(value))
    } else {
        Err(
            ErrorModel::validation(
                "invalid_parent_id"@,
                "Parent "@ + text::debug_text(value) + " must be a full valid ULID"@,
            ).with_field("parent"@),
        )
    }
}

/// The ID of a parent in capitals, where it is a full ID.
pub fn normalize_parent_id(value: &str) -> (r: Result<String, Error>)
    ensures
        error::viewed(r) == parent_id(value@),
{
    match validate_task_id(value) {
        Ok(_) => Ok(text::upper_string(value)),
        Err(_) => Err(
            Error::validation(
                "invalid_parent_id",
                text::join3(
                    "Parent ",
                    text::debug(value).as_str(),
                    " must be a full valid ULID",
                ).as_str(),
            ).with_field("parent"),
        ),
    }
}

/// Whether a text is the beginning, at least six characters, of a task ID, or a whole one.
pub open spec fn id_prefix(value: Seq<char>) -> bool {
    6 <= value.len() <= 26 && value[0] <= '7' && ulid_chars(value)
}

/// The beginning of a task ID in capitals.
pub open spec fn check_id_prefix(value: Seq<char>) -> Result<Seq<char>, ErrorModel> {
    if id_prefix(value) {
        Ok(text::upper(value))
    } else {
        Err(
            ErrorModel::usage(
                "invalid_task_id_prefix"@,
                "Task ID prefixes must contain 6 to 26 valid Crockford Base32 characters"@,
            ),
        )
    }
}

/// The beginning of a task ID in capitals.
pub fn validate_id_prefix(value: &str) -> (r: Result<String, Error>)
    ensures
        error::viewed(r) == check_id_prefix(value@),
{
    let chars = text::chars(value);
    let capitals = text::upper_string(value);
    proof {
        lemma_upper_ulid(value@);
    }
    if chars.len() > 26 || chars.len() < 6 || text::to_upper_char(chars[0]) > '7'
        || !are_ulid_chars(&chars) || (chars.len() == 26 && !decodes_as_ulid(
        capitals.as_str(),
    )) {
        return Err(
            Error::usage(
                "invalid_task_id_prefix",
                "Task ID prefixes must contain 6 to 26 valid Crockford Base32 characters",
            ),
        );
    }
    Ok(capitals)
}

/// A whole ID is its own longest beginning, and both read as the same capitals.
pub proof fn whole_ids_are_prefixes(value: Seq<char>)
    requires
        task_id(value),
    ensures
        id_prefix(value),
        parent_id(value) == check_id_prefix(value),
{
}

/// The text from the `i`-th character on with `\n` for each `\r\n` and each `\r`.
pub open spec fn line_feeds(s: Seq<char>, i: int) -> Seq<char>
    decreases s.len() - i,
{
    if i >= s.len() {
        seq![]
    } else if s[i] == '\r' {
        if i + 1 < s.len() && s[i + 1] == '\n' {
            seq!['\n'] + line_feeds(s, i + 2)
        } else {
            seq!['\n'] + line_feeds(s, i + 1)
        }
    } else {
        seq![s[i]] + line_feeds(s, i + 1)
    }
}

/// Where the line feeds at the end of a text begin.
pub open spec fn last_line(s: Seq<char>, to: int) -> int
    decreases to,
{
    if to > 0 && s[to - 1] == '\n' {
        last_line(s, to - 1)
    } else {
        to
    }
}

/// A body with line feeds only, and exactly one at the end; an empty one stays empty.
pub open spec fn body(s: Seq<char>) -> Seq<char> {
    if s.len() == 0 {
        seq![]
    } else {
        let t = line_feeds(s, 0);
        t.take(last_line(t, t.len() as int)).push('\n')
    }
}

/// A body with line feeds only, and exactly one at the end; an empty one stays empty.
pub fn normalize_body(value: &str) -> (r: String)
    ensures
        r@ == body(value@),
{
    let s = text::chars(value);
    if s.len() == 0 {
        let r = String::new();
        assert(r@ =~= Seq::<char>::empty());
        return r;
    }
    let mut t: Vec<char> = Vec::new();
    let mut i: usize = 0;
    while i < s.len()
        invariant
            i <= s.len(),
            t@ + line_feeds(s@, i as int) == line_feeds(s@, 0),
        decreases s.len() - i,
    {
        let ghost before = t@;
        if s[i] == '\r' {
            let step: usize = if i < s.len() - 1 && s[i + 1] == '\n' {
                2
            } else {
                1
            };
            t.push('\n');
            assert(before.push('\n') + line_feeds(s@, i + step) =~= before + (seq!['\n']
                + line_feeds(s@, i + step)));
            i += step;
        } else {
            t.push(s[i]);
            assert(before.push(s@[i as int]) + line_feeds(s@, i + 1) =~= before + (
            seq![s@[i as int]] + line_feeds(s@, i + 1)));
            i += 1;
        }
    }
    assert(t@ + Seq::<char>::empty() =~= t@);
    let mut end: usize = t.len();
    while end > 0 && t[end - 1] == '\n'
        invariant
            end <= t.len(),
            last_line(t@, t@.len() as int) == last_line(t@, end as int),
        decreases end,
    {
        end -= 1;
    }
    let kept = text::cut(&t, 0, end);
    assert(kept@ == t@.take(end as int));
    let mut r = text::string(&kept);
    r.push('\n');
    r
}

proof fn lemma_line_feeds(s: Seq<char>, i: int)
    requires
        0 <= i,
    ensures
        !line_feeds(s, i).contains('\r'),
    decreases s.len() - i,
{
    if i < s.len() {
        let step: int = if s[i] == '\r' && i + 1 < s.len() && s[i + 1] == '\n' {
            2
        } else {
            1
        };
        lemma_line_feeds(s, i + step);
        let rest = line_feeds(s, i + step);
        let all = line_feeds(s, i);
        assert forall|k: int| 0 <= k < all.len() implies all[k] != '\r' by {
            if k > 0 {
                assert(all[k] == rest[k - 1]);
                assert(rest.contains(rest[k - 1]));
            }
        }
    }
}

proof fn lemma_line_feeds_same(s: Seq<char>, i: int)
    requires
        0 <= i <= s.len(),
        !s.contains('\r'),
    ensures
        line_feeds(s, i) == s.subrange(i, s.len() as int),
    decreases s.len() - i,
{
    if i < s.len() {
        lemma_line_feeds_same(s, i + 1);
        assert(s.contains(s[i]));
        assert(seq![s[i]] + s.subrange(i + 1, s.len() as int) =~= s.subrange(i, s.len() as int));
    } else {
        assert(s.subrange(i, s.len() as int) =~= Seq::<char>::empty());
    }
}

proof fn lemma_last_line(s: Seq<char>, to: int)
    requires
        0 <= to <= s.len(),
    ensures
        0 <= last_line(s, to) <= to,
        last_line(s, to) > 0 ==> s[last_line(s, to) - 1] != '\n',
    decreases to,
{
    if to > 0 && s[to - 1] == '\n' {
        lemma_last_line(s, to - 1);
    }
}

/// A body that has been put in order is in order: doing so again changes nothing. It holds no
/// carriage return, and ends in exactly one line feed unless it is empty.
pub proof fn normalizing_a_body_is_idempotent(s: Seq<char>)
    ensures
        body(body(s)) == body(s),
        !body(s).contains('\r'),
        s.len() > 0 ==> body(s).len() > 0 && body(s).last() == '\n' && (body(s).len() > 1
            ==> body(s)[body(s).len() - 2] != '\n'),
{
    if s.len() > 0 {
        let t = line_feeds(s, 0);
        lemma_line_feeds(s, 0);
        lemma_last_line(t, t.len() as int);
        let end = last_line(t, t.len() as int);
        let b = body(s);
        assert(b =~= t.take(end).push('\n'));
        assert forall|k: int| 0 <= k < b.len() implies b[k] != '\r' by {
            if k < end {
                assert(t.contains(t[k]));
            }
        }
        lemma_line_feeds_same(b, 0);
        assert(b.subrange(0, b.len() as int) =~= b);
        assert(b.drop_last() =~= t.take(end));
        assert(b[b.len() - 1] == '\n');
        if end > 0 {
            assert(b[end - 1] == t[end - 1]);
        }
        assert(last_line(b, b.len() - 1) == b.len() - 1);
        assert(b.take(b.len() - 1).push('\n') =~= b);
    }
}

/// The date that a YAML value writes.
pub open spec fn yaml_date(tree: YamlTree, field: Seq<char>) -> Result<Date, ErrorModel> {
    match tree {
        YamlTree::Text(s) => recurrence::read_date(s, field),
        _ => Err(
            ErrorModel::validation(
                "invalid_property_type"@,
                field + " must be a YYYY-MM-DD date scalar"@,
            ).with_field(field),
        ),
    }
}

/// The date that a YAML value writes.
pub fn date_from_yaml(value: &serde_yaml_ng::Value, field: &str) -> (r: Result<Date, Error>)
    ensures
        error::outcome(r) == yaml_date(yaml::yaml_tree(*value), field@),
{
    match yaml::open(value) {
        YamlNode::Text(s) => recurrence::parse_date(s, field),
        _ => Err(
            Error::validation(
                "invalid_property_type",
                text::join2(field, " must be a YYYY-MM-DD date scalar").as_str(),
            ).with_field(field),
        ),
    }
}

/// A component of a path as it is written.
pub open spec fn part_text(part: (int, Seq<char>)) -> Seq<char> {
    if part.0 == 0 {
        "/"@
    } else if part.0 == 1 {
        "."@
    } else if part.0 == 2 {
        ".."@
    } else {
        part.1
    }
}

/// The components before the `n`-th, with `/` after each that is not empty.
pub open spec fn parts_text(parts: Seq<(int, Seq<char>)>, n: int) -> Seq<char>
    decreases n,
{
    if n <= 0 {
        seq![]
    } else {
        let before = parts_text(parts, n - 1);
        if before.len() == 0 {
            part_text(parts[n - 1])
        } else {
            before + "/"@ + part_text(parts[n - 1])
        }
    }
}

/// A path as it is written, its components separated by `/`.
pub fn relative_path_string(path: &str) -> (r: String)
    ensures
        r@ == parts_text(paths::parts(path@), paths::parts(path@).len() as int),
{
    let parts = paths::components(path);
    let ghost all = paths::parts(path@);
    let mut r = String::new();
    assert(r@ =~= Seq::<char>::empty());
    let mut i: usize = 0;
    while i < parts.len()
        invariant
            i <= parts.len(),
            all == paths::named(parts@),
            r@ == parts_text(all, i as int),
        decreases parts.len() - i,
    {
        assert(all[i as int] == (parts@[i as int].kind as int, parts@[i as int].name@));
        if !r.as_str().is_empty() {
            r.append("/");
        }
        let kind: u8 = parts[i].kind;
        let ghost before = r@;
        if kind == 0 {
            r.append("/");
        } else if kind == 1 {
            r.append(".");
        } else if kind == 2 {
            r.append("..");
        } else {
            r.append(text::string(&parts[i].name).as_str());
        }
        assert(before.len() == 0 ==> r@ =~= part_text(all[i as int]));
        i += 1;
    }
    r
}

/// Whether the slugs from the `i`-th on are slugs.
pub open spec fn check_slugs(values: Seq<Seq<char>>, i: int) -> Result<(), ErrorModel>
    decreases values.len() - i,
{
    if i >= values.len() {
        Ok(())
    } else if !slug(values[i]) {
        Err(slug_error(values[i]))
    } else {
        check_slugs(values, i + 1)
    }
}

/// A broken rule about a field.
pub open spec fn field_error(code: Seq<char>, message: Seq<char>, field: Seq<char>) -> ErrorModel {
    ErrorModel::validation(code, message).with_field(field)
}

impl TaskModel {
    /// Whether the parent, where there is one, is allowed and a full ID.
    pub open spec fn check_parent(self, config: ConfigModel) -> Result<(), ErrorModel> {
        match self.parent {
            None => Ok(()),
            Some(parent) => if config.schema_version != 2 {
                Err(
                    ErrorModel::unsupported(
                        "unsupported_schema"@,
                        "Typed parent relationships require schema version 2"@,
                    ).with_field("parent"@),
                )
            } else {
                match parent_id(parent) {
                    Ok(_) => Ok(()),
                    Err(e) => Err(e),
                }
            },
        }
    }

    /// Whether the state is one of the configuration.
    pub open spec fn check_state(self, config: ConfigModel) -> Result<(), ErrorModel> {
        if config.place(self.state) is None {
            Err(
                field_error(
                    "unknown_state"@,
                    "Task state "@ + text::debug_text(self.state) + " is not configured"@,
                    "state"@,
                ),
            )
        } else {
            Ok(())
        }
    }

    /// Whether the due date and time, where there are any, can be written and go together.
    pub open spec fn check_due(self) -> Result<(), ErrorModel> {
        let date = match self.due_date {
            Some(date) => recurrence::check_date(date, "due_date"@),
            None => Ok(()),
        };
        match date {
            Err(e) => Err(e),
            Ok(_) => match self.due_time {
                None => Ok(()),
                Some(time) => match check_time(time) {
                    Err(e) => Err(e),
                    Ok(_) => if self.due_date is None {
                        Err(
                            field_error(
                                "due_time_requires_due_date"@,
                                "A task with due_time must have due_date"@,
                                "due_time"@,
                            ),
                        )
                    } else {
                        Ok(())
                    },
                },
            },
        }
    }

    /// Whether the date of the last completion, where there is one, can be written.
    pub open spec fn check_completed(self) -> Result<(), ErrorModel> {
        match self.last_completed_date {
            Some(date) => recurrence::check_date(date, "last_completed_date"@),
            None => Ok(()),
        }
    }

    /// Whether the rule, its mode, the due date and the last completion go together.
    pub open spec fn check_recurrence(self) -> Result<(), ErrorModel> {
        match (self.recurrence, self.recurrence_from) {
            (Some(rule), Some(_)) => match self.due_date {
                None => Err(
                    field_error(
                        "recurrence_requires_due_date"@,
                        "A recurring task must have due_date"@,
                        "due_date"@,
                    ),
                ),
                Some(due) => if rule.matches(due) {
                    Ok(())
                } else {
                    Err(
                        field_error(
                            "due_date_not_occurrence"@,
                            "due_date does not match the recurrence selections"@,
                            "due_date"@,
                        ),
                    )
                },
            },
            (Some(_), None) => Err(
                field_error(
                    "recurrence_requires_mode"@,
                    "A recurring task must have recurrence_from"@,
                    "recurrence_from"@,
                ),
            ),
            (None, Some(_)) => Err(
                field_error(
                    "mode_requires_recurrence"@,
                    "recurrence_from is invalid without recurrence"@,
                    "recurrence_from"@,
                ),
            ),
            (None, None) => if self.last_completed_date is Some {
                Err(
                    field_error(
                        "completion_date_requires_recurrence"@,
                        "last_completed_date is invalid without recurrence"@,
                        "last_completed_date"@,
                    ),
                )
            } else {
                Ok(())
            },
        }
    }

    /// Whether the task keeps all rules, or the first that it breaks.
    pub open spec fn check(self, config: ConfigModel) -> Result<(), ErrorModel> {
        if !task_id(self.id) {
            Err(task_id_error(self.id))
        } else if self.check_parent(config) is Err {
            self.check_parent(config)
        } else if url::check_url(self.url) is Err {
            url::check_url(self.url)
        } else if check_name(self.name, "name"@) is Err {
            check_name(self.name, "name"@)
        } else if self.check_state(config) is Err {
            self.check_state(config)
        } else if check_unique(self.projects, 0) is Err {
            check_unique(self.projects, 0)
        } else if check_slugs(self.projects, 0) is Err {
            check_slugs(self.projects, 0)
        } else if check_tags(self.tags, 0) is Err {
            check_tags(self.tags, 0)
        } else if self.check_due() is Err {
            self.check_due()
        } else if self.check_completed() is Err {
            self.check_completed()
        } else {
            self.check_recurrence()
        }
    }
}

/// A broken rule about a field.
fn broken(code: &'static str, message: &str, field: &str) -> (r: Error)
    ensures
        r@ == field_error(code@, message@, field@),
{
    Error::validation(code, message).with_field(field)
}

impl Task {
    fn check_parent(&self, config: &Config) -> (r: Result<(), Error>)
        ensures
            error::outcome(r) == self@.check_parent(config@),
    {
        match &self.parent {
            None => Ok(()),
            Some(parent) => {
                if config.schema_version != 2 {
                    return Err(
                        Error::unsupported(
                            "unsupported_schema",
                            "Typed parent relationships require schema version 2",
                        ).with_field("parent"),
                    );
                }
                match normalize_parent_id(parent.as_str()) {
                    Ok(_) => Ok(()),
                    Err(e) => Err(e),
                }
            },
        }
    }

    fn check_state(&self, config: &Config) -> (r: Result<(), Error>)
        ensures
            error::outcome(r) == self@.check_state(config@),
    {
        match config.state(self.state.as_str()) {
            Some(_) => Ok(()),
            None => Err(
                broken(
                    "unknown_state",
                    text::join3(
                        "Task state ",
                        text::debug(self.state.as_str()).as_str(),
                        " is not configured",
                    ).as_str(),
                    "state",
                ),
            ),
        }
    }

    fn check_slugs(&self) -> (r: Result<(), Error>)
        ensures
            error::outcome(r) == check_slugs(self@.projects, 0),
    {
        let mut i: usize = 0;
        while i < self.projects.len()
            invariant
                i <= self.projects.len(),
                check_slugs(self@.projects, 0) == check_slugs(self@.projects, i as int),
            decreases self.projects.len() - i,
        {
            assert(self@.projects[i as int] == self.projects@[i as int]@);
            if let Err(e) = validate_project_slug(self.projects[i].as_str()) {
                return Err(e);
            }
            i += 1;
        }
        Ok(())
    }

    fn check_due(&self) -> (r: Result<(), Error>)
        ensures
            error::outcome(r) == self@.check_due(),
    {
        if let Some(date) = self.due_date {
            if let Err(e) = recurrence::validate_date_value(date, "due_date") {
                return Err(e);
            }
        }
        if let Some(time) = self.due_time {
            if let Err(e) = validate_time_value(time) {
                return Err(e);
            }
            if self.due_date.is_none() {
                return Err(
                    broken(
                        "due_time_requires_due_date",
                        "A task with due_time must have due_date",
                        "due_time",
                    ),
                );
            }
        }
        Ok(())
    }

    fn check_completed(&self) -> (r: Result<(), Error>)
        ensures
            error::outcome(r) == self@.check_completed(),
    {
        match self.last_completed_date {
            Some(date) => recurrence::validate_date_value(date, "last_completed_date"),
            None => Ok(()),
        }
    }

    fn check_recurrence(&self) -> (r: Result<(), Error>)
        ensures
            error::outcome(r) == self@.check_recurrence(),
    {
        match (&self.recurrence, self.recurrence_from) {
            (Some(rule), Some(_)) => match self.due_date {
                None => Err(
                    broken(
                        "recurrence_requires_due_date",
                        "A recurring task must have due_date",
                        "due_date",
                    ),
                ),
                Some(due) => if rule.matches_date(due) {
                    Ok(())
                } else {
                    Err(
                        broken(
                            "due_date_not_occurrence",
                            "due_date does not match the recurrence selections",
                            "due_date",
                        ),
                    )
                },
            },
            (Some(_), None) => Err(
                broken(
                    "recurrence_requires_mode",
                    "A recurring task must have recurrence_from",
                    "recurrence_from",
                ),
            ),
            (None, Some(_)) => Err(
                broken(
                    "mode_requires_recurrence",
                    "recurrence_from is invalid without recurrence",
                    "recurrence_from",
                ),
            ),
            (None, None) => if self.last_completed_date.is_some() {
                Err(
                    broken(
                        "completion_date_requires_recurrence",
                        "last_completed_date is invalid without recurrence",
                        "last_completed_date",
                    ),
                )
            } else {
                Ok(())
            },
        }
    }

    /// Whether the task keeps all rules, or the first that it breaks.
    pub fn validate(&self, config: &Config) -> (r: Result<(), Error>)
        ensures
            error::outcome(r) == self@.check(config@),
    {
        if let Err(e) = validate_task_id(self.id.as_str()) {
            return Err(e);
        }
        if let Err(e) = self.check_parent(config) {
            return Err(e);
        }
        let link = match &self.url {
            Some(link) => Some(link.as_str()),
            None => None,
        };
        if let Err(e) = validate_url(link) {
            return Err(e);
        }
        if let Err(e) = validate_name(self.name.as_str(), "name") {
            return Err(e);
        }
        if let Err(e) = self.check_state(config) {
            return Err(e);
        }
        if let Err(e) = validate_unique_projects(&self.projects) {
            return Err(e);
        }
        if let Err(e) = self.check_slugs() {
            return Err(e);
        }
        if let Err(e) = validate_tags(&self.tags) {
            return Err(e);
        }
        if let Err(e) = self.check_due() {
            return Err(e);
        }
        if let Err(e) = self.check_completed() {
            return Err(e);
        }
        self.check_recurrence()
    }

    /// Whether the task is in a terminal state.
    #[must_use]
    pub fn terminal(&self, config: &Config) -> (r: bool)
        ensures
            r == config@.terminal(self@.state),
    {
        match config.state(self.state.as_str()) {
            Some(state) => state.terminal,
            None => false,
        }
    }
}

} // verus!
