//! What went wrong: errors with an exit code, and the issues that a check of a store finds.
use vstd::prelude::*;

use crate::order::{self, Ranked};
use crate::paths;
use crate::text;

verus! {

/// The class of an error, which decides the exit code.
#[derive(Debug, Clone, Copy, PartialEq, Eq, Structural)]
pub enum ErrorKind {
    Usage,
    NotFound,
    Ambiguous,
    Validation,
    Concurrent,
    Unsupported,
    Io,
}

/// The exit code of each class of error.
pub open spec fn exit_code_of(kind: ErrorKind) -> u8 {
    match kind {
        ErrorKind::Usage => 2,
        ErrorKind::NotFound => 3,
        ErrorKind::Ambiguous => 4,
        ErrorKind::Validation => 5,
        ErrorKind::Concurrent => 6,
        ErrorKind::Unsupported => 7,
        ErrorKind::Io => 8,
    }
}

impl ErrorKind {
    /// The exit code of the class.
    #[must_use]
    pub fn exit_code(self) -> (code: u8)
        ensures
            code == exit_code_of(self),
    {
        match self {
            ErrorKind::Usage => 2,
            ErrorKind::NotFound => 3,
            ErrorKind::Ambiguous => 4,
            ErrorKind::Validation => 5,
            ErrorKind::Concurrent => 6,
            ErrorKind::Unsupported => 7,
            ErrorKind::Io => 8,
        }
    }
}

/// Errors of different classes have different exit codes, none of them 0 or 1.
pub proof fn exit_codes_tell_kinds_apart(a: ErrorKind, b: ErrorKind)
    ensures
        exit_code_of(a) == exit_code_of(b) ==> a == b,
        2 <= exit_code_of(a) <= 8,
{
}

/// How grave an issue is.
#[derive(Debug, Clone, Copy, PartialEq, Eq, Structural)]
pub enum IssueSeverity {
    Error,
    Warning,
}

/// One finding of a check.
#[derive(Debug, PartialEq, Eq)]
pub struct ValidationIssue {
    pub code: String,
    pub path: Option<String>,
    pub line: Option<usize>,
    pub column: Option<usize>,
    pub field: Option<String>,
    pub message: String,
    pub suggestion: Option<String>,
    pub severity: IssueSeverity,
}

/// What an issue says.
#[verifier::ext_equal]
pub struct IssueModel {
    pub code: Seq<char>,
    pub path: Option<Seq<char>>,
    pub line: Option<usize>,
    pub column: Option<usize>,
    pub field: Option<Seq<char>>,
    pub message: Seq<char>,
    pub suggestion: Option<Seq<char>>,
    pub severity: IssueSeverity,
}

impl IssueModel {
    /// An issue with nothing but a code and a message.
    pub open spec fn new(code: Seq<char>, message: Seq<char>, severity: IssueSeverity) -> Self {
        IssueModel {
            code,
            path: None,
            line: None,
            column: None,
            field: None,
            message,
            suggestion: None,
            severity,
        }
    }

    /// An error with nothing but a code and a message.
    pub open spec fn error(code: Seq<char>, message: Seq<char>) -> Self {
        Self::new(code, message, IssueSeverity::Error)
    }

    /// A warning with nothing but a code and a message.
    pub open spec fn warning(code: Seq<char>, message: Seq<char>) -> Self {
        Self::new(code, message, IssueSeverity::Warning)
    }

    /// The issue, said of a path.
    pub open spec fn at_path(self, path: Seq<char>) -> Self {
        IssueModel { path: Some(path), ..self }
    }

    /// The issue, said of a field.
    pub open spec fn at_field(self, field: Seq<char>) -> Self {
        IssueModel { field: Some(field), ..self }
    }

    /// The issue, said of a place in a file.
    pub open spec fn at_location(self, line: usize, column: usize) -> Self {
        IssueModel { line: Some(line), column: Some(column), ..self }
    }

    /// The issue, with a suggestion.
    pub open spec fn with_suggestion(self, suggestion: Seq<char>) -> Self {
        IssueModel { suggestion: Some(suggestion), ..self }
    }
}

impl View for ValidationIssue {
    type V = IssueModel;

    open spec fn view(&self) -> IssueModel {
        IssueModel {
            code: self.code@,
            path: text::opt(self.path),
            line: self.line,
            column: self.column,
            field: text::opt(self.field),
            message: self.message@,
            suggestion: text::opt(self.suggestion),
            severity: self.severity,
        }
    }
}

/// What a list of issues says.
pub open spec fn issue_models(issues: Seq<ValidationIssue>) -> Seq<IssueModel> {
    issues.map_values(|issue: ValidationIssue| issue@)
}

impl ValidationIssue {
    /// An error with nothing but a code and a message.
    #[must_use]
    pub fn error(code: &str, message: &str) -> (r: Self)
        ensures
            r@ == IssueModel::error(code@, message@),
    {
        ValidationIssue {
            code: code.to_owned(),
            path: None,
            line: None,
            column: None,
            field: None,
            message: message.to_owned(),
            suggestion: None,
            severity: IssueSeverity::Error,
        }
    }

    /// A warning with nothing but a code and a message.
    #[must_use]
    pub fn warning(code: &str, message: &str) -> (r: Self)
        ensures
            r@ == IssueModel::warning(code@, message@),
    {
        ValidationIssue {
            code: code.to_owned(),
            path: None,
            line: None,
            column: None,
            field: None,
            message: message.to_owned(),
            suggestion: None,
            severity: IssueSeverity::Warning,
        }
    }

    /// The issue, said of a path.
    #[must_use]
    pub fn at_path(self, path: &str) -> (r: Self)
        ensures
            r@ == self@.at_path(path@),
    {
        let mut r = self;
        r.path = Some(path.to_owned());
        r
    }

    /// The issue, said of a field.
    #[must_use]
    pub fn at_field(self, field: &str) -> (r: Self)
        ensures
            r@ == self@.at_field(field@),
    {
        let mut r = self;
        r.field = Some(field.to_owned());
        r
    }

    /// The issue, said of a place in a file.
    #[must_use]
    pub fn at_location(self, line: usize, column: usize) -> (r: Self)
        ensures
            r@ == self@.at_location(line, column),
    {
        let mut r = self;
        r.line = Some(line);
        r.column = Some(column);
        r
    }

    /// The issue, with a suggestion.
    #[must_use]
    pub fn with_suggestion(self, suggestion: &str) -> (r: Self)
        ensures
            r@ == self@.with_suggestion(suggestion@),
    {
        let mut r = self;
        r.suggestion = Some(suggestion.to_owned());
        r
    }
}

impl Clone for ValidationIssue {
    fn clone(&self) -> (r: Self)
        ensures
            r@ == self@,
    {
        ValidationIssue {
            code: self.code.clone(),
            path: text::clone_opt(&self.path),
            line: self.line,
            column: self.column,
            field: text::clone_opt(&self.field),
            message: self.message.clone(),
            suggestion: text::clone_opt(&self.suggestion),
            severity: self.severity,
        }
    }
}

/// Whether one optional path ranks before another: none first, else in path order.
pub open spec fn opt_path_less(a: Option<Seq<char>>, b: Option<Seq<char>>) -> bool {
    match (a, b) {
        (None, Some(_)) => true,
        (Some(x), Some(y)) => paths::path_less(x, y),
        _ => false,
    }
}

/// Whether one optional text ranks before another: none first, else in text order.
pub open spec fn opt_text_less(a: Option<Seq<char>>, b: Option<Seq<char>>) -> bool {
    match (a, b) {
        (None, Some(_)) => true,
        (Some(x), Some(y)) => text::less(x, y),
        _ => false,
    }
}

/// Whether one optional number ranks before another: none first, else the smaller.
pub open spec fn opt_number_less(a: Option<usize>, b: Option<usize>) -> bool {
    match (a, b) {
        (None, Some(_)) => true,
        (Some(x), Some(y)) => x < y,
        _ => false,
    }
}

/// Whether one issue is listed before another: by path, field, line, column and code.
pub open spec fn issue_before(a: IssueModel, b: IssueModel) -> bool {
    if opt_path_less(a.path, b.path) {
        true
    } else if opt_path_less(b.path, a.path) {
        false
    } else if opt_text_less(a.field, b.field) {
        true
    } else if opt_text_less(b.field, a.field) {
        false
    } else if opt_number_less(a.line, b.line) {
        true
    } else if opt_number_less(b.line, a.line) {
        false
    } else if opt_number_less(a.column, b.column) {
        true
    } else if opt_number_less(b.column, a.column) {
        false
    } else {
        text::less(a.code, b.code)
    }
}

proof fn opt_path_one_way(a: Option<Seq<char>>, b: Option<Seq<char>>)
    ensures
        !(opt_path_less(a, b) && opt_path_less(b, a)),
{
    if a is Some && b is Some {
        paths::lemma_parts_less_one_way(paths::parts(a->0), paths::parts(b->0), 0);
    }
}

proof fn opt_path_no_gap(a: Option<Seq<char>>, b: Option<Seq<char>>, c: Option<Seq<char>>)
    ensures
        opt_path_less(a, c) ==> opt_path_less(a, b) || opt_path_less(b, c),
{
    if opt_path_less(a, c) && a is Some && b is Some && c is Some {
        paths::lemma_parts_less_no_gap(
            paths::parts(a->0),
            paths::parts(b->0),
            paths::parts(c->0),
            0,
        );
    }
}

proof fn text_one_way(a: Seq<char>, b: Seq<char>)
    ensures
        !(text::less(a, b) && text::less(b, a)),
{
    assert(a.take(0) == b.take(0));
    text::lemma_less_total(a, b, 0);
}

proof fn text_no_gap(a: Seq<char>, b: Seq<char>, c: Seq<char>)
    ensures
        text::less(a, c) ==> text::less(a, b) || text::less(b, c),
{
    if text::less(a, c) {
        text::lemma_less_between(a, b, c);
    }
}

proof fn opt_text_one_way(a: Option<Seq<char>>, b: Option<Seq<char>>)
    ensures
        !(opt_text_less(a, b) && opt_text_less(b, a)),
{
    if a is Some && b is Some {
        text_one_way(a->0, b->0);
    }
}

proof fn opt_text_no_gap(a: Option<Seq<char>>, b: Option<Seq<char>>, c: Option<Seq<char>>)
    ensures
        opt_text_less(a, c) ==> opt_text_less(a, b) || opt_text_less(b, c),
{
    if a is Some && b is Some && c is Some {
        text_no_gap(a->0, b->0, c->0);
    }
}

fn is_opt_path_less(a: &Option<String>, b: &Option<String>) -> (r: bool)
    ensures
        r == opt_path_less(text::opt(*a), text::opt(*b)),
{
    match (a, b) {
        (None, Some(_)) => true,
        (Some(x), Some(y)) => paths::is_path_less(x.as_str(), y.as_str()),
        _ => false,
    }
}

/// See [`opt_text_less`].
pub fn is_opt_text_less(a: &Option<String>, b: &Option<String>) -> (r: bool)
    ensures
        r == opt_text_less(text::opt(*a), text::opt(*b)),
{
    match (a, b) {
        (None, Some(_)) => true,
        (Some(x), Some(y)) => {
            let x = text::chars(x.as_str());
            let y = text::chars(y.as_str());
            text::is_less(&x, &y)
        },
        _ => false,
    }
}

fn is_opt_number_less(a: Option<usize>, b: Option<usize>) -> (r: bool)
    ensures
        r == opt_number_less(a, b),
{
    match (a, b) {
        (None, Some(_)) => true,
        (Some(x), Some(y)) => x < y,
        _ => false,
    }
}

impl Ranked for ValidationIssue {
    open spec fn before(a: Self, b: Self) -> bool {
        issue_before(a@, b@)
    }

    proof fn one_way(a: Self, b: Self) {
        opt_path_one_way(a@.path, b@.path);
        opt_text_one_way(a@.field, b@.field);
        text_one_way(a@.code, b@.code);
    }

    proof fn no_gap(a: Self, b: Self, c: Self) {
        let (x, y, z) = (a@, b@, c@);
        opt_path_one_way(x.path, y.path);
        opt_path_one_way(y.path, z.path);
        opt_path_one_way(x.path, z.path);
        opt_path_no_gap(x.path, y.path, z.path);
        opt_path_no_gap(z.path, y.path, x.path);
        opt_path_no_gap(y.path, x.path, z.path);
        opt_path_no_gap(x.path, z.path, y.path);
        opt_path_no_gap(y.path, z.path, x.path);
        opt_path_no_gap(z.path, x.path, y.path);
        opt_text_one_way(x.field, y.field);
        opt_text_one_way(y.field, z.field);
        opt_text_one_way(x.field, z.field);
        opt_text_no_gap(x.field, y.field, z.field);
        opt_text_no_gap(z.field, y.field, x.field);
        opt_text_no_gap(y.field, x.field, z.field);
        opt_text_no_gap(x.field, z.field, y.field);
        opt_text_no_gap(y.field, z.field, x.field);
        opt_text_no_gap(z.field, x.field, y.field);
        text_no_gap(x.code, y.code, z.code);
    }

    fn is_before(&self, other: &Self) -> (r: bool) {
        if is_opt_path_less(&self.path, &other.path) {
            true
        } else if is_opt_path_less(&other.path, &self.path) {
            false
        } else if is_opt_text_less(&self.field, &other.field) {
            true
        } else if is_opt_text_less(&other.field, &self.field) {
            false
        } else if is_opt_number_less(self.line, other.line) {
            true
        } else if is_opt_number_less(other.line, self.line) {
            false
        } else if is_opt_number_less(self.column, other.column) {
            true
        } else if is_opt_number_less(other.column, self.column) {
            false
        } else {
            let a = text::chars(self.code.as_str());
            let b = text::chars(other.code.as_str());
            text::is_less(&a, &b)
        }
    }
}

/// What a check of a store looked at and found.
#[derive(Debug, Clone, Copy, PartialEq, Eq, Structural)]
pub struct ValidationSummary {
    pub valid: bool,
    pub errors: usize,
    pub warnings: usize,
    pub tasks: usize,
    pub projects: usize,
}

/// A failure, with what is known of where it happened.
#[derive(Debug)]
pub struct Error {
    kind: ErrorKind,
    code: &'static str,
    message: String,
    path: Option<String>,
    field: Option<String>,
    line: Option<usize>,
    column: Option<usize>,
    issues: Vec<ValidationIssue>,
    summary: Option<ValidationSummary>,
}

/// What an error says.
#[verifier::ext_equal]
pub struct ErrorModel {
    pub kind: ErrorKind,
    pub code: Seq<char>,
    pub message: Seq<char>,
    pub path: Option<Seq<char>>,
    pub field: Option<Seq<char>>,
    pub line: Option<usize>,
    pub column: Option<usize>,
    pub issues: Seq<IssueModel>,
    pub summary: Option<ValidationSummary>,
}

impl ErrorModel {
    /// An error with nothing but its class, a code and a message.
    pub open spec fn new(kind: ErrorKind, code: Seq<char>, message: Seq<char>) -> Self {
        ErrorModel {
            kind,
            code,
            message,
            path: None,
            field: None,
            line: None,
            column: None,
            issues: seq![],
            summary: None,
        }
    }

    /// A misuse of a command.
    pub open spec fn usage(code: Seq<char>, message: Seq<char>) -> Self {
        Self::new(ErrorKind::Usage, code, message)
    }

    /// Something that does not exist.
    pub open spec fn not_found(code: Seq<char>, message: Seq<char>) -> Self {
        Self::new(ErrorKind::NotFound, code, message)
    }

    /// Data that breaks a rule.
    pub open spec fn validation(code: Seq<char>, message: Seq<char>) -> Self {
        Self::new(ErrorKind::Validation, code, message)
    }

    /// Data that this version does not handle.
    pub open spec fn unsupported(code: Seq<char>, message: Seq<char>) -> Self {
        Self::new(ErrorKind::Unsupported, code, message)
    }

    /// A failed system call.
    pub open spec fn io(action: Seq<char>, path: Seq<char>, source: Seq<char>) -> Self {
        Self::new(
            ErrorKind::Io,
            "io_error"@,
            "Could not "@ + action + ": "@ + source,
        ).with_path(path)
    }

    /// The error, said of a path.
    pub open spec fn with_path(self, path: Seq<char>) -> Self {
        ErrorModel { path: Some(path), ..self }
    }

    /// The error, said of a field.
    pub open spec fn with_field(self, field: Seq<char>) -> Self {
        ErrorModel { field: Some(field), ..self }
    }

    /// The error, said of a place in a file.
    pub open spec fn with_location(self, line: usize, column: usize) -> Self {
        ErrorModel { line: Some(line), column: Some(column), ..self }
    }
}

impl View for Error {
    type V = ErrorModel;

    closed spec fn view(&self) -> ErrorModel {
        ErrorModel {
            kind: self.kind,
            code: self.code@,
            message: self.message@,
            path: text::opt(self.path),
            field: text::opt(self.field),
            line: self.line,
            column: self.column,
            issues: issue_models(self.issues@),
            summary: self.summary,
        }
    }
}

/// The result, with what its error says in place of the error.
pub open spec fn outcome<T>(r: Result<T, Error>) -> Result<T, ErrorModel> {
    match r {
        Ok(value) => Ok(value),
        Err(error) => Err(error@),
    }
}

/// The result, with what its value and its error say in place of them.
pub open spec fn viewed<T: View>(r: Result<T, Error>) -> Result<T::V, ErrorModel> {
    match r {
        Ok(value) => Ok(value@),
        Err(error) => Err(error@),
    }
}

/// How many of the issues are errors.
pub open spec fn error_count(issues: Seq<IssueModel>) -> nat
    decreases issues.len(),
{
    if issues.len() == 0 {
        0
    } else {
        error_count(issues.drop_last()) + if issues.last().severity == IssueSeverity::Error {
            1nat
        } else {
            0nat
        }
    }
}

/// There are no more errors than issues.
pub proof fn lemma_error_count(issues: Seq<IssueModel>)
    ensures
        error_count(issues) <= issues.len(),
    decreases issues.len(),
{
    if issues.len() > 0 {
        lemma_error_count(issues.drop_last());
    }
}

/// Whether one of the issues has the code.
pub open spec fn has_code(issues: Seq<IssueModel>, code: Seq<char>) -> bool {
    exists|i: int| 0 <= i < issues.len() && (#[trigger] issues[i]).code == code
}

/// The class of an error made of issues: what this version does not handle comes first,
/// then an unresolved conflict, then any broken rule.
pub open spec fn issues_kind(issues: Seq<IssueModel>) -> ErrorKind {
    if has_code(issues, "unsupported_schema"@) || has_code(issues, "schema_version_mismatch"@) {
        ErrorKind::Unsupported
    } else if has_code(issues, "unresolved_conflict"@) {
        ErrorKind::Concurrent
    } else {
        ErrorKind::Validation
    }
}

/// The message of an error made of issues.
pub open spec fn issues_message(errors: nat, warnings: nat) -> Seq<char> {
    if errors == 0 {
        "Validation completed with "@ + text::decimal(warnings) + " warning(s)"@
    } else if warnings == 0 {
        "Validation failed with "@ + text::decimal(errors) + " error(s)"@
    } else {
        "Validation failed with "@ + text::decimal(errors) + " error(s) and "@ + text::decimal(
            warnings,
        ) + " warning(s)"@
    }
}

/// The error that lists issues, which are in order.
pub open spec fn issues_error(issues: Seq<IssueModel>) -> ErrorModel {
    let errors = error_count(issues);
    ErrorModel {
        issues,
        ..ErrorModel::new(
            issues_kind(issues),
            "validation_failed"@,
            issues_message(errors, (issues.len() - errors) as nat),
        )
    }
}

fn any_code(issues: &Vec<ValidationIssue>, code: &str) -> (r: bool)
    ensures
        r == has_code(issue_models(issues@), code@),
{
    let mut i: usize = 0;
    while i < issues.len()
        invariant
            i <= issues.len(),
            forall|k: int| 0 <= k < i ==> (#[trigger] issue_models(issues@)[k]).code != code@,
        decreases issues.len() - i,
    {
        if text::same(issues[i].code.as_str(), code) {
            assert(issue_models(issues@)[i as int].code == code@);
            return true;
        }
        i += 1;
    }
    false
}

/// Put an issue behind the others.
pub(crate) fn add_issue(issues: &mut Vec<ValidationIssue>, issue: ValidationIssue)
    ensures
        issue_models(final(issues)@) == issue_models(old(issues)@).push(issue@),
{
    issues.push(issue);
    assert(issue_models(issues@) =~= issue_models(old(issues)@).push(issue@));
}

/// Put issues behind the others.
pub(crate) fn add_issues(issues: &mut Vec<ValidationIssue>, more: Vec<ValidationIssue>)
    ensures
        issue_models(final(issues)@) == issue_models(old(issues)@) + issue_models(more@),
{
    let mut more = more;
    let ghost given = more@;
    issues.append(&mut more);
    assert(issue_models(issues@) =~= issue_models(old(issues)@) + issue_models(given));
}

/// The number of issues that are errors.
#[must_use]
pub fn count_errors(issues: &Vec<ValidationIssue>) -> (r: usize)
    ensures
        r == error_count(issue_models(issues@)),
        r <= issues@.len(),
{
    let ghost models = issue_models(issues@);
    let mut r: usize = 0;
    let mut i: usize = 0;
    while i < issues.len()
        invariant
            i <= issues.len(),
            models == issue_models(issues@),
            r == error_count(models.take(i as int)),
            r <= i,
        decreases issues.len() - i,
    {
        assert(models.take(i + 1).drop_last() == models.take(i as int));
        assert(models[i as int] == issues@[i as int]@);
        if issues[i].severity == IssueSeverity::Error {
            r += 1;
        }
        i += 1;
    }
    assert(models.take(i as int) == models);
    r
}

impl Error {
    /// An error with nothing but its class, a code and a message.
    #[must_use]
    pub fn new(kind: ErrorKind, code: &'static str, message: &str) -> (r: Self)
        ensures
            r@ == ErrorModel::new(kind, code@, message@),
    {
        let r = Error {
            kind,
            code,
            message: message.to_owned(),
            path: None,
            field: None,
            line: None,
            column: None,
            issues: Vec::new(),
            summary: None,
        };
        assert(r@.issues =~= Seq::<IssueModel>::empty());
        r
    }

    /// A misuse of a command.
    #[must_use]
    pub fn usage(code: &'static str, message: &str) -> (r: Self)
        ensures
            r@ == ErrorModel::usage(code@, message@),
    {
        Self::new(ErrorKind::Usage, code, message)
    }

    /// Something that does not exist.
    #[must_use]
    pub fn not_found(code: &'static str, message: &str) -> (r: Self)
        ensures
            r@ == ErrorModel::not_found(code@, message@),
    {
        Self::new(ErrorKind::NotFound, code, message)
    }

    /// Data that breaks a rule.
    #[must_use]
    pub fn validation(code: &'static str, message: &str) -> (r: Self)
        ensures
            r@ == ErrorModel::validation(code@, message@),
    {
        Self::new(ErrorKind::Validation, code, message)
    }

    /// Data that this version does not handle.
    #[must_use]
    pub fn unsupported(code: &'static str, message: &str) -> (r: Self)
        ensures
            r@ == ErrorModel::unsupported(code@, message@),
    {
        Self::new(ErrorKind::Unsupported, code, message)
    }

    /// A failed system call, with the system's own words.
    #[must_use]
    pub fn io(action: &str, path: &str, source: &str) -> (r: Self)
        ensures
            r@ == ErrorModel::io(action@, path@, source@),
    {
        let message = text::join4("Could not ", action, ": ", source);
        Self::new(ErrorKind::Io, "io_error", message.as_str()).with_path(path)
    }

    /// The error that a list of issues amounts to. It lists them in order.
    #[must_use]
    pub fn from_issues(issues: Vec<ValidationIssue>) -> (r: Self)
        ensures
            exists|sorted: Seq<ValidationIssue>|
                #![trigger issue_models(sorted)]
                order::arranged(issues@, sorted) && r@ == issues_error(issue_models(sorted)),
    {
        let sorted = order::sort(issues);
        let errors: usize = count_errors(&sorted);
        let warnings: usize = sorted.len() - errors;
        let message = if errors == 0 {
            text::join3(
                "Validation completed with ",
                text::format_number(warnings as u64).as_str(),
                " warning(s)",
            )
        } else if warnings == 0 {
            text::join3(
                "Validation failed with ",
                text::format_number(errors as u64).as_str(),
                " error(s)",
            )
        } else {
            text::join5(
                "Validation failed with ",
                text::format_number(errors as u64).as_str(),
                " error(s) and ",
                text::format_number(warnings as u64).as_str(),
                " warning(s)",
            )
        };
        let kind = if any_code(&sorted, "unsupported_schema") || any_code(
            &sorted,
            "schema_version_mismatch",
        ) {
            ErrorKind::Unsupported
        } else if any_code(&sorted, "unresolved_conflict") {
            ErrorKind::Concurrent
        } else {
            ErrorKind::Validation
        };
        let mut error = Self::new(kind, "validation_failed", message.as_str());
        let ghost models = issue_models(sorted@);
        assert(models.len() == sorted@.len());
        error.issues = sorted;
        assert(error@.issues == models);
        error
    }

    /// The error, said of a path.
    #[must_use]
    pub fn with_path(self, path: &str) -> (r: Self)
        ensures
            r@ == self@.with_path(path@),
    {
        let mut r = self;
        r.path = Some(path.to_owned());
        r
    }

    /// The error, said of a field.
    #[must_use]
    pub fn with_field(self, field: &str) -> (r: Self)
        ensures
            r@ == self@.with_field(field@),
    {
        let mut r = self;
        r.field = Some(field.to_owned());
        r
    }

    /// The error, said of a place in a file.
    #[must_use]
    pub fn with_location(self, line: usize, column: usize) -> (r: Self)
        ensures
            r@ == self@.with_location(line, column),
    {
        let mut r = self;
        r.line = Some(line);
        r.column = Some(column);
        r
    }

    /// The error, with the summary of the check that found it.
    #[must_use]
    pub fn with_validation_summary(self, summary: ValidationSummary) -> (r: Self)
        ensures
            r@ == (ErrorModel { summary: Some(summary), ..self@ }),
    {
        let mut r = self;
        r.summary = Some(summary);
        r
    }

    /// The class of the error.
    #[must_use]
    pub fn kind(&self) -> (r: ErrorKind)
        ensures
            r == self@.kind,
    {
        self.kind
    }

    /// The code by which programs tell errors apart.
    #[must_use]
    pub fn code(&self) -> (r: &'static str)
        ensures
            r@ == self@.code,
    {
        self.code
    }

    /// The message for people.
    #[must_use]
    pub fn message(&self) -> (r: &str)
        ensures
            r@ == self@.message,
    {
        self.message.as_str()
    }

    /// The path that the error is said of.
    #[must_use]
    pub fn path(&self) -> (r: Option<&str>)
        ensures
            r is Some == self@.path is Some,
            r matches Some(path) ==> Some(path@) == self@.path,
    {
        match &self.path {
            Some(path) => Some(path.as_str()),
            None => None,
        }
    }

    /// The field that the error is said of.
    #[must_use]
    pub fn field(&self) -> (r: Option<&str>)
        ensures
            r is Some == self@.field is Some,
            r matches Some(field) ==> Some(field@) == self@.field,
    {
        match &self.field {
            Some(field) => Some(field.as_str()),
            None => None,
        }
    }

    /// The line that the error is said of.
    #[must_use]
    pub fn line(&self) -> (r: Option<usize>)
        ensures
            r == self@.line,
    {
        self.line
    }

    /// The column that the error is said of.
    #[must_use]
    pub fn column(&self) -> (r: Option<usize>)
        ensures
            r == self@.column,
    {
        self.column
    }

    /// The issues that the error is made of.
    #[must_use]
    pub fn issues(&self) -> (r: &Vec<ValidationIssue>)
        ensures
            issue_models(r@) == self@.issues,
    {
        &self.issues
    }

    /// The summary of the check that found the error.
    #[must_use]
    pub fn validation_summary(&self) -> (r: Option<ValidationSummary>)
        ensures
            r == self@.summary,
    {
        self.summary
    }

    /// The exit code of the error's class.
    #[must_use]
    pub fn exit_code(&self) -> (r: u8)
        ensures
            r == exit_code_of(self@.kind),
    {
        self.kind.exit_code()
    }

    /// The error as one line: its path, where it has one, and its message.
    #[must_use]
    pub fn to_string(&self) -> (r: String)
        ensures
            r@ == (match self@.path {
                Some(path) => path + ": "@ + self@.message,
                None => self@.message,
            }),
    {
        match &self.path {
            Some(path) => text::join3(path.as_str(), ": ", self.message.as_str()),
            None => self.message.clone(),
        }
    }
}

} // verus!
