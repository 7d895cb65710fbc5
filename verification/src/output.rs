//! What is shown to people, and what is read from the command line.
use vstd::prelude::*;

use crate::attachments::{AttachmentView, ViewModel};
use crate::calendar::Date;
use crate::commands::project::ProjectSummary;
use crate::commands::task::{self, TaskView};
use crate::error::{self, Error, ErrorModel, IssueModel, IssueSeverity, ValidationIssue};
use crate::frontmatter;
use crate::model::{self, Project, Task, TaskModel};
use crate::recurrence;
use crate::text;
use crate::validate::ValidationReport;
use crate::yaml;

verus! {

/// How results are written.
#[derive(Debug, Clone, Copy, PartialEq, Eq, Structural)]
pub enum OutputFormat {
    Human,
    Json,
}

/// Whether results are colored.
#[derive(Debug, Clone, Copy, PartialEq, Eq, Structural)]
pub enum ColorChoice {
    Auto,
    Always,
    Never,
}

/// Whether the arguments from the `i`-th on ask for JSON, where `json` says whether those before
/// do. What comes behind `--` does not count.
pub open spec fn json_asked(arguments: Seq<Seq<char>>, i: int, json: bool) -> bool
    decreases arguments.len() - i + 1,
{
    if i >= arguments.len() || arguments[i] == "--"@ {
        json
    } else if arguments[i] == "--format"@ {
        json_asked(
            arguments,
            i + 2,
            json || (i + 1 < arguments.len() && text::lower(arguments[i + 1]) == "json"@),
        )
    } else {
        json_asked(
            arguments,
            i + 1,
            json || (text::begins(arguments[i], "--format="@) && text::lower(
                arguments[i].skip("--format="@.len() as int),
            ) == "json"@),
        )
    }
}

/// How results are to be written, by the arguments of a command, the first of which is the
/// command. This is known also where the arguments are wrong.
pub fn requested_format(arguments: &Vec<String>) -> (r: OutputFormat)
    ensures
        r == (if json_asked(text::strings(arguments@), 1, false) {
            OutputFormat::Json
        } else {
            OutputFormat::Human
        }),
{
    let ghost all = text::strings(arguments@);
    let n: usize = arguments.len();
    let mut json = false;
    let mut i: usize = 1;
    while i < n && !text::same(arguments[i].as_str(), "--")
        invariant
            1 <= i,
            n == arguments@.len(),
            all == text::strings(arguments@),
            json_asked(all, 1, false) == json_asked(all, i as int, json),
        decreases n - i,
    {
        assert(all[i as int] == arguments@[i as int]@);
        if text::same(arguments[i].as_str(), "--format") {
            if n - i > 1 {
                assert(all[i + 1] == arguments@[i + 1]@);
                let value = text::chars(arguments[i + 1].as_str());
                if text::spells(&text::to_lower(&value), "json") {
                    json = true;
                }
                i += 2;
            } else {
                i += 1;
                assert(json_asked(all, i as int, json) == json);
                assert(json_asked(all, i + 1, json) == json);
            }
        } else {
            let argument = text::chars(arguments[i].as_str());
            proof {
                reveal_strlit("--format=");
                assert("--format="@.len() == 9);
            }
            if text::is_at(&argument, "--format=", 0) {
                let value = text::cut(&argument, 9, argument.len());
                assert(value@ =~= argument@.skip(9));
                if text::spells(&text::to_lower(&value), "json") {
                    json = true;
                }
            }
            i += 1;
        }
    }
    if i < n {
        assert(all[i as int] == arguments@[i as int]@);
    }
    if json {
        OutputFormat::Json
    } else {
        OutputFormat::Human
    }
}

/// The body that was read, unless it is larger than a record.
pub open spec fn body_within(
    read: Result<Vec<u8>, String>,
    path: Seq<char>,
    description: Seq<char>,
) -> Result<Seq<u8>, ErrorModel> {
    match read {
        Err(reason) => Err(
            ErrorModel::io("read a body from "@ + description, path, reason@),
        ),
        Ok(bytes) => if bytes@.len() > frontmatter::MAX_RECORD_BYTES {
            Err(
                ErrorModel::validation(
                    "body_too_large"@,
                    "Body exceeds the "@ + text::decimal(frontmatter::MAX_RECORD_BYTES as nat)
                        + "-byte record limit"@,
                ).with_path(path),
            )
        } else {
            Ok(bytes@)
        },
    }
}

/// The body that was read, of which no more was asked for than one byte over the limit; an error
/// where there is more than a record may have.
pub fn read_bounded_body(read: Result<Vec<u8>, String>, path: &str, description: &str) -> (r: Result<
    Vec<u8>,
    Error,
>)
    ensures
        error::viewed(r) == body_within(read, path@, description@),
{
    match read {
        Err(reason) => Err(
            Error::io(
                text::join2("read a body from ", description).as_str(),
                path,
                reason.as_str(),
            ),
        ),
        Ok(bytes) => if bytes.len() > frontmatter::MAX_RECORD_BYTES {
            Err(
                Error::validation(
                    "body_too_large",
                    text::join3(
                        "Body exceeds the ",
                        text::format_number(frontmatter::MAX_RECORD_BYTES as u64).as_str(),
                        "-byte record limit",
                    ).as_str(),
                ).with_path(path),
            )
        } else {
            Ok(bytes)
        },
    }
}

/// The text of a body.
pub fn body_text(bytes: &[u8], path: &str) -> (r: Result<String, Error>)
    ensures
        error::viewed(r) == (if vstd::utf8::valid_utf8(bytes@) {
            Ok(vstd::utf8::decode_utf8(bytes@))
        } else {
            Err(
                ErrorModel::validation(
                    "invalid_body_utf8"@,
                    "Task and project bodies must be UTF-8"@,
                ).with_path(path@),
            )
        }),
{
    match text::decode(bytes) {
        Ok(s) => Ok(s.to_owned()),
        Err(_) => Err(
            Error::validation(
                "invalid_body_utf8",
                "Task and project bodies must be UTF-8",
            ).with_path(path),
        ),
    }
}

/// An issue in one line.
pub open spec fn issue_line(issue: IssueModel) -> Seq<char> {
    (if issue.severity == IssueSeverity::Error {
        "error["@
    } else {
        "warning["@
    }) + issue.code + "] "@ + (match issue.path {
        Some(path) => path,
        None => "<store>"@,
    }) + (match issue.field {
        Some(field) => " ["@ + field + "]"@,
        None => ""@,
    }) + ": "@ + issue.message
}

/// An issue in one line.
pub fn human_issue(issue: &ValidationIssue) -> (r: String)
    ensures
        r@ == issue_line(issue@),
{
    let severity = match issue.severity {
        IssueSeverity::Error => "error[",
        IssueSeverity::Warning => "warning[",
    };
    let path = match &issue.path {
        Some(path) => path.as_str(),
        None => "<store>",
    };
    let field = match &issue.field {
        Some(field) => text::join3(" [", field.as_str(), "]"),
        None => "".to_owned(),
    };
    let first = text::join4(severity, issue.code.as_str(), "] ", path);
    text::join4(first.as_str(), field.as_str(), ": ", issue.message.as_str())
}

/// An issue and how to mend it, where that is known, in lines that end.
pub open spec fn issue_lines(issue: IssueModel) -> Seq<char> {
    "  "@ + issue_line(issue) + "\n"@ + (match issue.suggestion {
        Some(suggestion) => "    fix: "@ + suggestion + "\n"@,
        None => ""@,
    })
}

/// The first `n` issues in lines that end.
pub open spec fn issues_lines(issues: Seq<IssueModel>, n: int) -> Seq<char>
    decreases n,
{
    if n <= 0 {
        seq![]
    } else {
        issues_lines(issues, n - 1) + issue_lines(issues[n - 1])
    }
}

/// An error, with its path where it has one.
pub open spec fn error_words(e: ErrorModel) -> Seq<char> {
    match e.path {
        Some(path) => path + ": "@ + e.message,
        None => e.message,
    }
}

fn add_issue_lines(output: &mut String, issues: &Vec<ValidationIssue>)
    ensures
        final(output)@ == old(output)@ + issues_lines(
            error::issue_models(issues@),
            issues@.len() as int,
        ),
{
    let ghost had = output@;
    let ghost models = error::issue_models(issues@);
    let mut i: usize = 0;
    assert(had =~= had + issues_lines(models, 0));
    while i < issues.len()
        invariant
            i <= issues@.len(),
            models == error::issue_models(issues@),
            output@ == had + issues_lines(models, i as int),
        decreases issues.len() - i,
    {
        assert(models[i as int] == issues@[i as int]@);
        let fix = match &issues[i].suggestion {
            Some(suggestion) => text::join3("    fix: ", suggestion.as_str(), "\n"),
            None => "".to_owned(),
        };
        let lines = text::join4("  ", human_issue(&issues[i]).as_str(), "\n", fix.as_str());
        assert(lines@ =~= issue_lines(models[i as int]));
        output.append(lines.as_str());
        assert(output@ =~= had + issues_lines(models, i + 1));
        i += 1;
    }
}

/// An error in lines, each of which ends: the error itself, then its issues.
pub fn human_error(e: &Error) -> (r: String)
    ensures
        r@ == "error["@ + e@.code + "]: "@ + error_words(e@) + "\n"@ + issues_lines(
            e@.issues,
            e@.issues.len() as int,
        ),
{
    let mut r = text::join5("error[", e.code(), "]: ", e.to_string().as_str(), "\n");
    let issues = e.issues();
    assert(error::issue_models(issues@).len() == issues@.len());
    add_issue_lines(&mut r, issues);
    r
}

/// The first `n` issues of a valid store, in lines that begin anew.
pub open spec fn warnings_text(issues: Seq<IssueModel>, n: int) -> Seq<char>
    decreases n,
{
    if n <= 0 {
        seq![]
    } else {
        warnings_text(issues, n - 1) + ("\n  "@ + issue_line(issues[n - 1])) + (
        match issues[n - 1].suggestion {
            Some(suggestion) => "\n    fix: "@ + suggestion,
            None => ""@,
        })
    }
}

/// What is said of a valid store.
pub fn human_report(report: &ValidationReport) -> (r: String)
    ensures
        r@ == "Valid todo store: "@ + text::decimal(report.tasks as nat) + " task(s), "@
            + text::decimal(report.projects as nat) + " project(s), "@ + text::decimal(
            report.warnings as nat,
        ) + " warning(s)"@ + warnings_text(
            error::issue_models(report.issues@),
            report.issues@.len() as int,
        ),
{
    let first = text::join4(
        "Valid todo store: ",
        text::format_number(report.tasks as u64).as_str(),
        " task(s), ",
        text::format_number(report.projects as u64).as_str(),
    );
    let mut output = text::join4(
        first.as_str(),
        " project(s), ",
        text::format_number(report.warnings as u64).as_str(),
        " warning(s)",
    );
    let ghost had = output@;
    let ghost models = error::issue_models(report.issues@);
    let mut i: usize = 0;
    assert(had =~= had + warnings_text(models, 0));
    while i < report.issues.len()
        invariant
            i <= report.issues@.len(),
            models == error::issue_models(report.issues@),
            output@ == had + warnings_text(models, i as int),
        decreases report.issues.len() - i,
    {
        assert(models[i as int] == report.issues@[i as int]@);
        let fix = match &report.issues[i].suggestion {
            Some(suggestion) => text::join2("\n    fix: ", suggestion.as_str()),
            None => "".to_owned(),
        };
        output.append(text::join2("\n  ", human_issue(&report.issues[i]).as_str()).as_str());
        output.append(fix.as_str());
        assert(output@ =~= had + warnings_text(models, i + 1));
        i += 1;
    }
    output
}

/// So many spaces.
pub open spec fn spaces(n: int) -> Seq<char> {
    Seq::new(
        if n > 0 {
            n as nat
        } else {
            0
        },
        |i: int| ' ',
    )
}

fn make_spaces(n: usize) -> (r: String)
    ensures
        r@ == spaces(n as int),
{
    let mut r = String::new();
    let mut i: usize = 0;
    assert(r@ =~= spaces(0));
    while i < n
        invariant
            i <= n,
            r@ == spaces(i as int),
        decreases n - i,
    {
        r.append(" ");
        proof {
            reveal_strlit(" ");
        }
        assert(r@ =~= spaces(i + 1));
        i += 1;
    }
    r
}

/// A text with spaces behind it, up to a width.
pub open spec fn padded(s: Seq<char>, width: int) -> Seq<char> {
    s + spaces(width - s.len())
}

fn pad(s: &str, width: usize) -> (r: String)
    ensures
        r@ == padded(s@, width as int),
{
    let n: usize = text::chars(s).len();
    if n < width {
        text::join2(s, make_spaces(width - n).as_str())
    } else {
        let r = s.to_owned();
        assert(r@ =~= padded(s@, width as int));
        r
    }
}

/// A text with spaces before it, up to a width.
pub open spec fn aligned(s: Seq<char>, width: int) -> Seq<char> {
    spaces(width - s.len()) + s
}

fn align(s: &str, width: usize) -> (r: String)
    ensures
        r@ == aligned(s@, width as int),
{
    let n: usize = text::chars(s).len();
    if n < width {
        text::join2(make_spaces(width - n).as_str(), s)
    } else {
        let r = s.to_owned();
        assert(r@ =~= aligned(s@, width as int));
        r
    }
}

/// A text, or `-` where there is none.
pub open spec fn or_dash(s: Option<Seq<char>>) -> Seq<char> {
    match s {
        Some(s) => s,
        None => "-"@,
    }
}

fn dashed(s: &Option<String>) -> (r: String)
    ensures
        r@ == or_dash(text::opt(*s)),
{
    match s {
        Some(s) => s.clone(),
        None => "-".to_owned(),
    }
}

/// A task in one line: ID, state, due date, projects and name. A task that repeats is marked.
pub open spec fn task_line(task: TaskModel) -> Seq<char> {
    task.id + "  "@ + padded(task.state, 10) + "  "@ + or_dash(
        frontmatter::date_opt(task.due_date),
    ) + (if task.recurrence is Some {
        " ↻"@
    } else {
        ""@
    }) + "  ["@ + (if task.projects.len() == 0 {
        "-"@
    } else {
        text::joined(task.projects, ","@)
    }) + "]  "@ + task.name
}

/// A task in one line.
pub fn human_task_line(task: &Task) -> (r: String)
    ensures
        r@ == task_line(task@),
{
    let recurring = if task.recurrence.is_some() {
        " ↻"
    } else {
        ""
    };
    assert(task@.projects.len() == task.projects@.len());
    let projects = if task.projects.len() == 0 {
        "-".to_owned()
    } else {
        text::join(&task.projects, ",")
    };
    let due = dashed(&frontmatter::write_date(task.due_date));
    let first = text::join5(
        task.id.as_str(),
        "  ",
        pad(task.state.as_str(), 10).as_str(),
        "  ",
        due.as_str(),
    );
    let second = text::join5(first.as_str(), recurring, "  [", projects.as_str(), "]  ");
    text::join2(second.as_str(), task.name.as_str())
}

/// A task in one short line: ID, state and name.
pub open spec fn short_line(task: TaskModel) -> Seq<char> {
    task.id + "  "@ + padded(task.state, 10) + "  "@ + task.name
}

/// A task in one short line.
pub fn human_candidate(task: &Task) -> (r: String)
    ensures
        r@ == short_line(task@),
{
    text::join5(
        task.id.as_str(),
        "  ",
        pad(task.state.as_str(), 10).as_str(),
        "  ",
        task.name.as_str(),
    )
}

/// What is said of tasks that are listed: a line for each.
pub fn human_task_list(tasks: &Vec<Task>) -> (r: String)
    ensures
        r@ == text::joined(
            task::task_models(tasks@).map_values(|task: TaskModel| task_line(task)),
            "\n"@,
        ),
{
    let mut lines: Vec<String> = Vec::new();
    let mut i: usize = 0;
    while i < tasks.len()
        invariant
            i <= tasks@.len(),
            lines@.len() == i,
            forall|k: int| 0 <= k < i ==> (#[trigger] lines@[k])@ == task_line(tasks@[k]@),
        decreases tasks.len() - i,
    {
        lines.push(human_task_line(&tasks[i]));
        i += 1;
    }
    assert(text::strings(lines@) =~= task::task_models(tasks@).map_values(
        |task: TaskModel| task_line(task),
    ));
    text::join(&lines, "\n")
}

/// How many of `n` tasks a short list shows, with the limit that was asked for.
pub open spec fn shown(n: int, limit: Option<u32>) -> int {
    match limit {
        Some(limit) if limit < n => limit as int,
        _ => n,
    }
}

/// How many of `n` tasks a short list shows, with the limit that was asked for.
pub fn count_shown(n: usize, limit: Option<u32>) -> (r: usize)
    ensures
        r == shown(n as int, limit),
        r <= n,
{
    match limit {
        Some(limit) => if (limit as u64) < n as u64 {
            limit as usize
        } else {
            n
        },
        None => n,
    }
}

/// What is said of tasks in a short list: a line for each that is shown, and whether there are
/// more.
pub fn human_task_summary(tasks: &Vec<Task>, limit: Option<u32>) -> (r: String)
    ensures
        r@ == text::joined(
            task::task_models(tasks@).take(shown(tasks@.len() as int, limit)).map_values(
                |task: TaskModel| short_line(task),
            ),
            "\n"@,
        ) + (if shown(tasks@.len() as int, limit) < tasks@.len() {
            "\nMore matching tasks; refine the query or increase --limit."@
        } else {
            ""@
        }),
{
    let n: usize = count_shown(tasks.len(), limit);
    let mut lines: Vec<String> = Vec::new();
    let mut i: usize = 0;
    while i < n
        invariant
            i <= n <= tasks@.len(),
            lines@.len() == i,
            forall|k: int| 0 <= k < i ==> (#[trigger] lines@[k])@ == short_line(tasks@[k]@),
        decreases n - i,
    {
        lines.push(human_candidate(&tasks[i]));
        i += 1;
    }
    assert(text::strings(lines@) =~= task::task_models(tasks@).take(n as int).map_values(
        |task: TaskModel| short_line(task),
    ));
    let more = if n < tasks.len() {
        "\nMore matching tasks; refine the query or increase --limit."
    } else {
        ""
    };
    text::join2(text::join(&lines, "\n").as_str(), more)
}

/// Everything that is shown of a task, in lines.
pub open spec fn details(view: TaskView) -> Seq<Seq<char>> {
    seq![
        "id: "@ + view.id@,
        "path: "@ + view.path@,
        "name: "@ + view.name@,
        "state: "@ + view.state@,
        "terminal: "@ + (if view.terminal {
            "true"@
        } else {
            "false"@
        }),
        "projects: "@ + text::joined(text::strings(view.projects@), ", "@),
        "tags: "@ + text::joined(text::strings(view.tags@), ", "@),
        "parent: "@ + or_dash(text::opt(view.parent)),
        "url: "@ + or_dash(text::opt(view.url)),
        "due_date: "@ + or_dash(text::opt(view.due_date)),
        "due_time: "@ + or_dash(text::opt(view.due_time)),
        "recurrence: "@ + or_dash(text::opt(view.recurrence)),
        "recurrence_from: "@ + or_dash(text::opt(view.recurrence_from)),
        "last_completed_date: "@ + or_dash(text::opt(view.last_completed_date)),
        "extra_properties: "@ + yaml::json_text(view.extra_properties),
        "body:"@,
        view.body@,
    ]
}

/// Everything that is shown of a task. See [`details`].
pub fn human_task_details(view: &TaskView) -> (r: String)
    ensures
        r@ == text::joined(details(*view), "\n"@),
{
    let terminal = if view.terminal {
        "true"
    } else {
        "false"
    };
    let lines = vec![
        text::join2("id: ", view.id.as_str()),
        text::join2("path: ", view.path.as_str()),
        text::join2("name: ", view.name.as_str()),
        text::join2("state: ", view.state.as_str()),
        text::join2("terminal: ", terminal),
        text::join2("projects: ", text::join(&view.projects, ", ").as_str()),
        text::join2("tags: ", text::join(&view.tags, ", ").as_str()),
        text::join2("parent: ", dashed(&view.parent).as_str()),
        text::join2("url: ", dashed(&view.url).as_str()),
        text::join2("due_date: ", dashed(&view.due_date).as_str()),
        text::join2("due_time: ", dashed(&view.due_time).as_str()),
        text::join2("recurrence: ", dashed(&view.recurrence).as_str()),
        text::join2("recurrence_from: ", dashed(&view.recurrence_from).as_str()),
        text::join2("last_completed_date: ", dashed(&view.last_completed_date).as_str()),
        text::join2("extra_properties: ", yaml::write_json(&view.extra_properties).as_str()),
        "body:".to_owned(),
        view.body.clone(),
    ];
    assert(text::strings(lines@) =~= details(*view));
    text::join(&lines, "\n")
}

/// Everything that is shown of a project, by what its properties are as JSON.
pub open spec fn project_details(project: model::ProjectModel, properties: Seq<char>) -> Seq<
    Seq<char>,
> {
    seq![
        "slug: "@ + project.slug,
        "path: "@ + project.path,
        "name: "@ + project.name,
        "extra_properties: "@ + properties,
        "body:"@,
        project.body,
    ]
}

/// Everything that is shown of a project. See [`project_details`].
pub fn human_project_details(project: &Project, properties: &serde_json::Value) -> (r: String)
    ensures
        r@ == text::joined(project_details(project@, yaml::json_text(*properties)), "\n"@),
{
    let lines = vec![
        text::join2("slug: ", project.slug.as_str()),
        text::join2("path: ", project.path.as_str()),
        text::join2("name: ", project.name.as_str()),
        text::join2("extra_properties: ", yaml::write_json(properties).as_str()),
        "body:".to_owned(),
        project.body.clone(),
    ];
    assert(text::strings(lines@) =~= project_details(
        project@,
        yaml::json_text(*properties),
    ));
    text::join(&lines, "\n")
}

/// A project in one line: slug, how often tasks name it, and name.
pub open spec fn project_line(summary: ProjectSummary) -> Seq<char> {
    summary.project.slug@ + "  "@ + aligned(
        text::decimal(summary.referencing_tasks as nat),
        4,
    ) + "  "@ + summary.project.name@
}

/// What is said of projects that are listed: a line for each.
pub fn human_project_list(projects: &Vec<ProjectSummary>) -> (r: String)
    ensures
        r@ == text::joined(
            projects@.map_values(|summary: ProjectSummary| project_line(summary)),
            "\n"@,
        ),
{
    let mut lines: Vec<String> = Vec::new();
    let mut i: usize = 0;
    while i < projects.len()
        invariant
            i <= projects@.len(),
            lines@.len() == i,
            forall|k: int| 0 <= k < i ==> (#[trigger] lines@[k])@ == project_line(projects@[k]),
        decreases projects.len() - i,
    {
        let count = text::format_number(projects[i].referencing_tasks as u64);
        lines.push(
            text::join5(
                projects[i].project.slug.as_str(),
                "  ",
                align(count.as_str(), 4).as_str(),
                "  ",
                projects[i].project.name.as_str(),
            ),
        );
        i += 1;
    }
    assert(text::strings(lines@) =~= projects@.map_values(
        |summary: ProjectSummary| project_line(summary),
    ));
    text::join(&lines, "\n")
}

/// An attachment in one line: path, name, size and whether it is there.
pub open spec fn attachment_line(view: ViewModel) -> Seq<char> {
    view.path + "  "@ + view.display_name + "  "@ + (match view.byte_size {
        Some(size) => text::decimal(size as nat),
        None => "unknown"@,
    }) + " bytes  "@ + view.availability
}

/// What attachments are shown as.
pub open spec fn view_models(views: Seq<AttachmentView>) -> Seq<ViewModel> {
    views.map_values(|view: AttachmentView| view@)
}

/// What is said of attachments: a line for each.
pub fn human_attachments(views: &Vec<AttachmentView>) -> (r: String)
    ensures
        r@ == (if views@.len() == 0 {
            "No recognized attachments. Use explicit Attachments/... links for manually placed files."@
        } else {
            text::joined(
                view_models(views@).map_values(|view: ViewModel| attachment_line(view)),
                "\n"@,
            )
        }),
{
    if views.len() == 0 {
        return "No recognized attachments. Use explicit Attachments/... links for manually placed files.".to_owned();
    }
    let mut lines: Vec<String> = Vec::new();
    let mut i: usize = 0;
    while i < views.len()
        invariant
            i <= views@.len(),
            lines@.len() == i,
            forall|k: int| 0 <= k < i ==> (#[trigger] lines@[k])@ == attachment_line(views@[k]@),
        decreases views.len() - i,
    {
        let size = match views[i].byte_size {
            Some(size) => text::format_number(size),
            None => "unknown".to_owned(),
        };
        let first = text::join5(
            views[i].path.as_str(),
            "  ",
            views[i].display_name.as_str(),
            "  ",
            size.as_str(),
        );
        lines.push(text::join3(first.as_str(), " bytes  ", views[i].availability));
        i += 1;
    }
    assert(text::strings(lines@) =~= view_models(views@).map_values(
        |view: ViewModel| attachment_line(view),
    ));
    text::join(&lines, "\n")
}

/// The date that an argument says, or what is wrong with it.
pub fn parse_cli_date(value: &str) -> (r: Result<Date, String>)
    ensures
        match r {
            Ok(date) => recurrence::read_date(value@, "date"@) == Ok::<Date, ErrorModel>(
                date,
            ),
            Err(message) => recurrence::read_date(value@, "date"@) matches Err(e) && e.message
                == message@,
        },
{
    match recurrence::parse_date(value, "date") {
        Ok(date) => Ok(date),
        Err(e) => Err(e.message().to_owned()),
    }
}

} // verus!
