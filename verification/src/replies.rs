//! What commands answer, and what their arguments ask for.
use vstd::prelude::*;

use crate::calendar::Time;
use crate::commands::init::InitPlan;
use crate::config;
use crate::discovery::{self, DiscoveryOptions, Look};
use crate::error::{self, Error, ErrorModel, ValidationIssue, ValidationSummary};
use crate::frontmatter;
use crate::model::{self, Project, Task};
use crate::order;
use crate::recurrence::{RecurrenceMode, RecurrenceRule, RuleModel};
use crate::store;
use crate::text;
use crate::upgrade::{self, UpgradeStatus};
use crate::validate::ValidationReport;

verus! {

/// What the program can do, for people.
pub const CAPABILITIES: &'static str =
    "Store schema versions: 1, 2\nFeatures: subtasks, task_candidates, store_upgrade, attachments, task_urls";

/// What was done with a task.
#[derive(Debug, Clone, Copy, PartialEq, Eq, Structural)]
pub enum TaskDone {
    Added,
    Updated,
    Completed,
    Finished,
    Cancelled,
    Reopened,
    Deleted,
}

impl TaskDone {
    /// What stands before the task's ID.
    pub open spec fn before(self) -> Seq<char> {
        match self {
            TaskDone::Added => ""@,
            TaskDone::Updated => "Updated "@,
            TaskDone::Completed => "Completed "@,
            TaskDone::Finished => "Finished series "@,
            TaskDone::Cancelled => "Cancelled "@,
            TaskDone::Reopened => "Reopened "@,
            TaskDone::Deleted => "Deleted "@,
        }
    }

    /// What stands behind the task's name.
    pub open spec fn behind(self) -> Seq<char> {
        match self {
            TaskDone::Deleted => "; recovery requires external Git history or backups"@,
            _ => ""@,
        }
    }
}

/// What is told of a task that something was done with.
pub fn task_reply(done: TaskDone, task: &Task) -> (r: String)
    ensures
        r@ == done.before() + task.id@ + " "@ + task.name@ + done.behind(),
{
    let before = match done {
        TaskDone::Added => "",
        TaskDone::Updated => "Updated ",
        TaskDone::Completed => "Completed ",
        TaskDone::Finished => "Finished series ",
        TaskDone::Cancelled => "Cancelled ",
        TaskDone::Reopened => "Reopened ",
        TaskDone::Deleted => "Deleted ",
    };
    let behind = match done {
        TaskDone::Deleted => "; recovery requires external Git history or backups",
        _ => "",
    };
    text::join5(before, task.id.as_str(), " ", task.name.as_str(), behind)
}

/// What was done with a project.
#[derive(Debug, Clone, Copy, PartialEq, Eq, Structural)]
pub enum ProjectDone {
    Created,
    Updated,
    Deleted,
}

impl ProjectDone {
    /// What stands before the project's slug.
    pub open spec fn before(self) -> Seq<char> {
        match self {
            ProjectDone::Created => "Created project "@,
            ProjectDone::Updated => "Updated project "@,
            ProjectDone::Deleted => "Deleted project "@,
        }
    }
}

/// What is told of a project that something was done with.
pub fn project_reply(done: ProjectDone, project: &Project) -> (r: String)
    ensures
        r@ == done.before() + project.slug@ + " "@ + project.name@,
{
    let before = match done {
        ProjectDone::Created => "Created project ",
        ProjectDone::Updated => "Updated project ",
        ProjectDone::Deleted => "Deleted project ",
    };
    text::join4(before, project.slug.as_str(), " ", project.name.as_str())
}

/// What is told of a store that was made, or would be.
pub fn init_reply(plan: &InitPlan) -> (r: String)
    ensures
        r@ == (if plan.dry_run {
            "Would initialize"@
        } else {
            "Initialized"@
        }) + " todo store at "@ + plan.store_root@,
{
    let action = if plan.dry_run {
        "Would initialize"
    } else {
        "Initialized"
    };
    text::join3(action, " todo store at ", plan.store_root.as_str())
}

/// What is told of an upgrade.
pub open spec fn upgrade_text(
    status: UpgradeStatus,
    from: u32,
    to: u32,
    dry_run: bool,
    root: Seq<char>,
) -> Seq<char> {
    "Store upgrade "@ + upgrade::status_word(status) + ": "@ + text::decimal(from as nat) + " -> "@
        + text::decimal(to as nat) + (if dry_run {
        " (dry run)"@
    } else {
        ""@
    }) + "\nSchema: "@ + store::below(root, config::SCHEMA_PATH@) + "\nConfig: "@ + store::below(
        root,
        config::CONFIG_PATH@,
    )
}

/// What is told of an upgrade.
pub fn upgrade_reply(status: UpgradeStatus, from: u32, to: u32, dry_run: bool, root: &str) -> (r:
    String)
    ensures
        r@ == upgrade_text(status, from, to, dry_run, root@),
{
    let first = text::join4(
        "Store upgrade ",
        status.as_str(),
        ": ",
        text::format_number(from as u64).as_str(),
    );
    let note = if dry_run {
        " (dry run)"
    } else {
        ""
    };
    let second = text::join4(
        first.as_str(),
        " -> ",
        text::format_number(to as u64).as_str(),
        note,
    );
    text::join5(
        second.as_str(),
        "\nSchema: ",
        store::join(root, config::SCHEMA_PATH).as_str(),
        "\nConfig: ",
        store::join(root, config::CONFIG_PATH).as_str(),
    )
}

/// The report, where the store is valid; otherwise the error that its issues amount to, with the
/// numbers of the report.
pub fn validation_outcome(report: ValidationReport) -> (r: Result<ValidationReport, Error>)
    ensures
        r is Ok <==> report.valid,
        r matches Ok(same) ==> same == report,
        r matches Err(e) ==> exists|sorted: Seq<ValidationIssue>|
            #![trigger error::issue_models(sorted)]
            order::arranged(report.issues@, sorted) && e@ == (ErrorModel {
                summary: Some(
                    ValidationSummary {
                        valid: report.valid,
                        errors: report.errors,
                        warnings: report.warnings,
                        tasks: report.tasks,
                        projects: report.projects,
                    },
                ),
                ..error::issues_error(error::issue_models(sorted))
            }),
{
    let summary = ValidationSummary {
        valid: report.valid,
        errors: report.errors,
        warnings: report.warnings,
        tasks: report.tasks,
        projects: report.projects,
    };
    match report.into_result() {
        Ok(report) => Ok(report),
        Err(e) => Err(e.with_validation_summary(summary)),
    }
}

/// What the arguments for a task's time and recurrence say.
pub open spec fn schedule(
    time: Option<Seq<char>>,
    rule: Option<Seq<char>>,
    mode: Option<Seq<char>>,
) -> Result<(Option<Time>, Option<RuleModel>, Option<RecurrenceMode>), ErrorModel> {
    match frontmatter::optional_time(time) {
        Err(e) => Err(e),
        Ok(time) => match frontmatter::optional_rule(rule) {
            Err(e) => Err(e),
            Ok(rule) => match frontmatter::optional_mode(mode) {
                Err(e) => Err(e),
                Ok(mode) => Ok((time, rule, mode)),
            },
        },
    }
}

/// The result of reading a schedule, as values.
pub open spec fn schedule_outcome(
    r: Result<(Option<Time>, Option<RecurrenceRule>, Option<RecurrenceMode>), Error>,
) -> Result<(Option<Time>, Option<RuleModel>, Option<RecurrenceMode>), ErrorModel> {
    match r {
        Ok((time, rule, mode)) => Ok((time, model::opt_rule(rule), mode)),
        Err(e) => Err(e@),
    }
}

/// What the arguments for a task's time and recurrence say.
pub fn read_schedule(time: &Option<String>, rule: &Option<String>, mode: &Option<String>) -> (r:
    Result<(Option<Time>, Option<RecurrenceRule>, Option<RecurrenceMode>), Error>)
    ensures
        schedule_outcome(r) == schedule(text::opt(*time), text::opt(*rule), text::opt(*mode)),
{
    let time = match time {
        None => None,
        Some(value) => match model::parse_time(value.as_str()) {
            Ok(time) => Some(time),
            Err(e) => {
                return Err(e);
            },
        },
    };
    let rule = match rule {
        None => None,
        Some(value) => match RecurrenceRule::parse(value.as_str()) {
            Ok(rule) => Some(rule),
            Err(e) => {
                return Err(e);
            },
        },
    };
    let mode = match mode {
        None => None,
        Some(value) => match RecurrenceMode::parse(value.as_str()) {
            Ok(mode) => Some(mode),
            Err(e) => {
                return Err(e);
            },
        },
    };
    Ok((time, rule, mode))
}

/// The root that is to be validated because it was named, which need not be a store, or nothing
/// where none was named.
pub open spec fn named_root(options: DiscoveryOptions, look: Look) -> Result<
    Option<Seq<char>>,
    ErrorModel,
> {
    let source = if options.explicit_root is Some {
        "--root"@
    } else {
        "OBSIDIAN_TODO_ROOT"@
    };
    match discovery::named_path(options) {
        None => Ok(None),
        Some(path) => if options.explicit_root is None && options.environment_root->0@.len() == 0 {
            Err(ErrorModel::usage("invalid_root"@, "OBSIDIAN_TODO_ROOT cannot be empty"@))
        } else {
            match look {
                Look::Missing => Err(
                    ErrorModel::not_found(
                        "store_not_found"@,
                        source + " does not identify an existing path"@,
                    ).with_path(path),
                ),
                Look::Failed(reason) => Err(
                    ErrorModel::io("inspect the requested validation root"@, path, reason@),
                ),
                _ => Ok(Some(path)),
            }
        },
    }
}

/// The root that is to be validated because it was named. See [`named_root`].
pub fn validation_root(options: &DiscoveryOptions, look: &Look) -> (r: Result<
    Option<String>,
    Error,
>)
    ensures
        frontmatter::opt_outcome(r) == named_root(*options, *look),
{
    let path = match discovery::path_named(options) {
        Some(path) => path,
        None => {
            return Ok(None);
        },
    };
    let source = match &options.explicit_root {
        Some(_) => "--root",
        None => "OBSIDIAN_TODO_ROOT",
    };
    if let (None, Some(root)) = (&options.explicit_root, &options.environment_root) {
        if text::chars(root.as_str()).len() == 0 {
            return Err(Error::usage("invalid_root", "OBSIDIAN_TODO_ROOT cannot be empty"));
        }
    }
    match look {
        Look::Missing => Err(
            Error::not_found(
                "store_not_found",
                text::join2(source, " does not identify an existing path").as_str(),
            ).with_path(path.as_str()),
        ),
        Look::Failed(reason) => Err(
            Error::io("inspect the requested validation root", path.as_str(), reason.as_str()),
        ),
        _ => Ok(Some(path)),
    }
}

} // verus!
