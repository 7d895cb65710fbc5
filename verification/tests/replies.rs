use obsidian_todo::commands::init::InitPlan;
use obsidian_todo::config::Config;
use obsidian_todo::discovery::{DiscoveryOptions, Look};
use obsidian_todo::error::ValidationIssue;
use obsidian_todo::frontmatter::{parse_project, parse_task};
use obsidian_todo::recurrence::RecurrenceMode;
use obsidian_todo::replies::{
    init_reply, project_reply, read_schedule, task_reply, upgrade_reply, validation_outcome,
    validation_root, ProjectDone, TaskDone,
};
use obsidian_todo::upgrade::UpgradeStatus;
use obsidian_todo::validate::ValidationReport;

const ID: &str = "01K4B0ZSBZZV25T1K0D3TA8JHR";

#[test]
fn commands_tell_what_they_did() {
    let task = parse_task(
        ID,
        "Tasks/a.md",
        b"---\nname: Plan\nstate: active\nprojects: []\ntags: []\n---\n",
        &Config::defaults(String::new()),
    )
    .expect("task");
    for (done, told) in [
        (TaskDone::Added, format!("{ID} Plan")),
        (TaskDone::Updated, format!("Updated {ID} Plan")),
        (TaskDone::Completed, format!("Completed {ID} Plan")),
        (TaskDone::Finished, format!("Finished series {ID} Plan")),
        (TaskDone::Cancelled, format!("Cancelled {ID} Plan")),
        (TaskDone::Reopened, format!("Reopened {ID} Plan")),
        (
            TaskDone::Deleted,
            format!("Deleted {ID} Plan; recovery requires external Git history or backups"),
        ),
    ] {
        assert_eq!(task_reply(done, &task), told);
    }
    let project =
        parse_project("work", "Projects/work.md", b"---\nname: Work\n---\n").expect("project");
    assert_eq!(
        project_reply(ProjectDone::Created, &project),
        "Created project work Work"
    );
    assert_eq!(
        project_reply(ProjectDone::Deleted, &project),
        "Deleted project work Work"
    );
}

#[test]
fn plans_and_upgrades_are_told() {
    let mut plan = InitPlan {
        vault_root: "/v".to_owned(),
        store_root: "/v/Todo".to_owned(),
        directories: Vec::new(),
        files: Vec::new(),
        obsidian_link_prefix: "Todo".to_owned(),
        dry_run: true,
    };
    assert_eq!(init_reply(&plan), "Would initialize todo store at /v/Todo");
    plan.dry_run = false;
    assert_eq!(init_reply(&plan), "Initialized todo store at /v/Todo");
    assert_eq!(
        upgrade_reply(UpgradeStatus::Planned, 1, 2, true, "/v"),
        "Store upgrade planned: 1 -> 2 (dry run)\nSchema: /v/.todo/schema.json\nConfig: /v/.todo/config.toml"
    );
}

#[test]
fn invalid_stores_are_errors_with_the_numbers_of_the_report() {
    let report =
        ValidationReport::from_issues(vec![ValidationIssue::error("broken", "Broken")], 3, 2);
    let error = validation_outcome(report).expect_err("invalid");
    let summary = error.validation_summary().expect("summary");
    assert_eq!(
        (summary.valid, summary.errors, summary.warnings, summary.tasks, summary.projects),
        (false, 1, 0, 3, 2)
    );
    let report =
        ValidationReport::from_issues(vec![ValidationIssue::warning("odd", "Odd")], 3, 2);
    assert_eq!(validation_outcome(report).expect("valid").warnings, 1);
}

#[test]
fn schedules_are_read_in_order() {
    let some = |value: &str| Some(value.to_owned());
    let (time, rule, mode) =
        read_schedule(&some("08:30"), &some("FREQ=DAILY"), &some("completion")).expect("schedule");
    assert_eq!(time.expect("time").to_string(), "08:30");
    assert_eq!(rule.expect("rule").to_string(), "FREQ=DAILY;INTERVAL=1");
    assert_eq!(mode, Some(RecurrenceMode::Completion));
    for (time, rule, mode, code) in [
        ("8:30", "x", "x", "invalid_due_time"),
        ("08:30", "x", "x", "invalid_recurrence"),
        ("08:30", "FREQ=DAILY", "x", "invalid_recurrence_mode"),
    ] {
        let error =
            read_schedule(&some(time), &some(rule), &some(mode)).expect_err("invalid schedule");
        assert_eq!(error.code(), code);
    }
}

#[test]
fn a_named_root_need_not_be_a_store_to_be_validated() {
    let mut options = DiscoveryOptions {
        explicit_root: Some("Todo".to_owned()),
        environment_root: Some(String::new()),
        current_directory: "/v".to_owned(),
    };
    assert_eq!(
        validation_root(&options, &Look::File).expect("named"),
        Some("/v/Todo".to_owned())
    );
    let error = validation_root(&options, &Look::Missing).expect_err("missing");
    assert_eq!(error.code(), "store_not_found");
    assert_eq!(error.path(), Some("/v/Todo"));
    let error = validation_root(&options, &Look::Failed("why".to_owned())).expect_err("failed");
    assert_eq!(error.code(), "io_error");
    options.explicit_root = None;
    let error = validation_root(&options, &Look::Directory).expect_err("empty");
    assert_eq!(error.code(), "invalid_root");
    options.environment_root = None;
    assert_eq!(validation_root(&options, &Look::Missing).expect("none"), None);
}
