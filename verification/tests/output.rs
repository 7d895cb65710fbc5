use obsidian_todo::attachments::AttachmentView;
use obsidian_todo::commands::project::{ProjectSummary, ProjectView};
use obsidian_todo::commands::task::TaskView;
use obsidian_todo::config::Config;
use obsidian_todo::error::{Error, ValidationIssue};
use obsidian_todo::frontmatter::{parse_project, parse_task, MAX_RECORD_BYTES};
use obsidian_todo::model::{parse_time, Task};
use obsidian_todo::output::{
    body_text, count_shown, human_attachments, human_error, human_issue, human_project_details,
    human_project_list, human_report, human_task_details, human_task_line, human_task_list,
    human_task_summary, parse_cli_date, read_bounded_body, requested_format, OutputFormat,
};
use obsidian_todo::validate::ValidationReport;

const ID: &str = "01K4B0ZSBZZV25T1K0D3TA8JHR";

fn arguments(values: &[&str]) -> Vec<String> {
    values.iter().map(|value| (*value).to_owned()).collect()
}

fn task(source: &str) -> Task {
    parse_task(
        ID,
        "Tasks/example.md",
        source.as_bytes(),
        &Config::defaults("Todo".to_owned()),
    )
    .expect("task")
}

fn busy() -> Task {
    task("---\nname: Busy\nstate: active\nprojects: [\"[[Todo/Projects/b]]\", \"[[Todo/Projects/a]]\"]\ntags: [x]\ndue_date: 2026-09-07\nrecurrence: FREQ=DAILY\nrecurrence_from: schedule\nplugin: 1\n---\nBody\n")
}

fn idle() -> Task {
    task("---\nname: Idle\nstate: open\nprojects: []\ntags: []\n---\n")
}

#[test]
fn finds_json_format_in_either_clap_spelling() {
    assert_eq!(
        requested_format(&arguments(&["otodo", "--format", "json"])),
        OutputFormat::Json
    );
    assert_eq!(
        requested_format(&arguments(&["otodo", "root", "--format=json"])),
        OutputFormat::Json
    );
    assert_eq!(
        requested_format(&arguments(&["otodo", "add", "--", "--format", "json"])),
        OutputFormat::Human
    );
    for human in [
        vec!["otodo"],
        vec!["otodo", "--format"],
        vec!["otodo", "--format", "human", "json"],
        vec!["--format=json"],
    ] {
        assert_eq!(requested_format(&arguments(&human)), OutputFormat::Human);
    }
    assert_eq!(
        requested_format(&arguments(&["otodo", "--format", "JSON", "--format", "human"])),
        OutputFormat::Json
    );
}

#[test]
fn body_reader_stops_at_record_size_limit() {
    let read = vec![b'x'; MAX_RECORD_BYTES + 1];
    let error = read_bounded_body(Ok(read), "-", "test input").expect_err("oversized body");
    assert_eq!(error.code(), "body_too_large");
    assert_eq!(error.path(), Some("-"));
    assert_eq!(
        read_bounded_body(Ok(vec![b'x'; MAX_RECORD_BYTES]), "-", "test input")
            .expect("whole body")
            .len(),
        MAX_RECORD_BYTES
    );
    let error =
        read_bounded_body(Err("closed".to_owned()), "-", "standard input").expect_err("read");
    assert_eq!(error.code(), "io_error");
    assert_eq!(body_text(b"text", "-").expect("text"), "text");
    assert_eq!(
        body_text(b"\xff", "-").expect_err("bytes").code(),
        "invalid_body_utf8"
    );
}

#[test]
fn issues_and_errors_are_said_in_lines() {
    let issue = ValidationIssue::warning("odd", "Strange")
        .at_path("Tasks/a.md")
        .at_field("tags")
        .with_suggestion("Look again");
    assert_eq!(
        human_issue(&issue),
        "warning[odd] Tasks/a.md [tags]: Strange"
    );
    assert_eq!(
        human_issue(&ValidationIssue::error("bad", "Wrong")),
        "error[bad] <store>: Wrong"
    );
    let error = Error::validation("broken", "Cannot").with_path("x");
    assert_eq!(human_error(&error), "error[broken]: x: Cannot\n");
    let report = ValidationReport::from_issues(vec![issue], 2, 1);
    assert_eq!(
        human_report(&report),
        "Valid todo store: 2 task(s), 1 project(s), 1 warning(s)\n  warning[odd] Tasks/a.md [tags]: Strange\n    fix: Look again"
    );
    let failed = Error::from_issues(vec![
        ValidationIssue::error("bad", "Wrong").with_suggestion("Mend")
    ]);
    assert_eq!(
        human_error(&failed),
        "error[validation_failed]: Validation failed with 1 error(s)\n  error[bad] <store>: Wrong\n    fix: Mend\n"
    );
}

#[test]
fn tasks_are_said_in_lines() {
    assert_eq!(
        human_task_line(&busy()),
        format!("{ID}  active      2026-09-07 ↻  [b,a]  Busy")
    );
    assert_eq!(
        human_task_list(&vec![busy(), idle()]),
        format!("{ID}  active      2026-09-07 ↻  [b,a]  Busy\n{ID}  open        -  [-]  Idle")
    );
    assert_eq!(human_task_list(&Vec::new()), "");
    assert_eq!(
        human_task_summary(&vec![busy(), idle()], Some(1)),
        format!("{ID}  active      Busy\nMore matching tasks; refine the query or increase --limit.")
    );
    assert_eq!(
        human_task_summary(&vec![idle()], None),
        format!("{ID}  open        Idle")
    );
    assert_eq!(count_shown(5, Some(2)), 2);
    assert_eq!(count_shown(5, Some(9)), 5);
}

#[test]
fn details_name_every_property() {
    let config = Config::defaults("Todo".to_owned());
    let view = TaskView::from_task(&busy(), &config).expect("view");
    assert_eq!(
        human_task_details(&view),
        format!("id: {ID}\npath: Tasks/example.md\nname: Busy\nstate: active\nterminal: false\nprojects: a, b\ntags: x\nparent: -\nurl: -\ndue_date: 2026-09-07\ndue_time: -\nrecurrence: FREQ=DAILY;INTERVAL=1\nrecurrence_from: schedule\nlast_completed_date: -\nextra_properties: {{\"plugin\":1}}\nbody:\nBody\n")
    );
    let project = parse_project(
        "work",
        "Projects/work.md",
        b"---\nname: Work\ncolor: red\n---\nNotes\n",
    )
    .expect("project");
    let view = ProjectView::from_project(&project).expect("view");
    assert_eq!(
        human_project_details(&project, &view.extra_properties),
        "slug: work\npath: Projects/work.md\nname: Work\nextra_properties: {\"color\":\"red\"}\nbody:\nNotes\n"
    );
    assert_eq!(
        human_project_list(&vec![ProjectSummary {
            project: view,
            referencing_tasks: 12,
        }]),
        "work    12  Work"
    );
}

#[test]
fn attachments_are_said_in_lines() {
    assert!(human_attachments(&Vec::new()).starts_with("No recognized attachments."));
    assert_eq!(
        human_attachments(&vec![
            AttachmentView::new("Attachments/a/b.pdf", "B", Some(12)),
            AttachmentView::new("Attachments/a/c.pdf", "C", None),
        ]),
        "Attachments/a/b.pdf  B  12 bytes  available\nAttachments/a/c.pdf  C  unknown bytes  missing"
    );
}

#[test]
fn dates_are_read_from_arguments() {
    assert_eq!(
        parse_cli_date("2026-09-07").expect("date").to_string(),
        "2026-09-07"
    );
    assert!(parse_cli_date("tomorrow").is_err());
}

#[test]
fn details_show_the_link_and_the_time() {
    let config = Config::defaults("Todo".to_owned());
    let url = "https://example.com/proposal?x=1#part";
    let mut task = busy();
    task.url = Some(url.to_owned());
    task.due_time = Some(parse_time("09:30").expect("time"));
    let view = TaskView::from_task(&task, &config).expect("view");
    let shown = human_task_details(&view);
    assert!(shown.contains(&format!("url: {url}\n")));
    assert!(shown.contains("due_date: 2026-09-07\ndue_time: 09:30\n"));
}
