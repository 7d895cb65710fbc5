use obsidian_todo::attachments::{links, Entry};
use obsidian_todo::calendar::{Date, Time};
use obsidian_todo::commands::attachment;
use obsidian_todo::commands::project::{self, CreateProject, EditProject, ProjectSummary};
use obsidian_todo::commands::task::{self, AddTask, EditTask, TaskFilter, TaskView};
use obsidian_todo::config::Config;
use obsidian_todo::error::Error;
use obsidian_todo::frontmatter::{parse_project, parse_task, serialize_task};
use obsidian_todo::model::{parse_time, Clock, FixedClock, Project, Task};
use obsidian_todo::parents::ParentRecord;
use obsidian_todo::recurrence::{parse_date, RecurrenceMode, RecurrenceRule};
use obsidian_todo::store::{project_record, resolve, Candidate};
use ulid::Ulid;

const MISSING: &str = "00000000000000000000000000";

struct Memory {
    config: Config,
    next: u128,
    tasks: Vec<(String, String, Vec<u8>)>,
    projects: Vec<(String, Vec<u8>)>,
}

impl Memory {
    fn new() -> Memory {
        Memory {
            config: Config::defaults("Todo".to_owned()),
            next: 1,
            tasks: Vec::new(),
            projects: Vec::new(),
        }
    }

    fn all(&self) -> Vec<Task> {
        self.tasks
            .iter()
            .map(|(id, path, bytes)| {
                parse_task(id, path, bytes, &self.config).expect("stored task")
            })
            .collect()
    }

    fn relations(&self) -> Vec<ParentRecord> {
        task::relations_of(&self.all())
    }

    fn known(&self) -> Vec<String> {
        self.projects.iter().map(|(slug, _)| slug.clone()).collect()
    }

    fn place(&self, id: &str) -> Result<usize, Error> {
        let candidates = self
            .tasks
            .iter()
            .map(|(id, path, _)| Candidate {
                id: id.clone(),
                path: path.clone(),
            })
            .collect();
        let found = resolve(&candidates, id)?;
        Ok(self
            .tasks
            .iter()
            .position(|(id, _, _)| *id == found.id)
            .expect("candidate"))
    }

    fn get(&self, id: &str) -> Result<Task, Error> {
        let (id, path, bytes) = &self.tasks[self.place(id)?];
        parse_task(id, path, bytes, &self.config)
    }

    fn keep(&mut self, id: &str, saved: (Task, Vec<u8>)) -> Task {
        let at = self.place(id).expect("place");
        self.tasks[at].2 = saved.1;
        saved.0
    }

    fn add_with(&mut self, request: &AddTask, selectors: &[&str]) -> Result<Task, Error> {
        let selectors = selectors.iter().map(|s| (*s).to_owned()).collect();
        let candidates = vec![Ulid::from(self.next).to_string()];
        let (used, task, bytes) = task::add_with_attachments(
            &self.config,
            request,
            &selectors,
            &candidates,
            &self.relations(),
            &self.known(),
        )?;
        assert_eq!(used, 0);
        self.next += 1;
        self.tasks
            .push((task.id.clone(), task.path.clone(), bytes));
        Ok(task)
    }

    fn add(&mut self, request: &AddTask) -> Result<Task, Error> {
        self.add_with(request, &[])
    }

    fn show(&self, id: &str) -> Result<Task, Error> {
        task::show(self.get(id)?, &self.known())
    }

    fn edit(&mut self, id: &str, changes: &EditTask) -> Result<Task, Error> {
        let saved = task::edit(
            &self.config,
            self.get(id)?,
            changes,
            &self.relations(),
            &self.known(),
        )?;
        Ok(self.keep(id, saved))
    }

    fn complete(&mut self, id: &str, on: Option<Date>, clock: &FixedClock) -> Result<Task, Error> {
        let saved = task::complete(
            &self.config,
            self.get(id)?,
            on,
            clock,
            &self.relations(),
            &self.known(),
        )?;
        Ok(self.keep(id, saved))
    }

    fn finish_series(&mut self, id: &str) -> Result<Task, Error> {
        let task = self.get(id)?;
        let saved = task::finish_series(&self.config, task, &self.relations(), &self.known())?;
        Ok(self.keep(id, saved))
    }

    fn cancel(&mut self, id: &str) -> Result<Task, Error> {
        let task = self.get(id)?;
        let saved = task::cancel(&self.config, task, &self.relations(), &self.known())?;
        Ok(self.keep(id, saved))
    }

    fn reopen(&mut self, id: &str) -> Result<Task, Error> {
        let task = self.get(id)?;
        let saved = task::reopen(&self.config, task, &self.relations(), &self.known())?;
        Ok(self.keep(id, saved))
    }

    fn list(&self, filter: &TaskFilter, today: Date) -> Result<Vec<Task>, Error> {
        task::list(&self.config, self.all(), filter, &self.known(), today)
    }

    fn delete(&mut self, id: &str, confirmed: bool) -> Result<Task, Error> {
        task::validate_deletion(id, confirmed)?;
        let at = self.place(id)?;
        let deleted = task::delete(self.get(id)?, id, confirmed, &self.relations())?;
        self.tasks.remove(at);
        Ok(deleted)
    }

    fn bytes(&self, id: &str) -> Vec<u8> {
        self.tasks[self.place(id).expect("place")].2.clone()
    }

    fn create_project(&mut self, request: &CreateProject) -> Result<Project, Error> {
        let (created, bytes) = project::create(&self.config, request)?;
        if self.known().contains(&created.slug) {
            return Err(project::already_exists(&created.slug, &created.path));
        }
        self.projects.push((created.slug.clone(), bytes));
        Ok(created)
    }

    fn project(&self, slug: &str) -> Result<Project, Error> {
        let record = project_record(slug, &self.config)?;
        match self.projects.iter().find(|(other, _)| other == slug) {
            Some((slug, bytes)) => parse_project(slug, &record.path, bytes),
            None => {
                obsidian_todo::store::ensure_project_file(&record, &Entry::Missing)?;
                unreachable!()
            }
        }
    }

    fn projects(&self) -> Vec<Project> {
        self.known()
            .iter()
            .map(|slug| self.project(slug).expect("project"))
            .collect()
    }

    fn project_list(&self) -> Vec<ProjectSummary> {
        project::list(&self.projects(), &self.all()).expect("list")
    }
}

fn minimal(name: &str) -> AddTask {
    AddTask {
        name: name.to_owned(),
        state: None,
        projects: Vec::new(),
        tags: Vec::new(),
        parent: None,
        url: None,
        due_date: None,
        due_time: None,
        recurrence: None,
        recurrence_from: None,
        body: String::new(),
    }
}

fn date(value: &str) -> Date {
    parse_date(value, "date").expect("date")
}

fn time(value: &str) -> Time {
    parse_time(value).expect("time")
}

#[test]
fn task_view_keeps_stable_null_and_array_fields() {
    let mut store = Memory::new();
    let task = store.add(&minimal("Minimal")).expect("add");
    let view = TaskView::from_task(&task, &store.config).expect("view");
    for field in [
        &view.parent,
        &view.url,
        &view.due_date,
        &view.due_time,
        &view.recurrence,
        &view.recurrence_from,
        &view.last_completed_date,
    ] {
        assert!(field.is_none());
    }
    assert!(view.projects.is_empty());
    assert!(view.tags.is_empty());
    assert_eq!(
        view.extra_properties.to_string(),
        "{\"base\":\"[[Todo/todos.base]]\"}"
    );
    assert_eq!(
        String::from_utf8(store.bytes(&task.id)).expect("UTF-8"),
        "---\nname: \"Minimal\"\nstate: open\nprojects: []\ntags: []\nbase: '[[Todo/todos.base]]'\n---\n"
    );
    assert_eq!(store.show(&task.id).expect("show"), task);
}

#[test]
fn due_time_edits_and_transitions_preserve_or_explicitly_clear_schedule() {
    let mut store = Memory::new();
    let nine = time("09:05");
    let mut request = minimal("Timed");
    request.due_time = Some(nine);
    let error = store.add(&request).expect_err("time requires date");
    assert_eq!(error.code(), "due_time_requires_due_date");
    assert_eq!(error.field(), Some("due_time"));
    request.due_date = Some(date("2026-09-08"));
    let task = store
        .add_with(&request, &["Attachments/x/receipt.txt"])
        .expect("timed attachment task");
    let saved = store.show(&task.id).expect("stored task");
    assert_eq!(saved.due_time, Some(nine));
    assert_eq!(links(&saved.body, &saved.path).len(), 1);
    let view = TaskView::from_task(&saved, &store.config).expect("view");
    assert_eq!(view.due_time.as_deref(), Some("09:05"));

    let mut child = minimal("Child");
    child.parent = Some(task.id.clone());
    assert_eq!(store.add(&child).expect("child").due_time, None);
    let edited = store
        .edit(
            &task.id,
            &EditTask {
                name: Some("Renamed".to_owned()),
                due_date: Some(date("2026-09-09")),
                ..EditTask::default()
            },
        )
        .expect("reschedule date only");
    assert_eq!(edited.due_time, Some(nine));
    let completed = store
        .complete(&task.id, None, &FixedClock::new(date("2026-09-09")))
        .expect("complete");
    assert_eq!(completed.due_time, Some(nine));
    assert_eq!(store.reopen(&task.id).expect("reopen").due_time, Some(nine));
    assert_eq!(store.cancel(&task.id).expect("cancel").due_time, Some(nine));
    assert_eq!(
        store.reopen(&task.id).expect("reopen cancelled").due_time,
        Some(nine)
    );

    let before = store.bytes(&task.id);
    for (changes, code) in [
        (
            EditTask {
                due_time: Some(nine),
                clear_due_time: true,
                ..EditTask::default()
            },
            "conflicting_changes",
        ),
        (
            EditTask {
                due_time: Some(nine),
                clear_due_date: true,
                ..EditTask::default()
            },
            "due_time_requires_due_date",
        ),
        (
            EditTask {
                due_time: Time::new(9, 5, 1, 0),
                ..EditTask::default()
            },
            "invalid_due_time",
        ),
    ] {
        let error = store.edit(&task.id, &changes).expect_err("invalid change");
        assert_eq!(error.code(), code);
        assert_eq!(error.field(), Some("due_time"));
        assert_eq!(store.bytes(&task.id), before);
    }
    let cleared = store
        .edit(
            &task.id,
            &EditTask {
                clear_due_time: true,
                ..EditTask::default()
            },
        )
        .expect("clear time only");
    assert_eq!(cleared.due_time, None);
    assert_eq!(cleared.due_date, Some(date("2026-09-09")));
    let restored = store
        .edit(
            &task.id,
            &EditTask {
                due_time: Some(nine),
                ..EditTask::default()
            },
        )
        .expect("set time only");
    assert_eq!(restored.due_time, Some(nine));
    let undated = store
        .edit(
            &task.id,
            &EditTask {
                clear_due_date: true,
                ..EditTask::default()
            },
        )
        .expect("clear date and time");
    assert_eq!(undated.due_date, None);
    assert_eq!(store.show(&task.id).expect("persisted clear").due_time, None);
    let before = store.bytes(&task.id);
    let error = store
        .edit(
            &task.id,
            &EditTask {
                due_time: Some(nine),
                ..EditTask::default()
            },
        )
        .expect_err("cannot orphan");
    assert_eq!(error.code(), "due_time_requires_due_date");
    assert_eq!(store.bytes(&task.id), before);
}

#[test]
fn add_edit_filter_sort_and_delete() {
    let mut store = Memory::new();
    store
        .create_project(&CreateProject {
            slug: "work".to_owned(),
            name: "Work".to_owned(),
            body: String::new(),
        })
        .expect("project");
    let mut first = minimal("Zulu");
    first.projects.push("work".to_owned());
    first.tags.push("review".to_owned());
    first.due_date = Some(date("2026-09-03"));
    let first = store.add(&first).expect("first");
    let second = store.add(&minimal("Alpha")).expect("second");
    let listed = store
        .list(
            &TaskFilter {
                projects: vec!["work".to_owned()],
                tags: vec!["review".to_owned()],
                ..TaskFilter::default()
            },
            date("2026-09-02"),
        )
        .expect("list");
    assert_eq!(listed.len(), 1);
    assert_eq!(listed[0].id, first.id);
    let duplicate_filter = store
        .list(
            &TaskFilter {
                projects: vec!["work".to_owned(), "work".to_owned()],
                ..TaskFilter::default()
            },
            date("2026-09-02"),
        )
        .expect("duplicate project filters");
    assert_eq!(duplicate_filter.len(), 1);
    let all = store
        .list(&TaskFilter::default(), date("2026-09-02"))
        .expect("list all");
    assert_eq!(all[0].id, first.id, "dated tasks sort first");
    assert_eq!(all[1].id, second.id);
    let edited = store
        .edit(
            &first.id,
            &EditTask {
                state: Some("active".to_owned()),
                body: Some("Body\r\n".to_owned()),
                ..EditTask::default()
            },
        )
        .expect("edit");
    assert_eq!(edited.state, "active");
    assert_eq!(edited.body, "Body\n");
    assert!(store.delete(&first.id[..6], true).is_err());
    store.delete(&first.id, true).expect("delete");
    assert_eq!(
        store.show(&first.id).expect_err("gone").code(),
        "task_not_found"
    );
}

#[test]
fn recurring_completion_uses_both_modes_and_finish_reopen_preserves_rule() {
    let mut store = Memory::new();
    let clock = FixedClock::new(date("2026-09-09"));
    let mut scheduled = minimal("Scheduled");
    scheduled.due_date = Some(date("2026-09-07"));
    scheduled.due_time = Some(time("09:05"));
    scheduled.recurrence =
        Some(RecurrenceRule::parse("FREQ=WEEKLY;BYDAY=MO").expect("weekly recurrence"));
    scheduled.recurrence_from = Some(RecurrenceMode::Schedule);
    let scheduled = store.add(&scheduled).expect("scheduled");
    let scheduled = store
        .complete(&scheduled.id, None, &clock)
        .expect("complete");
    assert_eq!(scheduled.due_date, Some(date("2026-09-14")));
    assert_eq!(scheduled.due_time, Some(time("09:05")));
    assert_eq!(scheduled.state, "open");
    assert_eq!(scheduled.last_completed_date, Some(date("2026-09-09")));

    let mut relative = minimal("Relative");
    relative.due_date = Some(date("2026-09-07"));
    relative.due_time = Some(time("23:59"));
    relative.recurrence =
        Some(RecurrenceRule::parse("FREQ=DAILY;INTERVAL=3").expect("daily recurrence"));
    relative.recurrence_from = Some(RecurrenceMode::Completion);
    let relative = store.add(&relative).expect("relative");
    let relative = store.complete(&relative.id, None, &clock).expect("complete");
    assert_eq!(relative.due_date, Some(date("2026-09-12")));
    assert_eq!(relative.due_time, Some(time("23:59")));
    let finished = store.finish_series(&relative.id).expect("finish");
    assert_eq!(finished.state, "done");
    assert!(finished.recurrence.is_some());
    assert_eq!(finished.due_time, relative.due_time);
    let reopened = store.reopen(&relative.id).expect("reopen");
    assert_eq!(reopened.state, "open");
    assert_eq!(reopened.due_date, Some(date("2026-09-12")));
    assert_eq!(reopened.due_time, relative.due_time);
}

#[test]
fn complete_requires_a_done_state_for_recurring_tasks() {
    let mut store = Memory::new();
    store.config.states.retain(|state| state.id != "done");
    let mut request = minimal("Recurring");
    request.due_date = Some(date("2026-09-07"));
    request.recurrence = Some(RecurrenceRule::parse("FREQ=DAILY").expect("daily recurrence"));
    request.recurrence_from = Some(RecurrenceMode::Schedule);
    let task = store.add(&request).expect("add");

    let error = store
        .complete(
            &task.id,
            Some(date("2026-09-07")),
            &FixedClock::new(date("2026-01-01")),
        )
        .expect_err("missing done state");
    assert_eq!(error.code(), "required_terminal_state_missing");
    let unchanged = store.show(&task.id).expect("unchanged task");
    assert_eq!(unchanged.state, "open");
    assert_eq!(unchanged.due_date, Some(date("2026-09-07")));
}

#[test]
fn cancel_and_complete_require_nonterminal_tasks() {
    let mut store = Memory::new();
    let task = store.add(&minimal("One-off")).expect("add");
    let cancelled = store.cancel(&task.id).expect("cancel");
    assert_eq!(cancelled.state, "cancelled");
    assert!(store.cancel(&task.id).is_err());
    let reopened = store.reopen(&task.id).expect("reopen");
    let done = store
        .complete(
            &reopened.id,
            Some(date("2026-09-02")),
            &FixedClock::new(date("2026-01-01")),
        )
        .expect("complete");
    assert_eq!(done.state, "done");
    assert_eq!(done.due_date, None);
}

#[test]
fn explicit_repairs_and_unrelated_safe_mutations_preserve_bad_edges() {
    let mut store = Memory::new();
    let root = store.add(&minimal("Root")).expect("root");
    let first = store.add(&minimal("Cycle one")).expect("first");
    let second = store.add(&minimal("Cycle two")).expect("second");
    let orphan = store.add(&minimal("Orphan")).expect("orphan");
    for (id, parent) in [
        (&first.id, second.id.as_str()),
        (&second.id, first.id.as_str()),
        (&orphan.id, MISSING),
    ] {
        let mut external = store.get(id).expect("task");
        external.parent = Some(parent.to_owned());
        let at = store.place(id).expect("place");
        store.tasks[at].2 =
            serialize_task(&external, &store.config).expect("well typed bad edge");
    }
    assert_eq!(
        store
            .show(&orphan.id)
            .expect("inspect orphan")
            .parent
            .as_deref(),
        Some(MISSING)
    );
    let untouched_cycle = store.bytes(&second.id);
    let edited = store
        .edit(
            &orphan.id,
            &EditTask {
                name: Some("Still orphaned".to_owned()),
                ..EditTask::default()
            },
        )
        .expect("ordinary safe edit");
    assert_eq!(edited.parent.as_deref(), Some(MISSING));
    store
        .cancel(&root.id)
        .expect("independent lifecycle amid faults");
    let fixed = store
        .edit(
            &first.id,
            &EditTask {
                parent: Some(root.id.clone()),
                ..EditTask::default()
            },
        )
        .expect("break cycle with new ancestry");
    assert_eq!(fixed.parent.as_deref(), Some(root.id.as_str()));
    assert_eq!(store.bytes(&second.id), untouched_cycle);
    let detached = store
        .edit(
            &orphan.id,
            &EditTask {
                clear_parent: true,
                ..EditTask::default()
            },
        )
        .expect("detach orphan");
    assert_eq!(detached.parent, None);
    let tasks = store
        .list(
            &TaskFilter {
                include_terminal: true,
                ..TaskFilter::default()
            },
            date("2026-09-06"),
        )
        .expect("repaired complete graph");
    assert_eq!(tasks.len(), 4);
}

#[test]
fn replacing_parent_requires_valid_effective_ancestry_and_writes_nothing_on_error() {
    let mut store = Memory::new();
    let root = store.add(&minimal("Root")).expect("root");
    let mut child = minimal("Child");
    child.parent = Some(root.id.clone());
    let child = store.add(&child).expect("child");
    let original = store.bytes(&root.id);
    let error = store
        .edit(
            &root.id,
            &EditTask {
                parent: Some(child.id.clone()),
                ..EditTask::default()
            },
        )
        .expect_err("descendant parent");
    assert_eq!(error.code(), "parent_cycle");
    assert_eq!(store.bytes(&root.id), original);
    let error = store
        .edit(
            &root.id,
            &EditTask {
                parent: Some(root.id.to_lowercase()),
                ..EditTask::default()
            },
        )
        .expect_err("self parent");
    assert_eq!(error.code(), "self_parent_reference");
    let error = store
        .edit(
            &child.id,
            &EditTask {
                parent: Some(MISSING.to_owned()),
                ..EditTask::default()
            },
        )
        .expect_err("absent destination");
    assert_eq!(error.code(), "task_not_found");
    assert_eq!(
        store.show(&child.id).expect("unchanged child").parent,
        Some(root.id)
    );
}

#[test]
fn graph_faults_cannot_be_hidden_by_filters() {
    let mut store = Memory::new();
    let task = store.add(&minimal("Orphan")).expect("orphan");
    let mut external = store.get(&task.id).expect("task");
    external.parent = Some(MISSING.to_owned());
    store.tasks[0].2 = serialize_task(&external, &store.config).expect("bad edge");
    for filter in [
        TaskFilter::default(),
        TaskFilter {
            roots: true,
            ..TaskFilter::default()
        },
        TaskFilter {
            query: Some("no match".to_owned()),
            ..TaskFilter::default()
        },
    ] {
        let error = store
            .list(&filter, date("2026-09-06"))
            .expect_err("fault");
        assert_eq!(error.code(), "missing_parent_reference");
    }
}

#[test]
fn filters_choose_by_date_query_and_parent() {
    let mut store = Memory::new();
    let mut request = minimal("Needle [.*] B");
    request.due_date = Some(date("2026-09-01"));
    let first = store.add(&request).expect("first");
    let mut request = minimal("Needle [.*] A");
    request.parent = Some(first.id.clone());
    let second = store.add(&request).expect("second");
    let mut request = minimal("Unmatched");
    request.state = Some("done".to_owned());
    store.add(&request).expect("third");
    let names = |store: &Memory, filter: TaskFilter| {
        store
            .list(&filter, date("2026-09-06"))
            .expect("list")
            .into_iter()
            .map(|task| task.name)
            .collect::<Vec<_>>()
    };
    assert_eq!(
        names(
            &store,
            TaskFilter {
                query: Some("nEeDlE [.*]".to_owned()),
                ..TaskFilter::default()
            }
        ),
        ["Needle [.*] B", "Needle [.*] A"]
    );
    assert_eq!(
        names(
            &store,
            TaskFilter {
                query: Some(second.id.to_ascii_lowercase()),
                ..TaskFilter::default()
            }
        ),
        ["Needle [.*] A"]
    );
    assert_eq!(
        names(
            &store,
            TaskFilter {
                parent: Some(first.id.clone()),
                ..TaskFilter::default()
            }
        ),
        ["Needle [.*] A"]
    );
    assert_eq!(
        names(
            &store,
            TaskFilter {
                roots: true,
                include_terminal: true,
                ..TaskFilter::default()
            }
        ),
        ["Needle [.*] B", "Unmatched"]
    );
    assert_eq!(
        names(
            &store,
            TaskFilter {
                overdue: true,
                ..TaskFilter::default()
            }
        ),
        ["Needle [.*] B"]
    );
    assert_eq!(
        names(
            &store,
            TaskFilter {
                undated: true,
                ..TaskFilter::default()
            }
        ),
        ["Needle [.*] A"]
    );
    assert_eq!(
        store
            .list(
                &TaskFilter {
                    states: vec!["gone".to_owned()],
                    ..TaskFilter::default()
                },
                date("2026-09-06")
            )
            .expect_err("state")
            .code(),
        "unknown_state"
    );
    assert_eq!(
        store
            .list(
                &TaskFilter {
                    projects: vec!["gone".to_owned()],
                    ..TaskFilter::default()
                },
                date("2026-09-06")
            )
            .expect_err("project")
            .code(),
        "project_not_found"
    );
}

#[test]
fn parents_keep_their_children_and_the_first_version_has_none() {
    let mut store = Memory::new();
    let root = store.add(&minimal("Root")).expect("root");
    let mut child = minimal("Child");
    child.parent = Some(root.id.clone());
    let child = store.add(&child).expect("child");
    let error = store.delete(&root.id, true).expect_err("children");
    assert_eq!(error.exit_code(), 5);
    store.delete(&child.id, true).expect("child");
    store.delete(&root.id, true).expect("root");
    assert_eq!(
        store.delete(&root.id, false).expect_err("unconfirmed").code(),
        "confirmation_required"
    );
    let mut store = Memory::new();
    store.config.schema_version = 1;
    let root = store.add(&minimal("Root")).expect("root");
    let mut child = minimal("Child");
    child.parent = Some(root.id.clone());
    assert_eq!(
        store.add(&child).expect_err("flat").code(),
        "unsupported_schema"
    );
    assert_eq!(
        store
            .list(
                &TaskFilter {
                    roots: true,
                    ..TaskFilter::default()
                },
                date("2026-09-06")
            )
            .expect_err("flat")
            .exit_code(),
        7
    );
}

#[test]
fn edits_change_only_what_they_name() {
    let mut store = Memory::new();
    let mut request = minimal("Before");
    request.tags = vec!["b".to_owned()];
    request.url = Some("https://example.test/a".to_owned());
    request.body = "Text\n".to_owned();
    let task = store.add(&request).expect("add");
    let edited = store
        .edit(
            &task.id,
            &EditTask {
                name: Some("After".to_owned()),
                add_tags: vec!["a".to_owned()],
                ..EditTask::default()
            },
        )
        .expect("edit");
    assert_eq!(edited.name, "After");
    assert_eq!(edited.tags, ["b", "a"]);
    assert_eq!(edited.url, task.url);
    assert_eq!(edited.body, task.body);
    assert_eq!(edited.extra_properties, task.extra_properties);
    assert_eq!(
        store
            .edit(&task.id, &EditTask::default())
            .expect_err("nothing")
            .code(),
        "no_changes"
    );
}

#[test]
fn a_machine_clock_gives_a_date_that_can_be_written() {
    let today = obsidian_todo::model::SystemClock.today();
    assert!(today.year() >= 2024);
}

#[test]
fn project_crud_preserves_slug_and_metadata_body_boundary() {
    let mut store = Memory::new();
    let created = store
        .create_project(&CreateProject {
            slug: "work".to_owned(),
            name: "  Work  ".to_owned(),
            body: "Notes\r\n".to_owned(),
        })
        .expect("create");
    assert_eq!(created.name, "Work");
    assert_eq!(created.body, "Notes\n");
    let (edited, bytes) = project::edit(
        store.project("work").expect("project"),
        &EditProject {
            name: Some("Office".to_owned()),
            body: None,
        },
    )
    .expect("edit");
    store.projects[0].1 = bytes;
    assert_eq!(edited.slug, "work");
    assert_eq!(edited.body, "Notes\n");
    assert_eq!(store.project_list()[0].project.name, "Office");
    project::delete(
        store.project("work").expect("project"),
        &store.all(),
        true,
    )
    .expect("delete");
    store.projects.clear();
    assert_eq!(
        store.project("work").expect_err("deleted").code(),
        "project_not_found"
    );
}

#[test]
fn projects_that_tasks_name_are_kept_and_counted() {
    let mut store = Memory::new();
    for slug in ["work", "home"] {
        store
            .create_project(&CreateProject {
                slug: slug.to_owned(),
                name: slug.to_owned(),
                body: String::new(),
            })
            .expect("project");
    }
    assert_eq!(
        store
            .create_project(&CreateProject {
                slug: "work".to_owned(),
                name: "Again".to_owned(),
                body: String::new(),
            })
            .expect_err("again")
            .code(),
        "project_already_exists"
    );
    let mut request = minimal("Task");
    request.projects = vec!["work".to_owned()];
    store.add(&request).expect("task");
    let listed = store
        .project_list()
        .into_iter()
        .map(|summary| (summary.project.slug, summary.referencing_tasks))
        .collect::<Vec<_>>();
    assert_eq!(listed, [("home".to_owned(), 0), ("work".to_owned(), 1)]);
    let error = project::delete(store.project("work").expect("project"), &store.all(), true)
        .expect_err("named");
    assert_eq!(error.code(), "project_in_use");
    assert_eq!(
        project::validate_deletion(false)
            .expect_err("unconfirmed")
            .code(),
        "confirmation_required"
    );
    request.projects = vec!["gone".to_owned()];
    assert_eq!(
        store.add(&request).expect_err("unknown").code(),
        "project_not_found"
    );
}

#[test]
fn attachments_are_linked_listed_and_unlinked() {
    let mut store = Memory::new();
    let task = store.add(&minimal("Task")).expect("task");
    let selector = "Attachments/manual/receipt.pdf";
    let there = vec![Entry::Directory, Entry::Directory, Entry::File(12)];
    let (view, bytes) = attachment::link(
        &store.config,
        store.get(&task.id).expect("task"),
        selector,
        &there,
    )
    .expect("link");
    assert_eq!(view.byte_size, Some(12));
    store.tasks[0].2 = bytes.expect("changed");
    let linked = store.get(&task.id).expect("task");
    assert!(linked.body.contains("](../Attachments/manual/receipt.pdf)"));
    let listed = attachment::list(&store.config, &linked, &vec![vec![Entry::Missing]])
        .expect("list");
    assert_eq!(listed.len(), 1);
    assert_eq!(listed[0].availability, "missing");
    assert_eq!(
        attachment::path(&store.config, &linked, selector, &there).expect("path"),
        selector
    );
    let (_, again) = attachment::link(
        &store.config,
        store.get(&task.id).expect("task"),
        selector,
        &there,
    )
    .expect("link again");
    assert!(again.is_none());
    let (_, bytes) = attachment::unlink(&store.config, linked, selector, &there).expect("unlink");
    store.tasks[0].2 = bytes;
    let unlinked = store.get(&task.id).expect("task");
    assert!(links(&unlinked.body, &unlinked.path).is_empty());
    assert_eq!(
        attachment::path(&store.config, &unlinked, selector, &there)
            .expect_err("not linked")
            .code(),
        "attachment_not_linked"
    );
    let staged = vec![obsidian_todo::attachments::stage(
        "/tmp/a b.png",
        Some("a b.png".to_owned()),
        "01K4B0ZSBZZV25T1K0D3TA8JHR",
        vec![1, 2, 3],
    )
    .expect("stage")];
    let (views, bytes) = attachment::add(&store.config, unlinked, &staged).expect("add");
    assert_eq!(views[0].path, attachment::selectors_of(&staged)[0]);
    store.tasks[0].2 = bytes;
    assert!(store
        .get(&task.id)
        .expect("task")
        .body
        .contains("![a b.png](../Attachments/01K4B0ZSBZZV25T1K0D3TA8JHR/a%20b.png)"));
}

#[test]
fn attachments_overlap_disables_only_attachment_operations() {
    let mut store = Memory::new();
    store.config.tasks_directory = "Attachments/Tasks".to_owned();
    let task = store.add(&minimal("Task")).expect("task");
    let error = attachment::link(
        &store.config,
        store.get(&task.id).expect("task"),
        "Attachments/a/b.pdf",
        &vec![Entry::Directory, Entry::Directory, Entry::File(1)],
    )
    .expect_err("disabled");
    assert_eq!(error.code(), "attachments_disabled");
    assert_eq!(
        attachment::validate_import(&store.config, 1)
            .expect_err("disabled")
            .code(),
        "attachments_disabled"
    );
}
