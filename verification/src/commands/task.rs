//! Commands on tasks.
use vstd::prelude::*;

use crate::attachments;
use crate::calendar::{Date, Time};
use crate::config::{self, Config, ConfigModel};
use crate::error::{self, Error, ErrorKind, ErrorModel};
use crate::frontmatter;
use crate::model::{self, Task, TaskModel};
use crate::order::{self, Ranked};
use crate::parents::{self, ParentRecord, RecordModel};
use crate::record_laws;
use crate::recurrence::{self, RecurrenceMode, RecurrenceRule, RuleModel};
use crate::task_laws;
use crate::text;
use crate::yaml;

verus! {

/// Changes to a task.
#[derive(Debug)]
pub struct EditTask {
    pub name: Option<String>,
    pub state: Option<String>,
    pub add_projects: Vec<String>,
    pub remove_projects: Vec<String>,
    pub add_tags: Vec<String>,
    pub remove_tags: Vec<String>,
    pub due_date: Option<Date>,
    pub clear_due_date: bool,
    pub due_time: Option<Time>,
    pub clear_due_time: bool,
    pub recurrence: Option<RecurrenceRule>,
    pub recurrence_from: Option<RecurrenceMode>,
    pub clear_recurrence: bool,
    pub body: Option<String>,
    pub parent: Option<String>,
    pub clear_parent: bool,
    pub url: Option<String>,
    pub clear_url: bool,
}

/// What changes say.
#[verifier::ext_equal]
pub struct EditModel {
    pub name: Option<Seq<char>>,
    pub state: Option<Seq<char>>,
    pub add_projects: Seq<Seq<char>>,
    pub remove_projects: Seq<Seq<char>>,
    pub add_tags: Seq<Seq<char>>,
    pub remove_tags: Seq<Seq<char>>,
    pub due_date: Option<Date>,
    pub clear_due_date: bool,
    pub due_time: Option<Time>,
    pub clear_due_time: bool,
    pub recurrence: Option<RuleModel>,
    pub recurrence_from: Option<RecurrenceMode>,
    pub clear_recurrence: bool,
    pub body: Option<Seq<char>>,
    pub parent: Option<Seq<char>>,
    pub clear_parent: bool,
    pub url: Option<Seq<char>>,
    pub clear_url: bool,
}

impl View for EditTask {
    type V = EditModel;

    open spec fn view(&self) -> EditModel {
        EditModel {
            name: text::opt(self.name),
            state: text::opt(self.state),
            add_projects: text::strings(self.add_projects@),
            remove_projects: text::strings(self.remove_projects@),
            add_tags: text::strings(self.add_tags@),
            remove_tags: text::strings(self.remove_tags@),
            due_date: self.due_date,
            clear_due_date: self.clear_due_date,
            due_time: self.due_time,
            clear_due_time: self.clear_due_time,
            recurrence: model::opt_rule(self.recurrence),
            recurrence_from: self.recurrence_from,
            clear_recurrence: self.clear_recurrence,
            body: text::opt(self.body),
            parent: text::opt(self.parent),
            clear_parent: self.clear_parent,
            url: text::opt(self.url),
            clear_url: self.clear_url,
        }
    }
}

impl EditModel {
    /// No changes.
    pub open spec fn none() -> EditModel {
        EditModel {
            name: None,
            state: None,
            add_projects: seq![],
            remove_projects: seq![],
            add_tags: seq![],
            remove_tags: seq![],
            due_date: None,
            clear_due_date: false,
            due_time: None,
            clear_due_time: false,
            recurrence: None,
            recurrence_from: None,
            clear_recurrence: false,
            body: None,
            parent: None,
            clear_parent: false,
            url: None,
            clear_url: false,
        }
    }
}

impl Default for EditTask {
    fn default() -> (r: Self)
        ensures
            r@ == EditModel::none(),
    {
        let r = EditTask {
            name: None,
            state: None,
            add_projects: Vec::new(),
            remove_projects: Vec::new(),
            add_tags: Vec::new(),
            remove_tags: Vec::new(),
            due_date: None,
            clear_due_date: false,
            due_time: None,
            clear_due_time: false,
            recurrence: None,
            recurrence_from: None,
            clear_recurrence: false,
            body: None,
            parent: None,
            clear_parent: false,
            url: None,
            clear_url: false,
        };
        assert(r@ =~= EditModel::none());
        r
    }
}

/// The first text, from the `i`-th on, that is in the other list too.
pub open spec fn common_from(add: Seq<Seq<char>>, remove: Seq<Seq<char>>, i: int) -> Option<
    Seq<char>,
>
    decreases add.len() - i,
{
    if i >= add.len() {
        None
    } else if remove.contains(add[i]) {
        Some(add[i])
    } else {
        common_from(add, remove, i + 1)
    }
}

/// Whether nothing is both added and removed.
pub open spec fn check_overlap(add: Seq<Seq<char>>, remove: Seq<Seq<char>>, kind: Seq<char>) -> Result<
    (),
    ErrorModel,
> {
    match common_from(add, remove, 0) {
        Some(value) => Err(
            ErrorModel::usage(
                "conflicting_changes"@,
                "Cannot add and remove the same "@ + kind + " "@ + text::debug_text(value),
            ),
        ),
        None => Ok(()),
    }
}

fn reject_overlapping_changes(add: &Vec<String>, remove: &Vec<String>, kind: &str) -> (r: Result<
    (),
    Error,
>)
    ensures
        error::outcome(r) == check_overlap(text::strings(add@), text::strings(remove@), kind@),
{
    let ghost all = text::strings(add@);
    let ghost other = text::strings(remove@);
    let mut i: usize = 0;
    while i < add.len()
        invariant
            i <= add@.len(),
            all == text::strings(add@),
            other == text::strings(remove@),
            common_from(all, other, 0) == common_from(all, other, i as int),
        decreases add.len() - i,
    {
        assert(all[i as int] == add@[i as int]@);
        if text::is_listed(remove.as_slice(), add[i].as_str()) {
            return Err(
                Error::usage(
                    "conflicting_changes",
                    text::join4(
                        "Cannot add and remove the same ",
                        kind,
                        " ",
                        text::debug(add[i].as_str()).as_str(),
                    ).as_str(),
                ),
            );
        }
        i += 1;
    }
    Ok(())
}

/// The error for two changes that exclude each other.
pub open spec fn conflict(message: Seq<char>) -> ErrorModel {
    ErrorModel::usage("conflicting_changes"@, message)
}

impl EditModel {
    /// Whether anything is to be changed.
    pub open spec fn changes_anything(self) -> bool {
        ||| self.name is Some
        ||| self.parent is Some
        ||| self.clear_parent
        ||| self.url is Some
        ||| self.clear_url
        ||| self.state is Some
        ||| self.add_projects.len() > 0
        ||| self.remove_projects.len() > 0
        ||| self.add_tags.len() > 0
        ||| self.remove_tags.len() > 0
        ||| self.due_date is Some
        ||| self.clear_due_date
        ||| self.due_time is Some
        ||| self.clear_due_time
        ||| self.recurrence is Some
        ||| self.recurrence_from is Some
        ||| self.clear_recurrence
        ||| self.body is Some
    }

    /// The first two changes that exclude each other.
    pub open spec fn conflicts(self) -> Option<ErrorModel> {
        if self.parent is Some && self.clear_parent {
            Some(conflict("--parent conflicts with --clear-parent"@))
        } else if self.url is Some && self.clear_url {
            Some(conflict("--url conflicts with --clear-url"@))
        } else if self.due_date is Some && self.clear_due_date {
            Some(conflict("--due-date conflicts with --clear-due-date"@))
        } else if self.due_time is Some && self.clear_due_time {
            Some(
                conflict("--due-time conflicts with --clear-due-time"@).with_field("due_time"@),
            )
        } else if self.due_time is Some && self.clear_due_date {
            Some(
                model::field_error(
                    "due_time_requires_due_date"@,
                    "Cannot set due_time while clearing due_date"@,
                    "due_time"@,
                ),
            )
        } else if self.clear_recurrence && (self.recurrence is Some
            || self.recurrence_from is Some) {
            Some(conflict("--clear-recurrence conflicts with recurrence changes"@))
        } else {
            None
        }
    }

    /// Whether the changes go together.
    pub open spec fn check(self) -> Result<(), ErrorModel> {
        if !self.changes_anything() {
            Err(ErrorModel::usage("no_changes"@, "Task edit requires at least one change"@))
        } else {
            match self.conflicts() {
                Some(e) => Err(e),
                None => match check_overlap(
                    self.add_projects,
                    self.remove_projects,
                    "project"@,
                ) {
                    Err(e) => Err(e),
                    Ok(_) => check_overlap(self.add_tags, self.remove_tags, "tag"@),
                },
            }
        }
    }
}

/// Fail where the changes do not go together.
pub fn validate_edit_request(changes: &EditTask) -> (r: Result<(), Error>)
    ensures
        error::outcome(r) == changes@.check(),
{
    let has_change = changes.name.is_some() || changes.parent.is_some() || changes.clear_parent
        || changes.url.is_some() || changes.clear_url || changes.state.is_some()
        || changes.add_projects.len() > 0 || changes.remove_projects.len() > 0
        || changes.add_tags.len() > 0 || changes.remove_tags.len() > 0
        || changes.due_date.is_some() || changes.clear_due_date || changes.due_time.is_some()
        || changes.clear_due_time || changes.recurrence.is_some()
        || changes.recurrence_from.is_some() || changes.clear_recurrence
        || changes.body.is_some();
    if !has_change {
        return Err(Error::usage("no_changes", "Task edit requires at least one change"));
    }
    if changes.parent.is_some() && changes.clear_parent {
        return Err(
            Error::usage("conflicting_changes", "--parent conflicts with --clear-parent"),
        );
    }
    if changes.url.is_some() && changes.clear_url {
        return Err(Error::usage("conflicting_changes", "--url conflicts with --clear-url"));
    }
    if changes.due_date.is_some() && changes.clear_due_date {
        return Err(
            Error::usage("conflicting_changes", "--due-date conflicts with --clear-due-date"),
        );
    }
    if changes.due_time.is_some() && changes.clear_due_time {
        return Err(
            Error::usage(
                "conflicting_changes",
                "--due-time conflicts with --clear-due-time",
            ).with_field("due_time"),
        );
    }
    if changes.due_time.is_some() && changes.clear_due_date {
        return Err(
            Error::validation(
                "due_time_requires_due_date",
                "Cannot set due_time while clearing due_date",
            ).with_field("due_time"),
        );
    }
    if changes.clear_recurrence && (changes.recurrence.is_some()
        || changes.recurrence_from.is_some()) {
        return Err(
            Error::usage(
                "conflicting_changes",
                "--clear-recurrence conflicts with recurrence changes",
            ),
        );
    }
    if let Err(e) = reject_overlapping_changes(
        &changes.add_projects,
        &changes.remove_projects,
        "project",
    ) {
        return Err(e);
    }
    reject_overlapping_changes(&changes.add_tags, &changes.remove_tags, "tag")
}

/// The list without the texts from the `i`-th on; each is taken out once, and has to be there.
pub open spec fn taken_out(
    list: Seq<Seq<char>>,
    items: Seq<Seq<char>>,
    i: int,
    code: Seq<char>,
    message: Seq<char>,
    field: Seq<char>,
) -> Result<Seq<Seq<char>>, ErrorModel>
    decreases items.len() - i,
{
    if i >= items.len() {
        Ok(list)
    } else {
        match text::place_in(list, items[i], 0) {
            Some(at) => taken_out(list.remove(at), items, i + 1, code, message, field),
            None => Err(
                model::field_error(code, message + text::debug_text(items[i]), field),
            ),
        }
    }
}

/// The result of changing a list, as values.
pub open spec fn list_outcome(r: Result<Vec<String>, Error>) -> Result<
    Seq<Seq<char>>,
    ErrorModel,
> {
    match r {
        Ok(v) => Ok(text::strings(v@)),
        Err(e) => Err(e@),
    }
}

fn take_out(
    had: Vec<String>,
    items: &Vec<String>,
    code: &'static str,
    message: &str,
    field: &str,
) -> (r: Result<Vec<String>, Error>)
    ensures
        list_outcome(r) == taken_out(
            text::strings(had@),
            text::strings(items@),
            0,
            code@,
            message@,
            field@,
        ),
{
    let ghost all = text::strings(items@);
    let ghost whole = taken_out(text::strings(had@), all, 0, code@, message@, field@);
    let mut list = had;
    let mut i: usize = 0;
    while i < items.len()
        invariant
            i <= items@.len(),
            all == text::strings(items@),
            whole == taken_out(text::strings(had@), all, 0, code@, message@, field@),
            whole == taken_out(
                text::strings(list@),
                all,
                i as int,
                code@,
                message@,
                field@,
            ),
        decreases items.len() - i,
    {
        assert(all[i as int] == items@[i as int]@);
        match text::position(&list, items[i].as_str()) {
            Some(at) => {
                let ghost before = text::strings(list@);
                let _ = list.remove(at);
                assert(text::strings(list@) =~= before.remove(at as int));
            },
            None => {
                return Err(
                    Error::validation(
                        code,
                        text::join2(message, text::debug(items[i].as_str()).as_str()).as_str(),
                    ).with_field(field),
                );
            },
        }
        i += 1;
    }
    Ok(list)
}

/// The list with the texts from the `i`-th on; none of them may be there already. Tags have to
/// be tags.
pub open spec fn put_in(
    list: Seq<Seq<char>>,
    items: Seq<Seq<char>>,
    i: int,
    tags: bool,
    code: Seq<char>,
    message: Seq<char>,
    field: Seq<char>,
) -> Result<Seq<Seq<char>>, ErrorModel>
    decreases items.len() - i,
{
    if i >= items.len() {
        Ok(list)
    } else if tags && !model::tag(items[i]) {
        Err(model::tag_error(items[i]))
    } else if list.contains(items[i]) {
        Err(model::field_error(code, message + text::debug_text(items[i]), field))
    } else {
        put_in(list.push(items[i]), items, i + 1, tags, code, message, field)
    }
}

fn put_all(
    had: Vec<String>,
    items: &Vec<String>,
    tags: bool,
    code: &'static str,
    message: &str,
    field: &str,
) -> (r: Result<Vec<String>, Error>)
    ensures
        list_outcome(r) == put_in(
            text::strings(had@),
            text::strings(items@),
            0,
            tags,
            code@,
            message@,
            field@,
        ),
{
    let ghost all = text::strings(items@);
    let ghost whole = put_in(text::strings(had@), all, 0, tags, code@, message@, field@);
    let mut list = had;
    let mut i: usize = 0;
    while i < items.len()
        invariant
            i <= items@.len(),
            all == text::strings(items@),
            whole == put_in(text::strings(had@), all, 0, tags, code@, message@, field@),
            whole == put_in(
                text::strings(list@),
                all,
                i as int,
                tags,
                code@,
                message@,
                field@,
            ),
        decreases items.len() - i,
    {
        assert(all[i as int] == items@[i as int]@);
        if tags {
            if let Err(e) = model::validate_tag(items[i].as_str()) {
                return Err(e);
            }
        }
        if text::is_listed(list.as_slice(), items[i].as_str()) {
            return Err(
                Error::validation(
                    code,
                    text::join2(message, text::debug(items[i].as_str()).as_str()).as_str(),
                ).with_field(field),
            );
        }
        let ghost before = text::strings(list@);
        list.push(items[i].clone());
        assert(text::strings(list@) =~= before.push(all[i as int]));
        i += 1;
    }
    Ok(list)
}

/// Whether the projects from the `i`-th on exist.
pub open spec fn check_known(
    projects: Seq<Seq<char>>,
    known: Seq<Seq<char>>,
    i: int,
) -> Result<(), ErrorModel>
    decreases projects.len() - i,
{
    if i >= projects.len() {
        Ok(())
    } else if !known.contains(projects[i]) {
        Err(
            ErrorModel::not_found(
                "project_not_found"@,
                "Project "@ + text::debug_text(projects[i]) + " does not exist"@,
            ).with_field("projects"@),
        )
    } else {
        check_known(projects, known, i + 1)
    }
}

/// Fail where a project does not exist.
pub fn ensure_known_projects(projects: &Vec<String>, known: &Vec<String>) -> (r: Result<(), Error>)
    ensures
        error::outcome(r) == check_known(text::strings(projects@), text::strings(known@), 0),
{
    let ghost all = text::strings(projects@);
    let mut i: usize = 0;
    while i < projects.len()
        invariant
            i <= projects@.len(),
            all == text::strings(projects@),
            check_known(all, text::strings(known@), 0) == check_known(
                all,
                text::strings(known@),
                i as int,
            ),
        decreases projects.len() - i,
    {
        assert(all[i as int] == projects@[i as int]@);
        if !text::is_listed(known.as_slice(), projects[i].as_str()) {
            return Err(
                Error::not_found(
                    "project_not_found",
                    text::join3(
                        "Project ",
                        text::debug(projects[i].as_str()).as_str(),
                        " does not exist",
                    ).as_str(),
                ).with_field("projects"),
            );
        }
        i += 1;
    }
    Ok(())
}

/// Whether requested projects are distinct and exist.
pub open spec fn check_requested(projects: Seq<Seq<char>>, known: Seq<Seq<char>>) -> Result<
    (),
    ErrorModel,
> {
    match model::check_unique(projects, 0) {
        Err(e) => Err(e),
        Ok(_) => check_known(projects, known, 0),
    }
}

fn ensure_requested_projects(projects: &Vec<String>, known: &Vec<String>) -> (r: Result<
    (),
    Error,
>)
    ensures
        error::outcome(r) == check_requested(text::strings(projects@), text::strings(known@)),
{
    if let Err(e) = model::validate_unique_projects(projects) {
        return Err(e);
    }
    ensure_known_projects(projects, known)
}

impl TaskModel {
    /// The task with its parent, link, name and state changed.
    pub open spec fn with_identity(self, changes: EditModel) -> Result<TaskModel, ErrorModel> {
        let parent = if changes.clear_parent {
            Ok(None)
        } else {
            match changes.parent {
                Some(parent) => match model::parent_id(parent) {
                    Ok(id) => Ok(Some(id)),
                    Err(e) => Err(e),
                },
                None => Ok(self.parent),
            }
        };
        let url = if changes.clear_url {
            None
        } else {
            match changes.url {
                Some(url) => Some(text::trim(url)),
                None => self.url,
            }
        };
        let name = match changes.name {
            Some(name) => match model::check_name(text::trim(name), "name"@) {
                Ok(_) => Ok(text::trim(name)),
                Err(e) => Err(e),
            },
            None => Ok(self.name),
        };
        let state = match changes.state {
            Some(state) => state,
            None => self.state,
        };
        match parent {
            Err(e) => Err(e),
            Ok(parent) => match name {
                Err(e) => Err(e),
                Ok(name) => Ok(TaskModel { parent, url, name, state, ..self }),
            },
        }
    }

    /// The task with its projects changed.
    pub open spec fn with_projects(self, changes: EditModel, known: Seq<Seq<char>>) -> Result<
        TaskModel,
        ErrorModel,
    > {
        match taken_out(
            self.projects,
            changes.remove_projects,
            0,
            "project_not_on_task"@,
            "Task does not reference project "@,
            "projects"@,
        ) {
            Err(e) => Err(e),
            Ok(left) => match put_in(
                left,
                changes.add_projects,
                0,
                false,
                "project_already_on_task"@,
                "Task already references project "@,
                "projects"@,
            ) {
                Err(e) => Err(e),
                Ok(projects) => match check_requested(projects, known) {
                    Err(e) => Err(e),
                    Ok(_) => Ok(TaskModel { projects, ..self }),
                },
            },
        }
    }

    /// The task with its tags changed.
    pub open spec fn with_tags(self, changes: EditModel) -> Result<TaskModel, ErrorModel> {
        match taken_out(
            self.tags,
            changes.remove_tags,
            0,
            "tag_not_on_task"@,
            "Task does not have tag "@,
            "tags"@,
        ) {
            Err(e) => Err(e),
            Ok(left) => match put_in(
                left,
                changes.add_tags,
                0,
                true,
                "tag_already_on_task"@,
                "Task already has tag "@,
                "tags"@,
            ) {
                Err(e) => Err(e),
                Ok(tags) => Ok(TaskModel { tags, ..self }),
            },
        }
    }

    /// The task with its recurrence changed. A task that is to recur has to be told from what
    /// date.
    pub open spec fn with_recurrence(self, changes: EditModel) -> Result<TaskModel, ErrorModel> {
        if changes.clear_recurrence {
            Ok(
                TaskModel {
                    recurrence: None,
                    recurrence_from: None,
                    last_completed_date: None,
                    ..self
                },
            )
        } else if self.recurrence is None && changes.recurrence is Some
            && changes.recurrence_from is None {
            Err(
                ErrorModel::usage(
                    "recurrence_mode_required"@,
                    "Adding recurrence requires an explicit --recurrence-from mode"@,
                ),
            )
        } else {
            Ok(
                TaskModel {
                    recurrence: if changes.recurrence is Some {
                        changes.recurrence
                    } else {
                        self.recurrence
                    },
                    recurrence_from: if changes.recurrence_from is Some {
                        changes.recurrence_from
                    } else {
                        self.recurrence_from
                    },
                    ..self
                },
            )
        }
    }

    /// The task with its schedule and body changed. Clearing the date clears the time too.
    pub open spec fn with_schedule(self, changes: EditModel) -> TaskModel {
        TaskModel {
            due_date: if changes.clear_due_date {
                None
            } else if changes.due_date is Some {
                changes.due_date
            } else {
                self.due_date
            },
            due_time: if changes.clear_due_time {
                None
            } else if changes.due_time is Some {
                changes.due_time
            } else if changes.clear_due_date {
                None
            } else {
                self.due_time
            },
            body: match changes.body {
                Some(body) => model::body(body),
                None => self.body,
            },
            ..self
        }
    }

    /// The task with the changes made, before its rules are checked.
    pub open spec fn edited(self, changes: EditModel, known: Seq<Seq<char>>) -> Result<
        TaskModel,
        ErrorModel,
    > {
        match self.with_identity(changes) {
            Err(e) => Err(e),
            Ok(task) => match task.with_projects(changes, known) {
                Err(e) => Err(e),
                Ok(task) => match task.with_tags(changes) {
                    Err(e) => Err(e),
                    Ok(task) => match task.with_recurrence(changes) {
                        Err(e) => Err(e),
                        Ok(task) => Ok(task.with_schedule(changes)),
                    },
                },
            },
        }
    }
}

fn trimmed(s: &str) -> (r: String)
    ensures
        r@ == text::trim(s@),
{
    text::string(&text::trimmed(&text::chars(s)))
}

fn edit_identity(had: Task, changes: &EditTask) -> (r: Result<Task, Error>)
    ensures
        error::viewed(r) == had@.with_identity(changes@),
{
    let mut task = had;
    if changes.clear_parent {
        task.parent = None;
    } else if let Some(parent) = &changes.parent {
        match model::normalize_parent_id(parent.as_str()) {
            Ok(id) => {
                task.parent = Some(id);
            },
            Err(e) => {
                return Err(e);
            },
        }
    }
    if changes.clear_url {
        task.url = None;
    } else if let Some(url) = &changes.url {
        task.url = Some(trimmed(url.as_str()));
    }
    if let Some(name) = &changes.name {
        let name = trimmed(name.as_str());
        if let Err(e) = model::validate_name(name.as_str(), "name") {
            return Err(e);
        }
        task.name = name;
    }
    if let Some(state) = &changes.state {
        task.state = state.clone();
    }
    Ok(task)
}

fn edit_projects(had: Task, changes: &EditTask, known: &Vec<String>) -> (r: Result<Task, Error>)
    ensures
        error::viewed(r) == had@.with_projects(changes@, text::strings(known@)),
{
    let mut task = had;
    let left = match take_out(
        text::clone_all(&task.projects),
        &changes.remove_projects,
        "project_not_on_task",
        "Task does not reference project ",
        "projects",
    ) {
        Ok(left) => left,
        Err(e) => {
            return Err(e);
        },
    };
    let projects = match put_all(
        left,
        &changes.add_projects,
        false,
        "project_already_on_task",
        "Task already references project ",
        "projects",
    ) {
        Ok(projects) => projects,
        Err(e) => {
            return Err(e);
        },
    };
    if let Err(e) = ensure_requested_projects(&projects, known) {
        return Err(e);
    }
    task.projects = projects;
    Ok(task)
}

fn edit_tags(had: Task, changes: &EditTask) -> (r: Result<Task, Error>)
    ensures
        error::viewed(r) == had@.with_tags(changes@),
{
    let mut task = had;
    let left = match take_out(
        text::clone_all(&task.tags),
        &changes.remove_tags,
        "tag_not_on_task",
        "Task does not have tag ",
        "tags",
    ) {
        Ok(left) => left,
        Err(e) => {
            return Err(e);
        },
    };
    let tags = match put_all(
        left,
        &changes.add_tags,
        true,
        "tag_already_on_task",
        "Task already has tag ",
        "tags",
    ) {
        Ok(tags) => tags,
        Err(e) => {
            return Err(e);
        },
    };
    task.tags = tags;
    Ok(task)
}

fn edit_recurrence(had: Task, changes: &EditTask) -> (r: Result<Task, Error>)
    ensures
        error::viewed(r) == had@.with_recurrence(changes@),
{
    let mut task = had;
    if changes.clear_recurrence {
        task.recurrence = None;
        task.recurrence_from = None;
        task.last_completed_date = None;
    } else {
        if task.recurrence.is_none() && changes.recurrence.is_some()
            && changes.recurrence_from.is_none() {
            return Err(
                Error::usage(
                    "recurrence_mode_required",
                    "Adding recurrence requires an explicit --recurrence-from mode",
                ),
            );
        }
        if changes.recurrence.is_some() {
            task.recurrence = model::clone_rule(&changes.recurrence);
        }
        if let Some(mode) = changes.recurrence_from {
            task.recurrence_from = Some(mode);
        }
    }
    Ok(task)
}

fn edit_schedule(had: Task, changes: &EditTask) -> (r: Task)
    ensures
        r@ == had@.with_schedule(changes@),
{
    let mut task = had;
    if changes.clear_due_date {
        task.due_date = None;
        task.due_time = None;
    } else if let Some(due_date) = changes.due_date {
        task.due_date = Some(due_date);
    }
    if changes.clear_due_time {
        task.due_time = None;
    } else if let Some(due_time) = changes.due_time {
        task.due_time = Some(due_time);
    }
    if let Some(body) = &changes.body {
        task.body = model::normalize_body(body.as_str());
    }
    task
}

/// The task with the changes made, before its rules are checked.
pub fn apply_edit(task: Task, changes: &EditTask, known_projects: &Vec<String>) -> (r: Result<
    Task,
    Error,
>)
    ensures
        error::viewed(r) == task@.edited(changes@, text::strings(known_projects@)),
{
    let task = match edit_identity(task, changes) {
        Ok(task) => task,
        Err(e) => {
            return Err(e);
        },
    };
    let task = match edit_projects(task, changes, known_projects) {
        Ok(task) => task,
        Err(e) => {
            return Err(e);
        },
    };
    let task = match edit_tags(task, changes) {
        Ok(task) => task,
        Err(e) => {
            return Err(e);
        },
    };
    match edit_recurrence(task, changes) {
        Ok(task) => Ok(edit_schedule(task, changes)),
        Err(e) => Err(e),
    }
}

/// A task to be made.
#[derive(Debug)]
pub struct AddTask {
    pub name: String,
    pub state: Option<String>,
    pub projects: Vec<String>,
    pub tags: Vec<String>,
    pub parent: Option<String>,
    pub url: Option<String>,
    pub due_date: Option<Date>,
    pub due_time: Option<Time>,
    pub recurrence: Option<RecurrenceRule>,
    pub recurrence_from: Option<RecurrenceMode>,
    pub body: String,
}

/// What a task to be made says.
#[verifier::ext_equal]
pub struct AddModel {
    pub name: Seq<char>,
    pub state: Option<Seq<char>>,
    pub projects: Seq<Seq<char>>,
    pub tags: Seq<Seq<char>>,
    pub parent: Option<Seq<char>>,
    pub url: Option<Seq<char>>,
    pub due_date: Option<Date>,
    pub due_time: Option<Time>,
    pub recurrence: Option<RuleModel>,
    pub recurrence_from: Option<RecurrenceMode>,
    pub body: Seq<char>,
}

impl View for AddTask {
    type V = AddModel;

    open spec fn view(&self) -> AddModel {
        AddModel {
            name: self.name@,
            state: text::opt(self.state),
            projects: text::strings(self.projects@),
            tags: text::strings(self.tags@),
            parent: text::opt(self.parent),
            url: text::opt(self.url),
            due_date: self.due_date,
            due_time: self.due_time,
            recurrence: model::opt_rule(self.recurrence),
            recurrence_from: self.recurrence_from,
            body: self.body@,
        }
    }
}

/// The error for parents in a store that has none.
pub open spec fn schema_error() -> ErrorModel {
    ErrorModel::unsupported(
        "unsupported_schema"@,
        "Parent operations require store schema version 2; explicitly upgrade the store first"@,
    ).with_field("parent"@)
}

/// Fail where parents are asked for in a store that has none.
pub fn require_parent_schema(config: &Config, requested: bool) -> (r: Result<(), Error>)
    ensures
        r is Ok <==> !(requested && config@.schema_version == 1),
        r matches Err(e) ==> e@ == schema_error(),
{
    if requested && config.schema_version == 1 {
        return Err(
            Error::unsupported(
                "unsupported_schema",
                "Parent operations require store schema version 2; explicitly upgrade the store first",
            ).with_field("parent"),
        );
    }
    Ok(())
}

impl TaskModel {
    /// What the task says of its identity and its parent.
    pub open spec fn relation(self) -> RecordModel {
        RecordModel { id: self.id, path: self.path, parent: self.parent }
    }
}

fn relation_of(task: &Task) -> (r: ParentRecord)
    ensures
        r@ == task@.relation(),
{
    ParentRecord {
        id: task.id.clone(),
        path: task.path.clone(),
        parent: text::clone_opt(&task.parent),
    }
}

/// What tasks say of their identities and parents.
pub open spec fn relations(tasks: Seq<TaskModel>) -> Seq<RecordModel> {
    tasks.map_values(|task: TaskModel| task.relation())
}

/// What tasks say.
pub open spec fn task_models(tasks: Seq<Task>) -> Seq<TaskModel> {
    tasks.map_values(|task: Task| task@)
}

/// What tasks say of their identities and parents.
pub fn relations_of(tasks: &Vec<Task>) -> (r: Vec<ParentRecord>)
    ensures
        parents::record_models(r@) == relations(task_models(tasks@)),
{
    let mut r: Vec<ParentRecord> = Vec::new();
    let mut i: usize = 0;
    while i < tasks.len()
        invariant
            i <= tasks@.len(),
            r@.len() == i,
            forall|k: int| 0 <= k < i ==> (#[trigger] r@[k])@ == tasks@[k]@.relation(),
        decreases tasks.len() - i,
    {
        r.push(relation_of(&tasks[i]));
        i += 1;
    }
    assert(parents::record_models(r@) =~= relations(task_models(tasks@)));
    r
}

/// Fail where the task is not among those whose relations were read.
pub fn ensure_selected_relation(task: &Task, records: &Vec<ParentRecord>) -> (r: Result<
    (),
    Error,
>)
    ensures
        r is Ok <==> parents::record_models(records@).contains(task@.relation()),
        r matches Err(e) ==> e@ == unselected(task@),
{
    let ghost models = parents::record_models(records@);
    let mut i: usize = 0;
    while i < records.len()
        invariant
            i <= records@.len(),
            models == parents::record_models(records@),
            forall|k: int| 0 <= k < i ==> #[trigger] models[k] != task@.relation(),
        decreases records.len() - i,
    {
        let record = &records[i];
        assert(models[i as int] == record@);
        let same_parent = match (&record.parent, &task.parent) {
            (Some(a), Some(b)) => text::same(a.as_str(), b.as_str()),
            (None, None) => true,
            _ => false,
        };
        if same_parent && text::same(record.id.as_str(), task.id.as_str()) && text::same(
            record.path.as_str(),
            task.path.as_str(),
        ) {
            assert(models[i as int] =~= task@.relation());
            return Ok(());
        }
        i += 1;
    }
    Err(
        Error::new(
            ErrorKind::Concurrent,
            "concurrent_modification",
            "Selected task changed during the relationship scan",
        ).with_path(task.path.as_str()),
    )
}

/// The error for a task that is not among those whose relations were read.
pub open spec fn unselected(task: TaskModel) -> ErrorModel {
    ErrorModel::new(
        ErrorKind::Concurrent,
        "concurrent_modification"@,
        "Selected task changed during the relationship scan"@,
    ).with_path(task.path)
}

/// The last of the first `n` records that has the identity.
pub open spec fn last_record(records: Seq<RecordModel>, id: Seq<char>, n: int) -> Option<int>
    decreases n,
{
    if n <= 0 {
        None
    } else if records[n - 1].id == id {
        Some(n - 1)
    } else {
        last_record(records, id, n - 1)
    }
}

fn find_record(records: &Vec<ParentRecord>, id: &str) -> (r: Option<usize>)
    ensures
        (match r {
            Some(i) => Some(i as int),
            None => None,
        }) == last_record(parents::record_models(records@), id@, records@.len() as int),
        r matches Some(i) ==> i < records@.len(),
{
    let ghost models = parents::record_models(records@);
    let mut n: usize = records.len();
    while n > 0
        invariant
            n <= records@.len(),
            models == parents::record_models(records@),
            last_record(models, id@, records@.len() as int) == last_record(
                models,
                id@,
                n as int,
            ),
        decreases n,
    {
        assert(models[n - 1] == records@[n - 1]@);
        if text::same(records[n - 1].id.as_str(), id) {
            return Some(n - 1);
        }
        n -= 1;
    }
    None
}

/// The records found so far, with those that follow: the record that is named, the one that it
/// names as its parent, and so on, until one is met again or there is none. There are at most as
/// many as there are records.
pub open spec fn lineage(
    records: Seq<RecordModel>,
    current: Option<Seq<char>>,
    found: Seq<RecordModel>,
    left: nat,
) -> Seq<RecordModel>
    decreases left,
{
    match current {
        None => found,
        Some(id) => if left == 0 || named_before(found, id) {
            found
        } else {
            match last_record(records, id, records.len() as int) {
                None => found,
                Some(i) => lineage(
                    records,
                    records[i].parent,
                    found.push(records[i]),
                    (left - 1) as nat,
                ),
            }
        },
    }
}

/// Whether one of the records has the identity.
pub open spec fn named_before(found: Seq<RecordModel>, id: Seq<char>) -> bool {
    exists|i: int| 0 <= i < found.len() && (#[trigger] found[i]).id == id
}

fn is_named_before(found: &Vec<ParentRecord>, id: &str) -> (r: bool)
    ensures
        r == named_before(parents::record_models(found@), id@),
{
    let ghost models = parents::record_models(found@);
    let mut i: usize = 0;
    while i < found.len()
        invariant
            i <= found@.len(),
            models == parents::record_models(found@),
            forall|k: int| 0 <= k < i ==> (#[trigger] models[k]).id != id@,
        decreases found.len() - i,
    {
        assert(models[i as int] == found@[i as int]@);
        if text::same(found[i].id.as_str(), id) {
            return true;
        }
        i += 1;
    }
    false
}

/// Whether a task's parent exists and does not descend from it. Faults elsewhere do not matter.
pub open spec fn check_destination(head: RecordModel, records: Seq<RecordModel>) -> Result<
    (),
    ErrorModel,
> {
    match head.parent {
        None => Ok(()),
        Some(parent) => if parent != head.id && last_record(
            records,
            parent,
            records.len() as int,
        ) is None {
            Err(
                ErrorModel::not_found(
                    "task_not_found"@,
                    "Parent task "@ + parent + " does not exist"@,
                ).with_path(head.path).with_field("parent"@),
            )
        } else {
            parents::check_relations(
                lineage(records, Some(parent), seq![head], records.len()),
            )
        },
    }
}

fn ancestry(head: ParentRecord, records: &Vec<ParentRecord>) -> (r: Vec<ParentRecord>)
    ensures
        parents::record_models(r@) == lineage(
            parents::record_models(records@),
            head@.parent,
            seq![head@],
            records@.len(),
        ),
{
    let ghost models = parents::record_models(records@);
    let mut current = text::clone_opt(&head.parent);
    let mut left: usize = records.len();
    let mut found: Vec<ParentRecord> = Vec::new();
    let ghost whole = lineage(models, head@.parent, seq![head@], models.len());
    found.push(head);
    assert(parents::record_models(found@) =~= seq![head@]);
    while left > 0
        invariant
            models == parents::record_models(records@),
            whole == lineage(models, head@.parent, seq![head@], models.len()),
            whole == lineage(
                models,
                text::opt(current),
                parents::record_models(found@),
                left as nat,
            ),
        decreases left,
    {
        let id = match &current {
            Some(id) => id.clone(),
            None => {
                return found;
            },
        };
        if is_named_before(&found, id.as_str()) {
            return found;
        }
        match find_record(records, id.as_str()) {
            None => {
                return found;
            },
            Some(i) => {
                let ghost had = parents::record_models(found@);
                assert(models[i as int] == records@[i as int]@);
                found.push(records[i].clone());
                assert(parents::record_models(found@) =~= had.push(models[i as int]));
                current = text::clone_opt(&records[i].parent);
            },
        }
        left -= 1;
    }
    found
}

/// Fail where a task's parent does not exist or descends from it. Faults elsewhere do not
/// matter, so that a broken graph can be mended.
pub fn ensure_parent_destination(task: &Task, records: &Vec<ParentRecord>) -> (r: Result<
    (),
    Error,
>)
    ensures
        error::outcome(r) == check_destination(
            task@.relation(),
            parents::record_models(records@),
        ),
{
    let parent = match &task.parent {
        Some(parent) => parent,
        None => {
            return Ok(());
        },
    };
    if !text::same(parent.as_str(), task.id.as_str()) && find_record(
        records,
        parent.as_str(),
    ).is_none() {
        return Err(
            Error::not_found(
                "task_not_found",
                text::join3("Parent task ", parent.as_str(), " does not exist").as_str(),
            ).with_path(task.path.as_str()).with_field("parent"),
        );
    }
    parents::ensure_valid_relations(&ancestry(relation_of(task), records))
}

/// A task as it is to be written, and its record.
pub open spec fn to_write(r: Result<(Task, Vec<u8>), Error>) -> Result<
    (TaskModel, Seq<u8>),
    ErrorModel,
> {
    match r {
        Ok((task, bytes)) => Ok((task@, bytes@)),
        Err(e) => Err(e@),
    }
}

impl TaskModel {
    /// The task and its record, where it keeps all rules.
    pub open spec fn written(self, config: ConfigModel) -> Result<
        (TaskModel, Seq<u8>),
        ErrorModel,
    > {
        match self.check(config) {
            Err(e) => Err(e),
            Ok(_) => match self.serialized(config) {
                Err(e) => Err(e),
                Ok(bytes) => Ok((self, bytes)),
            },
        }
    }
}

/// The task and its record, where it keeps all rules.
fn write(task: Task, config: &Config) -> (r: Result<(Task, Vec<u8>), Error>)
    ensures
        r matches Ok(done) ==> record_laws::writes_extras(done.0@.extra_properties),
        to_write(r) == task@.written(config@),
{
    if let Err(e) = task.validate(config) {
        return Err(e);
    }
    match frontmatter::serialize_task(&task, config) {
        Ok(bytes) => Ok((task, bytes)),
        Err(e) => Err(e),
    }
}

/// What editing a task gives: the new task and its record.
pub open spec fn edit_outcome(
    task: TaskModel,
    changes: EditModel,
    records: Seq<RecordModel>,
    known: Seq<Seq<char>>,
    config: ConfigModel,
) -> Result<(TaskModel, Seq<u8>), ErrorModel> {
    if changes.check() is Err {
        Err(changes.check()->Err_0)
    } else if (changes.parent is Some || changes.clear_parent) && config.schema_version == 1 {
        Err(schema_error())
    } else if !records.contains(task.relation()) {
        Err(unselected(task))
    } else {
        match task.edited(changes, known) {
            Err(e) => Err(e),
            Ok(edited) => if edited.check(config) is Err {
                Err(edited.check(config)->Err_0)
            } else if changes.parent is Some && check_destination(
                edited.relation(),
                records,
            ) is Err {
                Err(check_destination(edited.relation(), records)->Err_0)
            } else {
                edited.written(config)
            },
        }
    }
}

/// Edit a task: the new task and its record. What is said of a parent needs a store that has
/// parents, and a new parent has to exist and must not descend from the task.
pub fn edit(
    config: &Config,
    task: Task,
    changes: &EditTask,
    relations: &Vec<ParentRecord>,
    known_projects: &Vec<String>,
) -> (r: Result<(Task, Vec<u8>), Error>)
    ensures
        r matches Ok(done) ==> record_laws::writes_extras(done.0@.extra_properties),
        to_write(r) == edit_outcome(
            task@,
            changes@,
            parents::record_models(relations@),
            text::strings(known_projects@),
            config@,
        ),
{
    if let Err(e) = validate_edit_request(changes) {
        return Err(e);
    }
    if let Err(e) = require_parent_schema(
        config,
        changes.parent.is_some() || changes.clear_parent,
    ) {
        return Err(e);
    }
    if let Err(e) = ensure_selected_relation(&task, relations) {
        return Err(e);
    }
    let edited = match apply_edit(task, changes, known_projects) {
        Ok(edited) => edited,
        Err(e) => {
            return Err(e);
        },
    };
    if let Err(e) = edited.validate(config) {
        return Err(e);
    }
    if changes.parent.is_some() {
        if let Err(e) = ensure_parent_destination(&edited, relations) {
            return Err(e);
        }
    }
    write(edited, config)
}

/// Whether the projects from the `i`-th on that a task names exist.
pub open spec fn check_references(task: TaskModel, known: Seq<Seq<char>>, i: int) -> Result<
    (),
    ErrorModel,
>
    decreases task.projects.len() - i,
{
    if i >= task.projects.len() {
        Ok(())
    } else if !known.contains(task.projects[i]) {
        Err(
            ErrorModel::validation(
                "missing_project_reference"@,
                "Task "@ + task.id + " references missing project "@ + text::debug_text(
                    task.projects[i],
                ),
            ).with_path(task.path).with_field("projects"@),
        )
    } else {
        check_references(task, known, i + 1)
    }
}

/// Fail where a project that the task names does not exist.
pub fn validate_task_references(task: &Task, known: &Vec<String>) -> (r: Result<(), Error>)
    ensures
        error::outcome(r) == check_references(task@, text::strings(known@), 0),
{
    let ghost all = text::strings(task.projects@);
    let ghost list = text::strings(known@);
    let mut i: usize = 0;
    while i < task.projects.len()
        invariant
            i <= task.projects@.len(),
            all == task@.projects,
            all == text::strings(task.projects@),
            list == text::strings(known@),
            check_references(task@, list, 0) == check_references(task@, list, i as int),
        decreases task.projects.len() - i,
    {
        assert(all[i as int] == task.projects@[i as int]@);
        if !text::is_listed(known.as_slice(), task.projects[i].as_str()) {
            return Err(
                Error::validation(
                    "missing_project_reference",
                    text::join4(
                        "Task ",
                        task.id.as_str(),
                        " references missing project ",
                        text::debug(task.projects[i].as_str()).as_str(),
                    ).as_str(),
                ).with_path(task.path.as_str()).with_field("projects"),
            );
        }
        i += 1;
    }
    Ok(())
}

/// Show a task, whose projects have to exist.
pub fn show(task: Task, known_projects: &Vec<String>) -> (r: Result<Task, Error>)
    ensures
        error::viewed(r) == (match check_references(task@, text::strings(known_projects@), 0) {
            Ok(_) => Ok(task@),
            Err(e) => Err(e),
        }),
{
    match validate_task_references(&task, known_projects) {
        Ok(_) => Ok(task),
        Err(e) => Err(e),
    }
}

/// The error for a task that has come to its end.
pub open spec fn terminal_error() -> ErrorModel {
    model::field_error(
        "task_already_terminal"@,
        "Operation requires a task in a nonterminal state"@,
        "state"@,
    )
}

fn ensure_nonterminal(task: &Task, config: &Config) -> (r: Result<(), Error>)
    ensures
        r is Ok <==> !config@.terminal(task@.state),
        r matches Err(e) ==> e@ == terminal_error(),
{
    if task.terminal(config) {
        return Err(
            Error::validation(
                "task_already_terminal",
                "Operation requires a task in a nonterminal state",
            ).with_field("state"),
        );
    }
    Ok(())
}

/// The error for a command whose state is not configured, or not terminal.
pub open spec fn state_missing(id: Seq<char>, command: Seq<char>) -> ErrorModel {
    ErrorModel::validation(
        "required_terminal_state_missing"@,
        "Command "@ + command + " requires configured terminal state "@ + text::debug_text(id)
            + "; use edit --state instead"@,
    )
}

fn required_terminal_state(config: &Config, id: &str, command: &str) -> (r: Result<String, Error>)
    ensures
        r is Ok <==> config@.terminal(id@),
        r matches Ok(state) ==> state@ == id@,
        r matches Err(e) ==> e@ == state_missing(id@, command@),
{
    if let Some(state) = config.state(id) {
        if state.terminal {
            return Ok(id.to_owned());
        }
    }
    Err(
        Error::validation(
            "required_terminal_state_missing",
            text::join5(
                "Command ",
                command,
                " requires configured terminal state ",
                text::debug(id).as_str(),
                "; use edit --state instead",
            ).as_str(),
        ),
    )
}

/// Whether a task may be moved on: it is among those whose relations were read, it is not in a
/// terminal state unless it is to be reopened, and its projects exist.
pub open spec fn check_movable(
    task: TaskModel,
    records: Seq<RecordModel>,
    known: Seq<Seq<char>>,
    config: ConfigModel,
    reopening: bool,
) -> Result<(), ErrorModel> {
    if !records.contains(task.relation()) {
        Err(unselected(task))
    } else if !reopening && config.terminal(task.state) {
        Err(terminal_error())
    } else {
        check_references(task, known, 0)
    }
}

fn ensure_movable(
    task: &Task,
    records: &Vec<ParentRecord>,
    known: &Vec<String>,
    config: &Config,
    reopening: bool,
) -> (r: Result<(), Error>)
    ensures
        error::outcome(r) == check_movable(
            task@,
            parents::record_models(records@),
            text::strings(known@),
            config@,
            reopening,
        ),
{
    if let Err(e) = ensure_selected_relation(task, records) {
        return Err(e);
    }
    if !reopening {
        if let Err(e) = ensure_nonterminal(task, config) {
            return Err(e);
        }
    }
    validate_task_references(task, known)
}

impl TaskModel {
    /// The recurring task, completed: due on the next date, and open again.
    pub open spec fn advanced(self, rule: RuleModel, completed_on: Date, config: ConfigModel) -> Result<
        TaskModel,
        ErrorModel,
    > {
        match self.due_date {
            None => Err(
                model::field_error(
                    "recurrence_requires_due_date"@,
                    "Recurring task has no due_date"@,
                    "due_date"@,
                ),
            ),
            Some(due) => match self.recurrence_from {
                None => Err(
                    model::field_error(
                        "recurrence_requires_mode"@,
                        "Recurring task has no recurrence_from"@,
                        "recurrence_from"@,
                    ),
                ),
                Some(mode) => if self.last_completed_date is Some && completed_on.number()
                    < self.last_completed_date->0.number() {
                    Err(
                        model::field_error(
                            "completion_date_moved_backwards"@,
                            "Completion date cannot be earlier than last_completed_date"@,
                            "last_completed_date"@,
                        ),
                    )
                } else {
                    match rule.next_outcome(
                        recurrence::anchor_of(due, completed_on, mode),
                        recurrence::threshold_of(due, completed_on, mode),
                    ) {
                        Err(e) => Err(e),
                        Ok(next) => Ok(
                            TaskModel {
                                due_date: Some(next),
                                last_completed_date: Some(completed_on),
                                state: config.default_state,
                                ..self
                            },
                        ),
                    }
                },
            },
        }
    }

    /// The task, completed: done, or due again where it recurs.
    pub open spec fn completed(self, completed_on: Date, config: ConfigModel) -> Result<
        TaskModel,
        ErrorModel,
    > {
        if !config.terminal("done"@) {
            Err(state_missing("done"@, "complete"@))
        } else {
            match self.recurrence {
                Some(rule) => self.advanced(rule, completed_on, config),
                None => Ok(TaskModel { state: "done"@, ..self }),
            }
        }
    }
}

/// What completing a task gives: the new task and its record.
pub open spec fn complete_outcome(
    task: TaskModel,
    completed_on: Date,
    records: Seq<RecordModel>,
    known: Seq<Seq<char>>,
    config: ConfigModel,
) -> Result<(TaskModel, Seq<u8>), ErrorModel> {
    match check_movable(task, records, known, config, false) {
        Err(e) => Err(e),
        Ok(_) => match task.completed(completed_on, config) {
            Err(e) => Err(e),
            Ok(task) => task.written(config),
        },
    }
}

fn advance(had: Task, completed_on: Date, config: &Config) -> (r: Result<Task, Error>)
    requires
        had@.recurrence is Some,
    ensures
        error::viewed(r) == had@.advanced(had@.recurrence->0, completed_on, config@),
{
    let mut task = had;
    let due = match task.due_date {
        Some(due) => due,
        None => {
            return Err(
                Error::validation(
                    "recurrence_requires_due_date",
                    "Recurring task has no due_date",
                ).with_field("due_date"),
            );
        },
    };
    let mode = match task.recurrence_from {
        Some(mode) => mode,
        None => {
            return Err(
                Error::validation(
                    "recurrence_requires_mode",
                    "Recurring task has no recurrence_from",
                ).with_field("recurrence_from"),
            );
        },
    };
    if let Some(last) = task.last_completed_date {
        if completed_on.is_before(&last) {
            return Err(
                Error::validation(
                    "completion_date_moved_backwards",
                    "Completion date cannot be earlier than last_completed_date",
                ).with_field("last_completed_date"),
            );
        }
    }
    let next = match &task.recurrence {
        Some(rule) => match rule.next_due(due, completed_on, mode) {
            Ok(next) => next,
            Err(e) => {
                return Err(e);
            },
        },
        None => due,
    };
    task.due_date = Some(next);
    task.last_completed_date = Some(completed_on);
    task.state = config.default_state.clone();
    Ok(task)
}

/// Complete a task on a date: the new task and its record. A recurring task is due on the next
/// date instead, and open again.
pub fn complete_on(
    config: &Config,
    task: Task,
    completed_on: Date,
    relations: &Vec<ParentRecord>,
    known_projects: &Vec<String>,
) -> (r: Result<(Task, Vec<u8>), Error>)
    ensures
        r matches Ok(done) ==> record_laws::writes_extras(done.0@.extra_properties),
        to_write(r) == complete_outcome(
            task@,
            completed_on,
            parents::record_models(relations@),
            text::strings(known_projects@),
            config@,
        ),
{
    if let Err(e) = ensure_movable(&task, relations, known_projects, config, false) {
        return Err(e);
    }
    let done = match required_terminal_state(config, "done", "complete") {
        Ok(done) => done,
        Err(e) => {
            return Err(e);
        },
    };
    if task.recurrence.is_some() {
        match advance(task, completed_on, config) {
            Ok(task) => write(task, config),
            Err(e) => Err(e),
        }
    } else {
        let mut task = task;
        task.state = done;
        write(task, config)
    }
}

/// Complete a task, on the date given or else on the one that the clock tells. See
/// [`complete_on`].
pub fn complete<C: model::Clock>(
    config: &Config,
    task: Task,
    completed_on: Option<Date>,
    clock: &C,
    relations: &Vec<ParentRecord>,
    known_projects: &Vec<String>,
) -> (r: Result<(Task, Vec<u8>), Error>)
    ensures
        r matches Ok(done) ==> record_laws::writes_extras(done.0@.extra_properties),
        exists|date: Date|
            (completed_on is Some ==> completed_on == Some(date)) && (completed_on is None
                ==> call_ensures(C::today, (clock,), date)) && to_write(r)
                == #[trigger] complete_outcome(
                task@,
                date,
                parents::record_models(relations@),
                text::strings(known_projects@),
                config@,
            ),
{
    let date = match completed_on {
        Some(date) => date,
        None => clock.today(),
    };
    complete_on(config, task, date, relations, known_projects)
}

/// What moving a task to a state gives: the new task and its record.
pub open spec fn moved(task: TaskModel, state: Seq<char>, config: ConfigModel) -> Result<
    (TaskModel, Seq<u8>),
    ErrorModel,
> {
    (TaskModel { state, ..task }).written(config)
}

fn move_to(had: Task, state: String, config: &Config) -> (r: Result<(Task, Vec<u8>), Error>)
    ensures
        r matches Ok(done) ==> record_laws::writes_extras(done.0@.extra_properties),
        to_write(r) == moved(had@, state@, config@),
{
    let mut task = had;
    task.state = state;
    write(task, config)
}

/// End a series: a recurring task is done, and keeps its rule.
pub fn finish_series(
    config: &Config,
    task: Task,
    relations: &Vec<ParentRecord>,
    known_projects: &Vec<String>,
) -> (r: Result<(Task, Vec<u8>), Error>)
    ensures
        r matches Ok((done, bytes)) ==> {
            &&& task@.recurrence is Some
            &&& !task_laws::ends_in(config@, task@.state)
            &&& done@ == (TaskModel { state: "done"@, ..task@ })
            &&& task_laws::ends_in(config@, "done"@)
            &&& done@.serialized(config@) == Ok::<Seq<u8>, ErrorModel>(bytes@)
        },
        r matches Ok(done) ==> record_laws::writes_extras(done.0@.extra_properties),
        to_write(r) == (match check_movable(
            task@,
            parents::record_models(relations@),
            text::strings(known_projects@),
            config@,
            false,
        ) {
            Err(e) => Err(e),
            Ok(_) => if task@.recurrence is None {
                Err(
                    ErrorModel::validation(
                        "task_not_recurring"@,
                        "finish-series requires a recurring task"@,
                    ),
                )
            } else if !config@.terminal("done"@) {
                Err(state_missing("done"@, "finish-series"@))
            } else {
                moved(task@, "done"@, config@)
            },
        }),
{
    proof {
        task_laws::lemma_state(config@, task@.state);
        task_laws::lemma_state(config@, "done"@);
    }
    if let Err(e) = ensure_movable(&task, relations, known_projects, config, false) {
        return Err(e);
    }
    if task.recurrence.is_none() {
        return Err(
            Error::validation("task_not_recurring", "finish-series requires a recurring task"),
        );
    }
    match required_terminal_state(config, "done", "finish-series") {
        Ok(state) => move_to(task, state, config),
        Err(e) => Err(e),
    }
}

/// Cancel a task.
pub fn cancel(
    config: &Config,
    task: Task,
    relations: &Vec<ParentRecord>,
    known_projects: &Vec<String>,
) -> (r: Result<(Task, Vec<u8>), Error>)
    ensures
        r matches Ok((done, bytes)) ==> {
            &&& !task_laws::ends_in(config@, task@.state)
            &&& done@ == (TaskModel { state: "cancelled"@, ..task@ })
            &&& task_laws::ends_in(config@, "cancelled"@)
            &&& done@.serialized(config@) == Ok::<Seq<u8>, ErrorModel>(bytes@)
        },
        r matches Ok(done) ==> record_laws::writes_extras(done.0@.extra_properties),
        to_write(r) == (match check_movable(
            task@,
            parents::record_models(relations@),
            text::strings(known_projects@),
            config@,
            false,
        ) {
            Err(e) => Err(e),
            Ok(_) => if !config@.terminal("cancelled"@) {
                Err(state_missing("cancelled"@, "cancel"@))
            } else {
                moved(task@, "cancelled"@, config@)
            },
        }),
{
    proof {
        task_laws::lemma_state(config@, task@.state);
        task_laws::lemma_state(config@, "cancelled"@);
    }
    if let Err(e) = ensure_movable(&task, relations, known_projects, config, false) {
        return Err(e);
    }
    match required_terminal_state(config, "cancelled", "cancel") {
        Ok(state) => move_to(task, state, config),
        Err(e) => Err(e),
    }
}

/// Open a task again that is in a terminal state.
pub fn reopen(
    config: &Config,
    task: Task,
    relations: &Vec<ParentRecord>,
    known_projects: &Vec<String>,
) -> (r: Result<(Task, Vec<u8>), Error>)
    ensures
        r matches Ok((done, bytes)) ==> {
            &&& task_laws::ends_in(config@, task@.state)
            &&& done@ == (TaskModel { state: config@.default_state, ..task@ })
            &&& done@.serialized(config@) == Ok::<Seq<u8>, ErrorModel>(bytes@)
        },
        r matches Ok(done) ==> record_laws::writes_extras(done.0@.extra_properties),
        to_write(r) == (match check_movable(
            task@,
            parents::record_models(relations@),
            text::strings(known_projects@),
            config@,
            true,
        ) {
            Err(e) => Err(e),
            Ok(_) => if !config@.terminal(task@.state) {
                Err(
                    model::field_error(
                        "task_not_terminal"@,
                        "reopen requires a task in a terminal state"@,
                        "state"@,
                    ),
                )
            } else {
                moved(task@, config@.default_state, config@)
            },
        }),
{
    proof {
        task_laws::lemma_state(config@, task@.state);
    }
    if let Err(e) = ensure_movable(&task, relations, known_projects, config, true) {
        return Err(e);
    }
    if !task.terminal(config) {
        return Err(
            Error::validation(
                "task_not_terminal",
                "reopen requires a task in a terminal state",
            ).with_field("state"),
        );
    }
    move_to(task, config.default_state.clone(), config)
}

/// The identities of the direct children among the first `n` records.
pub open spec fn children(records: Seq<RecordModel>, id: Seq<char>, n: int) -> Seq<Seq<char>>
    decreases n,
{
    if n <= 0 {
        seq![]
    } else if records[n - 1].parent == Some(id) {
        children(records, id, n - 1).push(records[n - 1].id)
    } else {
        children(records, id, n - 1)
    }
}

fn children_of(records: &Vec<ParentRecord>, id: &str) -> (r: Vec<String>)
    ensures
        text::strings(r@) == children(
            parents::record_models(records@),
            id@,
            records@.len() as int,
        ),
{
    let ghost models = parents::record_models(records@);
    let mut r: Vec<String> = Vec::new();
    let mut i: usize = 0;
    assert(text::strings(r@) =~= children(models, id@, 0));
    while i < records.len()
        invariant
            i <= records@.len(),
            models == parents::record_models(records@),
            text::strings(r@) == children(models, id@, i as int),
        decreases records.len() - i,
    {
        assert(models[i as int] == records@[i as int]@);
        if let Some(parent) = &records[i].parent {
            if text::same(parent.as_str(), id) {
                let ghost had = text::strings(r@);
                r.push(records[i].id.clone());
                assert(text::strings(r@) =~= had.push(models[i as int].id));
            }
        }
        i += 1;
    }
    r
}

/// Whether a deletion is confirmed, and asked for by a full ID.
pub open spec fn check_deletion(full_id: Seq<char>, confirmed: bool) -> Result<(), ErrorModel> {
    if !confirmed {
        Err(ErrorModel::usage("confirmation_required"@, "Task deletion requires --yes"@))
    } else if text::byte_len(full_id) != 26 {
        Err(
            ErrorModel::usage(
                "full_id_required"@,
                "Task deletion requires the full 26-character ID; prefixes are forbidden"@,
            ),
        )
    } else {
        Ok(())
    }
}

/// Fail where a deletion is not confirmed, or not asked for by a full ID.
pub fn validate_deletion(full_id: &str, confirmed: bool) -> (r: Result<(), Error>)
    ensures
        error::outcome(r) == check_deletion(full_id@, confirmed),
{
    if !confirmed {
        return Err(Error::usage("confirmation_required", "Task deletion requires --yes"));
    }
    proof {
        text::lemma_byte_len(full_id@);
    }
    let bytes = full_id.as_bytes();
    if bytes.len() != 26 {
        return Err(
            Error::usage(
                "full_id_required",
                "Task deletion requires the full 26-character ID; prefixes are forbidden",
            ),
        );
    }
    Ok(())
}

/// Delete a task: it has to be among those whose relations were read, and to have no children.
pub fn delete(
    task: Task,
    full_id: &str,
    confirmed: bool,
    relations: &Vec<ParentRecord>,
) -> (r: Result<Task, Error>)
    ensures
        r is Ok <==> confirmed && text::byte_len(full_id@) == 26 && parents::record_models(
            relations@,
        ).contains(task@.relation()) && forall|k: int|
            0 <= k < relations@.len() ==> (#[trigger] relations@[k])@.parent != Some(task@.id),
        r matches Ok(deleted) ==> deleted@ == task@,
        error::viewed(r) == ({
            let records = parents::record_models(relations@);
            let ids = children(records, task@.id, records.len() as int);
            match check_deletion(full_id@, confirmed) {
                Err(e) => Err(e),
                Ok(_) => if !records.contains(task@.relation()) {
                    Err(unselected(task@))
                } else if ids.len() > 0 {
                    Err(
                        ErrorModel::validation(
                            "task_in_use"@,
                            "Task "@ + task@.id + " has direct children: "@ + text::joined(
                                text::sorted(ids),
                                ", "@,
                            ),
                        ).with_path(task@.path).with_field("parent"@),
                    )
                } else {
                    Ok(task@)
                },
            }
        }),
{
    if let Err(e) = validate_deletion(full_id, confirmed) {
        return Err(e);
    }
    if let Err(e) = ensure_selected_relation(&task, relations) {
        return Err(e);
    }
    let ids = children_of(relations, task.id.as_str());
    assert(ids@.len() == text::strings(ids@).len());
    proof {
        let records = parents::record_models(relations@);
        task_laws::lemma_children(records, task@.id, records.len() as int);
        assert forall|k: int| 0 <= k < relations@.len() implies (#[trigger] relations@[k])@.parent
            == records[k].parent by {}
        assert forall|k: int| 0 <= k < records.len() implies (#[trigger] records[k]).parent
            == relations@[k]@.parent by {}
    }
    if ids.len() > 0 {
        return Err(
            Error::validation(
                "task_in_use",
                text::join4(
                    "Task ",
                    task.id.as_str(),
                    " has direct children: ",
                    text::join(&text::sort_strings(&ids), ", ").as_str(),
                ).as_str(),
            ).with_path(task.path.as_str()).with_field("parent"),
        );
    }
    Ok(task)
}

/// How many fresh IDs are tried for a new task.
pub const ID_ATTEMPTS: usize = 32;

/// The place of the first candidate, from the `i`-th on, that no record has.
pub open spec fn free_from(
    candidates: Seq<Seq<char>>,
    records: Seq<RecordModel>,
    i: int,
) -> Option<int>
    decreases candidates.len() - i,
{
    if i >= candidates.len() {
        None
    } else if named_before(records, text::upper(candidates[i])) {
        free_from(candidates, records, i + 1)
    } else {
        Some(i)
    }
}

fn find_free(candidates: &Vec<String>, records: &Vec<ParentRecord>) -> (r: Option<usize>)
    ensures
        (match r {
            Some(i) => Some(i as int),
            None => None,
        }) == free_from(text::strings(candidates@), parents::record_models(records@), 0),
        r matches Some(i) ==> i < candidates@.len(),
{
    let ghost all = text::strings(candidates@);
    let ghost models = parents::record_models(records@);
    let mut i: usize = 0;
    while i < candidates.len()
        invariant
            i <= candidates@.len(),
            all == text::strings(candidates@),
            models == parents::record_models(records@),
            free_from(all, models, 0) == free_from(all, models, i as int),
        decreases candidates.len() - i,
    {
        assert(all[i as int] == candidates@[i as int]@);
        if !is_named_before(records, text::upper_string(candidates[i].as_str()).as_str()) {
            return Some(i);
        }
        i += 1;
    }
    None
}

/// The error where no fresh ID is free.
pub open spec fn collision() -> ErrorModel {
    ErrorModel::new(
        ErrorKind::Concurrent,
        "task_id_collision"@,
        "Could not generate a unique task ID after repeated collisions"@,
    )
}

/// The new task, before its rules are checked.
pub open spec fn new_task(
    request: AddModel,
    parent: Option<Seq<char>>,
    id: Seq<char>,
    directory: Seq<char>,
    config: ConfigModel,
) -> TaskModel {
    TaskModel {
        id,
        path: directory + "/"@ + id + ".md"@,
        name: text::trim(request.name),
        state: match request.state {
            Some(state) => state,
            None => config.default_state,
        },
        projects: request.projects,
        tags: request.tags,
        parent,
        url: match request.url {
            Some(url) => Some(text::trim(url)),
            None => None,
        },
        due_date: request.due_date,
        due_time: request.due_time,
        recurrence: request.recurrence,
        recurrence_from: request.recurrence_from,
        last_completed_date: None,
        body: model::body(request.body),
        extra_properties: yaml::with_text(seq![], "base"@, config.base_link()),
    }
}

/// The new task with links to its attachments, and its record.
pub open spec fn add_outcome(
    task: TaskModel,
    selectors: Seq<Seq<char>>,
    records: Seq<RecordModel>,
    config: ConfigModel,
) -> Result<(TaskModel, Seq<u8>), ErrorModel> {
    if task.check(config) is Err {
        Err(task.check(config)->Err_0)
    } else if check_destination(task.relation(), records) is Err {
        Err(check_destination(task.relation(), records)->Err_0)
    } else {
        match attachments::appended(task.body, task.path, selectors) {
            Err(e) => Err(e),
            Ok(body) => {
                let linked = TaskModel { body, ..task };
                match linked.serialized(config) {
                    Err(e) => Err(e),
                    Ok(bytes) => Ok((linked, bytes)),
                }
            },
        }
    }
}

/// The parent that is asked for, in capitals.
pub open spec fn requested_parent(parent: Option<Seq<char>>) -> Result<
    Option<Seq<char>>,
    ErrorModel,
> {
    match parent {
        None => Ok(None),
        Some(parent) => match model::parent_id(parent) {
            Ok(id) => Ok(Some(id)),
            Err(e) => Err(e),
        },
    }
}

/// Whether what is asked for can be made at all; if so, the parent.
pub open spec fn check_request(
    request: AddModel,
    selectors: Seq<Seq<char>>,
    known: Seq<Seq<char>>,
    config: ConfigModel,
) -> Result<Option<Seq<char>>, ErrorModel> {
    if selectors.len() > 0 && !attachments::enabled(config) {
        Err(attachments::disabled_error())
    } else if request.parent is Some && config.schema_version == 1 {
        Err(schema_error())
    } else {
        match requested_parent(request.parent) {
            Err(e) => Err(e),
            Ok(parent) => match model::check_name(text::trim(request.name), "name"@) {
                Err(e) => Err(e),
                Ok(_) => match check_requested(request.projects, known) {
                    Err(e) => Err(e),
                    Ok(_) => Ok(parent),
                },
            },
        }
    }
}

fn validate_request(
    request: &AddTask,
    selectors: &Vec<String>,
    known: &Vec<String>,
    config: &Config,
) -> (r: Result<Option<String>, Error>)
    ensures
        frontmatter::opt_outcome(r) == check_request(
            request@,
            text::strings(selectors@),
            text::strings(known@),
            config@,
        ),
{
    assert(selectors@.len() == text::strings(selectors@).len());
    if selectors.len() > 0 {
        if let Err(e) = attachments::ensure_enabled(config) {
            return Err(e);
        }
    }
    if let Err(e) = require_parent_schema(config, request.parent.is_some()) {
        return Err(e);
    }
    let parent = match &request.parent {
        None => None,
        Some(parent) => match model::normalize_parent_id(parent.as_str()) {
            Ok(id) => Some(id),
            Err(e) => {
                return Err(e);
            },
        },
    };
    if let Err(e) = model::validate_name(trimmed(request.name.as_str()).as_str(), "name") {
        return Err(e);
    }
    if let Err(e) = ensure_requested_projects(&request.projects, known) {
        return Err(e);
    }
    Ok(parent)
}

fn make_task(
    request: &AddTask,
    parent: Option<String>,
    id: String,
    directory: &str,
    config: &Config,
) -> (r: Task)
    ensures
        r@ == new_task(request@, text::opt(parent), id@, directory@, config@),
{
    let mut extra_properties = yaml::new_mapping();
    yaml::insert_text(&mut extra_properties, "base", config.todos_base_link().as_str());
    let state = match &request.state {
        Some(state) => state.clone(),
        None => config.default_state.clone(),
    };
    let url = match &request.url {
        Some(url) => Some(trimmed(url.as_str())),
        None => None,
    };
    Task {
        path: text::join4(directory, "/", id.as_str(), ".md"),
        id,
        name: trimmed(request.name.as_str()),
        state,
        projects: text::clone_all(&request.projects),
        tags: text::clone_all(&request.tags),
        parent,
        url,
        due_date: request.due_date,
        due_time: request.due_time,
        recurrence: model::clone_rule(&request.recurrence),
        recurrence_from: request.recurrence_from,
        last_completed_date: None,
        body: model::normalize_body(request.body.as_str()),
        extra_properties,
    }
}

fn finish_task(
    had: Task,
    selectors: &Vec<String>,
    records: &Vec<ParentRecord>,
    config: &Config,
) -> (r: Result<(Task, Vec<u8>), Error>)
    ensures
        r matches Ok(done) ==> record_laws::writes_extras(done.0@.extra_properties),
        to_write(r) == add_outcome(
            had@,
            text::strings(selectors@),
            parents::record_models(records@),
            config@,
        ),
{
    let mut task = had;
    if let Err(e) = task.validate(config) {
        return Err(e);
    }
    if let Err(e) = ensure_parent_destination(&task, records) {
        return Err(e);
    }
    match attachments::append_links(
        task.body.as_str(),
        task.path.as_str(),
        selectors.as_slice(),
    ) {
        Ok(body) => {
            task.body = body;
        },
        Err(e) => {
            return Err(e);
        },
    }
    match frontmatter::serialize_task(&task, config) {
        Ok(bytes) => Ok((task, bytes)),
        Err(e) => Err(e),
    }
}

/// The result of making a task, as values: which candidate became its ID, the task, and its
/// record.
pub open spec fn added(r: Result<(usize, Task, Vec<u8>), Error>) -> Result<
    (int, TaskModel, Seq<u8>),
    ErrorModel,
> {
    match r {
        Ok((i, task, bytes)) => Ok((i as int, task@, bytes@)),
        Err(e) => Err(e@),
    }
}

/// Make a task with links to attachments that wait to be stored: which of the candidates became
/// its ID, the task, and its record. The first candidate that no task has is taken.
pub fn add_with_attachments(
    config: &Config,
    request: &AddTask,
    selectors: &Vec<String>,
    candidates: &Vec<String>,
    relations: &Vec<ParentRecord>,
    known_projects: &Vec<String>,
) -> (r: Result<(usize, Task, Vec<u8>), Error>)
    ensures
        r matches Ok(done) ==> record_laws::writes_extras(done.1@.extra_properties),
        added(r) == ({
            let records = parents::record_models(relations@);
            let links = text::strings(selectors@);
            match check_request(request@, links, text::strings(known_projects@), config@) {
                Err(e) => Err(e),
                Ok(parent) => match free_from(text::strings(candidates@), records, 0) {
                    None => Err(collision()),
                    Some(i) => match config::managed(config@.tasks_directory) {
                        Err(e) => Err(e),
                        Ok(directory) => match add_outcome(
                            new_task(
                                request@,
                                parent,
                                text::upper(text::strings(candidates@)[i]),
                                directory,
                                config@,
                            ),
                            links,
                            records,
                            config@,
                        ) {
                            Err(e) => Err(e),
                            Ok((task, bytes)) => Ok((i, task, bytes)),
                        },
                    },
                },
            }
        }),
{
    let parent = match validate_request(request, selectors, known_projects, config) {
        Ok(parent) => parent,
        Err(e) => {
            return Err(e);
        },
    };
    let i: usize = match find_free(candidates, relations) {
        Some(i) => i,
        None => {
            return Err(
                Error::new(
                    ErrorKind::Concurrent,
                    "task_id_collision",
                    "Could not generate a unique task ID after repeated collisions",
                ),
            );
        },
    };
    assert(text::strings(candidates@)[i as int] == candidates@[i as int]@);
    let directory = match config.tasks_path() {
        Ok(directory) => directory,
        Err(e) => {
            return Err(e);
        },
    };
    let id = text::upper_string(candidates[i].as_str());
    let task = make_task(request, parent, id, directory.as_str(), config);
    match finish_task(task, selectors, relations, config) {
        Ok((task, bytes)) => Ok((i, task, bytes)),
        Err(e) => Err(e),
    }
}

/// Make a task without attachments. See [`add_with_attachments`].
pub fn add(
    config: &Config,
    request: &AddTask,
    candidates: &Vec<String>,
    relations: &Vec<ParentRecord>,
    known_projects: &Vec<String>,
) -> (r: Result<(usize, Task, Vec<u8>), Error>)
    ensures
        r matches Ok(done) ==> record_laws::writes_extras(done.1@.extra_properties),
        added(r) == ({
            let records = parents::record_models(relations@);
            match check_request(request@, seq![], text::strings(known_projects@), config@) {
                Err(e) => Err(e),
                Ok(parent) => match free_from(text::strings(candidates@), records, 0) {
                    None => Err(collision()),
                    Some(i) => match config::managed(config@.tasks_directory) {
                        Err(e) => Err(e),
                        Ok(directory) => match add_outcome(
                            new_task(
                                request@,
                                parent,
                                text::upper(text::strings(candidates@)[i]),
                                directory,
                                config@,
                            ),
                            seq![],
                            records,
                            config@,
                        ) {
                            Err(e) => Err(e),
                            Ok((task, bytes)) => Ok((i, task, bytes)),
                        },
                    },
                },
            }
        }),
{
    let none: Vec<String> = Vec::new();
    assert(text::strings(none@) =~= Seq::<Seq<char>>::empty());
    add_with_attachments(config, request, &none, candidates, relations, known_projects)
}

/// Which tasks are to be listed.
#[derive(Debug)]
pub struct TaskFilter {
    pub include_terminal: bool,
    pub states: Vec<String>,
    pub projects: Vec<String>,
    pub tags: Vec<String>,
    pub due_on: Option<Date>,
    pub due_before: Option<Date>,
    pub due_after: Option<Date>,
    pub overdue: bool,
    pub undated: bool,
    pub recurring: bool,
    pub non_recurring: bool,
    pub parent: Option<String>,
    pub roots: bool,
    pub query: Option<String>,
}

/// What a filter says.
#[verifier::ext_equal]
pub struct FilterModel {
    pub include_terminal: bool,
    pub states: Seq<Seq<char>>,
    pub projects: Seq<Seq<char>>,
    pub tags: Seq<Seq<char>>,
    pub due_on: Option<Date>,
    pub due_before: Option<Date>,
    pub due_after: Option<Date>,
    pub overdue: bool,
    pub undated: bool,
    pub recurring: bool,
    pub non_recurring: bool,
    pub parent: Option<Seq<char>>,
    pub roots: bool,
    pub query: Option<Seq<char>>,
}

impl View for TaskFilter {
    type V = FilterModel;

    open spec fn view(&self) -> FilterModel {
        FilterModel {
            include_terminal: self.include_terminal,
            states: text::strings(self.states@),
            projects: text::strings(self.projects@),
            tags: text::strings(self.tags@),
            due_on: self.due_on,
            due_before: self.due_before,
            due_after: self.due_after,
            overdue: self.overdue,
            undated: self.undated,
            recurring: self.recurring,
            non_recurring: self.non_recurring,
            parent: text::opt(self.parent),
            roots: self.roots,
            query: text::opt(self.query),
        }
    }
}

impl FilterModel {
    /// All tasks that are not in a terminal state.
    pub open spec fn none() -> FilterModel {
        FilterModel {
            include_terminal: false,
            states: seq![],
            projects: seq![],
            tags: seq![],
            due_on: None,
            due_before: None,
            due_after: None,
            overdue: false,
            undated: false,
            recurring: false,
            non_recurring: false,
            parent: None,
            roots: false,
            query: None,
        }
    }
}

impl Default for TaskFilter {
    fn default() -> (r: Self)
        ensures
            r@ == FilterModel::none(),
    {
        let r = TaskFilter {
            include_terminal: false,
            states: Vec::new(),
            projects: Vec::new(),
            tags: Vec::new(),
            due_on: None,
            due_before: None,
            due_after: None,
            overdue: false,
            undated: false,
            recurring: false,
            non_recurring: false,
            parent: None,
            roots: false,
            query: None,
        };
        assert(r@ =~= FilterModel::none());
        r
    }
}

/// Whether the states from the `i`-th on are configured.
pub open spec fn check_states(states: Seq<Seq<char>>, config: ConfigModel, i: int) -> Result<
    (),
    ErrorModel,
>
    decreases states.len() - i,
{
    if i >= states.len() {
        Ok(())
    } else if config.place(states[i]) is None {
        Err(
            model::field_error(
                "unknown_state"@,
                "State "@ + text::debug_text(states[i]) + " is not configured"@,
                "state"@,
            ),
        )
    } else {
        check_states(states, config, i + 1)
    }
}

fn validate_states(states: &Vec<String>, config: &Config) -> (r: Result<(), Error>)
    ensures
        error::outcome(r) == check_states(text::strings(states@), config@, 0),
{
    let ghost all = text::strings(states@);
    let mut i: usize = 0;
    while i < states.len()
        invariant
            i <= states@.len(),
            all == text::strings(states@),
            check_states(all, config@, 0) == check_states(all, config@, i as int),
        decreases states.len() - i,
    {
        assert(all[i as int] == states@[i as int]@);
        if config.state(states[i].as_str()).is_none() {
            return Err(
                Error::validation(
                    "unknown_state",
                    text::join3(
                        "State ",
                        text::debug(states[i].as_str()).as_str(),
                        " is not configured",
                    ).as_str(),
                ).with_field("state"),
            );
        }
        i += 1;
    }
    Ok(())
}

/// Whether the tags from the `i`-th on are tags. They may repeat.
pub open spec fn check_filter_tags(tags: Seq<Seq<char>>, i: int) -> Result<(), ErrorModel>
    decreases tags.len() - i,
{
    if i >= tags.len() {
        Ok(())
    } else if !model::tag(tags[i]) {
        Err(model::tag_error(tags[i]))
    } else {
        check_filter_tags(tags, i + 1)
    }
}

fn validate_filter_tags(tags: &Vec<String>) -> (r: Result<(), Error>)
    ensures
        error::outcome(r) == check_filter_tags(text::strings(tags@), 0),
{
    let ghost all = text::strings(tags@);
    let mut i: usize = 0;
    while i < tags.len()
        invariant
            i <= tags@.len(),
            all == text::strings(tags@),
            check_filter_tags(all, 0) == check_filter_tags(all, i as int),
        decreases tags.len() - i,
    {
        assert(all[i as int] == tags@[i as int]@);
        if let Err(e) = model::validate_tag(tags[i].as_str()) {
            return Err(e);
        }
        i += 1;
    }
    Ok(())
}

fn validate_filter_projects(projects: &Vec<String>) -> (r: Result<(), Error>)
    ensures
        error::outcome(r) == model::check_slugs(text::strings(projects@), 0),
{
    let ghost all = text::strings(projects@);
    let mut i: usize = 0;
    while i < projects.len()
        invariant
            i <= projects@.len(),
            all == text::strings(projects@),
            model::check_slugs(all, 0) == model::check_slugs(all, i as int),
        decreases projects.len() - i,
    {
        assert(all[i as int] == projects@[i as int]@);
        if let Err(e) = model::validate_project_slug(projects[i].as_str()) {
            return Err(e);
        }
        i += 1;
    }
    Ok(())
}

/// The error for two filters that exclude each other.
pub open spec fn filter_conflict(message: Seq<char>) -> ErrorModel {
    ErrorModel::usage("conflicting_filters"@, message)
}

impl FilterModel {
    /// Whether the filter can be used with the configuration.
    pub open spec fn check(self, config: ConfigModel) -> Result<(), ErrorModel> {
        if self.parent is Some && self.roots {
            Err(filter_conflict("--parent conflicts with --roots"@))
        } else if (self.parent is Some || self.roots) && config.schema_version == 1 {
            Err(schema_error())
        } else if requested_parent(self.parent) is Err {
            Err(requested_parent(self.parent)->Err_0)
        } else if self.recurring && self.non_recurring {
            Err(filter_conflict("--recurring conflicts with --non-recurring"@))
        } else if check_states(self.states, config, 0) is Err {
            check_states(self.states, config, 0)
        } else if check_filter_tags(self.tags, 0) is Err {
            check_filter_tags(self.tags, 0)
        } else {
            model::check_slugs(self.projects, 0)
        }
    }
}

/// Fail where a filter cannot be used with the configuration.
pub fn validate_filter(config: &Config, filter: &TaskFilter) -> (r: Result<(), Error>)
    ensures
        error::outcome(r) == filter@.check(config@),
{
    if filter.parent.is_some() && filter.roots {
        return Err(Error::usage("conflicting_filters", "--parent conflicts with --roots"));
    }
    if let Err(e) = require_parent_schema(config, filter.parent.is_some() || filter.roots) {
        return Err(e);
    }
    if let Some(parent) = &filter.parent {
        if let Err(e) = model::normalize_parent_id(parent.as_str()) {
            return Err(e);
        }
    }
    if filter.recurring && filter.non_recurring {
        return Err(
            Error::usage(
                "conflicting_filters",
                "--recurring conflicts with --non-recurring",
            ),
        );
    }
    if let Err(e) = validate_states(&filter.states, config) {
        return Err(e);
    }
    if let Err(e) = validate_filter_tags(&filter.tags) {
        return Err(e);
    }
    validate_filter_projects(&filter.projects)
}

/// Whether every text of a list is in another.
pub open spec fn all_in(items: Seq<Seq<char>>, list: Seq<Seq<char>>) -> bool {
    forall|i: int| 0 <= i < items.len() ==> list.contains(#[trigger] items[i])
}

fn are_all_in(items: &Vec<String>, list: &Vec<String>) -> (r: bool)
    ensures
        r == all_in(text::strings(items@), text::strings(list@)),
{
    let ghost all = text::strings(items@);
    let mut i: usize = 0;
    while i < items.len()
        invariant
            i <= items@.len(),
            all == text::strings(items@),
            forall|k: int| 0 <= k < i ==> text::strings(list@).contains(#[trigger] all[k]),
        decreases items.len() - i,
    {
        assert(all[i as int] == items@[i as int]@);
        if !text::is_listed(list.as_slice(), items[i].as_str()) {
            return false;
        }
        i += 1;
    }
    true
}

impl FilterModel {
    /// Whether the task has the parent that is asked for, or none.
    pub open spec fn fits_parent(self, task: TaskModel) -> bool {
        &&& self.roots ==> task.parent is None
        &&& self.parent is Some ==> task.parent is Some && text::lower(task.parent->0)
            == text::lower(self.parent->0)
    }

    /// Whether the words that are asked for, whatever their case, are in the task's name or ID.
    pub open spec fn fits_query(self, task: TaskModel) -> bool {
        match self.query {
            None => true,
            Some(query) => {
                ||| text::within(text::lowercase_text(task.name), text::lowercase_text(query))
                ||| text::within(text::lowercase_text(task.id), text::lowercase_text(query))
            },
        }
    }

    /// Whether the task's due date is one that is asked for. A task in a terminal state is never
    /// overdue.
    pub open spec fn fits_due(self, task: TaskModel, config: ConfigModel, today: Date) -> bool {
        &&& self.due_on is Some ==> task.due_date == self.due_on
        &&& self.due_before is Some ==> task.due_date is Some && task.due_date->0.number()
            < self.due_before->0.number()
        &&& self.due_after is Some ==> task.due_date is Some && task.due_date->0.number()
            > self.due_after->0.number()
        &&& self.overdue ==> !config.terminal(task.state) && task.due_date is Some
            && task.due_date->0.number() < today.number()
        &&& self.undated ==> task.due_date is None
    }

    /// Whether the task is to be listed.
    pub open spec fn fits(self, task: TaskModel, config: ConfigModel, today: Date) -> bool {
        &&& self.fits_parent(task)
        &&& self.fits_query(task)
        &&& self.include_terminal || !config.terminal(task.state)
        &&& self.states.len() == 0 || self.states.contains(task.state)
        &&& all_in(self.projects, task.projects)
        &&& all_in(self.tags, task.tags)
        &&& self.fits_due(task, config, today)
        &&& self.recurring ==> task.recurrence is Some
        &&& self.non_recurring ==> task.recurrence is None
    }
}

fn fits_parent(task: &Task, filter: &TaskFilter) -> (r: bool)
    ensures
        r == filter@.fits_parent(task@),
{
    if filter.roots && task.parent.is_some() {
        return false;
    }
    match (&filter.parent, &task.parent) {
        (Some(wanted), Some(parent)) => {
            let a = text::to_lower(&text::chars(wanted.as_str()));
            let b = text::to_lower(&text::chars(parent.as_str()));
            text::equal(&b, &a)
        },
        (Some(_), None) => false,
        _ => true,
    }
}

fn fits_query(task: &Task, filter: &TaskFilter) -> (r: bool)
    ensures
        r == filter@.fits_query(task@),
{
    match &filter.query {
        None => true,
        Some(query) => {
            let query = text::to_lowercase(query.as_str());
            let name = text::chars(text::to_lowercase(task.name.as_str()).as_str());
            let id = text::chars(text::to_lowercase(task.id.as_str()).as_str());
            text::is_within(&name, query.as_str()) || text::is_within(&id, query.as_str())
        },
    }
}

fn fits_due(task: &Task, filter: &TaskFilter, config: &Config, today: Date) -> (r: bool)
    ensures
        r == filter@.fits_due(task@, config@, today),
{
    if let Some(date) = filter.due_on {
        match task.due_date {
            Some(due) => {
                if due != date {
                    return false;
                }
            },
            None => {
                return false;
            },
        }
    }
    if let Some(date) = filter.due_before {
        match task.due_date {
            Some(due) => {
                if !due.is_before(&date) {
                    return false;
                }
            },
            None => {
                return false;
            },
        }
    }
    if let Some(date) = filter.due_after {
        match task.due_date {
            Some(due) => {
                if !date.is_before(&due) {
                    return false;
                }
            },
            None => {
                return false;
            },
        }
    }
    if filter.overdue {
        if task.terminal(config) {
            return false;
        }
        match task.due_date {
            Some(due) => {
                if !due.is_before(&today) {
                    return false;
                }
            },
            None => {
                return false;
            },
        }
    }
    !(filter.undated && task.due_date.is_some())
}

/// Whether a task is to be listed.
pub fn matches_filter(task: &Task, filter: &TaskFilter, config: &Config, today: Date) -> (r: bool)
    ensures
        r == filter@.fits(task@, config@, today),
{
    fits_parent(task, filter) && fits_query(task, filter) && (filter.include_terminal
        || !task.terminal(config)) && (filter.states.len() == 0 || text::is_listed(
        filter.states.as_slice(),
        task.state.as_str(),
    )) && are_all_in(&filter.projects, &task.projects) && are_all_in(&filter.tags, &task.tags)
        && fits_due(task, filter, config, today) && !(filter.recurring
        && task.recurrence.is_none()) && !(filter.non_recurring && task.recurrence.is_some())
}

/// Whether one due date comes before another. Tasks without one come last.
pub open spec fn due_first(a: Option<Date>, b: Option<Date>) -> bool {
    match (a, b) {
        (Some(a), Some(b)) => a.number() < b.number(),
        (Some(_), None) => true,
        _ => false,
    }
}

/// Whether one place in the order of states comes before another.
pub open spec fn place_first(a: Option<int>, b: Option<int>) -> bool {
    match (a, b) {
        (Some(a), Some(b)) => a < b,
        (None, Some(_)) => true,
        _ => false,
    }
}

/// Whether one task is listed before another: by due date, then state, then name, then ID.
pub open spec fn keys_first(
    a: (Option<Date>, Option<int>, Seq<char>, Seq<char>),
    b: (Option<Date>, Option<int>, Seq<char>, Seq<char>),
) -> bool {
    if due_first(a.0, b.0) || due_first(b.0, a.0) {
        due_first(a.0, b.0)
    } else if place_first(a.1, b.1) || place_first(b.1, a.1) {
        place_first(a.1, b.1)
    } else if a.2 != b.2 {
        text::less(a.2, b.2)
    } else {
        text::less(a.3, b.3)
    }
}

/// By what a task is listed.
pub open spec fn list_key(task: TaskModel, config: ConfigModel) -> (
    Option<Date>,
    Option<int>,
    Seq<char>,
    Seq<char>,
) {
    (task.due_date, config.place(task.state), task.name, task.id)
}

/// Whether one task is listed before another.
pub open spec fn listed_first(a: TaskModel, b: TaskModel, config: ConfigModel) -> bool {
    keys_first(list_key(a, config), list_key(b, config))
}

/// Whether `p` lists the places of the tasks in the order in which they are listed.
pub open spec fn list_order(tasks: Seq<TaskModel>, p: Seq<int>, config: ConfigModel) -> bool {
    &&& p.len() == tasks.len()
    &&& forall|i: int| 0 <= i < p.len() ==> 0 <= #[trigger] p[i] < tasks.len()
    &&& forall|i: int, j: int|
        #![trigger p[i], p[j]]
        0 <= i < j < p.len() ==> listed_first(tasks[p[i]], tasks[p[j]], config) || (
        !listed_first(tasks[p[j]], tasks[p[i]], config) && p[i] < p[j])
}

/// Whether the tasks come out in the order in which they are listed.
pub open spec fn list_sorted(
    tasks: Seq<TaskModel>,
    sorted: Seq<TaskModel>,
    config: ConfigModel,
) -> bool {
    exists|p: Seq<int>|
        #[trigger] list_order(tasks, p, config) && sorted == order::reordered(tasks, p)
}

/// A task with what it is listed by.
struct Placed {
    task: Task,
    place: Option<usize>,
    name: Vec<char>,
    id: Vec<char>,
}

impl Placed {
    /// By what the task is listed.
    spec fn key(self) -> (Option<Date>, Option<int>, Seq<char>, Seq<char>) {
        (
            self.task.due_date,
            match self.place {
                Some(i) => Some(i as int),
                None => None,
            },
            self.name@,
            self.id@,
        )
    }
}

impl Ranked for Placed {
    closed spec fn before(a: Self, b: Self) -> bool {
        keys_first(a.key(), b.key())
    }

    proof fn one_way(a: Self, b: Self) {
        let (x, y) = (a.key(), b.key());
        assert(x.2.take(0) == y.2.take(0));
        text::lemma_less_total(x.2, y.2, 0);
        assert(x.3.take(0) == y.3.take(0));
        text::lemma_less_total(x.3, y.3, 0);
    }

    proof fn no_gap(a: Self, b: Self, c: Self) {
        let (x, y, z) = (a.key(), b.key(), c.key());
        if text::less(x.2, z.2) {
            text::lemma_less_between(x.2, y.2, z.2);
        }
        if text::less(x.3, z.3) {
            text::lemma_less_between(x.3, y.3, z.3);
        }
        assert(x.2.take(0) == y.2.take(0));
        text::lemma_less_total(x.2, y.2, 0);
        assert(y.2.take(0) == z.2.take(0));
        text::lemma_less_total(y.2, z.2, 0);
    }

    fn is_before(&self, other: &Self) -> (r: bool) {
        match (self.task.due_date, other.task.due_date) {
            (Some(a), Some(b)) => {
                if a.is_before(&b) {
                    return true;
                }
                if b.is_before(&a) {
                    return false;
                }
            },
            (Some(_), None) => {
                return true;
            },
            (None, Some(_)) => {
                return false;
            },
            (None, None) => {},
        }
        match (self.place, other.place) {
            (Some(a), Some(b)) => {
                if a < b {
                    return true;
                }
                if b < a {
                    return false;
                }
            },
            (None, Some(_)) => {
                return true;
            },
            (Some(_), None) => {
                return false;
            },
            (None, None) => {},
        }
        if text::equal(&self.name, &other.name) {
            text::is_less(&self.id, &other.id)
        } else {
            text::is_less(&self.name, &other.name)
        }
    }
}

/// The tasks in the order in which they are listed.
pub fn sort_tasks(tasks: Vec<Task>, config: &Config) -> (r: Vec<Task>)
    ensures
        list_sorted(task_models(tasks@), task_models(r@), config@),
{
    let ghost given = task_models(tasks@);
    let mut placed: Vec<Placed> = Vec::new();
    for task in iter: tasks
        invariant
            iter.seq() == tasks@,
            placed@.len() == iter.index(),
            forall|k: int|
                0 <= k < placed@.len() ==> (#[trigger] placed@[k]).task == tasks@[k]
                    && placed@[k].key() == list_key(tasks@[k]@, config@),
    {
        let place = config.state_order(task.state.as_str());
        let name = text::chars(task.name.as_str());
        let id = text::chars(task.id.as_str());
        placed.push(Placed { task, place, name, id });
    }
    let ghost listed = placed@;
    let sorted = order::sort(placed);
    let ghost p = choose|p: Seq<int>| #[trigger]
        order::in_order(listed, p) && sorted@ == order::reordered(listed, p);
    let mut r: Vec<Task> = Vec::new();
    for item in iter: sorted
        invariant
            iter.seq() == sorted@,
            r@.len() == iter.index(),
            forall|k: int| 0 <= k < r@.len() ==> #[trigger] r@[k] == sorted@[k].task,
    {
        r.push(item.task);
    }
    proof {
        assert forall|i: int, j: int|
            #![trigger p[i], p[j]]
            0 <= i < j < p.len() implies listed_first(given[p[i]], given[p[j]], config@) || (
        !listed_first(given[p[j]], given[p[i]], config@) && p[i] < p[j]) by {
            assert(order::precedes(listed, p[i], p[j]));
            assert(listed[p[i]].key() == list_key(given[p[i]], config@));
            assert(listed[p[j]].key() == list_key(given[p[j]], config@));
        }
        assert(list_order(given, p, config@));
        assert(task_models(r@) =~= order::reordered(given, p)) by {
            assert forall|k: int| 0 <= k < p.len() implies task_models(r@)[k] == given[p[k]] by {
                assert(listed[p[k]].task == tasks@[p[k]]);
            }
        }
    }
    r
}

/// The tasks among the first `n` that are to be listed.
pub open spec fn chosen(
    tasks: Seq<TaskModel>,
    n: int,
    filter: FilterModel,
    config: ConfigModel,
    today: Date,
) -> Seq<TaskModel>
    decreases n,
{
    if n <= 0 {
        seq![]
    } else if filter.fits(tasks[n - 1], config, today) {
        chosen(tasks, n - 1, filter, config, today).push(tasks[n - 1])
    } else {
        chosen(tasks, n - 1, filter, config, today)
    }
}

/// Whether the projects that the tasks from the `i`-th on name exist.
pub open spec fn check_all_references(tasks: Seq<TaskModel>, known: Seq<Seq<char>>, i: int) -> Result<
    (),
    ErrorModel,
>
    decreases tasks.len() - i,
{
    if i >= tasks.len() {
        Ok(())
    } else {
        match check_references(tasks[i], known, 0) {
            Err(e) => Err(e),
            Ok(_) => check_all_references(tasks, known, i + 1),
        }
    }
}

pub(crate) fn validate_all_references(tasks: &Vec<Task>, known: &Vec<String>) -> (r: Result<(), Error>)
    ensures
        error::outcome(r) == check_all_references(
            task_models(tasks@),
            text::strings(known@),
            0,
        ),
{
    let ghost models = task_models(tasks@);
    let mut i: usize = 0;
    while i < tasks.len()
        invariant
            i <= tasks@.len(),
            models == task_models(tasks@),
            check_all_references(models, text::strings(known@), 0) == check_all_references(
                models,
                text::strings(known@),
                i as int,
            ),
        decreases tasks.len() - i,
    {
        assert(models[i as int] == tasks@[i as int]@);
        if let Err(e) = validate_task_references(&tasks[i], known) {
            return Err(e);
        }
        i += 1;
    }
    Ok(())
}

/// The error where no task has the identity that is asked for.
pub open spec fn no_match(prefix: Seq<char>) -> ErrorModel {
    ErrorModel::not_found("task_not_found"@, "No task matches ID prefix "@ + prefix)
}

/// Whether tasks can be listed: the filter can be used, its projects and those of all tasks
/// exist, nothing is wrong with the graph of parents, and the parent that is asked for exists.
pub open spec fn check_list(
    tasks: Seq<TaskModel>,
    filter: FilterModel,
    known: Seq<Seq<char>>,
    config: ConfigModel,
) -> Result<(), ErrorModel> {
    if filter.check(config) is Err {
        filter.check(config)
    } else if check_known(filter.projects, known, 0) is Err {
        check_known(filter.projects, known, 0)
    } else if check_all_references(tasks, known, 0) is Err {
        check_all_references(tasks, known, 0)
    } else if parents::check_relations(relations(tasks)) is Err {
        parents::check_relations(relations(tasks))
    } else {
        match filter.parent {
            Some(parent) => if named_before(relations(tasks), text::upper(parent)) {
                Ok(())
            } else {
                Err(no_match(text::upper(parent)))
            },
            None => Ok(()),
        }
    }
}

/// List the tasks that the filter asks for, by due date, then state, then name, then ID. The
/// graph of all tasks is checked first, so that no filter hides its faults.
pub fn list(
    config: &Config,
    tasks: Vec<Task>,
    filter: &TaskFilter,
    known_projects: &Vec<String>,
    today: Date,
) -> (r: Result<Vec<Task>, Error>)
    ensures
        match check_list(
            task_models(tasks@),
            filter@,
            text::strings(known_projects@),
            config@,
        ) {
            Err(error) => r matches Err(e) && e@ == error,
            Ok(_) => r matches Ok(listed) && list_sorted(
                chosen(task_models(tasks@), tasks@.len() as int, filter@, config@, today),
                task_models(listed@),
                config@,
            ),
        },
{
    if let Err(e) = validate_filter(config, filter) {
        return Err(e);
    }
    if let Err(e) = ensure_known_projects(&filter.projects, known_projects) {
        return Err(e);
    }
    if let Err(e) = validate_all_references(&tasks, known_projects) {
        return Err(e);
    }
    let records = relations_of(&tasks);
    if let Err(e) = parents::ensure_valid_relations(&records) {
        return Err(e);
    }
    if let Some(parent) = &filter.parent {
        let id = text::upper_string(parent.as_str());
        if !is_named_before(&records, id.as_str()) {
            return Err(
                Error::not_found(
                    "task_not_found",
                    text::join2("No task matches ID prefix ", id.as_str()).as_str(),
                ),
            );
        }
    }
    let ghost models = task_models(tasks@);
    let mut found: Vec<Task> = Vec::new();
    assert(task_models(found@) =~= chosen(models, 0, filter@, config@, today));
    for task in iter: tasks
        invariant
            iter.seq() == tasks@,
            models == task_models(tasks@),
            task_models(found@) == chosen(
                models,
                iter.index() as int,
                filter@,
                config@,
                today,
            ),
    {
        assert(models[iter.index() as int] == task@);
        if matches_filter(&task, filter, config, today) {
            let ghost had = task_models(found@);
            found.push(task);
            assert(task_models(found@) =~= had.push(task@));
        }
    }
    Ok(sort_tasks(found, config))
}

/// A task as it is shown.
#[derive(Debug)]
pub struct TaskView {
    pub id: String,
    pub path: String,
    pub name: String,
    pub state: String,
    pub terminal: bool,
    pub projects: Vec<String>,
    pub tags: Vec<String>,
    pub parent: Option<String>,
    pub url: Option<String>,
    pub due_date: Option<String>,
    pub due_time: Option<String>,
    pub recurrence: Option<String>,
    pub recurrence_from: Option<String>,
    pub last_completed_date: Option<String>,
    pub body: String,
    pub extra_properties: serde_json::Value,
}

impl TaskView {
    /// Whether this is what is shown of a task.
    pub open spec fn shows(self, task: TaskModel, config: ConfigModel) -> bool {
        let parts = crate::paths::parts(task.path);
        &&& self.id@ == task.id
        &&& self.path@ == model::parts_text(parts, parts.len() as int)
        &&& self.name@ == task.name
        &&& self.state@ == task.state
        &&& self.terminal == config.terminal(task.state)
        &&& text::strings(self.projects@) == text::sorted(task.projects)
        &&& text::strings(self.tags@) == text::sorted(task.tags)
        &&& text::opt(self.parent) == task.parent
        &&& text::opt(self.url) == task.url
        &&& text::opt(self.due_date) == frontmatter::date_opt(task.due_date)
        &&& text::opt(self.due_time) == frontmatter::time_opt(task.due_time)
        &&& text::opt(self.recurrence) == frontmatter::rule_opt(task.recurrence)
        &&& text::opt(self.recurrence_from) == frontmatter::mode_opt(task.recurrence_from)
        &&& text::opt(self.last_completed_date) == frontmatter::date_opt(
            task.last_completed_date,
        )
        &&& self.body@ == task.body
        &&& yaml::json_object(task.extra_properties) == Ok::<Seq<char>, Seq<char>>(
            yaml::json_text(self.extra_properties),
        )
    }

    /// What is shown of a task; an error where its properties have no JSON form.
    pub fn from_task(task: &Task, config: &Config) -> (r: Result<Self, Error>)
        ensures
            match r {
                Ok(view) => view.shows(task@, config@),
                Err(e) => yaml::json_object(task@.extra_properties) is Err && e@
                    == ErrorModel::validation(
                    "extra_property_json_failed"@,
                    "Could not represent task properties as JSON: "@ + yaml::json_object(
                        task@.extra_properties,
                    )->Err_0,
                ).with_path(task@.path),
            },
    {
        let extra_properties = match yaml::to_json(&task.extra_properties) {
            Ok(value) => value,
            Err(message) => {
                return Err(
                    Error::validation(
                        "extra_property_json_failed",
                        text::join2(
                            "Could not represent task properties as JSON: ",
                            message.as_str(),
                        ).as_str(),
                    ).with_path(task.path.as_str()),
                );
            },
        };
        let due_time = match task.due_time {
            Some(time) => Some(time.to_string()),
            None => None,
        };
        let recurrence = match &task.recurrence {
            Some(rule) => Some(rule.to_string()),
            None => None,
        };
        let recurrence_from = match task.recurrence_from {
            Some(mode) => Some(mode.as_str().to_owned()),
            None => None,
        };
        Ok(
            TaskView {
                id: task.id.clone(),
                path: model::relative_path_string(task.path.as_str()),
                name: task.name.clone(),
                state: task.state.clone(),
                terminal: task.terminal(config),
                projects: text::sort_strings(&task.projects),
                tags: text::sort_strings(&task.tags),
                parent: text::clone_opt(&task.parent),
                url: text::clone_opt(&task.url),
                due_date: frontmatter::write_date(task.due_date),
                due_time,
                recurrence,
                recurrence_from,
                last_completed_date: frontmatter::write_date(task.last_completed_date),
                body: task.body.clone(),
                extra_properties,
            },
        )
    }
}

/// An edit keeps what it does not speak of: the ID, the path and the unknown properties always,
/// and each other field unless it is changed or cleared.
pub proof fn edits_keep_the_rest(
    task: TaskModel,
    changes: EditModel,
    known: Seq<Seq<char>>,
    edited: TaskModel,
)
    requires
        task.edited(changes, known) == Ok::<TaskModel, ErrorModel>(edited),
    ensures
        edited.id == task.id,
        edited.path == task.path,
        edited.extra_properties == task.extra_properties,
        changes.name is None ==> edited.name == task.name,
        changes.state is None ==> edited.state == task.state,
        changes.body is None ==> edited.body == task.body,
        changes.parent is None && !changes.clear_parent ==> edited.parent == task.parent,
        changes.url is None && !changes.clear_url ==> edited.url == task.url,
        changes.add_projects.len() == 0 && changes.remove_projects.len() == 0 ==> edited.projects
            == task.projects,
        changes.add_tags.len() == 0 && changes.remove_tags.len() == 0 ==> edited.tags == task.tags,
        changes.due_date is None && !changes.clear_due_date ==> edited.due_date == task.due_date,
        changes.due_time is None && !changes.clear_due_time && !changes.clear_due_date
            ==> edited.due_time == task.due_time,
        changes.recurrence is None && !changes.clear_recurrence ==> edited.recurrence
            == task.recurrence,
        changes.recurrence_from is None && !changes.clear_recurrence ==> edited.recurrence_from
            == task.recurrence_from,
        !changes.clear_recurrence ==> edited.last_completed_date == task.last_completed_date,
        changes.clear_due_date && changes.due_time is None ==> edited.due_date is None
            && edited.due_time is None,
{
}

/// Completing a task keeps all but its state, and of a recurring task the due date and the date
/// of the last completion. A recurring task keeps its time and its rule, is open again, and is
/// due on a later day, which the rule selects.
pub proof fn completing_moves_only_the_schedule(
    task: TaskModel,
    completed_on: Date,
    config: ConfigModel,
    done: TaskModel,
)
    requires
        task.completed(completed_on, config) == Ok::<TaskModel, ErrorModel>(done),
    ensures
        done == (TaskModel {
            state: done.state,
            due_date: done.due_date,
            last_completed_date: done.last_completed_date,
            ..task
        }),
        task.recurrence is None ==> done == (TaskModel { state: "done"@, ..task }),
        task.recurrence is Some ==> {
            &&& done.state == config.default_state
            &&& done.last_completed_date == Some(completed_on)
            &&& done.due_date is Some
            &&& completed_on.number() < done.due_date->0.number()
            &&& task.recurrence->0.matches(done.due_date->0)
        },
{
    if let Some(rule) = task.recurrence {
        let due = task.due_date->0;
        let mode = task.recurrence_from->0;
        let anchor = recurrence::anchor_of(due, completed_on, mode);
        let threshold = recurrence::threshold_of(due, completed_on, mode);
        let next = done.due_date->0;
        assert(rule.next(anchor, threshold, next));
        recurrence::next_is_later_and_matches(rule, due, completed_on, mode, next);
    }
}

/// Reopening a task that was cancelled, or done and not recurring, gives it back as it was, in
/// the default state.
pub proof fn reopening_gives_the_task_back(task: TaskModel, config: ConfigModel, state: Seq<char>)
    ensures
        moved(TaskModel { state, ..task }, config.default_state, config) == moved(
            task,
            config.default_state,
            config,
        ),
{
    assert((TaskModel { state: config.default_state, ..(TaskModel { state, ..task }) })
        =~= (TaskModel { state: config.default_state, ..task }));
}

} // verus!
