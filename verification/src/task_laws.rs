//! What holds of tasks through their life: which are kept, what completing, moving, making and
//! deleting them does, and when it is refused.
use vstd::prelude::*;

use crate::attachments;
use crate::calendar::Date;
use crate::commands::task::{self, AddModel, EditModel};
use crate::config::ConfigModel;
use crate::edit_laws;
use crate::error::ErrorModel;
use crate::list_laws;
use crate::model::{self, TaskModel};
use crate::parents::RecordModel;
use crate::recurrence::RecurrenceMode;
use crate::schedule_laws;
use crate::text;
use crate::url;

verus! {

/// Whether the configuration has the state, as a terminal one.
pub open spec fn ends_in(config: ConfigModel, state: Seq<char>) -> bool {
    exists|k: int|
        0 <= k < config.states.len() && (#[trigger] config.states[k]).id == state
            && config.states[k].terminal && forall|j: int|
            0 <= j < k ==> (#[trigger] config.states[j]).id != state
}

/// Whether the configuration has the state.
pub open spec fn has_state(config: ConfigModel, state: Seq<char>) -> bool {
    exists|k: int| 0 <= k < config.states.len() && (#[trigger] config.states[k]).id == state
}

pub(crate) proof fn lemma_state(config: ConfigModel, state: Seq<char>)
    ensures
        config.terminal(state) <==> ends_in(config, state),
        config.place(state) is Some <==> has_state(config, state),
{
    list_laws::lemma_place(config, state, 0);
    if let Some(k) = config.place(state) {
        assert(config.states[k].id == state);
        if ends_in(config, state) {
            let e = choose|e: int|
                0 <= e < config.states.len() && (#[trigger] config.states[e]).id == state
                    && config.states[e].terminal && forall|j: int|
                    0 <= j < e ==> (#[trigger] config.states[j]).id != state;
            if k < e {
                assert(config.states[k].id != state);
            } else if e < k {
                assert(config.states[e].id != state);
            }
        }
    }
}

/// Whether every project of the task is among those that exist.
pub open spec fn projects_exist(task: TaskModel, known: Seq<Seq<char>>) -> bool {
    forall|i: int| 0 <= i < task.projects.len() ==> known.contains(#[trigger] task.projects[i])
}

proof fn lemma_references(task: TaskModel, known: Seq<Seq<char>>, i: int)
    requires
        0 <= i <= task.projects.len(),
    ensures
        task::check_references(task, known, i) is Ok <==> forall|k: int|
            i <= k < task.projects.len() ==> known.contains(#[trigger] task.projects[k]),
    decreases task.projects.len() - i,
{
    if i < task.projects.len() && known.contains(task.projects[i]) {
        lemma_references(task, known, i + 1);
    }
}

/// A task can be moved on where it is among the tasks that were read, its projects exist, and its
/// state is not a terminal one, unless it is to be opened again.
pub proof fn tasks_move_on_while_they_are_open(
    task: TaskModel,
    records: Seq<RecordModel>,
    known: Seq<Seq<char>>,
    config: ConfigModel,
    reopening: bool,
)
    ensures
        task::check_movable(task, records, known, config, reopening) is Ok <==> {
            &&& records.contains(task.relation())
            &&& reopening || !ends_in(config, task.state)
            &&& projects_exist(task, known)
        },
{
    lemma_state(config, task.state);
    lemma_references(task, known, 0);
}

/// What stands for a task in the graph of parents is its ID, its path and its parent.
pub proof fn relations_are_those_of_the_task(task: TaskModel, tasks: Seq<TaskModel>, i: int)
    requires
        0 <= i < tasks.len(),
    ensures
        task.relation() == (RecordModel { id: task.id, path: task.path, parent: task.parent }),
        task::relations(tasks).len() == tasks.len(),
        task::relations(tasks)[i] == tasks[i].relation(),
{
}

/// Completing gives a task that keeps all rules, and the record of it. A task that does not recur is
/// done, and otherwise as it was. One that recurs is due next by its rule, open again, and was last
/// completed on the day; that day may not come before the last such day. A task in a terminal state
/// is not completed.
pub proof fn completing_does_what_it_says(
    task: TaskModel,
    completed_on: Date,
    records: Seq<RecordModel>,
    known: Seq<Seq<char>>,
    config: ConfigModel,
    done: TaskModel,
    bytes: Seq<u8>,
)
    requires
        task::complete_outcome(task, completed_on, records, known, config) == Ok::<
            (TaskModel, Seq<u8>),
            ErrorModel,
        >((done, bytes)),
    ensures
        records.contains(task.relation()),
        !ends_in(config, task.state),
        projects_exist(task, known),
        ends_in(config, "done"@),
        done.check(config) is Ok,
        done.serialized(config) == Ok::<Seq<u8>, ErrorModel>(bytes),
        task.recurrence is None ==> done == (TaskModel { state: "done"@, ..task }),
        task.recurrence matches Some(rule) ==> {
            &&& task.due_date is Some && task.recurrence_from is Some
            &&& done == (TaskModel {
                state: config.default_state,
                due_date: done.due_date,
                last_completed_date: Some(completed_on),
                ..task
            })
            &&& task.last_completed_date matches Some(last) ==> last.number()
                <= completed_on.number()
            &&& done.due_date matches Some(due) && rule.next_outcome(
                crate::recurrence::anchor_of(
                    task.due_date->0,
                    completed_on,
                    task.recurrence_from->0,
                ),
                crate::recurrence::threshold_of(
                    task.due_date->0,
                    completed_on,
                    task.recurrence_from->0,
                ),
            ) == Ok::<Date, ErrorModel>(due)
        },
{
    tasks_move_on_while_they_are_open(task, records, known, config, false);
    lemma_state(config, "done"@);
}

/// A task that can be moved on is completed wherever what it becomes can be written: where it does
/// not recur, done; where it does, on a day not before the last, due next by its rule.
pub proof fn tasks_that_can_be_completed_are(
    task: TaskModel,
    completed_on: Date,
    records: Seq<RecordModel>,
    known: Seq<Seq<char>>,
    config: ConfigModel,
    next: Date,
)
    requires
        records.contains(task.relation()),
        !ends_in(config, task.state),
        projects_exist(task, known),
        ends_in(config, "done"@),
        task.recurrence matches Some(rule) ==> {
            &&& task.due_date is Some && task.recurrence_from is Some
            &&& task.last_completed_date matches Some(last) ==> last.number()
                <= completed_on.number()
            &&& rule.next_outcome(
                crate::recurrence::anchor_of(
                    task.due_date->0,
                    completed_on,
                    task.recurrence_from->0,
                ),
                crate::recurrence::threshold_of(
                    task.due_date->0,
                    completed_on,
                    task.recurrence_from->0,
                ),
            ) == Ok::<Date, ErrorModel>(next)
        },
    ensures
        task.recurrence is None ==> task::complete_outcome(
            task,
            completed_on,
            records,
            known,
            config,
        ) == (TaskModel { state: "done"@, ..task }).written(config),
        task.recurrence is Some ==> task::complete_outcome(
            task,
            completed_on,
            records,
            known,
            config,
        ) == (TaskModel {
            state: config.default_state,
            due_date: Some(next),
            last_completed_date: Some(completed_on),
            ..task
        }).written(config),
{
    tasks_move_on_while_they_are_open(task, records, known, config, false);
    lemma_state(config, "done"@);
}

/// A daily task that is completed early, late or on time by its schedule is next due on a later day
/// of the series that its due date is in; one that counts from completion, its interval after that.
pub proof fn completed_daily_tasks_come_back(
    task: TaskModel,
    completed_on: Date,
    records: Seq<RecordModel>,
    known: Seq<Seq<char>>,
    config: ConfigModel,
    done: TaskModel,
    bytes: Seq<u8>,
)
    requires
        task.recurrence matches Some(rule) && rule.well_formed() && rule.frequency
            == crate::recurrence::Frequency::Daily,
        task.due_date matches Some(due) && due.valid(),
        completed_on.valid(),
        task::complete_outcome(task, completed_on, records, known, config) == Ok::<
            (TaskModel, Seq<u8>),
            ErrorModel,
        >((done, bytes)),
    ensures
        task.recurrence_from == Some(RecurrenceMode::Completion) ==> done.due_date->0.number()
            == completed_on.number() + task.recurrence->0.interval,
        task.recurrence_from == Some(RecurrenceMode::Schedule) ==> (done.due_date->0.number()
            - task.due_date->0.number()) % task.recurrence->0.interval == 0
            && done.due_date->0.number() > completed_on.number() && done.due_date->0.number()
            > task.due_date->0.number(),
{
    completing_does_what_it_says(task, completed_on, records, known, config, done, bytes);
    schedule_laws::daily_rules_count_days(
        task.recurrence->0,
        task.due_date->0,
        completed_on,
        task.recurrence_from->0,
        done.due_date->0,
    );
}

/// Moving a task to a state changes nothing else, and gives its record, where it keeps all rules.
pub proof fn moving_changes_the_state_alone(
    task: TaskModel,
    state: Seq<char>,
    config: ConfigModel,
    done: TaskModel,
    bytes: Seq<u8>,
)
    requires
        task::moved(task, state, config) == Ok::<(TaskModel, Seq<u8>), ErrorModel>((done, bytes)),
    ensures
        done == (TaskModel { state, ..task }),
        done.check(config) is Ok,
        has_state(config, state),
        done.serialized(config) == Ok::<Seq<u8>, ErrorModel>(bytes),
{
    lemma_state(config, state);
}

/// What the rules for tasks ask of a task: a valid ID, name, link, parent and tags, all tags and all
/// projects different, a state of the configuration, a time only with a date, and a rule only with a
/// mode and a due date that it selects.
pub open spec fn keeps_rules(task: TaskModel, config: ConfigModel) -> bool {
    &&& model::task_id(task.id)
    &&& task.parent matches Some(parent) ==> config.schema_version == 2 && model::task_id(parent)
    &&& task.url matches Some(link) ==> url::web_url(link)
    &&& !text::blank(task.name) && !task.name.contains('\n') && !task.name.contains('\r')
    &&& has_state(config, task.state)
    &&& task.projects.no_duplicates()
    &&& forall|i: int| 0 <= i < task.projects.len() ==> model::slug(#[trigger] task.projects[i])
    &&& task.tags.no_duplicates()
    &&& forall|i: int| 0 <= i < task.tags.len() ==> model::tag(#[trigger] task.tags[i])
    &&& task.due_date matches Some(date) ==> 0 <= date.y() <= 9999
    &&& task.last_completed_date matches Some(date) ==> 0 <= date.y() <= 9999
    &&& task.due_time matches Some(time) ==> task.due_date is Some && time.s() == 0 && time.nanos()
        == 0
    &&& task.recurrence is Some <==> task.recurrence_from is Some
    &&& task.recurrence matches Some(rule) ==> (task.due_date matches Some(due) && rule.matches(due))
    &&& task.last_completed_date is Some ==> task.recurrence is Some
}

/// A task is accepted where it keeps the rules, and only there.
pub proof fn tasks_are_accepted_that_keep_the_rules(task: TaskModel, config: ConfigModel)
    ensures
        task.check(config) is Ok <==> keeps_rules(task, config),
{
    lemma_state(config, task.state);
    lemma_unique(task.projects, 0);
    lemma_slugs(task.projects, 0);
    lemma_tags(task.tags, 0);
    lemma_first_duplicates(task.projects);
    lemma_first_duplicates(task.tags);
}

/// Texts are all different where none comes earlier in the list.
proof fn lemma_first_duplicates(values: Seq<Seq<char>>)
    ensures
        values.no_duplicates() <==> forall|k: int|
            0 <= k < values.len() ==> !values.take(k).contains(#[trigger] values[k]),
{
    if values.no_duplicates() {
        assert forall|k: int| 0 <= k < values.len() implies !values.take(k).contains(
            #[trigger] values[k],
        ) by {
            if values.take(k).contains(values[k]) {
                let i = values.take(k).index_of(values[k]);
                assert(values[i] == values[k]);
            }
        }
    }
    if forall|k: int| 0 <= k < values.len() ==> !values.take(k).contains(#[trigger] values[k]) {
        assert forall|i: int, j: int| 0 <= i < j < values.len() implies values[i] != values[j] by {
            assert(!values.take(j).contains(values[j]));
            assert(values.take(j)[i] == values[i]);
        }
    }
}

proof fn lemma_unique(values: Seq<Seq<char>>, i: int)
    requires
        0 <= i <= values.len(),
    ensures
        model::check_unique(values, i) is Ok <==> forall|k: int|
            i <= k < values.len() ==> !values.take(k).contains(#[trigger] values[k]),
    decreases values.len() - i,
{
    if i < values.len() && !values.take(i).contains(values[i]) {
        lemma_unique(values, i + 1);
    }
}

proof fn lemma_slugs(values: Seq<Seq<char>>, i: int)
    requires
        0 <= i <= values.len(),
    ensures
        model::check_slugs(values, i) is Ok <==> forall|k: int|
            i <= k < values.len() ==> model::slug(#[trigger] values[k]),
    decreases values.len() - i,
{
    if i < values.len() && model::slug(values[i]) {
        lemma_slugs(values, i + 1);
    }
}

proof fn lemma_tags(values: Seq<Seq<char>>, i: int)
    requires
        0 <= i <= values.len(),
    ensures
        model::check_tags(values, i) is Ok <==> forall|k: int|
            i <= k < values.len() ==> model::tag(#[trigger] values[k]) && !values.take(k).contains(
                values[k],
            ),
    decreases values.len() - i,
{
    if i < values.len() && model::tag(values[i]) && !values.take(i).contains(values[i]) {
        lemma_tags(values, i + 1);
    }
}

/// Editing gives a task that keeps all rules and its record; the changes go together, and the task is
/// among those that were read.
pub proof fn editing_gives_a_task_that_keeps_the_rules(
    task: TaskModel,
    changes: EditModel,
    records: Seq<RecordModel>,
    known: Seq<Seq<char>>,
    config: ConfigModel,
    done: TaskModel,
    bytes: Seq<u8>,
)
    requires
        task::edit_outcome(task, changes, records, known, config) == Ok::<
            (TaskModel, Seq<u8>),
            ErrorModel,
        >((done, bytes)),
    ensures
        task.edited(changes, known) == Ok::<TaskModel, ErrorModel>(done),
        changes.check() is Ok,
        keeps_rules(done, config),
        done.serialized(config) == Ok::<Seq<u8>, ErrorModel>(bytes),
        records.contains(task.relation()),
        projects_exist(done, known),
        changes.parent is Some || changes.clear_parent ==> config.schema_version != 1,
        changes.parent is Some ==> task::check_destination(done.relation(), records) is Ok,
{
    tasks_are_accepted_that_keep_the_rules(done, config);
    edit_laws::lemma_known(done.projects, known, 0);
}

/// Where the parent of a task is set, it is that of some task, and not the task itself.
pub proof fn parents_exist(head: RecordModel, records: Seq<RecordModel>)
    requires
        task::check_destination(head, records) is Ok,
        head.parent is Some,
        text::upper(head.parent->0) == head.parent->0,
        text::upper(head.id) == head.id,
    ensures
        head.parent->0 != head.id,
        exists|i: int| 0 <= i < records.len() && (#[trigger] records[i]).id == head.parent->0,
{
    let parent = head.parent->0;
    lemma_last_record(records, parent, records.len() as int);
    let line = task::lineage(records, Some(parent), seq![head], records.len());
    lemma_lineage_grows(records, Some(parent), seq![head], records.len());
    if parent == head.id {
        lemma_stopped(records, parent, head);
        let own = seq![head];
        assert(line == own);
        assert(crate::parents::identity(own, 0) == head.id);
        assert(crate::parents::exists_identity(own, parent));
        assert(!crate::parents::ambiguous(own, 0));
        assert(crate::parents::fault(own, 0) is Some);
    }
}

proof fn lemma_stopped(records: Seq<RecordModel>, parent: Seq<char>, head: RecordModel)
    requires
        parent == head.id,
    ensures
        task::lineage(records, Some(parent), seq![head], records.len()) == seq![head],
{
    assert(seq![head][0].id == parent);
    assert(task::named_before(seq![head], parent));
}

/// The lineage begins with what was found before.
proof fn lemma_lineage_grows(
    records: Seq<RecordModel>,
    current: Option<Seq<char>>,
    found: Seq<RecordModel>,
    left: nat,
)
    ensures
        ({
            let all = task::lineage(records, current, found, left);
            &&& all.len() >= found.len()
            &&& forall|i: int| 0 <= i < found.len() ==> #[trigger] all[i] == found[i]
        }),
    decreases left,
{
    if let Some(id) = current {
        if left > 0 && !task::named_before(found, id) {
            if let Some(i) = task::last_record(records, id, records.len() as int) {
                lemma_lineage_grows(
                    records,
                    records[i].parent,
                    found.push(records[i]),
                    (left - 1) as nat,
                );
                let all = task::lineage(records, current, found, left);
                let more = found.push(records[i]);
                assert forall|k: int| 0 <= k < found.len() implies #[trigger] all[k] == found[k] by {
                    assert(all[k] == more[k]);
                }
            }
        }
    }
}

proof fn lemma_last_record(records: Seq<RecordModel>, id: Seq<char>, n: int)
    requires
        0 <= n <= records.len(),
    ensures
        match task::last_record(records, id, n) {
            Some(i) => 0 <= i < n && records[i].id == id,
            None => forall|i: int| 0 <= i < n ==> (#[trigger] records[i]).id != id,
        },
    decreases n,
{
    if n > 0 && records[n - 1].id != id {
        lemma_last_record(records, id, n - 1);
    }
}

/// A new task is what was asked for: the name and the link without whitespace around them, the
/// state asked for or else the default one, and all else as it was given; it has no day of
/// completion, and its record lies in the directory of tasks under its ID.
pub proof fn new_tasks_are_what_was_asked_for(
    request: AddModel,
    parent: Option<Seq<char>>,
    id: Seq<char>,
    directory: Seq<char>,
    config: ConfigModel,
)
    ensures
        ({
            let task = task::new_task(request, parent, id, directory, config);
            &&& task.id == id
            &&& task.path == directory + "/"@ + id + ".md"@
            &&& task.name == text::trim(request.name)
            &&& request.state matches Some(state) ==> task.state == state
            &&& request.state is None ==> task.state == config.default_state
            &&& task.projects == request.projects
            &&& task.tags == request.tags
            &&& task.parent == parent
            &&& request.url matches Some(link) ==> task.url == Some(text::trim(link))
            &&& request.url is None ==> task.url is None
            &&& task.due_date == request.due_date
            &&& task.due_time == request.due_time
            &&& task.recurrence == request.recurrence
            &&& task.recurrence_from == request.recurrence_from
            &&& task.last_completed_date is None
            &&& task.body == model::body(request.body)
        }),
{
}

/// Making a task gives one that keeps the rules, whose projects exist and are different, whose parent
/// is a full ID in capitals, and whose ID no other task has: the first of the candidates that is
/// free. With attachments, all that changes is that their links are appended to the body.
pub proof fn making_gives_a_task_that_keeps_the_rules(
    request: AddModel,
    selectors: Seq<Seq<char>>,
    known: Seq<Seq<char>>,
    candidates: Seq<Seq<char>>,
    records: Seq<RecordModel>,
    config: ConfigModel,
    parent: Option<Seq<char>>,
    i: int,
    directory: Seq<char>,
    done: TaskModel,
    bytes: Seq<u8>,
)
    requires
        task::check_request(request, selectors, known, config) == Ok::<
            Option<Seq<char>>,
            ErrorModel,
        >(parent),
        task::free_from(candidates, records, 0) == Some(i),
        task::add_outcome(
            task::new_task(request, parent, text::upper(candidates[i]), directory, config),
            selectors,
            records,
            config,
        ) == Ok::<(TaskModel, Seq<u8>), ErrorModel>((done, bytes)),
    ensures
        ({
            let task = task::new_task(
                request,
                parent,
                text::upper(candidates[i]),
                directory,
                config,
            );
            &&& keeps_rules(task, config)
            &&& done == (TaskModel { body: done.body, ..task })
            &&& attachments::appended(task.body, task.path, selectors) == Ok::<
                Seq<char>,
                ErrorModel,
            >(done.body)
            &&& selectors.len() == 0 ==> done.body == task.body
            &&& task::check_destination(task.relation(), records) is Ok
        }),
        done.serialized(config) == Ok::<Seq<u8>, ErrorModel>(bytes),
        projects_exist(done, known),
        request.projects.no_duplicates(),
        request.parent matches Some(asked) ==> parent == Some(text::upper(asked)) && model::task_id(
            asked,
        ) && config.schema_version != 1,
        request.parent is None ==> parent is None,
        selectors.len() > 0 ==> attachments::enabled(config),
        0 <= i < candidates.len(),
        forall|k: int| 0 <= k < records.len() ==> (#[trigger] records[k]).id != done.id,
        forall|j: int|
            0 <= j < i ==> exists|k: int|
                0 <= k < records.len() && (#[trigger] records[k]).id == text::upper(
                    #[trigger] candidates[j],
                ),
{
    let task = task::new_task(request, parent, text::upper(candidates[i]), directory, config);
    tasks_are_accepted_that_keep_the_rules(task, config);
    lemma_unique(request.projects, 0);
    lemma_first_duplicates(request.projects);
    edit_laws::lemma_known(request.projects, known, 0);
    lemma_free(candidates, records, 0);
    assert(done.projects == request.projects);
}

proof fn lemma_free(candidates: Seq<Seq<char>>, records: Seq<RecordModel>, i: int)
    requires
        0 <= i <= candidates.len(),
    ensures
        task::free_from(candidates, records, i) matches Some(k) ==> {
            &&& i <= k < candidates.len()
            &&& !task::named_before(records, text::upper(candidates[k]))
            &&& forall|j: int|
                i <= j < k ==> task::named_before(records, text::upper(#[trigger] candidates[j]))
        },
        task::free_from(candidates, records, i) is None ==> forall|j: int|
            i <= j < candidates.len() ==> task::named_before(
                records,
                text::upper(#[trigger] candidates[j]),
            ),
    decreases candidates.len() - i,
{
    if i < candidates.len() && task::named_before(records, text::upper(candidates[i])) {
        lemma_free(candidates, records, i + 1);
    }
}

/// Tasks are listed only where all filters are ones that can be asked for: no parent beside roots, no
/// recurring beside non-recurring, states of the configuration, tags, and projects that exist; and
/// where the projects of every task exist, whatever is asked for.
pub proof fn listing_asks_for_what_there_is(
    tasks: Seq<TaskModel>,
    filter: task::FilterModel,
    known: Seq<Seq<char>>,
    config: ConfigModel,
    i: int,
)
    requires
        task::check_list(tasks, filter, known, config) is Ok,
        0 <= i,
    ensures
        !(filter.parent is Some && filter.roots),
        filter.parent is Some || filter.roots ==> config.schema_version != 1,
        !(filter.recurring && filter.non_recurring),
        i < filter.states.len() ==> has_state(config, filter.states[i]),
        i < filter.tags.len() ==> model::tag(filter.tags[i]),
        i < filter.projects.len() ==> known.contains(filter.projects[i]),
        i < tasks.len() ==> projects_exist(tasks[i], known),
        crate::parents::check_relations(task::relations(tasks)) is Ok,
        filter.parent matches Some(parent) ==> exists|k: int|
            0 <= k < tasks.len() && (#[trigger] tasks[k]).id == text::upper(parent),
{
    lemma_states(filter.states, config, 0);
    lemma_filter_tags(filter.tags, 0);
    edit_laws::lemma_known(filter.projects, known, 0);
    lemma_all_references(tasks, known, 0);
    if i < filter.states.len() {
        lemma_state(config, filter.states[i]);
    }
    if let Some(parent) = filter.parent {
        let all = task::relations(tasks);
        let k = choose|k: int| 0 <= k < all.len() && (#[trigger] all[k]).id == text::upper(parent);
        assert(tasks[k].id == all[k].id);
    }
}

proof fn lemma_states(states: Seq<Seq<char>>, config: ConfigModel, i: int)
    requires
        0 <= i <= states.len(),
        task::check_states(states, config, i) is Ok,
    ensures
        forall|k: int| i <= k < states.len() ==> config.place(#[trigger] states[k]) is Some,
    decreases states.len() - i,
{
    if i < states.len() {
        lemma_states(states, config, i + 1);
    }
}

proof fn lemma_filter_tags(tags: Seq<Seq<char>>, i: int)
    requires
        0 <= i <= tags.len(),
        task::check_filter_tags(tags, i) is Ok,
    ensures
        forall|k: int| i <= k < tags.len() ==> model::tag(#[trigger] tags[k]),
    decreases tags.len() - i,
{
    if i < tags.len() {
        lemma_filter_tags(tags, i + 1);
    }
}

proof fn lemma_all_references(tasks: Seq<TaskModel>, known: Seq<Seq<char>>, i: int)
    requires
        0 <= i <= tasks.len(),
    ensures
        task::check_all_references(tasks, known, i) is Ok <==> forall|k: int|
            i <= k < tasks.len() ==> projects_exist(#[trigger] tasks[k], known),
    decreases tasks.len() - i,
{
    if i < tasks.len() {
        lemma_references(tasks[i], known, 0);
        lemma_all_references(tasks, known, i + 1);
    }
}

/// The children of a task are the tasks whose parent it is.
pub proof fn children_are_those_that_name_the_parent(records: Seq<RecordModel>, id: Seq<char>)
    ensures
        task::children(records, id, records.len() as int).len() == 0 <==> forall|k: int|
            0 <= k < records.len() ==> (#[trigger] records[k]).parent != Some(id),
        forall|child: Seq<char>| #[trigger]
            task::children(records, id, records.len() as int).contains(child) <==> exists|k: int|
                0 <= k < records.len() && (#[trigger] records[k]).parent == Some(id)
                    && records[k].id == child,
{
    lemma_children(records, id, records.len() as int);
}

pub(crate) proof fn lemma_children(records: Seq<RecordModel>, id: Seq<char>, n: int)
    requires
        0 <= n <= records.len(),
    ensures
        task::children(records, id, n).len() == 0 <==> forall|k: int|
            0 <= k < n ==> (#[trigger] records[k]).parent != Some(id),
        forall|child: Seq<char>| #[trigger]
            task::children(records, id, n).contains(child) <==> exists|k: int|
                0 <= k < n && (#[trigger] records[k]).parent == Some(id) && records[k].id == child,
    decreases n,
{
    if n > 0 {
        lemma_children(records, id, n - 1);
        let before = task::children(records, id, n - 1);
        let all = task::children(records, id, n);
        let last = records[n - 1];
        if last.parent == Some(id) {
            assert forall|child: Seq<char>| #[trigger] all.contains(child) <==> exists|k: int|
                0 <= k < n && (#[trigger] records[k]).parent == Some(id) && records[k].id == child by {
                if before.contains(child) {
                    assert(all[before.index_of(child)] == child);
                }
                assert(all[before.len() as int] == last.id);
                if all.contains(child) && child != last.id {
                    assert(before[all.index_of(child)] == child);
                }
            }
        }
    }
}

} // verus!
