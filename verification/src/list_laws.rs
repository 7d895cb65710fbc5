//! What listing tasks gives: which of them, by each thing that can be asked for, and in what order.
use vstd::prelude::*;

use crate::calendar::{self, Date};
use crate::commands::task::{self, FilterModel};
use crate::config::ConfigModel;
use crate::model::TaskModel;
use crate::order;
use crate::text;

verus! {

/// Whether the tasks are what a filter lists.
pub open spec fn lists(
    tasks: Seq<TaskModel>,
    filter: FilterModel,
    config: ConfigModel,
    today: Date,
    listed: Seq<TaskModel>,
) -> bool {
    task::list_sorted(
        task::chosen(tasks, tasks.len() as int, filter, config, today),
        listed,
        config,
    )
}

/// Whether one date comes before another, by year, then month, then day.
pub open spec fn earlier(a: Date, b: Date) -> bool {
    calendar::ymd_less((a.y(), a.m(), a.d()), (b.y(), b.m(), b.d()))
}

/// No two places of an order are the same.
proof fn lemma_places_differ(tasks: Seq<TaskModel>, p: Seq<int>, config: ConfigModel)
    requires
        task::list_order(tasks, p, config),
    ensures
        p.no_duplicates(),
{
    assert forall|i: int, j: int| 0 <= i < p.len() && 0 <= j < p.len() && i != j implies p[i]
        != p[j] by {
        let (a, b) = if i < j {
            (i, j)
        } else {
            (j, i)
        };
        let t = tasks[p[a]];
        assert(task::listed_first(t, tasks[p[b]], config) || p[a] < p[b]);
        assert(!task::listed_first(t, t, config)) by {
            text::lemma_less_total(t.id, t.id, 0);
        }
    }
}

/// A list of different places, as many as there are, has every place.
proof fn lemma_every_place(p: Seq<int>, n: int, k: int)
    requires
        p.no_duplicates(),
        p.len() == n,
        forall|i: int| 0 <= i < p.len() ==> 0 <= #[trigger] p[i] < n,
        0 <= k < n,
    ensures
        p.contains(k),
{
    let places = vstd::set_lib::set_int_range(0, n);
    vstd::set_lib::lemma_int_range(0, n);
    p.unique_seq_to_set();
    let found = p.to_set();
    assert(found.subset_of(places)) by {
        assert forall|x: int| found.contains(x) implies places.contains(x) by {
            let i = choose|i: int| 0 <= i < p.len() && p[i] == x;
            assert(0 <= p[i] < n);
        }
    }
    vstd::set_lib::lemma_subset_equality(found, places);
    assert(found.contains(k));
}

/// What is sorted has the same tasks as before.
proof fn lemma_sorted_contains(
    tasks: Seq<TaskModel>,
    sorted: Seq<TaskModel>,
    config: ConfigModel,
    task: TaskModel,
)
    requires
        task::list_sorted(tasks, sorted, config),
    ensures
        sorted.contains(task) <==> tasks.contains(task),
        sorted.len() == tasks.len(),
{
    let p = choose|p: Seq<int>| #[trigger]
        task::list_order(tasks, p, config) && sorted == order::reordered(tasks, p);
    lemma_places_differ(tasks, p, config);
    if sorted.contains(task) {
        let i = sorted.index_of(task);
        assert(sorted[i] == tasks[p[i]]);
        assert(0 <= p[i] < tasks.len());
    }
    if tasks.contains(task) {
        let k = tasks.index_of(task);
        lemma_every_place(p, tasks.len() as int, k);
        let i = p.index_of(k);
        assert(sorted[i] == tasks[p[i]]);
    }
}

/// What is chosen among the first tasks are those that fit.
proof fn lemma_chosen(
    tasks: Seq<TaskModel>,
    n: int,
    filter: FilterModel,
    config: ConfigModel,
    today: Date,
    task: TaskModel,
)
    requires
        0 <= n <= tasks.len(),
    ensures
        task::chosen(tasks, n, filter, config, today).contains(task) <==> tasks.take(n).contains(
            task,
        ) && filter.fits(task, config, today),
    decreases n,
{
    let all = task::chosen(tasks, n, filter, config, today);
    if n > 0 {
        lemma_chosen(tasks, n - 1, filter, config, today, task);
        let before = task::chosen(tasks, n - 1, filter, config, today);
        let last = tasks[n - 1];
        assert(tasks.take(n) =~= tasks.take(n - 1).push(last));
        assert(tasks.take(n).contains(task) <==> tasks.take(n - 1).contains(task) || task == last)
            by {
            if tasks.take(n).contains(task) {
                let i = tasks.take(n).index_of(task);
                if i < n - 1 {
                    assert(tasks.take(n - 1)[i] == task);
                }
            }
            if tasks.take(n - 1).contains(task) {
                let i = tasks.take(n - 1).index_of(task);
                assert(tasks.take(n)[i] == task);
            }
            assert(tasks.take(n)[n - 1] == last);
        }
        if filter.fits(last, config, today) {
            assert(all == before.push(last));
            if all.contains(task) {
                let i = all.index_of(task);
                if i < before.len() {
                    assert(before[i] == task);
                }
            }
            if before.contains(task) {
                let i = before.index_of(task);
                assert(all[i] == task);
            }
            assert(all[before.len() as int] == last);
        }
    }
}

/// What is listed are the tasks that fit.
proof fn lemma_listed(
    tasks: Seq<TaskModel>,
    filter: FilterModel,
    config: ConfigModel,
    today: Date,
    listed: Seq<TaskModel>,
    task: TaskModel,
)
    requires
        lists(tasks, filter, config, today, listed),
    ensures
        listed.contains(task) <==> tasks.contains(task) && filter.fits(task, config, today),
{
    let n = tasks.len() as int;
    lemma_chosen(tasks, n, filter, config, today, task);
    lemma_sorted_contains(
        task::chosen(tasks, n, filter, config, today),
        listed,
        config,
        task,
    );
    assert(tasks.take(n) =~= tasks);
}

/// A filter that asks for nothing, terminal states included, lists every task, and nothing else.
/// One that asks for nothing lists the tasks whose state is no terminal one of the configuration.
pub proof fn a_filter_that_asks_for_nothing_lists_all(
    tasks: Seq<TaskModel>,
    config: ConfigModel,
    today: Date,
    all: Seq<TaskModel>,
    open: Seq<TaskModel>,
    task: TaskModel,
)
    requires
        lists(
            tasks,
            (FilterModel { include_terminal: true, ..FilterModel::none() }),
            config,
            today,
            all,
        ),
        lists(tasks, FilterModel::none(), config, today, open),
        forall|i: int, j: int|
            0 <= i < j < config.states.len() ==> (#[trigger] config.states[i]).id != (
            #[trigger] config.states[j]).id,
    ensures
        all.contains(task) <==> tasks.contains(task),
        all.len() == tasks.len(),
        open.contains(task) <==> tasks.contains(task) && !exists|k: int|
            0 <= k < config.states.len() && (#[trigger] config.states[k]).id == task.state
                && config.states[k].terminal,
{
    let whole = FilterModel { include_terminal: true, ..FilterModel::none() };
    lemma_listed(tasks, whole, config, today, all, task);
    lemma_listed(tasks, FilterModel::none(), config, today, open, task);
    lemma_all_chosen(tasks, tasks.len() as int, whole, config, today);
    lemma_sorted_contains(
        task::chosen(tasks, tasks.len() as int, whole, config, today),
        all,
        config,
        task,
    );
    lemma_terminal(config, task.state);
}

proof fn lemma_all_chosen(
    tasks: Seq<TaskModel>,
    n: int,
    filter: FilterModel,
    config: ConfigModel,
    today: Date,
)
    requires
        0 <= n <= tasks.len(),
        filter == (FilterModel { include_terminal: true, ..FilterModel::none() }),
    ensures
        task::chosen(tasks, n, filter, config, today).len() == n,
    decreases n,
{
    if n > 0 {
        lemma_all_chosen(tasks, n - 1, filter, config, today);
        assert(filter.fits(tasks[n - 1], config, today));
    }
}

/// A state is terminal where the configuration has it as a terminal one.
proof fn lemma_terminal(config: ConfigModel, state: Seq<char>)
    requires
        forall|i: int, j: int|
            0 <= i < j < config.states.len() ==> (#[trigger] config.states[i]).id != (
            #[trigger] config.states[j]).id,
    ensures
        config.terminal(state) <==> exists|k: int|
            0 <= k < config.states.len() && (#[trigger] config.states[k]).id == state
                && config.states[k].terminal,
{
    lemma_place(config, state, 0);
    match config.place(state) {
        Some(i) => {
            assert(config.states[i].id == state);
            if exists|k: int|
                0 <= k < config.states.len() && (#[trigger] config.states[k]).id == state
                    && config.states[k].terminal {
                let k = choose|k: int|
                    0 <= k < config.states.len() && (#[trigger] config.states[k]).id == state
                        && config.states[k].terminal;
                if i < k {
                    assert(config.states[i].id != config.states[k].id);
                } else if k < i {
                    assert(config.states[k].id != config.states[i].id);
                }
            }
        },
        None => {},
    }
}

/// The place of a state is the first place at which its ID stands.
pub(crate) proof fn lemma_place(config: ConfigModel, state: Seq<char>, i: int)
    requires
        0 <= i,
    ensures
        match config.place_from(state, i) {
            Some(k) => i <= k < config.states.len() && config.states[k].id == state && forall|j: int|
                i <= j < k ==> (#[trigger] config.states[j]).id != state,
            None => forall|j: int|
                i <= j < config.states.len() ==> (#[trigger] config.states[j]).id != state,
        },
    decreases config.states.len() - i,
{
    if i < config.states.len() && config.states[i].id != state {
        lemma_place(config, state, i + 1);
    }
}

/// Whether a listing with one more thing asked for gives, of what is listed without it, the tasks
/// that have it, and no others.
pub open spec fn narrows(
    wide: Seq<TaskModel>,
    narrow: Seq<TaskModel>,
    has: spec_fn(TaskModel) -> bool,
) -> bool {
    forall|task: TaskModel| #[trigger]
        narrow.contains(task) <==> wide.contains(task) && has(task)
}

/// Whether the due dates of the tasks are days of the calendar.
pub open spec fn dated(tasks: Seq<TaskModel>) -> bool {
    forall|i: int|
        0 <= i < tasks.len() ==> ((#[trigger] tasks[i]).due_date matches Some(due) ==> due.valid())
}

/// Asking for tasks that are due before a day gives, of those listed otherwise, the ones with a due
/// date that comes earlier in the calendar.
pub proof fn due_before_lists_what_is_due_earlier(
    tasks: Seq<TaskModel>,
    filter: FilterModel,
    config: ConfigModel,
    today: Date,
    day: Date,
    wide: Seq<TaskModel>,
    narrow: Seq<TaskModel>,
)
    requires
        filter.due_before is None,
        dated(tasks),
        day.valid(),
        lists(tasks, filter, config, today, wide),
        lists(tasks, (FilterModel { due_before: Some(day), ..filter }), config, today, narrow),
    ensures
        narrows(wide, narrow, |task: TaskModel| task.due_date matches Some(due) && earlier(due, day)),
{
    let asked = FilterModel { due_before: Some(day), ..filter };
    assert forall|task: TaskModel| #[trigger]
        narrow.contains(task) <==> wide.contains(task) && (|task: TaskModel| task.due_date matches Some(due) && earlier(due, day))(task) by {
        lemma_listed(tasks, filter, config, today, wide, task);
        lemma_listed(tasks, asked, config, today, narrow, task);
        if tasks.contains(task) && task.due_date is Some {
            let i = tasks.index_of(task);
            assert(tasks[i].due_date == task.due_date);
            calendar::lemma_date_order(task.due_date->0, day);
            calendar::lemma_date_order(day, task.due_date->0);
        }
    }
}

/// Asking for tasks that are due after a day gives, of those listed otherwise, the ones with a due
/// date that the day comes earlier than.
pub proof fn due_after_lists_what_is_due_later(
    tasks: Seq<TaskModel>,
    filter: FilterModel,
    config: ConfigModel,
    today: Date,
    day: Date,
    wide: Seq<TaskModel>,
    narrow: Seq<TaskModel>,
)
    requires
        filter.due_after is None,
        dated(tasks),
        day.valid(),
        lists(tasks, filter, config, today, wide),
        lists(tasks, (FilterModel { due_after: Some(day), ..filter }), config, today, narrow),
    ensures
        narrows(wide, narrow, |task: TaskModel| task.due_date matches Some(due) && earlier(day, due)),
{
    let asked = FilterModel { due_after: Some(day), ..filter };
    assert forall|task: TaskModel| #[trigger]
        narrow.contains(task) <==> wide.contains(task) && (|task: TaskModel| task.due_date matches Some(due) && earlier(day, due))(task) by {
        lemma_listed(tasks, filter, config, today, wide, task);
        lemma_listed(tasks, asked, config, today, narrow, task);
        if tasks.contains(task) && task.due_date is Some {
            let i = tasks.index_of(task);
            assert(tasks[i].due_date == task.due_date);
            calendar::lemma_date_order(task.due_date->0, day);
            calendar::lemma_date_order(day, task.due_date->0);
        }
    }
}

/// Asking for tasks that are due on a day gives, of those listed otherwise, the ones with that due
/// date.
pub proof fn due_on_lists_what_is_due_that_day(
    tasks: Seq<TaskModel>,
    filter: FilterModel,
    config: ConfigModel,
    today: Date,
    day: Date,
    wide: Seq<TaskModel>,
    narrow: Seq<TaskModel>,
)
    requires
        filter.due_on is None,
        lists(tasks, filter, config, today, wide),
        lists(tasks, (FilterModel { due_on: Some(day), ..filter }), config, today, narrow),
    ensures
        narrows(wide, narrow, |task: TaskModel| task.due_date == Some(day)),
{
    let asked = FilterModel { due_on: Some(day), ..filter };
    assert forall|task: TaskModel| #[trigger]
        narrow.contains(task) <==> wide.contains(task) && (|task: TaskModel| task.due_date == Some(day))(task) by {
        lemma_listed(tasks, filter, config, today, wide, task);
        lemma_listed(tasks, asked, config, today, narrow, task);
    }
}

/// Asking for overdue tasks gives, of those listed otherwise, the ones with a due date earlier than
/// today whose state is not terminal.
pub proof fn overdue_lists_what_was_due_before_today(
    tasks: Seq<TaskModel>,
    filter: FilterModel,
    config: ConfigModel,
    today: Date,
    wide: Seq<TaskModel>,
    narrow: Seq<TaskModel>,
)
    requires
        !filter.overdue,
        dated(tasks),
        today.valid(),
        forall|i: int, j: int|
            0 <= i < j < config.states.len() ==> (#[trigger] config.states[i]).id != (
            #[trigger] config.states[j]).id,
        lists(tasks, filter, config, today, wide),
        lists(tasks, (FilterModel { overdue: true, ..filter }), config, today, narrow),
    ensures
        narrows(wide, narrow, |task: TaskModel| (task.due_date matches Some(due) && earlier(due, today)) && !exists|k: int|
                0 <= k < config.states.len() && (#[trigger] config.states[k]).id == task.state
                    && config.states[k].terminal),
{
    let asked = FilterModel { overdue: true, ..filter };
    assert forall|task: TaskModel| #[trigger]
        narrow.contains(task) <==> wide.contains(task) && (|task: TaskModel| (task.due_date matches Some(due) && earlier(due, today)) && !exists|k: int|
                0 <= k < config.states.len() && (#[trigger] config.states[k]).id == task.state
                    && config.states[k].terminal)(task) by {
        lemma_listed(tasks, filter, config, today, wide, task);
        lemma_listed(tasks, asked, config, today, narrow, task);
        if tasks.contains(task) && task.due_date is Some {
            let i = tasks.index_of(task);
            assert(tasks[i].due_date == task.due_date);
            calendar::lemma_date_order(task.due_date->0, today);
            calendar::lemma_date_order(today, task.due_date->0);
        }
        lemma_terminal(config, task.state);
    }
}

/// Asking for undated tasks gives, of those listed otherwise, the ones without a due date.
pub proof fn undated_lists_what_has_no_due_date(
    tasks: Seq<TaskModel>,
    filter: FilterModel,
    config: ConfigModel,
    today: Date,
    wide: Seq<TaskModel>,
    narrow: Seq<TaskModel>,
)
    requires
        !filter.undated,
        lists(tasks, filter, config, today, wide),
        lists(tasks, (FilterModel { undated: true, ..filter }), config, today, narrow),
    ensures
        narrows(wide, narrow, |task: TaskModel| task.due_date is None),
{
    let asked = FilterModel { undated: true, ..filter };
    assert forall|task: TaskModel| #[trigger]
        narrow.contains(task) <==> wide.contains(task) && (|task: TaskModel| task.due_date is None)(task) by {
        lemma_listed(tasks, filter, config, today, wide, task);
        lemma_listed(tasks, asked, config, today, narrow, task);
    }
}

/// Asking for recurring tasks gives, of those listed otherwise, the ones with a rule.
pub proof fn recurring_lists_what_recurs(
    tasks: Seq<TaskModel>,
    filter: FilterModel,
    config: ConfigModel,
    today: Date,
    wide: Seq<TaskModel>,
    narrow: Seq<TaskModel>,
)
    requires
        !filter.recurring,
        lists(tasks, filter, config, today, wide),
        lists(tasks, (FilterModel { recurring: true, ..filter }), config, today, narrow),
    ensures
        narrows(wide, narrow, |task: TaskModel| task.recurrence is Some),
{
    let asked = FilterModel { recurring: true, ..filter };
    assert forall|task: TaskModel| #[trigger]
        narrow.contains(task) <==> wide.contains(task) && (|task: TaskModel| task.recurrence is Some)(task) by {
        lemma_listed(tasks, filter, config, today, wide, task);
        lemma_listed(tasks, asked, config, today, narrow, task);
    }
}

/// Asking for tasks that do not recur gives, of those listed otherwise, the ones without a rule.
pub proof fn non_recurring_lists_what_does_not_recur(
    tasks: Seq<TaskModel>,
    filter: FilterModel,
    config: ConfigModel,
    today: Date,
    wide: Seq<TaskModel>,
    narrow: Seq<TaskModel>,
)
    requires
        !filter.non_recurring,
        lists(tasks, filter, config, today, wide),
        lists(tasks, (FilterModel { non_recurring: true, ..filter }), config, today, narrow),
    ensures
        narrows(wide, narrow, |task: TaskModel| task.recurrence is None),
{
    let asked = FilterModel { non_recurring: true, ..filter };
    assert forall|task: TaskModel| #[trigger]
        narrow.contains(task) <==> wide.contains(task) && (|task: TaskModel| task.recurrence is None)(task) by {
        lemma_listed(tasks, filter, config, today, wide, task);
        lemma_listed(tasks, asked, config, today, narrow, task);
    }
}

/// Asking for states gives, of those listed otherwise, the tasks in one of them.
pub proof fn states_list_what_is_in_one_of_them(
    tasks: Seq<TaskModel>,
    filter: FilterModel,
    config: ConfigModel,
    today: Date,
    states: Seq<Seq<char>>,
    wide: Seq<TaskModel>,
    narrow: Seq<TaskModel>,
)
    requires
        filter.states.len() == 0,
        states.len() > 0,
        lists(tasks, filter, config, today, wide),
        lists(tasks, (FilterModel { states, ..filter }), config, today, narrow),
    ensures
        narrows(wide, narrow, |task: TaskModel| states.contains(task.state)),
{
    let asked = FilterModel { states, ..filter };
    assert forall|task: TaskModel| #[trigger]
        narrow.contains(task) <==> wide.contains(task) && (|task: TaskModel| states.contains(task.state))(task) by {
        lemma_listed(tasks, filter, config, today, wide, task);
        lemma_listed(tasks, asked, config, today, narrow, task);
    }
}

/// Asking for one more project gives, of those listed otherwise, the tasks that are in it.
pub proof fn one_more_project_lists_what_is_in_it_too(
    tasks: Seq<TaskModel>,
    filter: FilterModel,
    config: ConfigModel,
    today: Date,
    project: Seq<char>,
    wide: Seq<TaskModel>,
    narrow: Seq<TaskModel>,
)
    requires
        lists(tasks, filter, config, today, wide),
        lists(tasks, (FilterModel { projects: filter.projects.push(project), ..filter }), config, today, narrow),
    ensures
        narrows(wide, narrow, |task: TaskModel| task.projects.contains(project)),
{
    let asked = FilterModel { projects: filter.projects.push(project), ..filter };
    assert forall|task: TaskModel| #[trigger]
        narrow.contains(task) <==> wide.contains(task) && (|task: TaskModel| task.projects.contains(project))(task) by {
        lemma_listed(tasks, filter, config, today, wide, task);
        lemma_listed(tasks, asked, config, today, narrow, task);
        lemma_all_in_push(filter.projects, project, task.projects);
    }
}

/// Asking for one more tag gives, of those listed otherwise, the tasks that have it.
pub proof fn one_more_tag_lists_what_has_it_too(
    tasks: Seq<TaskModel>,
    filter: FilterModel,
    config: ConfigModel,
    today: Date,
    tag: Seq<char>,
    wide: Seq<TaskModel>,
    narrow: Seq<TaskModel>,
)
    requires
        lists(tasks, filter, config, today, wide),
        lists(tasks, (FilterModel { tags: filter.tags.push(tag), ..filter }), config, today, narrow),
    ensures
        narrows(wide, narrow, |task: TaskModel| task.tags.contains(tag)),
{
    let asked = FilterModel { tags: filter.tags.push(tag), ..filter };
    assert forall|task: TaskModel| #[trigger]
        narrow.contains(task) <==> wide.contains(task) && (|task: TaskModel| task.tags.contains(tag))(task) by {
        lemma_listed(tasks, filter, config, today, wide, task);
        lemma_listed(tasks, asked, config, today, narrow, task);
        lemma_all_in_push(filter.tags, tag, task.tags);
    }
}

/// Asking for a parent gives, of those listed otherwise, the tasks whose parent it is, whatever the
/// case of the letters.
pub proof fn a_parent_lists_its_children(
    tasks: Seq<TaskModel>,
    filter: FilterModel,
    config: ConfigModel,
    today: Date,
    parent: Seq<char>,
    wide: Seq<TaskModel>,
    narrow: Seq<TaskModel>,
)
    requires
        filter.parent is None,
        lists(tasks, filter, config, today, wide),
        lists(tasks, (FilterModel { parent: Some(parent), ..filter }), config, today, narrow),
    ensures
        narrows(wide, narrow, |task: TaskModel| task.parent matches Some(own) && text::upper(own) == text::upper(parent)),
{
    let asked = FilterModel { parent: Some(parent), ..filter };
    assert forall|task: TaskModel| #[trigger]
        narrow.contains(task) <==> wide.contains(task) && (|task: TaskModel| task.parent matches Some(own) && text::upper(own) == text::upper(parent))(task) by {
        lemma_listed(tasks, filter, config, today, wide, task);
        lemma_listed(tasks, asked, config, today, narrow, task);
        if let Some(own) = task.parent {
            lemma_case(own, parent);
        }
    }
}

/// Asking for roots gives, of those listed otherwise, the tasks without a parent.
pub proof fn roots_lists_what_has_no_parent(
    tasks: Seq<TaskModel>,
    filter: FilterModel,
    config: ConfigModel,
    today: Date,
    wide: Seq<TaskModel>,
    narrow: Seq<TaskModel>,
)
    requires
        !filter.roots,
        lists(tasks, filter, config, today, wide),
        lists(tasks, (FilterModel { roots: true, ..filter }), config, today, narrow),
    ensures
        narrows(wide, narrow, |task: TaskModel| task.parent is None),
{
    let asked = FilterModel { roots: true, ..filter };
    assert forall|task: TaskModel| #[trigger]
        narrow.contains(task) <==> wide.contains(task) && (|task: TaskModel| task.parent is None)(task) by {
        lemma_listed(tasks, filter, config, today, wide, task);
        lemma_listed(tasks, asked, config, today, narrow, task);
    }
}

/// Asking for words gives, of those listed otherwise, the tasks with them somewhere in the name or
/// the ID, all in small letters.
pub proof fn a_query_lists_what_holds_its_words(
    tasks: Seq<TaskModel>,
    filter: FilterModel,
    config: ConfigModel,
    today: Date,
    query: Seq<char>,
    wide: Seq<TaskModel>,
    narrow: Seq<TaskModel>,
)
    requires
        filter.query is None,
        lists(tasks, filter, config, today, wide),
        lists(tasks, (FilterModel { query: Some(query), ..filter }), config, today, narrow),
    ensures
        narrows(wide, narrow, |task: TaskModel| part_of(text::lowercase_text(query), text::lowercase_text(task.name)) || part_of(
                text::lowercase_text(query),
                text::lowercase_text(task.id),
            )),
{
    let asked = FilterModel { query: Some(query), ..filter };
    assert forall|task: TaskModel| #[trigger]
        narrow.contains(task) <==> wide.contains(task) && (|task: TaskModel| part_of(text::lowercase_text(query), text::lowercase_text(task.name)) || part_of(
                text::lowercase_text(query),
                text::lowercase_text(task.id),
            ))(task) by {
        lemma_listed(tasks, filter, config, today, wide, task);
        lemma_listed(tasks, asked, config, today, narrow, task);
        lemma_part(text::lowercase_text(task.name), text::lowercase_text(query));
        lemma_part(text::lowercase_text(task.id), text::lowercase_text(query));
    }
}

/// Without terminal states, what is listed is what is listed with them, but for the tasks in one.
pub proof fn terminal_tasks_are_listed_where_they_are_included(
    tasks: Seq<TaskModel>,
    filter: FilterModel,
    config: ConfigModel,
    today: Date,
    wide: Seq<TaskModel>,
    narrow: Seq<TaskModel>,
)
    requires
        filter.include_terminal,
        forall|i: int, j: int|
            0 <= i < j < config.states.len() ==> (#[trigger] config.states[i]).id != (
            #[trigger] config.states[j]).id,
        lists(tasks, filter, config, today, wide),
        lists(tasks, (FilterModel { include_terminal: false, ..filter }), config, today, narrow),
    ensures
        narrows(wide, narrow, |task: TaskModel| !exists|k: int|
                0 <= k < config.states.len() && (#[trigger] config.states[k]).id == task.state
                    && config.states[k].terminal),
{
    let asked = FilterModel { include_terminal: false, ..filter };
    assert forall|task: TaskModel| #[trigger]
        narrow.contains(task) <==> wide.contains(task) && (|task: TaskModel| !exists|k: int|
                0 <= k < config.states.len() && (#[trigger] config.states[k]).id == task.state
                    && config.states[k].terminal)(task) by {
        lemma_listed(tasks, filter, config, today, wide, task);
        lemma_listed(tasks, asked, config, today, narrow, task);
        lemma_terminal(config, task.state);
    }
}

/// Whether one text stands somewhere in another.
pub open spec fn part_of(part: Seq<char>, whole: Seq<char>) -> bool {
    exists|before: Seq<char>, after: Seq<char>| #[trigger]
        (before + part + after) == whole
}

/// A text is within another where something before and something after it make the other.
pub(crate) proof fn lemma_part(whole: Seq<char>, part: Seq<char>)
    ensures
        text::within(whole, part) <==> part_of(part, whole),
{
    if text::within(whole, part) {
        let at = choose|at: int| #[trigger] text::stands_at(whole, part, at);
        let before = whole.subrange(0, at);
        let after = whole.subrange(at + part.len(), whole.len() as int);
        assert(before + part + after =~= whole);
    }
    if part_of(part, whole) {
        let (before, after) = choose|before: Seq<char>, after: Seq<char>| #[trigger]
            (before + part + after) == whole;
        assert(whole.subrange(before.len() as int, (before.len() + part.len()) as int) =~= part);
        assert(text::stands_at(whole, part, before.len() as int));
    }
}

/// Texts are the same in small letters where they are in capitals.
proof fn lemma_case(a: Seq<char>, b: Seq<char>)
    ensures
        text::lower(a) == text::lower(b) <==> text::upper(a) == text::upper(b),
{
    if text::lower(a) == text::lower(b) {
        assert(a.len() == text::lower(a).len() == b.len());
        assert forall|i: int| 0 <= i < a.len() implies text::upper(a)[i] == text::upper(b)[i] by {
            assert(text::lower(a)[i] == text::lower(b)[i]);
        }
        assert(text::upper(a) =~= text::upper(b));
    }
    if text::upper(a) == text::upper(b) {
        assert(a.len() == text::upper(a).len() == b.len());
        assert forall|i: int| 0 <= i < a.len() implies text::lower(a)[i] == text::lower(b)[i] by {
            assert(text::upper(a)[i] == text::upper(b)[i]);
        }
        assert(text::lower(a) =~= text::lower(b));
    }
}

proof fn lemma_all_in_push(items: Seq<Seq<char>>, item: Seq<char>, list: Seq<Seq<char>>)
    ensures
        task::all_in(items.push(item), list) <==> task::all_in(items, list) && list.contains(item),
{
    let more = items.push(item);
    if task::all_in(more, list) {
        assert forall|i: int| 0 <= i < items.len() implies list.contains(#[trigger] items[i]) by {
            assert(more[i] == items[i]);
        }
        assert(more[items.len() as int] == item);
    }
}

/// In a listing, no task comes behind one that is due later or has no due date. Of tasks that are
/// due the same day, or not at all, none comes behind one whose state the configuration has later.
/// Of those in one state, none comes behind one whose name is greater; and of those with one name,
/// none behind one whose ID is.
pub proof fn listings_are_in_order(
    tasks: Seq<TaskModel>,
    filter: FilterModel,
    config: ConfigModel,
    today: Date,
    listed: Seq<TaskModel>,
    i: int,
    j: int,
)
    requires
        dated(tasks),
        lists(tasks, filter, config, today, listed),
        0 <= i < j < listed.len(),
    ensures
        listed[j].due_date matches Some(later) ==> (listed[i].due_date matches Some(due)
            && !earlier(later, due)),
        listed[i].due_date == listed[j].due_date ==> forall|a: int, b: int|
            0 <= a < config.states.len() && 0 <= b < config.states.len() && (
            #[trigger] config.states[a]).id == listed[i].state && (
            #[trigger] config.states[b]).id == listed[j].state && (forall|k: int|
                0 <= k < b ==> (#[trigger] config.states[k]).id != listed[j].state)
                && listed[i].state != listed[j].state ==> (exists|k: int|
                0 <= k < b && (#[trigger] config.states[k]).id == listed[i].state),
        listed[i].due_date == listed[j].due_date && listed[i].state == listed[j].state ==> !comes_first(
            listed[j].name,
            listed[i].name,
        ),
        listed[i].due_date == listed[j].due_date && listed[i].state == listed[j].state
            && listed[i].name == listed[j].name ==> !comes_first(listed[j].id, listed[i].id),
{
    let given = task::chosen(tasks, tasks.len() as int, filter, config, today);
    let p = choose|p: Seq<int>| #[trigger]
        task::list_order(given, p, config) && listed == order::reordered(given, p);
    let (x, y) = (listed[i], listed[j]);
    assert(x == given[p[i]] && y == given[p[j]]);
    assert(task::listed_first(x, y, config) || !task::listed_first(y, x, config));
    assert(listed.contains(x) && listed.contains(y));
    lemma_listed(tasks, filter, config, today, listed, x);
    lemma_listed(tasks, filter, config, today, listed, y);
    let (u, v) = (tasks.index_of(x), tasks.index_of(y));
    assert(tasks[u] == x && tasks[v] == y);
    if x.due_date is Some && y.due_date is Some {
        calendar::lemma_date_order(x.due_date->0, y.due_date->0);
        calendar::lemma_date_order(y.due_date->0, x.due_date->0);
    }
    lemma_place(config, x.state, 0);
    lemma_place(config, y.state, 0);
    lemma_comes_first(x.name, y.name);
    lemma_comes_first(y.name, x.name);
    lemma_comes_first(x.id, y.id);
    lemma_comes_first(y.id, x.id);
    assert(x.name.take(0) =~= y.name.take(0));
    assert(x.id.take(0) =~= y.id.take(0));
    text::lemma_less_total(x.name, y.name, 0);
    text::lemma_less_total(x.id, y.id, 0);
}

/// Whether one text comes before another: at some place, up to which they are the same, it ends or
/// has the smaller character.
pub open spec fn comes_first(a: Seq<char>, b: Seq<char>) -> bool {
    exists|k: int|
        0 <= k < b.len() && k <= a.len() && #[trigger] a.take(k) == b.take(k) && (k == a.len() || a[k]
            < b[k])
}

pub(crate) proof fn lemma_comes_first(a: Seq<char>, b: Seq<char>)
    ensures
        text::less(a, b) <==> comes_first(a, b),
{
    lemma_comes_first_from(a, b, 0);
    assert(a.take(0) =~= b.take(0));
    if comes_first(a, b) {
        let k = choose|k: int|
            0 <= k < b.len() && k <= a.len() && #[trigger] a.take(k) == b.take(k) && (k == a.len()
                || a[k] < b[k]);
        lemma_less_at(a, b, 0, k);
    }
}

proof fn lemma_comes_first_from(a: Seq<char>, b: Seq<char>, i: int)
    requires
        0 <= i <= a.len(),
        i <= b.len(),
        a.take(i) == b.take(i),
    ensures
        text::less_from(a, b, i) ==> comes_first(a, b),
    decreases b.len() - i,
{
    if i < b.len() && i < a.len() && a[i] == b[i] {
        assert(a.take(i + 1) =~= a.take(i).push(a[i]));
        assert(b.take(i + 1) =~= b.take(i).push(b[i]));
        lemma_comes_first_from(a, b, i + 1);
    }
}

proof fn lemma_less_at(a: Seq<char>, b: Seq<char>, i: int, k: int)
    requires
        0 <= i <= k < b.len(),
        k <= a.len(),
        a.take(k) == b.take(k),
        k == a.len() || a[k] < b[k],
    ensures
        text::less_from(a, b, i),
    decreases k - i,
{
    if i < k {
        assert(a.take(k)[i] == a[i] && b.take(k)[i] == b[i]);
        assert(a[i] == b[i]);
        lemma_less_at(a, b, i + 1, k);
    } else {
        assert(i == k);
    }
}

} // verus!
