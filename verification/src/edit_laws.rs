//! What making, editing and deleting a task does to each of its properties.
use vstd::prelude::*;

use crate::commands::task::{self, EditModel};
use crate::error::ErrorModel;
use crate::model::{self, TaskModel};
use crate::text;

verus! {

/// Where a text stands in a list for the first time.
proof fn lemma_place_in(list: Seq<Seq<char>>, s: Seq<char>, i: int)
    requires
        0 <= i,
    ensures
        match text::place_in(list, s, i) {
            Some(k) => i <= k < list.len() && list[k] == s,
            None => forall|k: int| i <= k < list.len() ==> #[trigger] list[k] != s,
        },
    decreases list.len() - i,
{
    if i < list.len() && list[i] != s {
        lemma_place_in(list, s, i + 1);
    }
}

/// A list without the item at a place has the other items.
proof fn lemma_removed(list: Seq<Seq<char>>, at: int, s: Seq<char>)
    requires
        list.no_duplicates(),
        0 <= at < list.len(),
    ensures
        list.remove(at).contains(s) <==> list.contains(s) && s != list[at],
        list.remove(at).no_duplicates(),
        list.remove(at).len() == list.len() - 1,
{
    let left = list.remove(at);
    assert(left.len() == list.len() - 1);
    assert forall|i: int| 0 <= i < left.len() implies #[trigger] left[i] == list[if i < at {
        i
    } else {
        i + 1
    }] by {}
    if left.contains(s) {
        let i = left.index_of(s);
        assert(list[if i < at {
            i
        } else {
            i + 1
        }] == s);
    }
    if list.contains(s) && s != list[at] {
        let i = list.index_of(s);
        if i < at {
            assert(left[i] == s);
        } else {
            assert(left[i - 1] == s);
        }
    }
}

/// What is left of a list when items are taken out, and when that can be done.
proof fn lemma_taken_out(
    list: Seq<Seq<char>>,
    items: Seq<Seq<char>>,
    i: int,
    code: Seq<char>,
    message: Seq<char>,
    field: Seq<char>,
    s: Seq<char>,
)
    requires
        list.no_duplicates(),
        0 <= i <= items.len(),
    ensures
        ({
            let rest = items.subrange(i, items.len() as int);
            match task::taken_out(list, items, i, code, message, field) {
                Ok(left) => {
                    &&& left.contains(s) <==> list.contains(s) && !rest.contains(s)
                    &&& left.no_duplicates()
                    &&& left.len() == list.len() - rest.len()
                    &&& rest.no_duplicates()
                    &&& rest.contains(s) ==> list.contains(s)
                },
                Err(_) => !rest.no_duplicates() || exists|k: int|
                    0 <= k < rest.len() && !list.contains(#[trigger] rest[k]),
            }
        }),
    decreases items.len() - i,
{
    let rest = items.subrange(i, items.len() as int);
    if i < items.len() {
        let next = items.subrange(i + 1, items.len() as int);
        assert(rest =~= seq![items[i]] + next);
        assert(rest[0] == items[i]);
        assert(rest.contains(s) <==> s == items[i] || next.contains(s)) by {
            if next.contains(s) {
                assert(rest[next.index_of(s) + 1] == s);
            }
            if rest.contains(s) && s != items[i] {
                assert(next[rest.index_of(s) - 1] == s);
            }
        }
        lemma_place_in(list, items[i], 0);
        match text::place_in(list, items[i], 0) {
            Some(at) => {
                let left = list.remove(at);
                lemma_removed(list, at, s);
                lemma_removed(list, at, items[i]);
                lemma_taken_out(left, items, i + 1, code, message, field, s);
                lemma_taken_out(left, items, i + 1, code, message, field, items[i]);
                match task::taken_out(left, items, i + 1, code, message, field) {
                    Ok(_) => {
                        assert(!next.contains(items[i]));
                        assert(rest.no_duplicates()) by {
                            assert forall|a: int, b: int|
                                0 <= a < b < rest.len() implies rest[a] != rest[b] by {
                                assert(rest[b] == next[b - 1]);
                                if a > 0 {
                                    assert(rest[a] == next[a - 1]);
                                }
                            }
                        }
                    },
                    Err(_) => {
                        if !next.no_duplicates() {
                            let (a, b) = choose|a: int, b: int|
                                0 <= a < next.len() && 0 <= b < next.len() && a != b && next[a]
                                    == next[b];
                            assert(rest[a + 1] == rest[b + 1]);
                        } else {
                            let k = choose|k: int|
                                0 <= k < next.len() && !left.contains(#[trigger] next[k]);
                            lemma_removed(list, at, next[k]);
                            assert(rest[k + 1] == next[k]);
                            if next[k] == items[i] {
                                assert(rest[k + 1] == rest[0]);
                            }
                        }
                    },
                }
            },
            None => {
                assert(!list.contains(rest[0]));
            },
        }
    }
}

/// What a list is when items are put in, and when that can be done.
proof fn lemma_put_in(
    list: Seq<Seq<char>>,
    items: Seq<Seq<char>>,
    i: int,
    tags: bool,
    code: Seq<char>,
    message: Seq<char>,
    field: Seq<char>,
    s: Seq<char>,
)
    requires
        list.no_duplicates(),
        0 <= i <= items.len(),
    ensures
        ({
            let rest = items.subrange(i, items.len() as int);
            match task::put_in(list, items, i, tags, code, message, field) {
                Ok(all) => {
                    &&& all == list + rest
                    &&& all.contains(s) <==> list.contains(s) || rest.contains(s)
                    &&& all.no_duplicates()
                    &&& tags ==> forall|k: int| 0 <= k < rest.len() ==> model::tag(#[trigger] rest[k])
                },
                Err(_) => !(list + rest).no_duplicates() || (tags && exists|k: int|
                    0 <= k < rest.len() && !model::tag(#[trigger] rest[k])),
            }
        }),
    decreases items.len() - i,
{
    let rest = items.subrange(i, items.len() as int);
    if i < items.len() {
        let next = items.subrange(i + 1, items.len() as int);
        let more = list.push(items[i]);
        assert(rest =~= seq![items[i]] + next);
        assert(rest[0] == items[i]);
        assert(list + rest =~= more + next);
        if tags && !model::tag(items[i]) {
            assert(!model::tag(rest[0]));
        } else if list.contains(items[i]) {
            let k = list.index_of(items[i]);
            assert((list + rest)[k] == (list + rest)[list.len() as int]);
        } else {
            assert(more.no_duplicates());
            lemma_put_in(more, items, i + 1, tags, code, message, field, s);
            match task::put_in(more, items, i + 1, tags, code, message, field) {
                Ok(all) => {
                    lemma_sum_contains(list, rest, s);
                    assert forall|k: int| 0 <= k < rest.len() && tags implies model::tag(
                        #[trigger] rest[k],
                    ) by {
                        if k > 0 {
                            assert(rest[k] == next[k - 1]);
                        }
                    }
                },
                Err(_) => {
                    if tags && exists|k: int| 0 <= k < next.len() && !model::tag(#[trigger] next[k]) {
                        let k = choose|k: int|
                            0 <= k < next.len() && !model::tag(#[trigger] next[k]);
                        assert(rest[k + 1] == next[k]);
                    }
                },
            }
        }
    } else {
        assert(list + rest =~= list);
    }
}

proof fn lemma_sum_contains(a: Seq<Seq<char>>, b: Seq<Seq<char>>, s: Seq<char>)
    ensures
        (a + b).contains(s) <==> a.contains(s) || b.contains(s),
{
    let all = a + b;
    if all.contains(s) {
        let i = all.index_of(s);
        if i < a.len() {
            assert(a[i] == s);
        } else {
            assert(b[i - a.len()] == s);
        }
    }
    if a.contains(s) {
        assert(all[a.index_of(s)] == s);
    }
    if b.contains(s) {
        assert(all[b.index_of(s) + a.len()] == s);
    }
}

/// After an edit a task has the tags that it had and that are not removed, and those that are
/// added, each once. What is removed was there; what is added is a tag, and was not there or is
/// removed.
pub proof fn edits_take_out_and_put_in_tags(
    task: TaskModel,
    changes: EditModel,
    known: Seq<Seq<char>>,
    edited: TaskModel,
    tag: Seq<char>,
)
    requires
        task.tags.no_duplicates(),
        task.edited(changes, known) == Ok::<TaskModel, ErrorModel>(edited),
    ensures
        edited.tags.contains(tag) <==> (task.tags.contains(tag) && !changes.remove_tags.contains(
            tag,
        )) || changes.add_tags.contains(tag),
        edited.tags.no_duplicates(),
        edited.tags.len() == task.tags.len() - changes.remove_tags.len() + changes.add_tags.len(),
        changes.remove_tags.contains(tag) ==> task.tags.contains(tag),
        changes.add_tags.contains(tag) ==> model::tag(tag) && (task.tags.contains(tag)
            ==> changes.remove_tags.contains(tag)),
{
    let code = "tag_not_on_task"@;
    let message = "Task does not have tag "@;
    let (remove, add) = (changes.remove_tags, changes.add_tags);
    lemma_taken_out(task.tags, remove, 0, code, message, "tags"@, tag);
    let left = task::taken_out(task.tags, remove, 0, code, message, "tags"@)->Ok_0;
    lemma_put_in(
        left,
        add,
        0,
        true,
        "tag_already_on_task"@,
        "Task already has tag "@,
        "tags"@,
        tag,
    );
    assert(remove.subrange(0, remove.len() as int) =~= remove);
    assert(add.subrange(0, add.len() as int) =~= add);
    lemma_put_apart(left, add, tag);
    if add.contains(tag) {
        assert(model::tag(add[add.index_of(tag)]));
    }
}

proof fn lemma_put_apart(left: Seq<Seq<char>>, add: Seq<Seq<char>>, s: Seq<char>)
    requires
        (left + add).no_duplicates(),
    ensures
        !(left.contains(s) && add.contains(s)),
{
    if left.contains(s) && add.contains(s) {
        let (i, j) = (left.index_of(s), add.index_of(s));
        assert((left + add)[i] == (left + add)[left.len() + j]);
    }
}

/// After an edit a task is in the projects that it was in and that are not removed, and in those
/// that are added, each once. What is removed was there; what is added exists, and was not there
/// or is removed.
pub proof fn edits_take_out_and_put_in_projects(
    task: TaskModel,
    changes: EditModel,
    known: Seq<Seq<char>>,
    edited: TaskModel,
    project: Seq<char>,
)
    requires
        task.projects.no_duplicates(),
        task.edited(changes, known) == Ok::<TaskModel, ErrorModel>(edited),
    ensures
        edited.projects.contains(project) <==> (task.projects.contains(project)
            && !changes.remove_projects.contains(project)) || changes.add_projects.contains(project),
        edited.projects.no_duplicates(),
        edited.projects.len() == task.projects.len() - changes.remove_projects.len()
            + changes.add_projects.len(),
        changes.remove_projects.contains(project) ==> task.projects.contains(project),
        changes.add_projects.contains(project) && task.projects.contains(project)
            ==> changes.remove_projects.contains(project),
        edited.projects.contains(project) ==> known.contains(project),
{
    let code = "project_not_on_task"@;
    let message = "Task does not reference project "@;
    let (remove, add) = (changes.remove_projects, changes.add_projects);
    lemma_taken_out(task.projects, remove, 0, code, message, "projects"@, project);
    let left = task::taken_out(task.projects, remove, 0, code, message, "projects"@)->Ok_0;
    lemma_put_in(
        left,
        add,
        0,
        false,
        "project_already_on_task"@,
        "Task already references project "@,
        "projects"@,
        project,
    );
    assert(remove.subrange(0, remove.len() as int) =~= remove);
    assert(add.subrange(0, add.len() as int) =~= add);
    lemma_put_apart(left, add, project);
    lemma_known(edited.projects, known, 0);
    if edited.projects.contains(project) {
        assert(known.contains(edited.projects[edited.projects.index_of(project)]));
    }
}

/// Projects that are all known are.
pub(crate) proof fn lemma_known(projects: Seq<Seq<char>>, known: Seq<Seq<char>>, i: int)
    requires
        0 <= i <= projects.len(),
    ensures
        task::check_known(projects, known, i) is Ok <==> forall|k: int|
            i <= k < projects.len() ==> known.contains(#[trigger] projects[k]),
    decreases projects.len() - i,
{
    if i < projects.len() && known.contains(projects[i]) {
        lemma_known(projects, known, i + 1);
    }
}

/// The tags of a task can be changed where each that is removed is there, once, and each that is
/// added is a tag and not on the task by then; otherwise they cannot.
pub proof fn tags_can_be_changed_where_they_are_there(task: TaskModel, changes: EditModel)
    requires
        task.tags.no_duplicates(),
    ensures
        task.with_tags(changes) is Ok <==> {
            &&& changes.remove_tags.no_duplicates()
            &&& changes.add_tags.no_duplicates()
            &&& forall|k: int|
                0 <= k < changes.remove_tags.len() ==> task.tags.contains(
                    #[trigger] changes.remove_tags[k],
                )
            &&& forall|k: int|
                0 <= k < changes.add_tags.len() ==> model::tag(#[trigger] changes.add_tags[k]) && (
                task.tags.contains(changes.add_tags[k]) ==> changes.remove_tags.contains(
                    changes.add_tags[k],
                ))
        },
{
    let code = "tag_not_on_task"@;
    let message = "Task does not have tag "@;
    let (remove, add) = (changes.remove_tags, changes.add_tags);
    let outcome = task::taken_out(task.tags, remove, 0, code, message, "tags"@);
    assert(remove.subrange(0, remove.len() as int) =~= remove);
    assert(add.subrange(0, add.len() as int) =~= add);
    lemma_taken_out(task.tags, remove, 0, code, message, "tags"@, seq![]);
    if let Ok(left) = outcome {
        let put = task::put_in(
            left,
            add,
            0,
            true,
            "tag_already_on_task"@,
            "Task already has tag "@,
            "tags"@,
        );
        lemma_put_in(
            left,
            add,
            0,
            true,
            "tag_already_on_task"@,
            "Task already has tag "@,
            "tags"@,
            seq![],
        );
        assert forall|k: int| 0 <= k < remove.len() implies task.tags.contains(
            #[trigger] remove[k],
        ) by {
            lemma_taken_out(task.tags, remove, 0, code, message, "tags"@, remove[k]);
            assert(remove.contains(remove[k]));
        }
        if put is Ok {
            assert forall|k: int| 0 <= k < add.len() implies model::tag(#[trigger] add[k]) && (
            task.tags.contains(add[k]) ==> remove.contains(add[k])) by {
                lemma_taken_out(task.tags, remove, 0, code, message, "tags"@, add[k]);
                lemma_put_apart(left, add, add[k]);
                assert(add.contains(add[k]));
            }
            assert(add.no_duplicates()) by {
                assert forall|a: int, b: int| 0 <= a < b < add.len() implies add[a] != add[b] by {
                    assert((left + add)[left.len() + a] == add[a]);
                    assert((left + add)[left.len() + b] == add[b]);
                }
            }
        } else if add.no_duplicates() && forall|k: int|
            0 <= k < add.len() ==> model::tag(#[trigger] add[k]) && (task.tags.contains(add[k])
                ==> remove.contains(add[k])) {
            assert((left + add).no_duplicates()) by {
                assert forall|a: int, b: int|
                    0 <= a < b < left.len() + add.len() implies (left + add)[a] != (left
                    + add)[b] by {
                    if b >= left.len() {
                        let x = add[b - left.len()];
                        lemma_taken_out(task.tags, remove, 0, code, message, "tags"@, x);
                        assert(!left.contains(x));
                        if a < left.len() {
                            assert(left[a] != x);
                        }
                    }
                }
            }
        }
    }
}

/// A text without the whitespace around it is a part of it, with nothing but whitespace before and
/// after, and neither begins nor ends with any.
pub proof fn trimming_takes_off_whitespace_only(s: Seq<char>)
    ensures
        exists|before: Seq<char>, after: Seq<char>|
            text::blank(before) && text::blank(after) && #[trigger] (before + text::trim(s) + after)
                == s,
        text::trim(s).len() > 0 ==> !text::is_whitespace(text::trim(s)[0]) && !text::is_whitespace(
            text::trim(s).last(),
        ),
        text::trim(s).len() == 0 <==> text::blank(s),
{
    let a = text::skip_space(s, 0);
    text::lemma_skip_space(s, 0);
    let t = text::trim_start(s);
    let b = text::drop_space(t, t.len() as int);
    text::lemma_drop_space(t, t.len() as int);
    let before = s.subrange(0, a);
    let after = t.subrange(b, t.len() as int);
    let inner = text::trim(s);
    assert(before + inner + after =~= s);
    assert(text::blank(before));
    assert(text::blank(after)) by {
        assert forall|i: int| 0 <= i < after.len() implies text::is_whitespace(
            #[trigger] after[i],
        ) by {
            assert(after[i] == t[b + i]);
        }
    }
    if inner.len() > 0 {
        assert(inner[0] == s[a]);
        assert(inner.last() == t[b - 1]);
        assert(!text::is_whitespace(s[a]));
    } else {
        assert(before + after =~= s);
        assert forall|i: int| 0 <= i < s.len() implies text::is_whitespace(#[trigger] s[i]) by {
            if i < a {
                assert(s[i] == before[i]);
            } else {
                assert(s[i] == after[i - a]);
            }
        }
    }
}

/// An edit sets what it names: the name and the link without whitespace around them, the parent in
/// capitals, and the state, date, time, rule, mode and body as they are given. What it clears is
/// gone; with the date the time goes, and with the rule its mode and the last completion.
pub proof fn edits_set_what_they_name(
    task: TaskModel,
    changes: EditModel,
    known: Seq<Seq<char>>,
    edited: TaskModel,
)
    requires
        changes.check() is Ok,
        task.edited(changes, known) == Ok::<TaskModel, ErrorModel>(edited),
    ensures
        changes.name matches Some(name) ==> edited.name == text::trim(name) && !text::blank(name),
        changes.state matches Some(state) ==> edited.state == state,
        changes.url matches Some(url) ==> edited.url == Some(text::trim(url)),
        changes.clear_url ==> edited.url is None,
        changes.parent matches Some(parent) ==> edited.parent == Some(text::upper(parent)),
        changes.clear_parent ==> edited.parent is None,
        changes.due_date matches Some(date) ==> edited.due_date == Some(date),
        changes.clear_due_date ==> edited.due_date is None && edited.due_time is None,
        changes.due_time matches Some(time) ==> edited.due_time == Some(time),
        changes.clear_due_time ==> edited.due_time is None,
        changes.recurrence matches Some(rule) ==> edited.recurrence == Some(rule),
        changes.recurrence_from matches Some(mode) ==> edited.recurrence_from == Some(mode),
        changes.clear_recurrence ==> edited.recurrence is None && edited.recurrence_from is None
            && edited.last_completed_date is None,
        changes.body matches Some(body) ==> edited.body == model::body(body),
{
    if let Some(name) = changes.name {
        trimming_takes_off_whitespace_only(name);
        assert(!text::blank(text::trim(name)));
    }
}

/// An edit that asks for nothing is refused, and so is one that sets and clears the same thing.
pub proof fn edits_that_contradict_themselves_are_refused(changes: EditModel)
    ensures
        changes == EditModel::none() ==> changes.check() is Err,
        changes.parent is Some && changes.clear_parent ==> changes.check() is Err,
        changes.url is Some && changes.clear_url ==> changes.check() is Err,
        changes.due_date is Some && changes.clear_due_date ==> changes.check() is Err,
        changes.due_time is Some && (changes.clear_due_time || changes.clear_due_date)
            ==> changes.check() is Err,
        changes.clear_recurrence && (changes.recurrence is Some || changes.recurrence_from is Some)
            ==> changes.check() is Err,
        (exists|i: int|
            0 <= i < changes.add_tags.len() && changes.remove_tags.contains(
                #[trigger] changes.add_tags[i],
            )) ==> changes.check() is Err,
        (exists|i: int|
            0 <= i < changes.add_projects.len() && changes.remove_projects.contains(
                #[trigger] changes.add_projects[i],
            )) ==> changes.check() is Err,
{
    lemma_common(changes.add_tags, changes.remove_tags, 0);
    lemma_common(changes.add_projects, changes.remove_projects, 0);
}

proof fn lemma_common(add: Seq<Seq<char>>, remove: Seq<Seq<char>>, i: int)
    requires
        0 <= i,
    ensures
        task::common_from(add, remove, i) is None <==> forall|k: int|
            i <= k < add.len() ==> !remove.contains(#[trigger] add[k]),
    decreases add.len() - i,
{
    if i < add.len() && !remove.contains(add[i]) {
        lemma_common(add, remove, i + 1);
    }
}

} // verus!
