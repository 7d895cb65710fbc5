//! What making, editing, listing and deleting projects does.
use vstd::prelude::*;

use crate::commands::project;
use crate::config::{self, ConfigModel};
use crate::error::ErrorModel;
use crate::model::{self, ProjectModel, TaskModel};
use crate::text;

verus! {

pub(crate) proof fn lemma_naming(tasks: Seq<TaskModel>, slug: Seq<char>, n: int)
    requires
        0 <= n <= tasks.len(),
    ensures
        project::naming(tasks, slug, n).len() == 0 <==> forall|k: int|
            0 <= k < n ==> !(#[trigger] tasks[k]).projects.contains(slug),
        forall|id: Seq<char>| #[trigger]
            project::naming(tasks, slug, n).contains(id) <==> exists|k: int|
                0 <= k < n && (#[trigger] tasks[k]).projects.contains(slug) && tasks[k].id == id,
    decreases n,
{
    if n > 0 {
        lemma_naming(tasks, slug, n - 1);
        let before = project::naming(tasks, slug, n - 1);
        let all = project::naming(tasks, slug, n);
        let last = tasks[n - 1];
        if last.projects.contains(slug) {
            assert forall|id: Seq<char>| #[trigger] all.contains(id) <==> exists|k: int|
                0 <= k < n && (#[trigger] tasks[k]).projects.contains(slug) && tasks[k].id == id by {
                if before.contains(id) {
                    assert(all[before.index_of(id)] == id);
                }
                assert(all[before.len() as int] == last.id);
                if all.contains(id) && id != last.id {
                    assert(before[all.index_of(id)] == id);
                }
            }
        }
    }
}

/// The tasks that keep a project from being deleted are those that are in it, whatever their state.
pub proof fn projects_are_in_use_by_their_tasks(
    tasks: Seq<TaskModel>,
    slug: Seq<char>,
    id: Seq<char>,
)
    ensures
        project::naming(tasks, slug, tasks.len() as int).contains(id) <==> exists|k: int|
            0 <= k < tasks.len() && (#[trigger] tasks[k]).projects.contains(slug) && tasks[k].id
                == id,
{
    lemma_naming(tasks, slug, tasks.len() as int);
}

/// A new project has the slug that was asked for, the name without whitespace around it, the body
/// that was given and no other properties; its record lies in the directory of projects.
pub proof fn new_projects_are_what_was_asked_for(
    slug: Seq<char>,
    name: Seq<char>,
    body: Seq<char>,
    config: ConfigModel,
    done: ProjectModel,
    bytes: Seq<u8>,
)
    requires
        project::create_outcome(slug, name, body, config) == Ok::<
            (ProjectModel, Seq<u8>),
            ErrorModel,
        >((done, bytes)),
    ensures
        model::slug(slug),
        done.slug == slug,
        done.name == text::trim(name),
        !text::blank(done.name) && !done.name.contains('\n') && !done.name.contains('\r'),
        done.body == model::body(body),
        done.extra_properties.len() == 0,
        config::managed(config.projects_directory) matches Ok(directory) && done.path == directory
            + "/"@ + slug + ".md"@,
        done.serialized() == Ok::<Seq<u8>, ErrorModel>(bytes),
{
}

/// An edit of a project sets the name and the body that it gives, and keeps all else; one that gives
/// neither is refused, and so is a blank name.
pub proof fn project_edits_set_what_they_name(
    had: ProjectModel,
    name: Option<Seq<char>>,
    body: Option<Seq<char>>,
    done: ProjectModel,
    bytes: Seq<u8>,
)
    requires
        project::edit_outcome(had, name, body) == Ok::<(ProjectModel, Seq<u8>), ErrorModel>(
            (done, bytes),
        ),
    ensures
        name is Some || body is Some,
        done.slug == had.slug,
        done.path == had.path,
        done.extra_properties == had.extra_properties,
        name matches Some(name) ==> done.name == text::trim(name) && !text::blank(done.name),
        name is None ==> done.name == had.name,
        body matches Some(body) ==> done.body == model::body(body),
        body is None ==> done.body == had.body,
        done.serialized() == Ok::<Seq<u8>, ErrorModel>(bytes),
{
}

/// How often a project is named grows with each task by how often that task names it: by one where it
/// does, as no task names a project twice, and else by nothing.
pub proof fn each_task_counts_once_for_its_projects(
    tasks: Seq<TaskModel>,
    slug: Seq<char>,
    task: TaskModel,
)
    requires
        task.projects.no_duplicates(),
    ensures
        project::references(seq![], slug, 0) == 0,
        project::references(tasks.push(task), slug, tasks.len() as int + 1) == project::references(
            tasks,
            slug,
            tasks.len() as int,
        ) + if task.projects.contains(slug) {
            1nat
        } else {
            0nat
        },
{
    let more = tasks.push(task);
    lemma_same_references(tasks, more, slug, tasks.len() as int);
    lemma_occurrences(task.projects, slug, task.projects.len() as int);
    assert(task.projects.take(task.projects.len() as int) =~= task.projects);
    assert(more[tasks.len() as int] == task);
}

proof fn lemma_same_references(
    a: Seq<TaskModel>,
    b: Seq<TaskModel>,
    slug: Seq<char>,
    n: int,
)
    requires
        0 <= n <= a.len(),
        n <= b.len(),
        forall|i: int| 0 <= i < n ==> #[trigger] a[i] == b[i],
    ensures
        project::references(a, slug, n) == project::references(b, slug, n),
    decreases n,
{
    if n > 0 {
        lemma_same_references(a, b, slug, n - 1);
        assert(a[n - 1] == b[n - 1]);
    }
}

proof fn lemma_occurrences(list: Seq<Seq<char>>, s: Seq<char>, n: int)
    requires
        0 <= n <= list.len(),
        list.no_duplicates(),
    ensures
        project::occurrences(list, s, n) == if list.take(n).contains(s) {
            1nat
        } else {
            0nat
        },
    decreases n,
{
    if n > 0 {
        lemma_occurrences(list, s, n - 1);
        assert(list.take(n)[n - 1] == list[n - 1]);
        if list.take(n - 1).contains(s) {
            let i = list.take(n - 1).index_of(s);
            assert(list.take(n)[i] == s);
            assert(list[i] == s);
        }
        if list.take(n).contains(s) && list[n - 1] != s {
            let i = list.take(n).index_of(s);
            assert(list.take(n - 1)[i] == s);
        }
    }
}

} // verus!
