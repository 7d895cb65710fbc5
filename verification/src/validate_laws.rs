//! What holds of the validation of a store: when nothing is said of its projects and tasks.
use crate::attachments;
use crate::config::{self, ConfigModel};
use crate::error::IssueModel;
use crate::frontmatter;
use crate::markdown;
use crate::model;
use crate::paths;
use crate::store::{self, WalkKind, WalkModel};
use crate::text;
use crate::validate::{self, FileModel, PlaceModel, ProjectScan, StepModel, TaskScan, VisitModel};
use vstd::prelude::*;

verus! {

/// Whether a step of a walk meets a Markdown file that is not hidden, of a size that is read.
pub open spec fn meets_record(visit: VisitModel) -> bool {
    &&& visit.step is Met
    &&& ({
        let entry = visit.step->Met_0;
        &&& entry.kind == WalkKind::File
        &&& entry.utf8
        &&& store::markdown_file(entry.path)
        &&& !text::begins(markdown::last_name(entry.path), "."@)
    })
    &&& visit.file is Bytes
    &&& visit.file->Bytes_0.len() <= 8_388_608
}

/// The name, without its extension, of what a step meets.
pub open spec fn name_met(visit: VisitModel) -> Seq<char> {
    store::stem(visit.step->Met_0.path)
}

/// Whether a step meets a project, in the directory of projects itself, that can be read.
pub open spec fn meets_project(visit: VisitModel) -> bool {
    &&& meets_record(visit)
    &&& visit.step->Met_0.depth == 1
    &&& model::slug(name_met(visit))
    &&& frontmatter::project_of_bytes(
        name_met(visit),
        visit.step->Met_0.path,
        visit.file->Bytes_0,
    ) is Ok
}

/// Nothing is said of a walk through projects just where each step meets a project that can be
/// read, and no two have the same slug. All of them are then known, and counted.
pub proof fn projects_are_sound_where_nothing_is_said(
    visits: Seq<VisitModel>,
    directory: Seq<char>,
)
    ensures
        ({
            let scan = validate::project_steps(visits, directory, visits.len() as int);
            &&& scan.issues.len() == 0 <==> {
                &&& forall|i: int|
                    0 <= i < visits.len() ==> meets_project(#[trigger] visits[i])
                &&& forall|i: int, j: int|
                    #![trigger visits[i], visits[j]]
                    0 <= i < j < visits.len() ==> name_met(visits[i]) != name_met(visits[j])
            }
            &&& scan.issues.len() == 0 ==> scan.count == visits.len() && scan.known.len()
                == visits.len() && forall|i: int|
                0 <= i < visits.len() ==> #[trigger] scan.known[i] == name_met(visits[i])
        }),
{
    lemma_projects(visits, directory, visits.len() as int);
}

proof fn lemma_projects(visits: Seq<VisitModel>, directory: Seq<char>, n: int)
    requires
        0 <= n <= visits.len(),
    ensures
        ({
            let scan = validate::project_steps(visits, directory, n);
            &&& scan.issues.len() == 0 <==> {
                &&& forall|i: int| 0 <= i < n ==> meets_project(#[trigger] visits[i])
                &&& forall|i: int, j: int|
                    #![trigger visits[i], visits[j]]
                    0 <= i < j < n ==> name_met(visits[i]) != name_met(visits[j])
            }
            &&& scan.issues.len() == 0 ==> scan.skip is None && scan.count == n && scan.known.len()
                == n && scan.seen.len() == n && forall|i: int|
                0 <= i < n ==> #[trigger] scan.known[i] == name_met(visits[i])
                    && scan.seen[i].id == name_met(visits[i])
        }),
    decreases n,
{
    if n > 0 {
        lemma_projects(visits, directory, n - 1);
        let before = validate::project_steps(visits, directory, n - 1);
        let scan = validate::project_steps(visits, directory, n);
        let visit = visits[n - 1];
        lemma_project_step(before, visit, directory);
        if before.issues.len() == 0 {
            let name = name_met(visit);
            lemma_last_with(before.seen, name, n - 1);
            if meets_project(visit) {
                if exists|i: int| 0 <= i < n - 1 && name_met(#[trigger] visits[i]) == name {
                    let i = choose|i: int| 0 <= i < n - 1 && name_met(#[trigger] visits[i]) == name;
                    assert(before.known[i] == name_met(visits[i]));
                    assert(before.seen[i].id == name);
                    assert(name_met(visits[i]) == name_met(visits[n - 1]));
                } else {
                    assert forall|i: int| 0 <= i < n - 1 implies (#[trigger] before.seen[i]).id
                        != name by {
                        assert(before.known[i] == name_met(visits[i]));
                    }
                    assert(scan.known == before.known.push(name));
                    assert forall|i: int, j: int|
                        #![trigger visits[i], visits[j]]
                        0 <= i < j < n implies name_met(visits[i]) != name_met(visits[j]) by {
                        if j == n - 1 {
                            assert(name_met(visits[i]) != name);
                        }
                    }
                    assert forall|i: int| 0 <= i < n implies meets_project(#[trigger] visits[i]) by {
                        if i < n - 1 {
                            assert(meets_project(visits[i]));
                        }
                    }
                    assert forall|i: int| 0 <= i < n implies #[trigger] scan.known[i] == name_met(
                        visits[i],
                    ) && scan.seen[i].id == name_met(visits[i]) by {
                        if i < n - 1 {
                            assert(scan.known[i] == before.known[i]);
                            assert(scan.seen[i] == before.seen[i]);
                        }
                    }
                }
            } else {
                assert(!meets_project(visits[n - 1]));
            }
        }
    }
}

/// What a step does to what is known of projects: issues are only added, and none is added where
/// it meets a project that has not been seen.
proof fn lemma_project_step(scan: ProjectScan, visit: VisitModel, directory: Seq<char>)
    ensures
        validate::project_step(scan, visit, directory).issues.len() >= scan.issues.len(),
        scan.skip is None ==> (validate::project_step(scan, visit, directory).issues.len()
            == scan.issues.len() <==> meets_project(visit) && validate::last_with(
            scan.seen,
            name_met(visit),
            scan.seen.len() as int,
        ) is None),
        scan.skip is None && meets_project(visit) ==> {
            let next = validate::project_step(scan, visit, directory);
            &&& next.skip is None
            &&& next.count == scan.count + 1
            &&& next.known == scan.known.push(name_met(visit))
            &&& next.seen.len() == scan.seen.len() + 1
            &&& next.seen.last().id == name_met(visit)
            &&& forall|i: int| 0 <= i < scan.seen.len() ==> #[trigger] next.seen[i] == scan.seen[i]
        },
{
    if !visit.step.passed(scan.skip) {
        if let StepModel::Met(entry) = visit.step {
            let file = visit.file;
            let name = store::stem(entry.path);
            let issue = validate::project_file_issue(name, entry.path, file);
            let other = validate::project_file_issue(
                validate::VALIDATION_PROJECT_SLUG@,
                entry.path,
                file,
            );
            assert(config::issue_if(issue).len() == 0 <==> issue is None);
            assert(config::issue_if(other).len() >= 0);
        }
    }
}

proof fn lemma_last_with(seen: Seq<store::CandidateModel>, id: Seq<char>, n: int)
    requires
        0 <= n <= seen.len(),
    ensures
        validate::last_with(seen, id, n) is None <==> forall|i: int|
            0 <= i < n ==> (#[trigger] seen[i]).id != id,
    decreases n,
{
    if n > 0 {
        lemma_last_with(seen, id, n - 1);
    }
}

/// Whether a step meets a task that can be read, that is only in projects that are known, and
/// with whose attachments nothing is wrong.
pub open spec fn meets_task(visit: VisitModel, config: ConfigModel, known: Seq<Seq<char>>) -> bool {
    &&& meets_record(visit)
    &&& model::task_id(name_met(visit))
    &&& ({
        let path = visit.step->Met_0.path;
        let read = frontmatter::task_of(
            text::upper(name_met(visit)),
            path,
            visit.file->Bytes_0,
            config,
        );
        &&& read is Ok
        &&& forall|i: int|
            0 <= i < read->Ok_0.projects.len() ==> known.contains(
                #[trigger] read->Ok_0.projects[i],
            )
        &&& attachments::enabled(config) ==> attachments::body_issues(
            path,
            read->Ok_0.body,
            config.obsidian_link_prefix,
            visit.attachments,
        ).len() == 0
    })
}

/// Whether a step meets a directory that is not hidden.
pub open spec fn meets_directory(visit: VisitModel) -> bool {
    &&& visit.step is Met
    &&& visit.step->Met_0.kind == WalkKind::Directory
    &&& !text::begins(markdown::last_name(visit.step->Met_0.path), "."@)
}

/// Nothing is said of the steps of a walk through tasks just where each meets a directory, or a
/// task that can be read and is in known projects only; and, with the first schema version, no
/// two of the tasks have the same ID, however its letters are written.
pub proof fn tasks_are_sound_where_nothing_is_said(
    visits: Seq<VisitModel>,
    directory: Seq<char>,
    config: ConfigModel,
    known: Seq<Seq<char>>,
)
    ensures
        validate::task_steps(visits, directory, config, known, visits.len() as int).issues.len()
            == 0 <==> {
            &&& forall|i: int|
                0 <= i < visits.len() ==> meets_directory(#[trigger] visits[i]) || meets_task(
                    visits[i],
                    config,
                    known,
                )
            &&& config.schema_version == 1 ==> forall|i: int, j: int|
                #![trigger visits[i], visits[j]]
                0 <= i < j < visits.len() && !meets_directory(visits[i]) && !meets_directory(
                    visits[j],
                ) ==> text::upper(name_met(visits[i])) != text::upper(name_met(visits[j]))
        },
{
    let dirs = Seq::new(visits.len(), |i: int| meets_directory(visits[i]));
    let good = Seq::new(visits.len(), |i: int| meets_task(visits[i], config, known));
    let ids = Seq::new(visits.len(), |i: int| text::upper(name_met(visits[i])));
    let n = visits.len() as int;
    lemma_tasks(visits, directory, config, known, dirs, good, ids, n);
    let first = config.schema_version == 1;
    if fine(dirs, good, ids, first, n) {
        assert forall|i: int| 0 <= i < n implies meets_directory(#[trigger] visits[i])
            || meets_task(visits[i], config, known) by {
            assert(dirs[i] || good[i]);
        }
        assert forall|i: int, j: int|
            #![trigger visits[i], visits[j]]
            first && 0 <= i < j < n && !meets_directory(visits[i]) && !meets_directory(
                visits[j],
            ) implies text::upper(name_met(visits[i])) != text::upper(name_met(visits[j])) by {
            assert(!dirs[i] && !dirs[j]);
            assert(ids[i] != ids[j]);
        }
    } else if exists|i: int| 0 <= i < n && !(#[trigger] dirs[i]) && !good[i] {
        let i = choose|i: int| 0 <= i < n && !(#[trigger] dirs[i]) && !good[i];
        assert(!meets_directory(visits[i]) && !meets_task(visits[i], config, known));
    } else {
        let (i, j) = choose|i: int, j: int|
            #![trigger ids[i], ids[j]]
            0 <= i < j < n && !dirs[i] && !dirs[j] && ids[i] == ids[j];
        assert(!meets_directory(visits[i]) && !meets_directory(visits[j]));
        assert(text::upper(name_met(visits[i])) == text::upper(name_met(visits[j])));
    }
}

/// Whether each of the first `n` steps is one of two kinds, and, where that is asked, those that
/// are not of the first kind have different IDs.
spec fn fine(dirs: Seq<bool>, good: Seq<bool>, ids: Seq<Seq<char>>, first: bool, n: int) -> bool {
    &&& forall|i: int| 0 <= i < n ==> (#[trigger] dirs[i]) || good[i]
    &&& first ==> forall|i: int, j: int|
        #![trigger ids[i], ids[j]]
        0 <= i < j < n && !dirs[i] && !dirs[j] ==> ids[i] != ids[j]
}

/// The IDs of the first `n` steps that are not of the first kind.
spec fn listed(dirs: Seq<bool>, ids: Seq<Seq<char>>, n: int) -> Seq<Seq<char>>
    decreases n,
{
    if n <= 0 {
        seq![]
    } else if dirs[n - 1] {
        listed(dirs, ids, n - 1)
    } else {
        listed(dirs, ids, n - 1).push(ids[n - 1])
    }
}

proof fn lemma_listed(dirs: Seq<bool>, ids: Seq<Seq<char>>, n: int, id: Seq<char>)
    requires
        0 <= n <= ids.len(),
        dirs.len() == ids.len(),
    ensures
        listed(dirs, ids, n).contains(id) <==> exists|i: int|
            0 <= i < n && !dirs[i] && #[trigger] ids[i] == id,
    decreases n,
{
    if n > 0 {
        lemma_listed(dirs, ids, n - 1, id);
        let before = listed(dirs, ids, n - 1);
        let now = listed(dirs, ids, n);
        if !dirs[n - 1] {
            assert(now == before.push(ids[n - 1]));
            assert(now[before.len() as int] == ids[n - 1]);
            if before.contains(id) {
                let k = choose|k: int| 0 <= k < before.len() && before[k] == id;
                assert(now[k] == id);
            }
            if now.contains(id) {
                let k = choose|k: int| 0 <= k < now.len() && now[k] == id;
                if k < before.len() {
                    assert(before[k] == id);
                } else {
                    assert(ids[n - 1] == id);
                }
            }
        }
    }
}

/// Whether what has been seen has the IDs of a list.
spec fn remembers(seen: Seq<store::CandidateModel>, list: Seq<Seq<char>>) -> bool {
    &&& seen.len() == list.len()
    &&& forall|k: int| 0 <= k < seen.len() ==> (#[trigger] seen[k]).id == list[k]
}

proof fn lemma_one_more(
    dirs: Seq<bool>,
    good: Seq<bool>,
    ids: Seq<Seq<char>>,
    first: bool,
    n: int,
    before: Seq<store::CandidateModel>,
)
    requires
        0 < n <= dirs.len(),
        dirs.len() == good.len() == ids.len(),
        fine(dirs, good, ids, first, n - 1),
        first ==> remembers(before, listed(dirs, ids, n - 1)),
    ensures
        fine(dirs, good, ids, first, n) <==> (dirs[n - 1] || (good[n - 1] && !(first
            && validate::last_with(before, ids[n - 1], before.len() as int) is Some))),
{
    let id = ids[n - 1];
    let list = listed(dirs, ids, n - 1);
    lemma_last_with(before, id, before.len() as int);
    lemma_listed(dirs, ids, n - 1, id);
    if !dirs[n - 1] && good[n - 1] && first {
        if list.contains(id) {
            let k = choose|k: int| 0 <= k < list.len() && list[k] == id;
            assert(before[k].id == id);
            let i = choose|i: int| 0 <= i < n - 1 && !dirs[i] && #[trigger] ids[i] == id;
            assert(ids[i] == ids[n - 1]);
        } else {
            assert forall|k: int| 0 <= k < before.len() implies (#[trigger] before[k]).id
                != id by {
                assert(list[k] == before[k].id);
            }
            assert forall|i: int, j: int|
                #![trigger ids[i], ids[j]]
                0 <= i < j < n && !dirs[i] && !dirs[j] implies ids[i] != ids[j] by {}
            assert(fine(dirs, good, ids, first, n));
        }
    }
}

proof fn lemma_tasks(
    visits: Seq<VisitModel>,
    directory: Seq<char>,
    config: ConfigModel,
    known: Seq<Seq<char>>,
    dirs: Seq<bool>,
    good: Seq<bool>,
    ids: Seq<Seq<char>>,
    n: int,
)
    requires
        0 <= n <= visits.len(),
        dirs == Seq::new(visits.len(), |i: int| meets_directory(visits[i])),
        good == Seq::new(visits.len(), |i: int| meets_task(visits[i], config, known)),
        ids == Seq::new(visits.len(), |i: int| text::upper(name_met(visits[i]))),
    ensures
        ({
            let scan = validate::task_steps(visits, directory, config, known, n);
            let first = config.schema_version == 1;
            &&& scan.issues.len() == 0 <==> fine(dirs, good, ids, first, n)
            &&& scan.issues.len() == 0 ==> scan.skip is None
            &&& scan.issues.len() == 0 && first ==> remembers(scan.seen, listed(dirs, ids, n))
        }),
    decreases n,
{
    let first = config.schema_version == 1;
    if n > 0 {
        lemma_tasks(visits, directory, config, known, dirs, good, ids, n - 1);
        let before = validate::task_steps(visits, directory, config, known, n - 1);
        let scan = validate::task_steps(visits, directory, config, known, n);
        lemma_task_step(before, visits[n - 1], directory, config, known);
        assert(dirs[n - 1] == meets_directory(visits[n - 1]));
        assert(good[n - 1] == meets_task(visits[n - 1], config, known));
        if before.issues.len() == 0 {
            lemma_one_more(dirs, good, ids, first, n, before.seen);
        } else {
            assert(!fine(dirs, good, ids, first, n));
        }
    }
}

/// What a step does to what is known of tasks: issues are only added, and none is added where it
/// meets a directory, or a task whose ID has not been seen.
proof fn lemma_task_step(
    scan: TaskScan,
    visit: VisitModel,
    directory: Seq<char>,
    config: ConfigModel,
    known: Seq<Seq<char>>,
)
    ensures
        validate::task_step(scan, visit, directory, config, known).issues.len()
            >= scan.issues.len(),
        scan.skip is None ==> {
            let next = validate::task_step(scan, visit, directory, config, known);
            let id = text::upper(name_met(visit));
            let again = validate::last_with(scan.seen, id, scan.seen.len() as int) is Some;
            &&& next.issues.len() == scan.issues.len() <==> (meets_directory(visit) || (meets_task(
                visit,
                config,
                known,
            ) && !(config.schema_version == 1 && again)))
            &&& meets_directory(visit) ==> next.seen == scan.seen && next.skip is None
            &&& meets_task(visit, config, known) ==> next.skip is None
            &&& meets_task(visit, config, known) && config.schema_version == 1 ==> next.seen.len()
                == scan.seen.len() + 1 && next.seen.last().id == id && forall|i: int|
                0 <= i < scan.seen.len() ==> #[trigger] next.seen[i] == scan.seen[i]
        },
{
    if !visit.step.passed(scan.skip) {
        if let StepModel::Met(entry) = visit.step {
            lemma_contents(text::upper(store::stem(entry.path)), entry.path, visit, config, known);
        }
    }
}

proof fn lemma_contents(
    id: Seq<char>,
    path: Seq<char>,
    visit: VisitModel,
    config: ConfigModel,
    known: Seq<Seq<char>>,
)
    ensures
        validate::task_contents(id, path, visit, config, known).0.len() == 0 <==> {
            &&& visit.file is Bytes
            &&& visit.file->Bytes_0.len() <= frontmatter::MAX_RECORD_BYTES
            &&& ({
                let read = frontmatter::task_of(id, path, visit.file->Bytes_0, config);
                &&& read is Ok
                &&& forall|i: int|
                    0 <= i < read->Ok_0.projects.len() ==> known.contains(
                        #[trigger] read->Ok_0.projects[i],
                    )
                &&& attachments::enabled(config) ==> attachments::body_issues(
                    path,
                    read->Ok_0.body,
                    config.obsidian_link_prefix,
                    visit.attachments,
                ).len() == 0
            })
        },
{
    if let FileModel::Bytes(bytes) = visit.file {
        if let Ok(task) = frontmatter::task_of(id, path, bytes, config) {
            lemma_references(task.projects, known, path, task.projects.len() as int);
        }
    }
}

proof fn lemma_references(
    projects: Seq<Seq<char>>,
    known: Seq<Seq<char>>,
    path: Seq<char>,
    n: int,
)
    requires
        0 <= n <= projects.len(),
    ensures
        validate::reference_issues(projects, known, path, n).len() == 0 <==> forall|i: int|
            0 <= i < n ==> known.contains(#[trigger] projects[i]),
    decreases n,
{
    if n > 0 {
        lemma_references(projects, known, path, n - 1);
        if !known.contains(projects[n - 1]) {
            assert(!(forall|i: int| 0 <= i < n ==> known.contains(#[trigger] projects[i])));
        }
    }
}

/// A configured directory is used where each component of its path is a directory, and no link
/// to one, and it leads to a place inside the store.
pub proof fn directories_are_used_where_they_stand(
    root: Seq<char>,
    configured: Seq<char>,
    field: Seq<char>,
    found: validate::ManagedModel,
)
    requires
        config::directory_fault(configured) is None,
    ensures
        ({
            let (place, issue) = validate::managed_found(root, configured, field, found);
            &&& place is Some <==> issue is None
            &&& place is Some <==> {
                &&& found.places.len() >= paths::parts(configured).len()
                &&& forall|i: int|
                    0 <= i < paths::parts(configured).len() ==> (
                    #[trigger] found.places[i]) is Directory
                &&& found.resolved is Ok
                &&& paths::path_begins(found.resolved->Ok_0, root)
            }
            &&& place is Some ==> place == Some(found.resolved->Ok_0)
        }),
{
    lemma_components(
        found.places,
        paths::parts(configured).len() as int,
        0,
        configured,
        field,
    );
}

proof fn lemma_components(
    places: Seq<PlaceModel>,
    n: int,
    i: int,
    configured: Seq<char>,
    field: Seq<char>,
)
    requires
        0 <= i <= n,
    ensures
        validate::component_issue(places, n, i, configured, field) is None <==> (i == n
            || places.len() >= n) && forall|k: int|
            i <= k < n ==> (#[trigger] places[k]) is Directory,
    decreases n - i,
{
    if i < n && i < places.len() {
        if places[i] is Directory {
            lemma_components(places, n, i + 1, configured, field);
        }
    }
}

/// Whether an entry below the root of a store is the store's: its table of tasks, one of its
/// directories, or one that a configured directory lies in.
pub open spec fn belongs(entry: WalkModel, config: ConfigModel) -> bool {
    let path = paths::parts(entry.path);
    ||| path == paths::parts("todos.base"@) && entry.kind == WalkKind::File
    ||| path == paths::parts(".todo"@)
    ||| path == paths::parts("Attachments"@)
    ||| config::directory_fault(config.tasks_directory) is None && paths::path_begins(
        config.tasks_directory,
        entry.path,
    )
    ||| config::directory_fault(config.projects_directory) is None && paths::path_begins(
        config.projects_directory,
        entry.path,
    )
}

/// Of what stands directly below the root of a store, all that does not belong to the store is
/// told, and nothing is told of what does.
pub proof fn strays_below_the_root_are_told(steps: Seq<StepModel>, config: ConfigModel, k: int)
    requires
        0 <= k < steps.len(),
        forall|i: int| 0 <= i < steps.len() ==> (#[trigger] steps[i]).depth() >= 1,
        steps[k] is Met,
        steps[k].depth() == 1,
    ensures
        !belongs(steps[k]->Met_0, config) ==> validate::root_issues(
            steps,
            config,
            0,
            None,
            seq![],
        ).contains(validate::stray_issue(steps[k]->Met_0.path)),
        belongs(steps[k]->Met_0, config) && steps.len() == 1 ==> validate::root_issues(
            steps,
            config,
            0,
            None,
            seq![],
        ).len() == 0,
{
    lemma_strays(steps, config, 0, None, seq![], k);
    lemma_belongs(steps[k]->Met_0, config);
    if steps.len() == 1 {
        reveal_with_fuel(validate::root_issues, 3);
    }
}

proof fn lemma_belongs(entry: WalkModel, config: ConfigModel)
    ensures
        belongs(entry, config) <==> (validate::same_path(entry.path, "todos.base"@) && entry.kind
            == WalkKind::File) || validate::is_kept(entry.path, config) || validate::is_above(
            entry.path,
            config,
        ),
{
    let path = entry.path;
    lemma_same_path(path, "todos.base"@);
    lemma_same_path(path, ".todo"@);
    lemma_same_path(path, "Attachments"@);
}

proof fn lemma_same_path(a: Seq<char>, b: Seq<char>)
    ensures
        validate::same_path(a, b) <==> paths::parts(a) == paths::parts(b),
{
    let (p, q) = (paths::parts(a), paths::parts(b));
    if validate::same_path(a, b) {
        assert(p.take(q.len() as int) =~= p);
    }
    if p == q {
        assert(p.take(q.len() as int) =~= q);
    }
}

proof fn lemma_strays(
    steps: Seq<StepModel>,
    config: ConfigModel,
    i: int,
    skip: Option<usize>,
    found: Seq<IssueModel>,
    k: int,
)
    requires
        0 <= i <= steps.len(),
        0 <= k < steps.len(),
        forall|j: int| 0 <= j < steps.len() ==> (#[trigger] steps[j]).depth() >= 1,
        steps[k] is Met,
        steps[k].depth() == 1,
        skip matches Some(depth) ==> depth >= 1,
    ensures
        ({
            let all = validate::root_issues(steps, config, i, skip, found);
            &&& all.len() >= found.len()
            &&& forall|m: int| 0 <= m < found.len() ==> #[trigger] all[m] == found[m]
            &&& i <= k && !belongs(steps[k]->Met_0, config) ==> all.contains(
                validate::stray_issue(steps[k]->Met_0.path),
            )
        }),
    decreases steps.len() - i,
{
    if i < steps.len() {
        let all = validate::root_issues(steps, config, i, skip, found);
        lemma_belongs(steps[k]->Met_0, config);
        if steps[i].passed(skip) {
            lemma_strays(steps, config, i + 1, skip, found, k);
        } else {
            match steps[i] {
                StepModel::Failed(reason, _) => {
                    let issue = IssueModel::error(
                        "store_scan_failed"@,
                        "Could not inspect store contents: "@ + reason,
                    ).at_path("."@);
                    let longer = found.push(issue);
                    lemma_strays(steps, config, i + 1, None, longer, k);
                    assert forall|m: int| 0 <= m < found.len() implies #[trigger] all[m]
                        == found[m] by {
                        assert(longer[m] == found[m]);
                    }
                },
                StepModel::Met(entry) => {
                    assert(steps[i].depth() == entry.depth);
                    if validate::same_path(entry.path, "todos.base"@) && entry.kind
                        == WalkKind::File {
                        lemma_strays(steps, config, i + 1, None, found, k);
                    } else if validate::is_kept(entry.path, config) {
                        lemma_strays(steps, config, i + 1, validate::passing(entry), found, k);
                    } else if validate::is_above(entry.path, config) {
                        lemma_strays(steps, config, i + 1, None, found, k);
                    } else {
                        let longer = found.push(validate::stray_issue(entry.path));
                        lemma_strays(steps, config, i + 1, validate::passing(entry), longer, k);
                        assert forall|m: int| 0 <= m < found.len() implies #[trigger] all[m]
                            == found[m] by {
                            assert(longer[m] == found[m]);
                        }
                        assert(longer[found.len() as int] == validate::stray_issue(entry.path));
                        assert(all[found.len() as int] == longer[found.len() as int]);
                    }
                },
            }
        }
    }
}

/// Whether an entry is the configuration or the schema.
pub open spec fn in_metadata(entry: validate::MetadataEntry) -> bool {
    entry matches validate::MetadataEntry::Named(name) && (name@ == "config.toml"@ || name@
        == "schema.json"@)
}

/// In the metadata directory there are a configuration and a schema: of anything else something
/// is said.
pub proof fn metadata_is_a_configuration_and_a_schema(entries: validate::MetadataEntries)
    ensures
        validate::metadata_issues(entries).len() == 0 <==> entries is Ok && forall|i: int|
            0 <= i < entries->Ok_0@.len() ==> in_metadata(#[trigger] entries->Ok_0@[i]),
{
    if let Ok(list) = entries {
        lemma_metadata(list@, list@.len() as int);
    }
}

proof fn lemma_metadata(entries: Seq<validate::MetadataEntry>, n: int)
    requires
        0 <= n <= entries.len(),
    ensures
        validate::metadata_entry_issues(entries, n).len() == 0 <==> forall|i: int|
            0 <= i < n ==> in_metadata(#[trigger] entries[i]),
    decreases n,
{
    if n > 0 {
        lemma_metadata(entries, n - 1);
        let issue = validate::metadata_entry_issue(entries[n - 1]);
        assert(config::issue_if(issue).len() == 0 <==> issue is None);
    }
}

} // verus!
