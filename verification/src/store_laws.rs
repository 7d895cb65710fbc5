//! Which task an ID means, which records a store has, and which store is meant.
use vstd::prelude::*;

use crate::discovery::{self, DiscoveryOptions, NamedRoot, StoreMarks, Surroundings};
use crate::error::ErrorModel;
use crate::model;
use crate::store::{self, CandidateModel, WalkKind, WalkModel};
use crate::text;

verus! {

/// Whether an ID begins with the given text, in capitals.
pub open spec fn id_begins(id: Seq<char>, beginning: Seq<char>) -> bool {
    exists|rest: Seq<char>| #[trigger] (text::upper(beginning) + rest) == id
}

proof fn lemma_begins(id: Seq<char>, prefix: Seq<char>)
    ensures
        text::begins(id, prefix) <==> exists|rest: Seq<char>| #[trigger] (prefix + rest) == id,
{
    if text::begins(id, prefix) {
        let rest = id.subrange(prefix.len() as int, id.len() as int);
        assert(prefix + rest =~= id);
    }
    if exists|rest: Seq<char>| #[trigger] (prefix + rest) == id {
        let rest = choose|rest: Seq<char>| #[trigger] (prefix + rest) == id;
        assert(id.subrange(0, prefix.len() as int) =~= prefix);
    }
}

proof fn lemma_matching(candidates: Seq<CandidateModel>, prefix: Seq<char>, n: int)
    requires
        0 <= n <= candidates.len(),
    ensures
        ({
            let found = store::matching(candidates, prefix, n);
            &&& forall|k: int|
                0 <= k < n && text::begins((#[trigger] candidates[k]).id, prefix)
                    ==> found.contains(candidates[k])
            &&& forall|j: int|
                0 <= j < found.len() ==> exists|k: int|
                    0 <= k < n && #[trigger] candidates[k] == #[trigger] found[j] && text::begins(
                        candidates[k].id,
                        prefix,
                    )
            &&& (forall|k: int|
                0 <= k < n ==> !text::begins((#[trigger] candidates[k]).id, prefix)) <==> found.len()
                == 0
            &&& (exists|a: int, b: int|
                0 <= a < b < n && text::begins((#[trigger] candidates[a]).id, prefix)
                    && text::begins((#[trigger] candidates[b]).id, prefix)) <==> found.len() > 1
        }),
    decreases n,
{
    if n > 0 {
        lemma_matching(candidates, prefix, n - 1);
        let before = store::matching(candidates, prefix, n - 1);
        let found = store::matching(candidates, prefix, n);
        let last = candidates[n - 1];
        if text::begins(last.id, prefix) {
            assert(found[before.len() as int] == last);
            assert forall|k: int|
                0 <= k < n && text::begins((#[trigger] candidates[k]).id, prefix) implies found.contains(
                candidates[k],
            ) by {
                if k < n - 1 {
                    let j = before.index_of(candidates[k]);
                    assert(found[j] == candidates[k]);
                }
            }
            assert forall|j: int| 0 <= j < found.len() implies exists|k: int|
                0 <= k < n && #[trigger] candidates[k] == #[trigger] found[j] && text::begins(
                    candidates[k].id,
                    prefix,
                ) by {
                if j < before.len() {
                    assert(found[j] == before[j]);
                } else {
                    assert(candidates[n - 1] == found[j]);
                }
            }
            if found.len() > 1 {
                assert(before.len() > 0);
                let k = choose|k: int|
                    0 <= k < n - 1 && #[trigger] candidates[k] == before[0] && text::begins(
                        candidates[k].id,
                        prefix,
                    );
                assert(text::begins(candidates[k].id, prefix) && text::begins(
                    candidates[n - 1].id,
                    prefix,
                ));
            }
            if exists|a: int, b: int|
                0 <= a < b < n && text::begins((#[trigger] candidates[a]).id, prefix)
                    && text::begins((#[trigger] candidates[b]).id, prefix) {
                let (a, b) = choose|a: int, b: int|
                    0 <= a < b < n && text::begins((#[trigger] candidates[a]).id, prefix)
                        && text::begins((#[trigger] candidates[b]).id, prefix);
                assert(before.len() > 0) by {
                    assert(text::begins(candidates[a].id, prefix));
                }
            }
        } else {
            if exists|a: int, b: int|
                0 <= a < b < n && text::begins((#[trigger] candidates[a]).id, prefix)
                    && text::begins((#[trigger] candidates[b]).id, prefix) {
                let (a, b) = choose|a: int, b: int|
                    0 <= a < b < n && text::begins((#[trigger] candidates[a]).id, prefix)
                        && text::begins((#[trigger] candidates[b]).id, prefix);
                assert(b < n - 1);
            }
        }
    }
}

/// The beginning of an ID, of at least six characters and in any letters, means the task whose ID
/// begins so, where it is the only one; where there are several, or none, it means no task.
pub proof fn beginnings_mean_the_only_task(
    candidates: Seq<CandidateModel>,
    beginning: Seq<char>,
    i: int,
)
    requires
        0 <= i < candidates.len(),
    ensures
        store::meant(candidates, beginning) == Ok::<CandidateModel, ErrorModel>(candidates[i]) ==> {
            &&& 6 <= beginning.len() <= 26
            &&& id_begins(candidates[i].id, beginning)
            &&& forall|k: int|
                0 <= k < candidates.len() && candidates[k] != candidates[i] ==> !id_begins(
                    (#[trigger] candidates[k]).id,
                    beginning,
                )
        },
        store::check_distinct(candidates) is Ok && model::id_prefix(beginning) && id_begins(
            candidates[i].id,
            beginning,
        ) && (forall|k: int|
            0 <= k < candidates.len() && k != i ==> !id_begins(
                (#[trigger] candidates[k]).id,
                beginning,
            )) ==> store::meant(candidates, beginning) == Ok::<CandidateModel, ErrorModel>(
            candidates[i],
        ),
        (exists|a: int, b: int|
            0 <= a < b < candidates.len() && id_begins((#[trigger] candidates[a]).id, beginning)
                && id_begins((#[trigger] candidates[b]).id, beginning)) ==> store::meant(
            candidates,
            beginning,
        ) is Err,
        (forall|k: int|
            0 <= k < candidates.len() ==> !id_begins((#[trigger] candidates[k]).id, beginning))
            ==> store::meant(candidates, beginning) is Err,
{
    let prefix = text::upper(beginning);
    let n = candidates.len() as int;
    let found = store::matching(candidates, prefix, n);
    lemma_matching(candidates, prefix, n);
    assert forall|k: int| 0 <= k < n implies (#[trigger] id_begins(candidates[k].id, beginning)
        <==> text::begins(candidates[k].id, prefix)) by {
        lemma_begins(candidates[k].id, prefix);
    }
    if store::meant(candidates, beginning) is Ok {
        let k = choose|k: int|
            0 <= k < n && #[trigger] candidates[k] == found[0] && text::begins(
                candidates[k].id,
                prefix,
            );
        assert(id_begins(candidates[k].id, beginning));
        assert forall|j: int|
            0 <= j < n && candidates[j] != found[0] implies !id_begins(
            (#[trigger] candidates[j]).id,
            beginning,
        ) by {
            if id_begins(candidates[j].id, beginning) {
                assert(found.contains(candidates[j]));
            }
        }
    }
    if (forall|k: int|
        0 <= k < n && k != i ==> !id_begins((#[trigger] candidates[k]).id, beginning)) && id_begins(
        candidates[i].id,
        beginning,
    ) {
        assert(text::begins(candidates[i].id, prefix));
        assert(found.contains(candidates[i]));
        if found.len() > 1 {
            let (a, b) = choose|a: int, b: int|
                0 <= a < b < n && text::begins((#[trigger] candidates[a]).id, prefix)
                    && text::begins((#[trigger] candidates[b]).id, prefix);
            assert(id_begins(candidates[a].id, beginning) && id_begins(
                candidates[b].id,
                beginning,
            ));
        }
        let j = found.index_of(candidates[i]);
        assert(found[j] == candidates[i]);
    }
    if exists|a: int, b: int|
        0 <= a < b < n && id_begins((#[trigger] candidates[a]).id, beginning) && id_begins(
            (#[trigger] candidates[b]).id,
            beginning,
        ) {
        let (a, b) = choose|a: int, b: int|
            0 <= a < b < n && id_begins((#[trigger] candidates[a]).id, beginning) && id_begins(
                (#[trigger] candidates[b]).id,
                beginning,
            );
        assert(text::begins(candidates[a].id, prefix) && text::begins(candidates[b].id, prefix));
    }
    if forall|k: int| 0 <= k < n ==> !id_begins((#[trigger] candidates[k]).id, beginning) {
        assert forall|k: int| 0 <= k < n implies !text::begins(
            (#[trigger] candidates[k]).id,
            prefix,
        ) by {
            assert(!id_begins(candidates[k].id, beginning));
        }
    }
}

/// Records are accepted where no two have one ID.
pub proof fn ids_are_all_different(candidates: Seq<CandidateModel>)
    ensures
        store::check_distinct(candidates) is Ok <==> forall|a: int, b: int|
            0 <= a < b < candidates.len() ==> (#[trigger] candidates[a]).id != (
            #[trigger] candidates[b]).id,
{
    lemma_repeated(candidates, 0);
}

proof fn lemma_first_with(candidates: Seq<CandidateModel>, id: Seq<char>, i: int)
    requires
        0 <= i <= candidates.len(),
    ensures
        ({
            let k = store::first_with(candidates, id, i);
            &&& i <= k <= candidates.len()
            &&& k < candidates.len() ==> candidates[k].id == id
            &&& forall|j: int| i <= j < k ==> (#[trigger] candidates[j]).id != id
        }),
    decreases candidates.len() - i,
{
    if i < candidates.len() && candidates[i].id != id {
        lemma_first_with(candidates, id, i + 1);
    }
}

proof fn lemma_repeated(candidates: Seq<CandidateModel>, i: int)
    requires
        0 <= i <= candidates.len(),
    ensures
        store::repeated_from(candidates, i) is None <==> forall|a: int, b: int|
            0 <= a < b < candidates.len() && i <= b ==> (#[trigger] candidates[a]).id != (
            #[trigger] candidates[b]).id,
    decreases candidates.len() - i,
{
    if i < candidates.len() {
        lemma_first_with(candidates, candidates[i].id, 0);
        lemma_repeated(candidates, i + 1);
        let k = store::first_with(candidates, candidates[i].id, 0);
        if k < i {
            assert(candidates[k].id == candidates[i].id);
        } else {
            assert forall|a: int| 0 <= a < i implies (#[trigger] candidates[a]).id
                != candidates[i].id by {}
        }
    }
}

/// Each Markdown file below the directory of tasks is a task, with the ID that its name is, in
/// capitals; each one in that of projects is a project, with the slug that its name is. What is no
/// Markdown file, or a directory, is none. One that is a symlink, or is named otherwise, is an error.
pub proof fn records_are_the_markdown_files(
    entries: Seq<WalkModel>,
    project: bool,
    found: Seq<CandidateModel>,
    record: CandidateModel,
)
    requires
        store::records_from(entries, project, 0, seq![]) == Ok::<
            Seq<CandidateModel>,
            ErrorModel,
        >(found),
    ensures
        found.contains(record) <==> exists|i: int|
            0 <= i < entries.len() && is_record(#[trigger] entries[i], project, record),
        forall|i: int|
            0 <= i < entries.len() && (#[trigger] entries[i]).depth > 0 && store::markdown_file(
                entries[i].path,
            ) ==> entries[i].kind != WalkKind::Symlink && (entries[i].kind == WalkKind::File ==> {
                &&& project ==> entries[i].depth == 1 && model::slug(store::stem(entries[i].path))
                &&& !project ==> model::task_id(store::stem(entries[i].path))
            }),
{
    lemma_records(entries, project, 0, seq![], record);
}

/// Whether a file is the record.
pub open spec fn is_record(entry: WalkModel, project: bool, record: CandidateModel) -> bool {
    &&& entry.depth > 0
    &&& entry.kind == WalkKind::File
    &&& store::markdown_file(entry.path)
    &&& record.path == entry.path
    &&& project ==> record.id == store::stem(entry.path)
    &&& !project ==> record.id == text::upper(store::stem(entry.path))
}

proof fn lemma_records(
    entries: Seq<WalkModel>,
    project: bool,
    i: int,
    had: Seq<CandidateModel>,
    record: CandidateModel,
)
    requires
        0 <= i <= entries.len(),
    ensures
        store::records_from(entries, project, i, had) matches Ok(found) ==> {
            &&& found.contains(record) <==> had.contains(record) || exists|k: int|
                i <= k < entries.len() && is_record(#[trigger] entries[k], project, record)
            &&& forall|k: int|
                i <= k < entries.len() && (#[trigger] entries[k]).depth > 0 && store::markdown_file(
                    entries[k].path,
                ) ==> entries[k].kind != WalkKind::Symlink && (entries[k].kind == WalkKind::File
                    ==> {
                    &&& project ==> entries[k].depth == 1 && model::slug(
                        store::stem(entries[k].path),
                    )
                    &&& !project ==> model::task_id(store::stem(entries[k].path))
                })
        },
    decreases entries.len() - i,
{
    if i < entries.len() {
        match store::record_at(entries[i], project) {
            Err(_) => {},
            Ok(None) => {
                lemma_records(entries, project, i + 1, had, record);
                assert(!is_record(entries[i], project, record));
            },
            Ok(Some(one)) => {
                let more = had.push(one);
                lemma_records(entries, project, i + 1, more, record);
                assert(is_record(entries[i], project, record) <==> record == one);
                if had.contains(record) {
                    assert(more[had.index_of(record)] == record);
                }
                assert(more[had.len() as int] == one);
                if more.contains(record) && record != one {
                    assert(had[more.index_of(record)] == record);
                }
            },
        }
    }
}

/// The store that is meant is the one that is asked for; else the one that the environment names;
/// else the first directory, from the current one outwards, that is a store; else the only store in
/// the current directory. Where that has several, none is meant.
pub proof fn the_nearest_store_is_meant(
    r: Result<Seq<char>, ErrorModel>,
    options: DiscoveryOptions,
    named: NamedRoot,
    around: Surroundings,
)
    requires
        discovery::is_meant(r, options, named, around),
    ensures
        options.explicit_root is Some && r is Ok ==> named.look is Directory && (
        named.resolved matches Ok(marks) && marks.store() && r->Ok_0 == marks.path@),
        options.explicit_root is None && options.environment_root is Some && r is Ok
            ==> named.look is Directory && (named.resolved matches Ok(marks) && marks.store()
            && r->Ok_0 == marks.path@),
        options.explicit_root is None && options.environment_root is None ==> (
        around.ancestors matches Ok(ancestors) ==> {
            &&& forall|i: int|
                0 <= i < ancestors@.len() && (#[trigger] ancestors@[i]).store() && (forall|k: int|
                    0 <= k < i ==> !(#[trigger] ancestors@[k]).store()) ==> r == Ok::<
                    Seq<char>,
                    ErrorModel,
                >(ancestors@[i].path@)
            &&& (forall|i: int| 0 <= i < ancestors@.len() ==> !(#[trigger] ancestors@[i]).store())
                ==> (around.children matches Ok(children) ==> {
                &&& forall|i: int|
                    0 <= i < children@.len() && (#[trigger] children@[i]).store() && (forall|k: int|
                        0 <= k < children@.len() && k != i ==> !(
                        #[trigger] children@[k]).store()) ==> r == Ok::<Seq<char>, ErrorModel>(
                        children@[i].path@,
                    )
                &&& (exists|a: int, b: int|
                    0 <= a < b < children@.len() && (#[trigger] children@[a]).store() && (
                    #[trigger] children@[b]).store()) ==> r is Err
                &&& (forall|k: int| 0 <= k < children@.len() ==> !(#[trigger] children@[k]).store())
                    ==> r is Err
            })
        }),
{
    if let Ok(ancestors) = around.ancestors {
        lemma_first_store(ancestors@, 0);
        if let Ok(children) = around.children {
            lemma_stores(children@);
        }
    }
}

proof fn lemma_first_store(marks: Seq<StoreMarks>, i: int)
    requires
        0 <= i <= marks.len(),
    ensures
        match discovery::first_store(marks, i) {
            Some(k) => i <= k < marks.len() && marks[k].store() && forall|j: int|
                i <= j < k ==> !(#[trigger] marks[j]).store(),
            None => forall|j: int| i <= j < marks.len() ==> !(#[trigger] marks[j]).store(),
        },
    decreases marks.len() - i,
{
    if i < marks.len() && !marks[i].store() {
        lemma_first_store(marks, i + 1);
    }
}

/// The stores among directories.
proof fn lemma_stores(marks: Seq<StoreMarks>)
    ensures
        (forall|k: int| 0 <= k < marks.len() ==> !(#[trigger] marks[k]).store()) <==> discovery::stores(
            marks,
        ).len() == 0,
        (exists|a: int, b: int|
            0 <= a < b < marks.len() && (#[trigger] marks[a]).store() && (
            #[trigger] marks[b]).store()) <==> discovery::stores(marks).len() > 1,
        forall|i: int|
            0 <= i < marks.len() && (#[trigger] marks[i]).store() && (forall|k: int|
                0 <= k < marks.len() && k != i ==> !(#[trigger] marks[k]).store())
                ==> discovery::stores(marks) == seq![marks[i]],
    decreases marks.len(),
{
    reveal(Seq::filter);
    let found = discovery::stores(marks);
    if marks.len() > 0 {
        let before = marks.drop_last();
        let last = marks.last();
        lemma_stores(before);
        let less = discovery::stores(before);
        assert(found == if last.store() {
            less.push(last)
        } else {
            less
        });
        assert forall|k: int| 0 <= k < before.len() implies #[trigger] before[k] == marks[k] by {}
        assert(last == marks[marks.len() - 1]);
        if found.len() > 1 && last.store() {
            assert(less.len() > 0);
            let k = choose|k: int| 0 <= k < before.len() && (#[trigger] before[k]).store();
            assert(marks[k].store() && marks[marks.len() - 1].store());
        }
        if found.len() > 1 && !last.store() {
            let (a, b) = choose|a: int, b: int|
                0 <= a < b < before.len() && (#[trigger] before[a]).store() && (
                #[trigger] before[b]).store();
            assert(marks[a].store() && marks[b].store());
        }
        if exists|a: int, b: int|
            0 <= a < b < marks.len() && (#[trigger] marks[a]).store() && (
            #[trigger] marks[b]).store() {
            let (a, b) = choose|a: int, b: int|
                0 <= a < b < marks.len() && (#[trigger] marks[a]).store() && (
                #[trigger] marks[b]).store();
            assert(before[a] == marks[a]);
            if b < before.len() {
                assert(before[b] == marks[b]);
            }
        }
        assert forall|i: int|
            0 <= i < marks.len() && (#[trigger] marks[i]).store() && (forall|k: int|
                0 <= k < marks.len() && k != i ==> !(#[trigger] marks[k]).store()) implies found
            == seq![marks[i]] by {
            if i == marks.len() - 1 {
                assert forall|k: int| 0 <= k < before.len() implies !(#[trigger] before[k]).store() by {
                    assert(before[k] == marks[k]);
                }
                assert(less =~= Seq::<StoreMarks>::empty());
                assert(found =~= seq![marks[i]]);
            } else {
                assert(!marks[marks.len() - 1].store());
                assert(before[i].store());
                assert forall|k: int| 0 <= k < before.len() && k != i implies !(
                #[trigger] before[k]).store() by {
                    assert(before[k] == marks[k]);
                }
            }
        }
        if forall|k: int| 0 <= k < marks.len() ==> !(#[trigger] marks[k]).store() {
            assert forall|k: int| 0 <= k < before.len() implies !(#[trigger] before[k]).store() by {
                assert(before[k] == marks[k]);
            }
            assert(!marks[marks.len() - 1].store());
        }
        if found.len() == 0 {
            assert forall|k: int| 0 <= k < marks.len() implies !(#[trigger] marks[k]).store() by {
                if k < before.len() {
                    assert(!before[k].store());
                }
            }
        }
    }
}

/// A directory is a store where it has a real metadata directory and a configuration in it that is a
/// regular file.
pub proof fn stores_have_a_configuration(marks: StoreMarks)
    ensures
        marks.store() <==> marks.metadata is Directory && marks.config is File,
{
}

} // verus!
