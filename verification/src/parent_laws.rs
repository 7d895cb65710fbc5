//! What holds of the parents of tasks: when all tasks stand where they can, and what is said
//! where one does not.
use crate::commands::task;
use crate::parents::{self, RecordModel};
use crate::paths;
use crate::text;
use vstd::prelude::*;

verus! {

/// Whether one record names another, or itself, as its parent.
pub open spec fn leads(records: Seq<RecordModel>, i: int, j: int) -> bool {
    &&& 0 <= i < records.len()
    &&& 0 <= j < records.len()
    &&& records[i].parent is Some
    &&& text::upper(records[j].id) == text::upper(records[i].parent->0)
}

/// Whether each record of a walk names the next as its parent.
pub open spec fn walks(records: Seq<RecordModel>, walk: Seq<int>) -> bool {
    &&& walk.len() >= 2
    &&& forall|k: int| 0 <= k < walk.len() - 1 ==> leads(records, #[trigger] walk[k], walk[k + 1])
}

/// Whether the tasks stand where they can: no two have the same ID, however its letters are
/// written; each parent is one of them; and no walk from parent to parent comes back.
pub open spec fn stand(records: Seq<RecordModel>) -> bool {
    &&& forall|i: int, j: int|
        #![trigger records[i], records[j]]
        0 <= i < j < records.len() ==> text::upper(records[i].id) != text::upper(records[j].id)
    &&& forall|i: int|
        0 <= i < records.len() && (#[trigger] records[i]).parent is Some ==> exists|j: int|
            leads(records, i, j)
    &&& forall|walk: Seq<int>| #[trigger] walks(records, walk) ==> walk[0] != walk.last()
}

/// Nothing is wrong with the parents of tasks just where all tasks stand where they can.
pub proof fn parents_are_accepted_where_tasks_stand(records: Seq<RecordModel>)
    ensures
        parents::check_relations(records) is Ok <==> stand(records),
{
    if parents::check_relations(records) is Ok {
        lemma_all_differ(records);
        assert forall|i: int|
            0 <= i < records.len() && (#[trigger] records[i]).parent is Some implies exists|j: int|
            leads(records, i, j) by {
            assert(parents::fault(records, i) is None);
            let parent = text::upper(records[i].parent->0);
            assert(parents::exists_identity(records, parent));
            let j = choose|j: int|
                0 <= j < records.len() && #[trigger] parents::identity(records, j) == parent;
            assert(leads(records, i, j));
        }
        assert forall|walk: Seq<int>| #[trigger] walks(records, walk) implies walk[0]
            != walk.last() by {
            if walk[0] == walk.last() {
                lemma_walk_is_ancestry(records, walk, walk.len() - 1);
                let i = walk[0];
                assert(leads(records, walk[0], walk[1]));
                assert(parents::ancestor(records, i, (walk.len() - 1) as nat) == Some(i));
                assert(parents::on_cycle(records, i));
                assert(parents::fault(records, i) is None);
            }
        }
    }
    if stand(records) {
        assert forall|i: int| 0 <= i < records.len() implies #[trigger] parents::fault(
            records,
            i,
        ) is None by {
            lemma_single(records, i);
            if records[i].parent is Some {
                let j = choose|j: int| leads(records, i, j);
                assert(leads(records, i, j));
                let parent = text::upper(records[i].parent->0);
                assert(parents::identity(records, j) == parent);
                assert(parents::exists_identity(records, parent));
                if parent == parents::identity(records, i) {
                    let walk = seq![i, i];
                    assert(walk[0] == i && walk[1] == i);
                    assert(leads(records, i, i));
                    assert(walks(records, walk));
                    assert(false);
                }
                if parents::on_cycle(records, i) {
                    let steps = choose|steps: nat|
                        steps > 0 && #[trigger] parents::ancestor(records, i, steps) == Some(i);
                    let walk = lemma_ancestry_is_walk(records, i, steps);
                    assert(false);
                }
            }
        }
        assert(parents::faultless(records));
    }
}

proof fn lemma_single(records: Seq<RecordModel>, i: int)
    requires
        stand(records),
        0 <= i < records.len(),
    ensures
        !parents::ambiguous(records, i),
{
    assert forall|j: int| 0 <= j < records.len() && j != i implies #[trigger] parents::identity(
        records,
        j,
    ) != parents::identity(records, i) by {
        assert(records[i] == records[i] && records[j] == records[j]);
        if j < i {
            assert(text::upper(records[j].id) != text::upper(records[i].id));
        } else {
            assert(text::upper(records[i].id) != text::upper(records[j].id));
        }
    }
}

/// Where there is no fault, no two records have the same identity: of those that have, the one
/// that comes first would be told.
proof fn lemma_all_differ(records: Seq<RecordModel>)
    requires
        parents::faultless(records),
    ensures
        forall|i: int|
            0 <= i < records.len() ==> !#[trigger] parents::ambiguous(records, i),
        forall|i: int, j: int|
            #![trigger records[i], records[j]]
            0 <= i < j < records.len() ==> text::upper(records[i].id) != text::upper(records[j].id),
{
    assert forall|i: int| 0 <= i < records.len() implies !#[trigger] parents::ambiguous(
        records,
        i,
    ) by {
        if parents::ambiguous(records, i) {
            let id = parents::identity(records, i);
            let first = lemma_first_of(records, id, i, records.len() as int);
            assert(parents::representative(records, first));
            if first != i {
                assert(parents::identity(records, i) == parents::identity(records, first));
                assert(parents::ambiguous(records, first));
            }
            assert(parents::fault(records, first) is Some);
            assert(false);
        }
    }
    assert forall|i: int, j: int|
        #![trigger records[i], records[j]]
        0 <= i < j < records.len() implies text::upper(records[i].id) != text::upper(
        records[j].id,
    ) by {
        assert(!parents::ambiguous(records, i));
        assert(parents::identity(records, j) == text::upper(records[j].id));
    }
}

spec fn before(records: Seq<RecordModel>, i: int, j: int) -> bool {
    paths::path_less(records[i].path, records[j].path) || (!paths::path_less(
        records[j].path,
        records[i].path,
    ) && i < j)
}

proof fn lemma_before(records: Seq<RecordModel>, i: int, j: int, k: int)
    requires
        i != j,
    ensures
        before(records, i, j) || before(records, j, i),
        before(records, i, j) && before(records, j, k) ==> before(records, i, k),
{
    let a = paths::parts(records[i].path);
    let b = paths::parts(records[j].path);
    let c = paths::parts(records[k].path);
    paths::lemma_parts_less_one_way(a, b, 0);
    paths::lemma_parts_less_one_way(b, c, 0);
    if paths::parts_less(a, b, 0) {
        paths::lemma_parts_less_no_gap(a, c, b, 0);
    }
    if paths::parts_less(b, c, 0) {
        paths::lemma_parts_less_no_gap(b, a, c, 0);
    }
    if paths::parts_less(c, a, 0) {
        paths::lemma_parts_less_no_gap(c, b, a, 0);
    }
}

/// Of the records with an identity, the one whose path comes first.
proof fn lemma_first_of(records: Seq<RecordModel>, id: Seq<char>, i: int, n: int) -> (first: int)
    requires
        0 <= i < records.len(),
        0 <= n <= records.len(),
        parents::identity(records, i) == id,
    ensures
        0 <= first < records.len(),
        parents::identity(records, first) == id,
        forall|j: int|
            0 <= j < n && j != first && #[trigger] parents::identity(records, j) == id ==> before(
                records,
                first,
                j,
            ),
    decreases n,
{
    if n == 0 {
        i
    } else {
        let k = n - 1;
        let first = lemma_first_of(records, id, i, k);
        if k == first || parents::identity(records, k) != id || before(records, first, k) {
            first
        } else {
            lemma_before(records, first, k, k);
            assert forall|j: int|
                0 <= j < n && j != k && #[trigger] parents::identity(
                    records,
                    j,
                ) == id implies before(records, k, j) by {
                if j != first {
                    lemma_before(records, k, first, j);
                }
            }
            k
        }
    }
}

/// Where all identities differ and none names itself, who names a record as a parent has it as
/// the parent.
proof fn lemma_parent(records: Seq<RecordModel>, i: int, j: int)
    requires
        leads(records, i, j),
        i != j,
        !parents::ambiguous(records, i),
        !parents::ambiguous(records, j),
    ensures
        parents::parent_of(records, i) == Some(j),
{
    assert(parents::names_parent(records, i, j));
    let chosen = choose|k: int| k != i && parents::names_parent(records, i, k);
    if chosen != j {
        assert(parents::identity(records, chosen) == parents::identity(records, j));
        assert(parents::ambiguous(records, j));
    }
}

proof fn lemma_walk_is_ancestry(records: Seq<RecordModel>, walk: Seq<int>, n: int)
    requires
        parents::faultless(records),
        forall|i: int| 0 <= i < records.len() ==> !#[trigger] parents::ambiguous(records, i),
        walks(records, walk),
        0 <= n < walk.len(),
    ensures
        parents::ancestor(records, walk[0], n as nat) == Some(walk[n]),
    decreases n,
{
    if n > 0 {
        lemma_walk_is_ancestry(records, walk, n - 1);
        let (i, j) = (walk[n - 1], walk[n]);
        assert(walk[n - 1 + 1] == walk[n]);
        assert(leads(records, walk[n - 1], walk[n]));
        assert(!parents::ambiguous(records, i));
        assert(!parents::ambiguous(records, j));
        if i == j {
            assert(parents::fault(records, i) is None);
            assert(parents::identity(records, i) == text::upper(records[i].parent->0));
            assert(false);
        }
        lemma_parent(records, i, j);
    }
}

proof fn lemma_ancestry_is_walk(records: Seq<RecordModel>, i: int, steps: nat) -> (walk: Seq<int>)
    requires
        0 <= i < records.len(),
        steps > 0,
        parents::ancestor(records, i, steps) is Some,
    ensures
        walks(records, walk),
        walk[0] == i,
        walk.last() == parents::ancestor(records, i, steps)->0,
    decreases steps,
{
    let last = parents::ancestor(records, i, steps)->0;
    let before = parents::ancestor(records, i, (steps - 1) as nat);
    assert(before is Some);
    let at = before->0;
    assert(parents::parent_of(records, at) == Some(last));
    assert(parents::names_parent(records, at, last));
    if steps == 1 {
        let walk = seq![i, last];
        assert(at == i);
        assert(leads(records, i, last));
        assert(walk[0] == i && walk[1] == last);
        walk
    } else {
        let shorter = lemma_ancestry_is_walk(records, i, (steps - 1) as nat);
        let walk = shorter.push(last);
        let n = shorter.len() as int;
        assert(leads(records, shorter[n - 2], shorter[n - 2 + 1]));
        assert(leads(records, at, last));
        assert forall|k: int| 0 <= k < walk.len() - 1 implies leads(
            records,
            #[trigger] walk[k],
            walk[k + 1],
        ) by {
            if k < n - 1 {
                assert(leads(records, shorter[k], shorter[k + 1]));
                assert(walk[k] == shorter[k] && walk[k + 1] == shorter[k + 1]);
            } else {
                assert(walk[k] == at && walk[k + 1] == last);
            }
        }
        walk
    }
}

/// What is told of a record that does not stand where it can: that its ID is there more than
/// once, that its parent is not there, that it is its own parent, or that it comes back to
/// itself, each just where that is so.
pub proof fn faults_say_what_is_wrong(records: Seq<RecordModel>, i: int)
    requires
        0 <= i < records.len(),
        parents::fault(records, i) is Some,
    ensures
        ({
            let issue = parents::fault(records, i)->0;
            let again = exists|j: int|
                #![trigger records[j]]
                0 <= j < records.len() && j != i && text::upper(records[j].id) == text::upper(
                    records[i].id,
                );
            &&& issue.path == Some(records[i].path)
            &&& (issue.code == "duplicate_task_id"@) == again
            &&& (issue.code == "missing_parent_reference"@) == (!again && records[i].parent is Some
                && forall|j: int| !leads(records, i, j))
            &&& (issue.code == "self_parent_reference"@) == (!again && leads(records, i, i))
            &&& issue.code == "duplicate_task_id"@ || issue.code == "missing_parent_reference"@
                || issue.code == "self_parent_reference"@ || issue.code == "parent_cycle"@
        }),
{
    reveal_strlit("duplicate_task_id");
    reveal_strlit("parent_cycle");
    reveal_strlit("missing_parent_reference");
    reveal_strlit("self_parent_reference");
    assert("duplicate_task_id"@.len() == 17);
    assert("parent_cycle"@.len() == 12);
    assert("missing_parent_reference"@.len() == 24);
    assert("self_parent_reference"@.len() == 21);
    let again = exists|j: int|
        #![trigger records[j]]
        0 <= j < records.len() && j != i && text::upper(records[j].id) == text::upper(
            records[i].id,
        );
    if again {
        let j = choose|j: int|
            #![trigger records[j]]
            0 <= j < records.len() && j != i && text::upper(records[j].id) == text::upper(
                records[i].id,
            );
        assert(parents::identity(records, j) == parents::identity(records, i));
    }
    if parents::ambiguous(records, i) {
        let j = choose|j: int|
            0 <= j < records.len() && j != i && #[trigger] parents::identity(records, j)
                == parents::identity(records, i);
        assert(records[j] == records[j]);
        assert(again);
    }
    if records[i].parent is Some {
        let parent = text::upper(records[i].parent->0);
        if parents::exists_identity(records, parent) {
            let j = choose|j: int|
                0 <= j < records.len() && #[trigger] parents::identity(records, j) == parent;
            assert(leads(records, i, j));
        } else {
            assert forall|j: int| !leads(records, i, j) by {
                if leads(records, i, j) {
                    assert(parents::identity(records, j) == parent);
                }
            }
        }
    }
}

/// A task can be put under another that is there, and never under itself.
pub proof fn parents_that_are_chosen_are_there(head: RecordModel, records: Seq<RecordModel>)
    requires
        task::check_destination(head, records) is Ok,
    ensures
        head.parent matches Some(parent) ==> parent != head.id && exists|i: int|
            0 <= i < records.len() && (#[trigger] records[i]).id == parent,
{
    if let Some(parent) = head.parent {
        let line = task::lineage(records, Some(parent), seq![head], records.len());
        parents_are_accepted_where_tasks_stand(line);
        if parent == head.id {
            let one = seq![head];
            assert(one[0].id == parent);
            assert(task::named_before(one, parent));
            assert(line == one);
            let walk = seq![0int, 0int];
            assert(leads(line, 0, 0));
            assert(walk[0] == 0 && walk[1] == 0);
            assert(walks(line, walk));
            assert(false);
        }
        lemma_last_record(records, parent, records.len() as int);
    }
}

proof fn lemma_last_record(records: Seq<RecordModel>, id: Seq<char>, n: int)
    requires
        0 <= n <= records.len(),
    ensures
        task::last_record(records, id, n) matches Some(i) ==> 0 <= i < n && records[i].id == id,
    decreases n,
{
    if n > 0 && records[n - 1].id != id {
        lemma_last_record(records, id, n - 1);
    }
}

/// Whether each record of a line names the next one's ID as its parent, no record is in it twice,
/// and none has the ID.
pub open spec fn descends(records: Seq<RecordModel>, line: Seq<int>, id: Seq<char>) -> bool {
    &&& line.len() > 0
    &&& line.no_duplicates()
    &&& forall|k: int|
        0 <= k < line.len() ==> 0 <= #[trigger] line[k] < records.len() && records[line[k]].id != id
    &&& forall|k: int|
        0 <= k < line.len() - 1 ==> records[#[trigger] line[k]].parent == Some(
            records[line[k + 1]].id,
        )
}

/// A task cannot be put under one that descends from it, however far.
pub proof fn tasks_are_not_put_below_their_descendants(
    head: RecordModel,
    records: Seq<RecordModel>,
    line: Seq<int>,
)
    requires
        forall|i: int, j: int|
            #![trigger records[i], records[j]]
            0 <= i < j < records.len() ==> records[i].id != records[j].id,
        descends(records, line, head.id),
        head.parent == Some(records[line[0]].id),
        records[line.last()].parent == Some(head.id),
    ensures
        task::check_destination(head, records) is Err,
{
    let n = line.len() as int;
    lemma_few(line, records.len() as int);
    let found = Seq::new(
        (n + 1) as nat,
        |k: int|
            if k == 0 {
                head
            } else {
                records[line[k - 1]]
            },
    );
    lemma_lineage(head, records, line, found, 0);
    assert(found.take(1) =~= seq![head]);
    let parent = head.parent->0;
    let all = task::lineage(records, Some(parent), seq![head], records.len());
    assert(all == found);
    lemma_is_record(records, line[0]);
    let walk = Seq::new(
        (n + 2) as nat,
        |k: int|
            if k == n + 1 {
                0int
            } else {
                k
            },
    );
    assert forall|k: int| 0 <= k < walk.len() - 1 implies leads(
        found,
        #[trigger] walk[k],
        walk[k + 1],
    ) by {
        if k == 0 {
            assert(found[1] == records[line[0]]);
        } else if k < n {
            assert(found[k] == records[line[k - 1]]);
            assert(found[k + 1] == records[line[k]]);
            assert(records[line[k - 1]].parent == Some(records[line[k - 1 + 1]].id));
        } else {
            assert(found[n] == records[line[n - 1]]);
            assert(walk[n + 1] == 0);
        }
    }
    assert(walks(found, walk));
    assert(walk[0] == 0 && walk.last() == 0);
    assert(!stand(found));
    parents_are_accepted_where_tasks_stand(found);
}

proof fn lemma_few(line: Seq<int>, n: int)
    requires
        line.no_duplicates(),
        forall|k: int| 0 <= k < line.len() ==> 0 <= #[trigger] line[k] < n,
        0 <= n,
    ensures
        line.len() <= n,
{
    let all = vstd::set_lib::set_int_range(0, n);
    vstd::set_lib::lemma_int_range(0, n);
    line.unique_seq_to_set();
    assert(line.to_set().subset_of(all));
    vstd::set_lib::lemma_len_subset(line.to_set(), all);
}

proof fn lemma_is_record(records: Seq<RecordModel>, i: int)
    requires
        0 <= i < records.len(),
        forall|a: int, b: int|
            #![trigger records[a], records[b]]
            0 <= a < b < records.len() ==> records[a].id != records[b].id,
    ensures
        task::last_record(records, records[i].id, records.len() as int) == Some(i),
{
    lemma_last_is(records, i, records.len() as int);
}

proof fn lemma_last_is(records: Seq<RecordModel>, i: int, n: int)
    requires
        0 <= i < n <= records.len(),
        forall|a: int, b: int|
            #![trigger records[a], records[b]]
            0 <= a < b < records.len() ==> records[a].id != records[b].id,
    ensures
        task::last_record(records, records[i].id, n) == Some(i),
    decreases n,
{
    if i < n - 1 {
        assert(records[i].id != records[n - 1].id);
        lemma_last_is(records, i, n - 1);
    }
}

/// The lineage from the `k`-th record of a line on is the rest of the line.
proof fn lemma_lineage(
    head: RecordModel,
    records: Seq<RecordModel>,
    line: Seq<int>,
    found: Seq<RecordModel>,
    k: int,
)
    requires
        0 <= k <= line.len() <= records.len(),
        forall|i: int, j: int|
            #![trigger records[i], records[j]]
            0 <= i < j < records.len() ==> records[i].id != records[j].id,
        descends(records, line, head.id),
        records[line.last()].parent == Some(head.id),
        found.len() == line.len() + 1,
        found[0] == head,
        forall|m: int| 0 < m < found.len() ==> #[trigger] found[m] == records[line[m - 1]],
    ensures
        ({
            let id = if k < line.len() {
                records[line[k]].id
            } else {
                head.id
            };
            task::lineage(records, Some(id), found.take(k + 1), (records.len() - k) as nat) == found
        }),
    decreases line.len() - k,
{
    let had = found.take(k + 1);
    if k == line.len() {
        assert(had =~= found);
        assert(found[0].id == head.id);
        assert(task::named_before(found, head.id));
    } else {
        let id = records[line[k]].id;
        assert(records[line[k]].id != head.id);
        assert forall|m: int| 0 <= m < had.len() implies (#[trigger] had[m]).id != id by {
            if m > 0 {
                assert(had[m] == found[m]);
                assert(found[m] == records[line[m - 1]]);
                assert(line[m - 1] != line[k]);
                let (a, b) = (line[m - 1], line[k]);
                if a < b {
                    assert(records[a].id != records[b].id);
                } else {
                    assert(records[b].id != records[a].id);
                }
            } else {
                assert(had[0] == head);
            }
        }
        assert(!task::named_before(had, id));
        lemma_is_record(records, line[k]);
        assert(found.take(k + 2) =~= had.push(records[line[k]]));
        lemma_lineage(head, records, line, found, k + 1);
        if k + 1 < line.len() {
            assert(records[line[k]].parent == Some(records[line[k + 1]].id));
        } else {
            assert(line[k] == line.last());
        }
    }
}

} // verus!
