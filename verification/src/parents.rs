//! The graph of parents: duplicate identities, missing parents and cycles.
use vstd::prelude::*;

use crate::error::{self, Error, ErrorKind, ErrorModel, IssueModel, ValidationIssue};
use crate::order::{self, Ranked};
use crate::paths;
use crate::text;

verus! {

/// What a task record says of its identity and its parent.
#[derive(Debug, PartialEq, Eq)]
pub struct ParentRecord {
    pub id: String,
    pub path: String,
    pub parent: Option<String>,
}

impl Clone for ParentRecord {
    fn clone(&self) -> (r: Self)
        ensures
            r == *self,
    {
        ParentRecord {
            id: self.id.clone(),
            path: self.path.clone(),
            parent: text::clone_opt(&self.parent),
        }
    }
}

/// What a task record says of its identity and its parent.
#[verifier::ext_equal]
pub struct RecordModel {
    pub id: Seq<char>,
    pub path: Seq<char>,
    pub parent: Option<Seq<char>>,
}

impl View for ParentRecord {
    type V = RecordModel;

    open spec fn view(&self) -> RecordModel {
        RecordModel { id: self.id@, path: self.path@, parent: text::opt(self.parent) }
    }
}

/// What task records say.
pub open spec fn record_models(records: Seq<ParentRecord>) -> Seq<RecordModel> {
    records.map_values(|record: ParentRecord| record@)
}

/// The identity of the `i`-th record, in capitals.
pub open spec fn identity(records: Seq<RecordModel>, i: int) -> Seq<char> {
    text::upper(records[i].id)
}

/// Whether another record has the identity of the `i`-th.
pub open spec fn ambiguous(records: Seq<RecordModel>, i: int) -> bool {
    exists|j: int|
        0 <= j < records.len() && j != i && #[trigger] identity(records, j) == identity(
            records,
            i,
        )
}

/// Whether the `i`-th record is the one, of those with its identity, whose path comes first.
pub open spec fn representative(records: Seq<RecordModel>, i: int) -> bool {
    forall|j: int|
        0 <= j < records.len() && j != i && #[trigger] identity(records, j) == identity(records, i)
            ==> paths::path_less(records[i].path, records[j].path) || (!paths::path_less(
            records[j].path,
            records[i].path,
        ) && i < j)
}

/// Whether some record has the identity.
pub open spec fn exists_identity(records: Seq<RecordModel>, id: Seq<char>) -> bool {
    exists|j: int| 0 <= j < records.len() && #[trigger] identity(records, j) == id
}

/// Whether the `i`-th record, the only one with its identity, names the `j`-th, the only one
/// with its own, as its parent.
pub open spec fn names_parent(records: Seq<RecordModel>, i: int, j: int) -> bool {
    &&& 0 <= j < records.len()
    &&& !ambiguous(records, i)
    &&& !ambiguous(records, j)
    &&& records[i].parent is Some
    &&& identity(records, j) == text::upper(records[i].parent->0)
}

/// The parent of the `i`-th record, where both are the only ones with their identities and
/// are not the same.
pub open spec fn parent_of(records: Seq<RecordModel>, i: int) -> Option<int> {
    if exists|j: int| j != i && names_parent(records, i, j) {
        Some(choose|j: int| j != i && names_parent(records, i, j))
    } else {
        None
    }
}

/// The record that is so many parents up from the `i`-th.
pub open spec fn ancestor(records: Seq<RecordModel>, i: int, steps: nat) -> Option<int>
    decreases steps,
{
    if steps == 0 {
        Some(i)
    } else {
        match ancestor(records, i, (steps - 1) as nat) {
            Some(j) => parent_of(records, j),
            None => None,
        }
    }
}

/// Whether the `i`-th record is one of its own ancestors.
pub open spec fn on_cycle(records: Seq<RecordModel>, i: int) -> bool {
    exists|steps: nat| steps > 0 && #[trigger] ancestor(records, i, steps) == Some(i)
}

/// What is wrong with the `i`-th record's place among the others.
///
/// Of records with one identity only the representative is reported, and no edge from or to
/// any of them is chosen.
pub open spec fn fault(records: Seq<RecordModel>, i: int) -> Option<IssueModel> {
    let id = identity(records, i);
    let path = records[i].path;
    if ambiguous(records, i) {
        if representative(records, i) {
            Some(
                IssueModel::error(
                    "duplicate_task_id"@,
                    "Task ID "@ + id + " appears more than once"@,
                ).at_path(path),
            )
        } else {
            None
        }
    } else {
        match records[i].parent {
            None => None,
            Some(parent) => {
                let parent = text::upper(parent);
                if !exists_identity(records, parent) {
                    Some(
                        IssueModel::error(
                            "missing_parent_reference"@,
                            "Parent task "@ + parent + " does not exist"@,
                        ).at_path(path).at_field("parent"@),
                    )
                } else if parent == id {
                    Some(
                        IssueModel::error(
                            "self_parent_reference"@,
                            "Task "@ + id + " cannot parent itself"@,
                        ).at_path(path).at_field("parent"@),
                    )
                } else if on_cycle(records, i) {
                    Some(
                        IssueModel::error(
                            "parent_cycle"@,
                            "Task "@ + id + " participates in a parent cycle"@,
                        ).at_path(path).at_field("parent"@),
                    )
                } else {
                    None
                }
            },
        }
    }
}

/// Whether the issues are the faults of the records, one for each record that has one, by
/// identity. No two of those records have the same identity.
pub open spec fn reports(records: Seq<RecordModel>, issues: Seq<IssueModel>) -> bool {
    exists|at: Seq<int>| #[trigger] lists_faults(records, issues, at)
}

/// Whether the `k`-th issue is the fault of the `at[k]`-th record, for all faults, by identity.
pub open spec fn lists_faults(
    records: Seq<RecordModel>,
    issues: Seq<IssueModel>,
    at: Seq<int>,
) -> bool {
    &&& at.len() == issues.len()
    &&& forall|k: int|
        0 <= k < at.len() ==> 0 <= #[trigger] at[k] < records.len() && fault(records, at[k])
            == Some(issues[k])
    &&& forall|a: int, b: int|
        0 <= a < b < at.len() ==> text::less(
            identity(records, #[trigger] at[a]),
            identity(records, #[trigger] at[b]),
        )
    &&& forall|i: int|
        0 <= i < records.len() && #[trigger] fault(records, i) is Some ==> at.contains(i)
}

/// An identity and a path, by which records are sorted.
struct Key {
    id: Vec<char>,
    path: String,
}

impl Ranked for Key {
    closed spec fn before(a: Self, b: Self) -> bool {
        text::less(a.id@, b.id@) || (a.id@ == b.id@ && paths::path_less(a.path@, b.path@))
    }

    proof fn one_way(a: Self, b: Self) {
        assert(a.id@.take(0) == b.id@.take(0));
        text::lemma_less_total(a.id@, b.id@, 0);
        paths::lemma_parts_less_one_way(paths::parts(a.path@), paths::parts(b.path@), 0);
    }

    proof fn no_gap(a: Self, b: Self, c: Self) {
        assert(a.id@.take(0) == b.id@.take(0));
        text::lemma_less_total(a.id@, b.id@, 0);
        if text::less(a.id@, c.id@) {
            text::lemma_less_between(a.id@, b.id@, c.id@);
        } else {
            paths::lemma_parts_less_no_gap(
                paths::parts(a.path@),
                paths::parts(b.path@),
                paths::parts(c.path@),
                0,
            );
        }
    }

    fn is_before(&self, other: &Self) -> (r: bool) {
        if text::is_less(&self.id, &other.id) {
            true
        } else if text::equal(&self.id, &other.id) {
            paths::is_path_less(self.path.as_str(), other.path.as_str())
        } else {
            false
        }
    }
}

/// Whether the keys are those of the records.
spec fn keys_of(records: Seq<RecordModel>, keys: Seq<Key>) -> bool {
    &&& keys.len() == records.len()
    &&& forall|i: int|
        0 <= i < keys.len() ==> (#[trigger] keys[i]).id@ == identity(records, i) && keys[i].path@
            == records[i].path
}

spec fn ints(v: Seq<usize>) -> Seq<int> {
    v.map_values(|x: usize| x as int)
}

/// Whether `order` lists the records by identity, then path.
spec fn sorted_by(records: Seq<RecordModel>, keys: Seq<Key>, order: Seq<usize>) -> bool {
    keys_of(records, keys) && order::in_order(keys, ints(order))
}

/// Identities grow along the order.
proof fn lemma_identities_grow(
    records: Seq<RecordModel>,
    keys: Seq<Key>,
    order: Seq<usize>,
    a: int,
    b: int,
)
    requires
        sorted_by(records, keys, order),
        0 <= a < b < order.len(),
    ensures
        !text::less(identity(records, order[b] as int), identity(records, order[a] as int)),
        order[a] != order[b],
        order[a] < records.len(),
        order[b] < records.len(),
        identity(records, order[a] as int) != identity(records, order[b] as int) ==> text::less(
            identity(records, order[a] as int),
            identity(records, order[b] as int),
        ),
{
    let p = ints(order);
    order::lemma_in_order_ranks(keys, p, a, b);
    order::lemma_order_covers(keys, p);
    assert(p[a] == order[a] && p[b] == order[b]);
    assert(keys[p[a]].id@ == identity(records, p[a]));
    assert(keys[p[b]].id@ == identity(records, p[b]));
    let (x, y) = (identity(records, p[a]), identity(records, p[b]));
    assert(x.take(0) == y.take(0));
    text::lemma_less_total(x, y, 0);
}

/// Every record stands somewhere in the order.
proof fn lemma_order_has(
    records: Seq<RecordModel>,
    keys: Seq<Key>,
    order: Seq<usize>,
    i: int,
) -> (k: int)
    requires
        sorted_by(records, keys, order),
        0 <= i < records.len(),
    ensures
        0 <= k < order.len(),
        order[k] == i,
{
    let p = ints(order);
    order::lemma_order_covers(keys, p);
    assert(p.contains(i));
    let k = p.index_of(i);
    assert(p[k] == order[k]);
    k
}

/// A record shares its identity exactly where a neighbour in the order has it.
proof fn lemma_ambiguous_neighbours(
    records: Seq<RecordModel>,
    keys: Seq<Key>,
    order: Seq<usize>,
    k: int,
)
    requires
        sorted_by(records, keys, order),
        0 <= k < order.len(),
    ensures
        ambiguous(records, order[k] as int) <==> (k > 0 && identity(records, order[k - 1] as int)
            == identity(records, order[k] as int)) || (k + 1 < order.len() && identity(
            records,
            order[k + 1] as int,
        ) == identity(records, order[k] as int)),
        representative(records, order[k] as int) <==> (k == 0 || identity(
            records,
            order[k - 1] as int,
        ) != identity(records, order[k] as int)),
{
    let i = order[k] as int;
    let p = ints(order);
    assert(p[k] == order[k]);
    if k > 0 {
        lemma_identities_grow(records, keys, order, k - 1, k);
        assert(p[k - 1] == order[k - 1]);
        assert(order::precedes(keys, p[k - 1], p[k]));
    }
    if k + 1 < order.len() {
        lemma_identities_grow(records, keys, order, k, k + 1);
    }
    if ambiguous(records, i) {
        let j = choose|j: int|
            0 <= j < records.len() && j != i && #[trigger] identity(records, j) == identity(
                records,
                i,
            );
        let m = lemma_order_has(records, keys, order, j);
        if m < k - 1 {
            lemma_identities_grow(records, keys, order, m, k - 1);
        }
        if m > k + 1 {
            lemma_identities_grow(records, keys, order, k + 1, m);
        }
    }
    if k == 0 || identity(records, order[k - 1] as int) != identity(records, i) {
        assert forall|j: int|
            0 <= j < records.len() && j != i && #[trigger] identity(records, j) == identity(
                records,
                i,
            ) implies paths::path_less(records[i].path, records[j].path) || (!paths::path_less(
            records[j].path,
            records[i].path,
        ) && i < j) by {
            let m = lemma_order_has(records, keys, order, j);
            if m < k {
                lemma_identities_grow(records, keys, order, m, k);
                if m < k - 1 {
                    lemma_identities_grow(records, keys, order, m, k - 1);
                }
            }
            assert(m > k);
            assert(p[m] == order[m]);
            assert(order::precedes(keys, p[k], p[m]));
            lemma_irreflexive(identity(records, i));
        }
    } else {
        let j = order[k - 1] as int;
        assert(j != i);
        lemma_irreflexive(identity(records, i));
        paths::lemma_parts_less_one_way(
            paths::parts(records[i].path),
            paths::parts(records[j].path),
            0,
        );
        assert(!representative(records, i));
    }
}

proof fn lemma_irreflexive(s: Seq<char>)
    ensures
        !text::less(s, s),
{
    assert(s.take(0) == s.take(0));
    text::lemma_less_total(s, s, 0);
}

fn make_keys(records: &[ParentRecord]) -> (r: Vec<Key>)
    ensures
        keys_of(record_models(records@), r@),
{
    let mut r: Vec<Key> = Vec::new();
    let mut i: usize = 0;
    while i < records.len()
        invariant
            i <= records.len(),
            r@.len() == i,
            forall|k: int|
                0 <= k < i ==> (#[trigger] r@[k]).id@ == identity(record_models(records@), k) && r@[k].path@
                    == record_models(records@)[k].path,
        decreases records.len() - i,
    {
        let id = text::chars(records[i].id.as_str());
        r.push(Key { id: text::to_upper(&id), path: records[i].path.clone() });
        i += 1;
    }
    r
}

/// The first place in the order of a record with the identity.
fn find(
    records: &[ParentRecord],
    keys: &Vec<Key>,
    order: &Vec<usize>,
    id: &Vec<char>,
) -> (r: Option<usize>)
    requires
        sorted_by(record_models(records@), keys@, order@),
    ensures
        r is Some <==> exists_identity(record_models(records@), id@),
        r matches Some(k) ==> k < order@.len() && identity(record_models(records@), order@[k as int] as int)
            == id@ && (k == 0 || identity(record_models(records@), order@[k - 1] as int) != id@),
{
    let mut lo: usize = 0;
    let mut hi: usize = order.len();
    while lo < hi
        invariant
            sorted_by(record_models(records@), keys@, order@),
            lo <= hi <= order@.len(),
            forall|m: int|
                0 <= m < lo ==> text::less(identity(record_models(records@), #[trigger] order@[m] as int), id@),
            forall|m: int|
                hi <= m < order@.len() ==> !text::less(
                    identity(record_models(records@), #[trigger] order@[m] as int),
                    id@,
                ),
        decreases hi - lo,
    {
        let mid: usize = lo + (hi - lo) / 2;
        assert(ints(order@)[mid as int] == order@[mid as int]);
        let here = &keys[order[mid]].id;
        assert(here@ == identity(record_models(records@), order@[mid as int] as int));
        if text::is_less(here, id) {
            proof {
                assert forall|m: int| 0 <= m < mid + 1 implies text::less(
                    identity(record_models(records@), #[trigger] order@[m] as int),
                    id@,
                ) by {
                    if m < mid {
                        lemma_identities_grow(record_models(records@), keys@, order@, m, mid as int);
                        text::lemma_less_between(
                            here@,
                            identity(record_models(records@), order@[m] as int),
                            id@,
                        );
                    }
                }
            }
            lo = mid + 1;
        } else {
            proof {
                assert forall|m: int| mid <= m < order@.len() implies !text::less(
                    identity(record_models(records@), #[trigger] order@[m] as int),
                    id@,
                ) by {
                    if m > mid && text::less(identity(record_models(records@), order@[m] as int), id@) {
                        lemma_identities_grow(record_models(records@), keys@, order@, mid as int, m);
                        text::lemma_less_between(
                            identity(record_models(records@), order@[m] as int),
                            here@,
                            id@,
                        );
                    }
                }
            }
            hi = mid;
        }
    }
    proof {
        lemma_irreflexive(id@);
        assert forall|j: int| 0 <= j < record_models(records@).len() && #[trigger] identity(record_models(records@), j)
            == id@ implies lo < order@.len() && identity(record_models(records@), order@[lo as int] as int)
            == id@ by {
            let m = lemma_order_has(record_models(records@), keys@, order@, j);
            if m > lo {
                lemma_identities_grow(record_models(records@), keys@, order@, lo as int, m);
                let x = identity(record_models(records@), order@[lo as int] as int);
                assert(!text::less(x, id@));
                assert(x == id@);
            }
        }
        if lo > 0 {
            assert(text::less(identity(record_models(records@), order@[lo - 1] as int), id@));
        }
    }
    if lo < order.len() {
        assert(ints(order@)[lo as int] == order@[lo as int]);
        let here = &keys[order[lo]].id;
        if text::equal(here, id) {
            assert(identity(record_models(records@), order@[lo as int] as int) == id@);
            return Some(lo);
        }
    }
    None
}

/// Where a record's parent leads.
enum Link {
    Free,
    Missing,
    Own,
    To(usize),
}

/// Whether the link is that of the `i`-th record.
spec fn links(records: Seq<RecordModel>, i: int, link: Link) -> bool {
    let named = !ambiguous(records, i) && records[i].parent is Some;
    let parent = text::upper(records[i].parent->0);
    match link {
        Link::Missing => named && !exists_identity(records, parent),
        Link::Own => named && exists_identity(records, parent) && parent == identity(records, i),
        Link::To(j) => named && exists_identity(records, parent) && parent != identity(records, i)
            && parent_of(records, i) == Some(j as int) && j < records.len(),
        Link::Free => (named ==> exists_identity(records, parent) && parent != identity(
            records,
            i,
        )) && parent_of(records, i) is None,
    }
}

/// A record that names another by an identity that only that one has, has it as its parent.
proof fn lemma_parent_of(records: Seq<RecordModel>, i: int, j: int)
    requires
        names_parent(records, i, j),
        j != i,
    ensures
        parent_of(records, i) == Some(j),
{
    let k = choose|k: int| k != i && names_parent(records, i, k);
    assert(names_parent(records, i, k) && k != i);
    if k != j {
        assert(identity(records, k) == identity(records, j));
        assert(ambiguous(records, j));
    }
}

fn neighbours(
    records: &[ParentRecord],
    keys: &Vec<Key>,
    order: &Vec<usize>,
    k: usize,
) -> (r: (bool, bool))
    requires
        sorted_by(record_models(records@), keys@, order@),
        k < order@.len(),
    ensures
        r.0 == ambiguous(record_models(records@), order@[k as int] as int),
        r.1 == representative(record_models(records@), order@[k as int] as int),
{
    proof {
        lemma_ambiguous_neighbours(record_models(records@), keys@, order@, k as int);
        assert(ints(order@)[k as int] == order@[k as int]);
        if k > 0 {
            assert(ints(order@)[k - 1] == order@[k - 1]);
        }
        if k + 1 < order@.len() {
            assert(ints(order@)[k + 1] == order@[k + 1]);
        }
    }
    let here = &keys[order[k]].id;
    let first = k == 0 || !text::equal(&keys[order[k - 1]].id, here);
    let last = k == order.len() - 1 || !text::equal(&keys[order[k + 1]].id, here);
    (!first || !last, first)
}

fn link_of(
    records: &[ParentRecord],
    keys: &Vec<Key>,
    order: &Vec<usize>,
    k: usize,
) -> (r: Link)
    requires
        sorted_by(record_models(records@), keys@, order@),
        k < order@.len(),
    ensures
        links(record_models(records@), order@[k as int] as int, r),
{
    assert(ints(order@)[k as int] == order@[k as int]);
    let i: usize = order[k];
    let (shared, _) = neighbours(records, keys, order, k);
    if shared {
        return Link::Free;
    }
    match &records[i].parent {
        None => Link::Free,
        Some(parent) => {
            let parent = text::chars(parent.as_str());
            let parent = text::to_upper(&parent);
            match find(records, keys, order, &parent) {
                None => Link::Missing,
                Some(at) => {
                    assert(ints(order@)[at as int] == order@[at as int]);
                    if text::equal(&parent, &keys[i].id) {
                        return Link::Own;
                    }
                    let (shared, _) = neighbours(records, keys, order, at);
                    let j: usize = order[at];
                    if shared {
                        proof {
                            if parent_of(record_models(records@), i as int) is Some {
                                let m = choose|m: int|
                                    m != i && names_parent(record_models(records@), i as int, m);
                                assert(names_parent(record_models(records@), i as int, m));
                                assert(identity(record_models(records@), m) == identity(record_models(records@), j as int));
                                if m != j {
                                    assert(ambiguous(record_models(records@), m));
                                }
                            }
                        }
                        Link::Free
                    } else {
                        proof {
                            lemma_parent_of(record_models(records@), i as int, j as int);
                        }
                        Link::To(j)
                    }
                },
            }
        },
    }
}

/// The node that is so many edges on from `i`.
spec fn hop(edges: Seq<Option<usize>>, i: int, steps: nat) -> Option<int>
    decreases steps,
{
    if steps == 0 {
        Some(i)
    } else {
        match hop(edges, i, (steps - 1) as nat) {
            Some(j) => match edges[j] {
                Some(k) => Some(k as int),
                None => None,
            },
            None => None,
        }
    }
}

spec fn circles(edges: Seq<Option<usize>>, i: int) -> bool {
    exists|steps: nat| steps > 0 && #[trigger] hop(edges, i, steps) == Some(i)
}

spec fn edges_ok(edges: Seq<Option<usize>>) -> bool {
    forall|i: int|
        0 <= i < edges.len() ==> (#[trigger] edges[i] matches Some(j) ==> j < edges.len())
}

/// A set of nodes that no edge leaves is not left by any number of steps.
proof fn lemma_closed(edges: Seq<Option<usize>>, inside: Set<int>, i: int, steps: nat)
    requires
        inside.contains(i),
        forall|j: int|
            #[trigger] inside.contains(j) ==> (edges[j] matches Some(k) ==> inside.contains(
                k as int,
            )),
    ensures
        hop(edges, i, steps) matches Some(j) ==> inside.contains(j),
    decreases steps,
{
    if steps > 0 {
        lemma_closed(edges, inside, i, (steps - 1) as nat);
    }
}

/// Steps taken one after the other add up.
proof fn lemma_hops(edges: Seq<Option<usize>>, i: int, a: nat, b: nat)
    ensures
        hop(edges, i, a + b) == match hop(edges, i, a) {
            Some(j) => hop(edges, j, b),
            None => None,
        },
    decreases b,
{
    if b > 0 {
        lemma_hops(edges, i, a, (b - 1) as nat);
        assert((a + b - 1) as nat == a + (b - 1) as nat);
    } else {
        assert(a + b == a);
    }
}

/// Whether the edge of the `k`-th node of the walk leads to the next.
spec fn leads_on(edges: Seq<Option<usize>>, walk: Seq<usize>, k: int) -> bool {
    edges[walk[k] as int] == Some(walk[k + 1])
}

/// Whether `walk` follows the edges from its first node, over no node twice.
spec fn walked(edges: Seq<Option<usize>>, walk: Seq<usize>) -> bool {
    &&& forall|k: int| 0 <= k < walk.len() ==> #[trigger] walk[k] < edges.len()
    &&& forall|k: int| 0 <= k < walk.len() - 1 ==> #[trigger] leads_on(edges, walk, k)
    &&& forall|a: int, b: int|
        0 <= a < b < walk.len() ==> #[trigger] walk[a] != #[trigger] walk[b]
}

/// Along a walk, so many steps lead so many nodes on.
proof fn lemma_walked(edges: Seq<Option<usize>>, walk: Seq<usize>, k: int, steps: nat)
    requires
        walked(edges, walk),
        0 <= k,
        k + steps < walk.len(),
    ensures
        hop(edges, walk[k] as int, steps) == Some(walk[k + steps] as int),
    decreases steps,
{
    if steps > 0 {
        lemma_walked(edges, walk, k, (steps - 1) as nat);
        assert(leads_on(edges, walk, k + steps - 1));
    }
}

/// A walk that ends, or leads into nodes that no edge leaves, has no node that comes back to
/// itself.
proof fn lemma_walk_leaves(
    edges: Seq<Option<usize>>,
    walk: Seq<usize>,
    inside: Set<int>,
    k: int,
)
    requires
        walked(edges, walk),
        0 <= k < walk.len(),
        !inside.contains(walk[k] as int),
        edges[walk.last() as int] matches Some(j) ==> inside.contains(j as int),
        forall|j: int|
            #[trigger] inside.contains(j) ==> (edges[j] matches Some(n) ==> inside.contains(
                n as int,
            )),
    ensures
        !circles(edges, walk[k] as int),
{
    if circles(edges, walk[k] as int) {
        let i = walk[k] as int;
        let steps = choose|steps: nat| steps > 0 && #[trigger] hop(edges, i, steps) == Some(i);
        let rest = (walk.len() - 1 - k) as nat;
        lemma_walked(edges, walk, k, rest);
        if steps <= rest {
            lemma_walked(edges, walk, k, steps);
        } else {
            assert(hop(edges, i, rest) == Some(walk.last() as int));
            let more = (steps - rest - 1) as nat;
            assert(steps == (rest + 1) + more);
            lemma_hops(edges, i, rest + 1, more);
            match edges[walk.last() as int] {
                Some(j) => {
                    assert(hop(edges, i, rest + 1) == Some(j as int));
                    lemma_closed(edges, inside, j as int, more);
                },
                None => {
                    assert(hop(edges, i, rest + 1) is None);
                },
            }
        }
    }
}

/// From the place that its last edge leads to, a walk goes round.
proof fn lemma_walk_goes_round(edges: Seq<Option<usize>>, walk: Seq<usize>, at: int, k: int)
    requires
        walked(edges, walk),
        0 <= at <= k < walk.len(),
        edges[walk.last() as int] == Some(walk[at]),
    ensures
        circles(edges, walk[k] as int),
{
    let i = walk[k] as int;
    let rest = (walk.len() - 1 - k) as nat;
    lemma_walked(edges, walk, k, rest);
    assert(hop(edges, i, rest + 1) == Some(walk[at] as int));
    lemma_walked(edges, walk, at, (k - at) as nat);
    lemma_hops(edges, i, rest + 1, (k - at) as nat);
    assert(hop(edges, i, rest + 1 + (k - at) as nat) == Some(i));
}

/// The nodes of the walk from the given place on.
spec fn tail_nodes(walk: Seq<usize>, at: int) -> Set<int> {
    Set::new(|x: int| exists|m: int| at <= m < walk.len() && x == #[trigger] walk[m])
}

/// Before the place that its last edge leads to, no node of a walk comes back to itself.
proof fn lemma_walk_enters(edges: Seq<Option<usize>>, walk: Seq<usize>, at: int, k: int)
    requires
        walked(edges, walk),
        0 <= k < at < walk.len(),
        edges[walk.last() as int] == Some(walk[at]),
    ensures
        !circles(edges, walk[k] as int),
{
    let inside = tail_nodes(walk, at);
    assert forall|j: int| #[trigger] inside.contains(j) implies (edges[j] matches Some(n)
        ==> inside.contains(n as int)) by {
        let m = choose|m: int| at <= m < walk.len() && j == #[trigger] walk[m];
        if m + 1 < walk.len() {
            assert(leads_on(edges, walk, m));
            assert(inside.contains(walk[m + 1] as int));
        } else {
            assert(inside.contains(walk[at] as int));
        }
    }
    assert(!inside.contains(walk[k] as int));
    let short = walk.take(at);
    assert(inside.contains(walk[at] as int));
    assert(leads_on(edges, walk, at - 1));
    assert(short.last() == walk[at - 1]);
    assert(short[k] == walk[k]);
    assert forall|a: int| 0 <= a < short.len() - 1 implies #[trigger] leads_on(
        edges,
        short,
        a,
    ) by {
        assert(leads_on(edges, walk, a));
    }
    lemma_walk_leaves(edges, short, inside, k);
}

/// What is known between walks: each node is new (0) or settled (2); no edge leads from a
/// settled node to a new one; and of settled nodes it is known whether they circle.
spec fn settled(edges: Seq<Option<usize>>, state: Seq<u8>, cyclic: Seq<bool>) -> bool {
    &&& state.len() == edges.len()
    &&& cyclic.len() == edges.len()
    &&& forall|i: int| 0 <= i < state.len() ==> #[trigger] state[i] == 0 || state[i] == 2
    &&& forall|i: int|
        0 <= i < state.len() && #[trigger] state[i] == 2 ==> (edges[i] matches Some(j)
            ==> state[j as int] == 2)
    &&& forall|i: int|
        0 <= i < state.len() && state[i] == 2 ==> #[trigger] cyclic[i] == circles(edges, i)
}

/// Whether `state` is `before` with the nodes of the walk marked as being walked on (1).
spec fn marked(before: Seq<u8>, state: Seq<u8>, walk: Seq<usize>) -> bool {
    &&& state.len() == before.len()
    &&& forall|i: int|
        #![trigger state[i]]
        0 <= i < state.len() ==> state[i] == if walk.contains(i as usize) {
            1
        } else {
            before[i]
        }
}

/// How a walk ended: at the place in it that its last edge leads to, or else at a node that
/// is settled or has no edge.
spec fn walk_ended(
    edges: Seq<Option<usize>>,
    before: Seq<u8>,
    walk: Seq<usize>,
    closed: Option<usize>,
) -> bool {
    match closed {
        Some(at) => at < walk.len() && edges[walk.last() as int] == Some(walk[at as int]),
        None => edges[walk.last() as int] matches Some(j) ==> before[j as int] == 2,
    }
}

/// Extending a walk by a node that is not in it.
proof fn lemma_walk_push(edges: Seq<Option<usize>>, walk: Seq<usize>, next: usize)
    requires
        walked(edges, walk),
        !walk.contains(next),
        next < edges.len(),
        walk.len() > 0 ==> edges[walk.last() as int] == Some(next),
    ensures
        walked(edges, walk.push(next)),
        forall|x: usize| #[trigger]
            walk.push(next).contains(x) <==> walk.contains(x) || x == next,
{
    let after = walk.push(next);
    assert forall|k: int| 0 <= k < after.len() - 1 implies #[trigger] leads_on(
        edges,
        after,
        k,
    ) by {
        if k < walk.len() - 1 {
            assert(leads_on(edges, walk, k));
        }
    }
    assert forall|a: int, b: int| 0 <= a < b < after.len() implies #[trigger] after[a]
        != #[trigger] after[b] by {
        if b < walk.len() {
            assert(walk[a] != walk[b]);
        } else {
            assert(walk.contains(walk[a]));
        }
    }
    assert forall|x: usize| #[trigger] after.contains(x) <==> walk.contains(x) || x == next by {
        if walk.contains(x) {
            let k = walk.index_of(x);
            assert(after[k] == x);
        }
        if x == next {
            assert(after[walk.len() as int] == next);
        }
        if after.contains(x) {
            let k = after.index_of(x);
            assert(k < walk.len() ==> walk[k] == after[k]);
        }
    }
}

/// Walk from a new node along the edges until a node is met again, is settled, or has no edge.
fn follow(
    edges: &Vec<Option<usize>>,
    start: usize,
    state: &mut Vec<u8>,
    positions: &mut Vec<usize>,
) -> (r: (Vec<usize>, Option<usize>))
    requires
        edges_ok(edges@),
        old(state)@.len() == edges@.len(),
        old(positions)@.len() == edges@.len(),
        start < edges@.len(),
        forall|i: int|
            0 <= i < edges@.len() ==> #[trigger] old(state)@[i] == 0 || old(state)@[i] == 2,
        old(state)@[start as int] == 0,
    ensures
        final(positions)@.len() == edges@.len(),
        r.0@.len() > 0,
        r.0@[0] == start,
        walked(edges@, r.0@),
        marked(old(state)@, final(state)@, r.0@),
        forall|k: int| 0 <= k < r.0@.len() ==> old(state)@[#[trigger] r.0@[k] as int] == 0,
        walk_ended(edges@, old(state)@, r.0@, r.1),
{
    let n: usize = edges.len();
    let ghost before = state@;
    let mut walk: Vec<usize> = Vec::new();
    let mut index: usize = start;
    loop
        invariant
            n == edges@.len(),
            edges_ok(edges@),
            before == old(state)@,
            before.len() == n,
            state@.len() == n,
            positions@.len() == n,
            index < n,
            start < n,
            before[start as int] == 0,
            forall|i: int| 0 <= i < n ==> #[trigger] before[i] == 0 || before[i] == 2,
            walked(edges@, walk@),
            marked(before, state@, walk@),
            forall|k: int| 0 <= k < walk@.len() ==> before[#[trigger] walk@[k] as int] == 0,
            walk@.len() == 0 ==> index == start,
            walk@.len() > 0 ==> walk@[0] == start && edges@[walk@.last() as int] == Some(index),
            forall|k: int| 0 <= k < walk@.len() ==> positions@[#[trigger] walk@[k] as int] == k,
        decreases n - walk@.len(),
    {
        if state[index] == 2 {
            return (walk, None);
        }
        if state[index] == 1 {
            let at: usize = positions[index];
            proof {
                assert(walk@.contains(index));
                let k = walk@.index_of(index);
                assert(walk@[k] == index);
                assert(positions@[walk@[k] as int] == k);
            }
            return (walk, Some(at));
        }
        proof {
            assert(!walk@.contains(index));
            lemma_room(walk@, index, n);
            lemma_walk_push(edges@, walk@, index);
            assert forall|k: int| 0 <= k < walk@.len() implies walk@[k] != index by {
                assert(walk@.contains(walk@[k]));
            }
        }
        state[index] = 1;
        positions[index] = walk.len();
        walk.push(index);
        match edges[index] {
            Some(next) => {
                index = next;
            },
            None => {
                return (walk, None);
            },
        }
    }
}

/// Settle the nodes of a walk: those from `from` on circle, the others do not.
fn settle(walk: &Vec<usize>, from: usize, state: &mut Vec<u8>, cyclic: &mut Vec<bool>)
    requires
        old(state)@.len() == old(cyclic)@.len(),
        forall|k: int| 0 <= k < walk@.len() ==> #[trigger] walk@[k] < old(state)@.len(),
        forall|a: int, b: int|
            0 <= a < b < walk@.len() ==> #[trigger] walk@[a] != #[trigger] walk@[b],
    ensures
        final(state)@.len() == old(state)@.len(),
        final(cyclic)@.len() == old(cyclic)@.len(),
        forall|i: int|
            0 <= i < final(state)@.len() && !walk@.contains(i as usize)
                ==> #[trigger] final(state)@[i] == old(state)@[i],
        forall|i: int|
            0 <= i < final(state)@.len() && !walk@.contains(i as usize)
                ==> #[trigger] final(cyclic)@[i] == old(cyclic)@[i],
        forall|k: int|
            0 <= k < walk@.len() ==> final(state)@[#[trigger] walk@[k] as int] == 2
                && final(cyclic)@[walk@[k] as int] == (from <= k),
{
    let mut k: usize = 0;
    while k < walk.len()
        invariant
            k <= walk@.len(),
            state@.len() == old(state)@.len(),
            cyclic@.len() == old(state)@.len(),
            forall|k: int| 0 <= k < walk@.len() ==> #[trigger] walk@[k] < old(state)@.len(),
            forall|a: int, b: int|
                0 <= a < b < walk@.len() ==> #[trigger] walk@[a] != #[trigger] walk@[b],
            forall|i: int|
                0 <= i < state@.len() && !walk@.contains(i as usize) ==> #[trigger] state@[i]
                    == old(state)@[i],
            forall|i: int|
                0 <= i < state@.len() && !walk@.contains(i as usize) ==> #[trigger] cyclic@[i]
                    == old(cyclic)@[i],
            forall|m: int|
                0 <= m < k ==> state@[#[trigger] walk@[m] as int] == 2
                    && cyclic@[walk@[m] as int] == (from <= m),
        decreases walk.len() - k,
    {
        let member: usize = walk[k];
        assert(walk@.contains(member));
        cyclic[member] = k >= from;
        state[member] = 2;
        k += 1;
    }
}

/// Which nodes come back to themselves along the edges. Each node is walked on once, and the
/// walk is a loop, so that its depth is no matter.
fn find_cycles(edges: &Vec<Option<usize>>) -> (r: Vec<bool>)
    requires
        edges_ok(edges@),
    ensures
        r@.len() == edges@.len(),
        forall|i: int| 0 <= i < r@.len() ==> #[trigger] r@[i] == circles(edges@, i),
{
    let n: usize = edges.len();
    let mut cyclic: Vec<bool> = vec![false;n];
    let mut state: Vec<u8> = vec![0u8;n];
    let mut positions: Vec<usize> = vec![0usize;n];
    let mut start: usize = 0;
    while start < n
        invariant
            n == edges@.len(),
            edges_ok(edges@),
            start <= n,
            positions@.len() == n,
            settled(edges@, state@, cyclic@),
            forall|i: int| 0 <= i < start ==> #[trigger] state@[i] == 2,
        decreases n - start,
    {
        if state[start] == 0 {
            let ghost before = state@;
            let ghost known = cyclic@;
            let (walk, closed) = follow(edges, start, &mut state, &mut positions);
            let from: usize = match closed {
                Some(at) => at,
                None => walk.len(),
            };
            settle(&walk, from, &mut state, &mut cyclic);
            proof {
                lemma_settled(edges@, before, known, state@, cyclic@, walk@, closed, from as int);
            }
        }
        start += 1;
    }
    cyclic
}

/// After a walk is settled, all is settled as it was between walks.
proof fn lemma_settled(
    edges: Seq<Option<usize>>,
    before: Seq<u8>,
    known: Seq<bool>,
    state: Seq<u8>,
    cyclic: Seq<bool>,
    walk: Seq<usize>,
    closed: Option<usize>,
    from: int,
)
    requires
        edges_ok(edges),
        edges.len() <= usize::MAX,
        settled(edges, before, known),
        walked(edges, walk),
        walk.len() > 0,
        forall|k: int| 0 <= k < walk.len() ==> before[#[trigger] walk[k] as int] == 0,
        walk_ended(edges, before, walk, closed),
        from == match closed {
            Some(at) => at as int,
            None => walk.len() as int,
        },
        state.len() == edges.len(),
        cyclic.len() == edges.len(),
        forall|i: int|
            0 <= i < state.len() && !walk.contains(i as usize) ==> #[trigger] state[i]
                == before[i],
        forall|i: int|
            0 <= i < state.len() && !walk.contains(i as usize) ==> #[trigger] cyclic[i]
                == known[i],
        forall|k: int|
            0 <= k < walk.len() ==> state[#[trigger] walk[k] as int] == 2
                && cyclic[walk[k] as int] == (from <= k),
    ensures
        settled(edges, state, cyclic),
        state[walk[0] as int] == 2,
        forall|i: int| 0 <= i < state.len() && #[trigger] before[i] == 2 ==> state[i] == 2,
{
    let done = Set::new(|i: int| 0 <= i < before.len() && before[i] == 2);
    assert forall|m: int| 0 <= m < walk.len() implies cyclic[#[trigger] walk[m] as int] == circles(
        edges,
        walk[m] as int,
    ) by {
        match closed {
            Some(at) => {
                if at <= m {
                    lemma_walk_goes_round(edges, walk, at as int, m);
                } else {
                    lemma_walk_enters(edges, walk, at as int, m);
                }
            },
            None => {
                lemma_walk_leaves(edges, walk, done, m);
            },
        }
    }
    assert forall|i: int| 0 <= i < state.len() implies (#[trigger] state[i] == 0 || state[i] == 2)
        && (before[i] == 2 ==> state[i] == 2) by {
        if walk.contains(i as usize) {
            let m = walk.index_of(i as usize);
            assert(state[walk[m] as int] == 2);
        }
    }
    assert forall|i: int| 0 <= i < state.len() && state[i] == 2 implies #[trigger] cyclic[i]
        == circles(edges, i) by {
        if walk.contains(i as usize) {
            let m = walk.index_of(i as usize);
            assert(cyclic[walk[m] as int] == circles(edges, walk[m] as int));
        } else {
            assert(state[i] == before[i]);
        }
    }
    assert forall|i: int| 0 <= i < state.len() && #[trigger] state[i] == 2 implies (
    edges[i] matches Some(j) ==> state[j as int] == 2) by {
        if walk.contains(i as usize) {
            let m = walk.index_of(i as usize);
            assert(walk[m] == i as usize);
            if m + 1 < walk.len() {
                assert(leads_on(edges, walk, m));
                assert(state[walk[m + 1] as int] == 2);
            } else {
                match closed {
                    Some(at) => {
                        assert(state[walk[at as int] as int] == 2);
                    },
                    None => {},
                }
            }
        } else {
            assert(before[i] == 2);
        }
    }
}

/// Different numbers below `n`, none of them `extra`, are fewer than `n`.
proof fn lemma_room(walk: Seq<usize>, extra: usize, n: usize)
    requires
        forall|k: int| 0 <= k < walk.len() ==> #[trigger] walk[k] < n,
        forall|a: int, b: int|
            0 <= a < b < walk.len() ==> #[trigger] walk[a] != #[trigger] walk[b],
        !walk.contains(extra),
        extra < n,
    ensures
        walk.len() < n,
{
    let all = ints(walk.push(extra));
    assert forall|i: int, j: int| 0 <= i < all.len() && 0 <= j < all.len() && i != j implies all[i]
        != all[j] by {
        let w = walk.push(extra);
        assert(all[i] == w[i] && all[j] == w[j]);
        if i < walk.len() && j < walk.len() {
            if i < j {
                assert(walk[i] != walk[j]);
            } else {
                assert(walk[j] != walk[i]);
            }
        } else if i < walk.len() {
            assert(walk.contains(walk[i]));
        } else if j < walk.len() {
            assert(walk.contains(walk[j]));
        }
    }
    let range = vstd::set_lib::set_int_range(0, n as int);
    vstd::set_lib::lemma_int_range(0, n as int);
    all.unique_seq_to_set();
    assert forall|x: int| all.to_set().contains(x) implies range.contains(x) by {
        let i = all.index_of(x);
        assert(all[i] == x);
        if i < walk.len() {
            assert(walk[i] < n);
        }
    }
    vstd::set_lib::lemma_len_subset(all.to_set(), range);
}

/// Steps along the edges are steps from parent to parent.
proof fn lemma_hops_are_ancestors(
    records: Seq<RecordModel>,
    edges: Seq<Option<usize>>,
    i: int,
    steps: nat,
)
    requires
        edges.len() == records.len(),
        0 <= i < records.len(),
        forall|k: int|
            0 <= k < edges.len() ==> parent_of(records, k) == match #[trigger] edges[k] {
                Some(j) => Some(j as int),
                None => None,
            },
        edges_ok(edges),
    ensures
        hop(edges, i, steps) == ancestor(records, i, steps),
        hop(edges, i, steps) matches Some(j) ==> 0 <= j < records.len(),
    decreases steps,
{
    if steps > 0 {
        lemma_hops_are_ancestors(records, edges, i, (steps - 1) as nat);
    }
}

/// A node comes back to itself exactly where its record is on a cycle.
proof fn lemma_circles_are_cycles(
    records: Seq<RecordModel>,
    edges: Seq<Option<usize>>,
    i: int,
)
    requires
        edges.len() == records.len(),
        0 <= i < records.len(),
        forall|k: int|
            0 <= k < edges.len() ==> parent_of(records, k) == match #[trigger] edges[k] {
                Some(j) => Some(j as int),
                None => None,
            },
        edges_ok(edges),
    ensures
        circles(edges, i) == on_cycle(records, i),
{
    if circles(edges, i) {
        let steps = choose|steps: nat| steps > 0 && #[trigger] hop(edges, i, steps) == Some(i);
        lemma_hops_are_ancestors(records, edges, i, steps);
        assert(ancestor(records, i, steps) == Some(i));
    }
    if on_cycle(records, i) {
        let steps = choose|steps: nat|
            steps > 0 && #[trigger] ancestor(records, i, steps) == Some(i);
        lemma_hops_are_ancestors(records, edges, i, steps);
        assert(hop(edges, i, steps) == Some(i));
    }
}

/// A record without a parent that counts is on no cycle.
proof fn lemma_no_parent_no_cycle(records: Seq<RecordModel>, i: int, steps: nat)
    requires
        parent_of(records, i) is None,
        steps > 0,
    ensures
        ancestor(records, i, steps) is None,
    decreases steps,
{
    if steps > 1 {
        lemma_no_parent_no_cycle(records, i, (steps - 1) as nat);
    } else {
        assert(ancestor(records, i, 0) == Some(i));
    }
}

/// The links of all records, by record, and the edges among them.
fn make_links(
    records: &[ParentRecord],
    keys: &Vec<Key>,
    order: &Vec<usize>,
) -> (r: (Vec<Link>, Vec<Option<usize>>))
    requires
        sorted_by(record_models(records@), keys@, order@),
    ensures
        r.0@.len() == order@.len(),
        forall|k: int|
            0 <= k < r.0@.len() ==> links(record_models(records@), order@[k] as int, #[trigger] r.0@[k]),
        r.1@.len() == record_models(records@).len(),
        edges_ok(r.1@),
        forall|i: int|
            0 <= i < r.1@.len() ==> parent_of(record_models(records@), i) == match #[trigger] r.1@[i] {
                Some(j) => Some(j as int),
                None => None,
            },
{
    let n: usize = records.len();
    let mut found: Vec<Link> = Vec::new();
    let mut edges: Vec<Option<usize>> = Vec::new();
    while edges.len() < n
        invariant
            edges@.len() <= n,
            forall|i: int| 0 <= i < edges@.len() ==> #[trigger] edges@[i] is None,
        decreases n - edges@.len(),
    {
        edges.push(None);
    }
    assert forall|m: int| 0 <= m < order@.len() implies #[trigger] order@[m] < record_models(records@).len() by {
        assert(ints(order@)[m] == order@[m]);
    }
    let mut k: usize = 0;
    while k < order.len()
        invariant
            sorted_by(record_models(records@), keys@, order@),
            forall|m: int| 0 <= m < order@.len() ==> #[trigger] order@[m] < record_models(records@).len(),
            n == record_models(records@).len(),
            k <= order@.len(),
            found@.len() == k,
            edges@.len() == n,
            edges_ok(edges@),
            forall|m: int|
                0 <= m < k ==> links(record_models(records@), order@[m] as int, #[trigger] found@[m]),
            forall|m: int|
                0 <= m < k ==> parent_of(record_models(records@), order@[m] as int) == match
                    edges@[#[trigger] order@[m] as int] {
                    Some(j) => Some(j as int),
                    None => None,
                },
            forall|m: int|
                k <= m < order@.len() ==> edges@[#[trigger] order@[m] as int] is None,
        decreases order.len() - k,
    {
        let link = link_of(records, keys, order, k);
        proof {
            assert(ints(order@)[k as int] == order@[k as int]);
            assert forall|m: int| 0 <= m < order@.len() && m != k implies order@[m]
                != order@[k as int] by {
                if m < k {
                    lemma_identities_grow(record_models(records@), keys@, order@, m, k as int);
                } else {
                    lemma_identities_grow(record_models(records@), keys@, order@, k as int, m);
                }
            }
        }
        match &link {
            Link::To(j) => {
                edges[order[k]] = Some(*j);
            },
            _ => {
                proof {
                    let i = order@[k as int] as int;
                    if parent_of(record_models(records@), i) is Some {
                        let j = choose|j: int| j != i && names_parent(record_models(records@), i, j);
                        assert(names_parent(record_models(records@), i, j) && j != i);
                        assert(exists_identity(record_models(records@), identity(record_models(records@), j)));
                        if link is Own {
                            assert(identity(record_models(records@), j) == identity(record_models(records@), i));
                            assert(ambiguous(record_models(records@), i));
                        }
                    }
                }
            },
        }
        found.push(link);
        k += 1;
    }
    proof {
        assert forall|i: int| 0 <= i < edges@.len() implies parent_of(record_models(records@), i) == match
            #[trigger] edges@[i] {
            Some(j) => Some(j as int),
            None => None,
        } by {
            let m = lemma_order_has(record_models(records@), keys@, order@, i);
            assert(order@[m] == i);
        }
    }
    (found, edges)
}

/// Analyze physical identities without choosing edges from duplicate records.
#[must_use]
pub fn analyze_parents(records: &[ParentRecord]) -> (r: Vec<ValidationIssue>)
    ensures
        reports(record_models(records@), error::issue_models(r@)),
{
    let keys = make_keys(records);
    let order = order::order(&keys);
    assert(ints(order@) =~= order@.map_values(|x: usize| x as int));
    let (found, edges) = make_links(records, &keys, &order);
    let cyclic = find_cycles(&edges);
    let mut issues: Vec<ValidationIssue> = Vec::new();
    let ghost mut at: Seq<int> = seq![];
    let mut k: usize = 0;
    while k < order.len()
        invariant
            sorted_by(record_models(records@), keys@, order@),
            k <= order@.len(),
            found@.len() == order@.len(),
            forall|k: int|
                0 <= k < found@.len() ==> links(
                    record_models(records@),
                    order@[k] as int,
                    #[trigger] found@[k],
                ),
            edges@.len() == record_models(records@).len(),
            edges_ok(edges@),
            forall|i: int|
                0 <= i < edges@.len() ==> parent_of(record_models(records@), i) == match #[trigger] edges@[i] {
                    Some(j) => Some(j as int),
                    None => None,
                },
            cyclic@.len() == edges@.len(),
            forall|i: int| 0 <= i < cyclic@.len() ==> #[trigger] cyclic@[i] == circles(edges@, i),
            at.len() == issues@.len(),
            forall|m: int|
                0 <= m < at.len() ==> 0 <= #[trigger] at[m] < record_models(records@).len() && fault(
                    record_models(records@),
                    at[m],
                ) == Some(issues@[m]@),
            forall|a: int, b: int|
                0 <= a < b < at.len() ==> text::less(
                    identity(record_models(records@), #[trigger] at[a]),
                    identity(record_models(records@), #[trigger] at[b]),
                ),
            forall|m: int|
                0 <= m < at.len() ==> exists|n: int|
                    0 <= n < k && #[trigger] at[m] == #[trigger] order@[n],
            forall|n: int|
                0 <= n < k && fault(record_models(records@), #[trigger] order@[n] as int) is Some
                    ==> at.contains(order@[n] as int),
        decreases order.len() - k,
    {
        assert(ints(order@)[k as int] == order@[k as int]);
        let i: usize = order[k];
        let (shared, first) = neighbours(records, &keys, &order, k);
        proof {
            lemma_circles_are_cycles(record_models(records@), edges@, i as int);
            assert(links(record_models(records@), order@[k as int] as int, found@[k as int]));
            if parent_of(record_models(records@), i as int) is None && on_cycle(record_models(records@), i as int) {
                let steps = choose|steps: nat|
                    steps > 0 && #[trigger] ancestor(record_models(records@), i as int, steps) == Some(i as int);
                lemma_no_parent_no_cycle(record_models(records@), i as int, steps);
            }
        }
        let id = text::string(&keys[i].id);
        let path = records[i].path.as_str();
        let issue: Option<ValidationIssue> = if shared {
            if first {
                Some(
                    ValidationIssue::error(
                        "duplicate_task_id",
                        text::join3("Task ID ", id.as_str(), " appears more than once").as_str(),
                    ).at_path(path),
                )
            } else {
                None
            }
        } else {
            match &found[k] {
                Link::Free => None,
                Link::Missing => {
                    let parent = match &records[i].parent {
                        Some(parent) => text::upper_string(parent.as_str()),
                        None => String::new(),
                    };
                    Some(
                        ValidationIssue::error(
                            "missing_parent_reference",
                            text::join3("Parent task ", parent.as_str(), " does not exist").as_str(),
                        ).at_path(path).at_field("parent"),
                    )
                },
                Link::Own => Some(
                    ValidationIssue::error(
                        "self_parent_reference",
                        text::join3("Task ", id.as_str(), " cannot parent itself").as_str(),
                    ).at_path(path).at_field("parent"),
                ),
                Link::To(_) => if cyclic[i] {
                    Some(
                        ValidationIssue::error(
                            "parent_cycle",
                            text::join3(
                                "Task ",
                                id.as_str(),
                                " participates in a parent cycle",
                            ).as_str(),
                        ).at_path(path).at_field("parent"),
                    )
                } else {
                    None
                },
            }
        };
        let ghost before = at;
        proof {
            assert((match issue {
                Some(issue) => Some(issue@),
                None => None,
            }) == fault(record_models(records@), i as int));
            if issue is Some {
                assert forall|m: int| 0 <= m < at.len() implies text::less(
                    identity(record_models(records@), #[trigger] at[m]),
                    identity(record_models(records@), i as int),
                ) by {
                    let n = choose|n: int| 0 <= n < k && at[m] == #[trigger] order@[n];
                    lemma_identities_grow(record_models(records@), keys@, order@, n, k as int);
                    if identity(record_models(records@), at[m]) == identity(record_models(records@), i as int) {
                        assert(ambiguous(record_models(records@), i as int));
                        assert(ambiguous(record_models(records@), at[m]));
                        assert(representative(record_models(records@), i as int));
                        assert(representative(record_models(records@), at[m]));
                        paths::lemma_parts_less_one_way(
                            paths::parts(record_models(records@)[i as int].path),
                            paths::parts(record_models(records@)[at[m]].path),
                            0,
                        );
                    }
                }
                at = at.push(i as int);
                assert forall|n: int|
                    0 <= n < k + 1 && fault(
                        record_models(records@),
                        #[trigger] order@[n] as int,
                    ) is Some implies at.contains(order@[n] as int) by {
                    if n < k {
                        let m = before.index_of(order@[n] as int);
                        assert(at[m] == order@[n] as int);
                    } else {
                        assert(at[before.len() as int] == i);
                    }
                }
            }
            assert forall|m: int| 0 <= m < at.len() implies exists|n: int|
                0 <= n < k + 1 && #[trigger] at[m] == #[trigger] order@[n] by {
                if m < before.len() {
                    let n = choose|n: int| 0 <= n < k && before[m] == #[trigger] order@[n];
                    assert(at[m] == order@[n]);
                } else {
                    assert(at[m] == order@[k as int]);
                }
            }
        }
        if let Some(issue) = issue {
            issues.push(issue);
        }
        k += 1;
    }
    proof {
        let models = error::issue_models(issues@);
        assert forall|i: int| 0 <= i < record_models(records@).len() && #[trigger] fault(
            record_models(records@),
            i,
        ) is Some implies at.contains(i) by {
            let m = lemma_order_has(record_models(records@), keys@, order@, i);
            assert(order@[m] == i);
        }
        assert(lists_faults(record_models(records@), models, at));
    }
    issues
}

/// No record with an unambiguous identity is faulted unless it names a parent, and a record
/// is said to be on a cycle only where it is one of its own ancestors.
pub proof fn only_cycle_members_are_faulted(records: Seq<RecordModel>, i: int)
    requires
        0 <= i < records.len(),
        !ambiguous(records, i),
    ensures
        records[i].parent is None ==> fault(records, i) is None,
        (fault(records, i) matches Some(issue) && issue.code == "parent_cycle"@) ==> on_cycle(
            records,
            i,
        ),
{
    reveal_strlit("parent_cycle");
    reveal_strlit("missing_parent_reference");
    reveal_strlit("self_parent_reference");
    assert("parent_cycle"@.len() == 12);
    assert("missing_parent_reference"@.len() == 24);
    assert("self_parent_reference"@.len() == 21);
}

/// Whether nothing is wrong with any record's place among the others.
pub open spec fn faultless(records: Seq<RecordModel>) -> bool {
    forall|i: int| 0 <= i < records.len() ==> #[trigger] fault(records, i) is None
}

/// Whether the `i`-th record has a fault, and its identity is the first that has one.
pub open spec fn first_fault(records: Seq<RecordModel>, i: int) -> bool {
    &&& 0 <= i < records.len()
    &&& fault(records, i) is Some
    &&& forall|j: int|
        0 <= j < records.len() && j != i && #[trigger] fault(records, j) is Some ==> text::less(
            identity(records, i),
            identity(records, j),
        )
}

/// A fault as an error.
pub open spec fn fault_error(issue: IssueModel) -> ErrorModel {
    let error = ErrorModel::validation(issue.code, issue.message);
    let placed = match issue.path {
        Some(path) => error.with_path(path),
        None => error,
    };
    match issue.field {
        Some(field) => placed.with_field(field),
        None => placed,
    }
}

/// Whether nothing is wrong with the records' places, or the first fault.
pub open spec fn check_relations(records: Seq<RecordModel>) -> Result<(), ErrorModel> {
    if faultless(records) {
        Ok(())
    } else {
        Err(fault_error(fault(records, choose|i: int| first_fault(records, i))->0))
    }
}

/// There is but one first fault.
proof fn lemma_first_fault(records: Seq<RecordModel>, i: int, j: int)
    requires
        first_fault(records, i),
        first_fault(records, j),
    ensures
        i == j,
{
    if i != j {
        let (a, b) = (identity(records, i), identity(records, j));
        assert(fault(records, j) is Some);
        assert(fault(records, i) is Some);
        assert(a.take(0) == b.take(0));
        text::lemma_less_total(a, b, 0);
    }
}

fn fault_code(code: &str) -> (r: &'static str)
    ensures
        code@ == "duplicate_task_id"@ || code@ == "missing_parent_reference"@ || code@
            == "self_parent_reference"@ || code@ == "parent_cycle"@ ==> r@ == code@,
{
    if text::same(code, "duplicate_task_id") {
        "duplicate_task_id"
    } else if text::same(code, "missing_parent_reference") {
        "missing_parent_reference"
    } else if text::same(code, "self_parent_reference") {
        "self_parent_reference"
    } else {
        "parent_cycle"
    }
}

/// Fail with the first fault of the records' places. See [`check_relations`].
pub fn ensure_valid_relations(records: &[ParentRecord]) -> (r: Result<(), Error>)
    ensures
        error::outcome(r) == check_relations(record_models(records@)),
{
    let issues = analyze_parents(records);
    let ghost models = record_models(records@);
    let ghost listed = error::issue_models(issues@);
    let ghost at = choose|at: Seq<int>| #[trigger] lists_faults(models, listed, at);
    if issues.len() == 0 {
        assert(faultless(models)) by {
            assert forall|i: int| 0 <= i < models.len() implies #[trigger] fault(
                models,
                i,
            ) is None by {
                if fault(models, i) is Some {
                    assert(at.contains(i));
                }
            }
        }
        return Ok(());
    }
    let issue = &issues[0];
    proof {
        let i = at[0];
        assert(listed[0] == issue@);
        assert(fault(models, i) == Some(issue@));
        assert(first_fault(models, i)) by {
            assert forall|j: int|
                0 <= j < models.len() && j != i && #[trigger] fault(
                    models,
                    j,
                ) is Some implies text::less(identity(models, i), identity(models, j)) by {
                assert(at.contains(j));
                let k = at.index_of(j);
                assert(at[k] == j);
                assert(text::less(identity(models, at[0]), identity(models, at[k])));
            }
        }
        let first = choose|i: int| first_fault(models, i);
        lemma_first_fault(models, i, first);
    }
    let mut error = Error::validation(fault_code(issue.code.as_str()), issue.message.as_str());
    if let Some(path) = &issue.path {
        error = error.with_path(path.as_str());
    }
    if let Some(field) = &issue.field {
        error = error.with_field(field.as_str());
    }
    Err(error)
}

/// The error for tasks that relate otherwise than they did.
pub open spec fn relations_changed() -> ErrorModel {
    ErrorModel::new(
        ErrorKind::Concurrent,
        "concurrent_modification"@,
        "Task relationships changed after they were read; nothing was written"@,
    )
}

fn is_same_record(a: &ParentRecord, b: &ParentRecord) -> (r: bool)
    ensures
        r == (a@ == b@),
{
    let same_parent = match (&a.parent, &b.parent) {
        (None, None) => true,
        (Some(x), Some(y)) => text::same(x.as_str(), y.as_str()),
        _ => false,
    };
    text::same(a.id.as_str(), b.id.as_str()) && text::same(a.path.as_str(), b.path.as_str())
        && same_parent
}

/// Whether tasks still relate as they did when they were read, which is asked before each write.
pub fn ensure_relations_unchanged(before: &Vec<ParentRecord>, now: &Vec<ParentRecord>) -> (r: Result<
    (),
    Error,
>)
    ensures
        r is Ok <==> record_models(before@) == record_models(now@),
        r matches Err(e) ==> e@ == relations_changed(),
{
    let ghost (a, b) = (record_models(before@), record_models(now@));
    let mut same = before.len() == now.len();
    let mut i: usize = 0;
    assert(a.len() == before@.len() && b.len() == now@.len());
    while same && i < before.len()
        invariant
            i <= before@.len(),
            a == record_models(before@),
            b == record_models(now@),
            a.len() == before@.len(),
            b.len() == now@.len(),
            same ==> a.len() == b.len() && forall|k: int| 0 <= k < i ==> a[k] == b[k],
            !same ==> a != b,
        decreases before.len() - i,
    {
        assert(a[i as int] == before@[i as int]@ && b[i as int] == now@[i as int]@);
        if !is_same_record(&before[i], &now[i]) {
            same = false;
        }
        i += 1;
    }
    if same {
        assert(a =~= b);
        return Ok(());
    }
    Err(
        Error::new(
            ErrorKind::Concurrent,
            "concurrent_modification",
            "Task relationships changed after they were read; nothing was written",
        ),
    )
}

} // verus!
