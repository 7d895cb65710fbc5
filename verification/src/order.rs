//! Stable sorting of a list by a strict weak order on its items.
use vstd::prelude::*;

verus! {

/// Items that can be ranked: `before` is a strict weak order.
pub trait Ranked: Sized {
    /// Whether `a` ranks strictly before `b`.
    spec fn before(a: Self, b: Self) -> bool;

    /// Of two items at most one ranks before the other.
    proof fn one_way(a: Self, b: Self)
        requires
            Self::before(a, b),
        ensures
            !Self::before(b, a),
    ;

    /// Where one item ranks before another, a third does not tie with both.
    proof fn no_gap(a: Self, b: Self, c: Self)
        requires
            Self::before(a, c),
        ensures
            Self::before(a, b) || Self::before(b, c),
    ;

    /// Whether this item ranks strictly before the other.
    fn is_before(&self, other: &Self) -> (r: bool)
        ensures
            r == Self::before(*self, *other),
    ;
}

/// Whether the item at `i` comes out before the one at `j`: it ranks before it, or ties
/// with it and stood before it.
pub open spec fn precedes<T: Ranked>(items: Seq<T>, i: int, j: int) -> bool {
    T::before(items[i], items[j]) || (!T::before(items[j], items[i]) && i < j)
}

/// Whether `p` lists the positions of `items` in the order in which they come out.
pub open spec fn in_order<T: Ranked>(items: Seq<T>, p: Seq<int>) -> bool {
    &&& p.len() == items.len()
    &&& forall|i: int| 0 <= i < p.len() ==> 0 <= #[trigger] p[i] < items.len()
    &&& forall|i: int, j: int|
        0 <= i < j < p.len() ==> precedes(items, #[trigger] p[i], #[trigger] p[j])
}

/// The items at the positions `p`.
pub open spec fn reordered<T>(items: Seq<T>, p: Seq<int>) -> Seq<T> {
    Seq::new(p.len(), |i: int| items[p[i]])
}

/// Whether `sorted` is the stable arrangement of `items`.
pub open spec fn arranged<T: Ranked>(items: Seq<T>, sorted: Seq<T>) -> bool {
    exists|p: Seq<int>| #[trigger] in_order(items, p) && sorted == reordered(items, p)
}

spec fn ints(v: Seq<usize>) -> Seq<int> {
    v.map_values(|x: usize| x as int)
}

/// Whether `r` lists the positions from `lo` up to `hi`, each once, in order.
spec fn run<T: Ranked>(items: Seq<T>, r: Seq<usize>, lo: int, hi: int) -> bool {
    &&& r.len() == hi - lo
    &&& forall|i: int| 0 <= i < r.len() ==> lo <= #[trigger] r[i] < hi
    &&& forall|i: int, j: int|
        0 <= i < j < r.len() ==> precedes(items, #[trigger] r[i] as int, #[trigger] r[j] as int)
}

proof fn precedes_transitive<T: Ranked>(items: Seq<T>, i: int, j: int, k: int)
    requires
        precedes(items, i, j),
        precedes(items, j, k),
    ensures
        precedes(items, i, k),
{
    let (a, b, c) = (items[i], items[j], items[k]);
    if T::before(a, b) {
        T::no_gap(a, c, b);
        if T::before(b, c) {
            T::one_way(b, c);
        }
    } else if T::before(b, c) {
        T::no_gap(b, a, c);
    } else if T::before(c, a) {
        T::no_gap(c, b, a);
    }
}

proof fn precedes_total<T: Ranked>(items: Seq<T>, i: int, j: int)
    requires
        i != j,
        !precedes(items, i, j),
    ensures
        precedes(items, j, i),
{
    if T::before(items[i], items[j]) {
        T::one_way(items[i], items[j]);
    }
}

fn is_first<T: Ranked>(items: &[T], i: usize, j: usize) -> (r: bool)
    requires
        i < j < items@.len(),
    ensures
        r == precedes(items@, i as int, j as int),
        !r ==> precedes(items@, j as int, i as int),
{
    proof {
        if !precedes(items@, i as int, j as int) {
            precedes_total(items@, i as int, j as int);
        }
        if T::before(items@[i as int], items@[j as int]) {
            T::one_way(items@[i as int], items@[j as int]);
        }
    }
    !items[j].is_before(&items[i])
}

fn merge<T: Ranked>(items: &[T], a: &Vec<usize>, b: &Vec<usize>, lo: usize, mid: usize, hi: usize) -> (r:
    Vec<usize>)
    requires
        lo <= mid <= hi <= items@.len(),
        run(items@, a@, lo as int, mid as int),
        run(items@, b@, mid as int, hi as int),
    ensures
        run(items@, r@, lo as int, hi as int),
{
    let mut r: Vec<usize> = Vec::new();
    let mut i: usize = 0;
    let mut j: usize = 0;
    while i < a.len() || j < b.len()
        invariant
            lo <= mid <= hi <= items@.len(),
            run(items@, a@, lo as int, mid as int),
            run(items@, b@, mid as int, hi as int),
            i <= a.len(),
            j <= b.len(),
            r@.len() == i + j,
            forall|k: int| 0 <= k < r@.len() ==> lo <= #[trigger] r@[k] < hi,
            forall|x: int, y: int|
                0 <= x < y < r@.len() ==> precedes(
                    items@,
                    #[trigger] r@[x] as int,
                    #[trigger] r@[y] as int,
                ),
            forall|x: int, y: int|
                #![trigger r@[x], a@[y]]
                0 <= x < r@.len() && i <= y < a@.len() ==> precedes(
                    items@,
                    r@[x] as int,
                    a@[y] as int,
                ),
            forall|x: int, y: int|
                #![trigger r@[x], b@[y]]
                0 <= x < r@.len() && j <= y < b@.len() ==> precedes(
                    items@,
                    r@[x] as int,
                    b@[y] as int,
                ),
        decreases a.len() - i + b.len() - j,
    {
        let from_a = j >= b.len() || (i < a.len() && is_first(items, a[i], b[j]));
        if from_a {
            let x: usize = a[i];
            assert forall|y: int| j <= y < b@.len() implies precedes(
                items@,
                x as int,
                #[trigger] b@[y] as int,
            ) by {
                if y > j {
                    precedes_transitive(items@, x as int, b@[j as int] as int, b@[y] as int);
                }
            }
            r.push(x);
            i += 1;
        } else {
            let x: usize = b[j];
            assert forall|y: int| i <= y < a@.len() implies precedes(
                items@,
                x as int,
                #[trigger] a@[y] as int,
            ) by {
                if y > i {
                    precedes_transitive(items@, x as int, a@[i as int] as int, a@[y] as int);
                }
            }
            r.push(x);
            j += 1;
        }
    }
    r
}

fn sort_range<T: Ranked>(items: &[T], lo: usize, hi: usize) -> (r: Vec<usize>)
    requires
        lo <= hi <= items@.len(),
    ensures
        run(items@, r@, lo as int, hi as int),
    decreases hi - lo,
{
    if hi - lo <= 1 {
        let mut r: Vec<usize> = Vec::new();
        if lo < hi {
            r.push(lo);
        }
        r
    } else {
        let mid: usize = lo + (hi - lo) / 2;
        let a = sort_range(items, lo, mid);
        let b = sort_range(items, mid, hi);
        merge(items, &a, &b, lo, mid, hi)
    }
}

/// The positions of the items in sorted order.
pub fn order<T: Ranked>(items: &[T]) -> (r: Vec<usize>)
    ensures
        in_order(items@, r@.map_values(|x: usize| x as int)),
{
    let r = sort_range(items, 0, items.len());
    assert(in_order(items@, r@.map_values(|x: usize| x as int))) by {
        let p = r@.map_values(|x: usize| x as int);
        assert forall|i: int, j: int| 0 <= i < j < p.len() implies precedes(
            items@,
            #[trigger] p[i],
            #[trigger] p[j],
        ) by {
            assert(precedes(items@, r@[i] as int, r@[j] as int));
        }
    }
    r
}

/// The list in sorted order; items that tie keep their order.
pub fn sort<T: Ranked>(items: Vec<T>) -> (r: Vec<T>)
    ensures
        arranged(items@, r@),
        r@.len() == items@.len(),
{
    let order = order(&items);
    let ghost p = order@.map_values(|x: usize| x as int);
    let ghost given = items@;
    proof {
        assert forall|i: int, j: int| 0 <= i < j < p.len() implies p[i] != p[j] by {
            if p[i] == p[j] {
                assert(precedes(given, p[i], p[j]));
                T::one_way(given[p[i]], given[p[j]]);
            }
        }
    }
    let mut slots: Vec<Option<T>> = Vec::new();
    for item in iter: items
        invariant
            iter.seq() == given,
            slots@.len() == iter.index(),
            forall|k: int| 0 <= k < slots@.len() ==> #[trigger] slots@[k] == Some(given[k]),
    {
        slots.push(Some(item));
    }
    let mut r: Vec<T> = Vec::new();
    let mut i: usize = 0;
    while i < order.len()
        invariant
            i <= order.len(),
            p == order@.map_values(|x: usize| x as int),
            in_order(given, p),
            forall|x: int, y: int| 0 <= x < y < p.len() ==> #[trigger] p[x] != #[trigger] p[y],
            slots@.len() == given.len(),
            forall|k: int|
                0 <= k < slots@.len() && (forall|x: int| 0 <= x < i ==> #[trigger] p[x] != k)
                    ==> #[trigger] slots@[k] == Some(given[k]),
            r@ == reordered(given, p).take(i as int),
        decreases order.len() - i,
    {
        let at: usize = order[i];
        assert(p[i as int] == at);
        assert(slots@[at as int] == Some(given[at as int]));
        let item = slots[at].take();
        match item {
            Some(item) => {
                r.push(item);
            },
            None => {},
        }
        assert(reordered(given, p).take(i + 1) == reordered(given, p).take(i as int).push(
            given[p[i as int]],
        ));
        i += 1;
    }
    assert(reordered(given, p).take(i as int) == reordered(given, p));
    r
}

/// Numbers below `n` that are all different, `n` of them, are all the numbers below `n`.
proof fn lemma_covers(p: Seq<int>, k: int)
    requires
        forall|i: int| 0 <= i < p.len() ==> 0 <= #[trigger] p[i] < p.len(),
        p.no_duplicates(),
        0 <= k < p.len(),
    ensures
        p.contains(k),
{
    let all = vstd::set_lib::set_int_range(0, p.len() as int);
    vstd::set_lib::lemma_int_range(0, p.len() as int);
    p.unique_seq_to_set();
    assert(p.to_set().subset_of(all));
    vstd::set_lib::lemma_subset_equality(p.to_set(), all);
    assert(p.to_set().contains(k));
}

/// A sorted order lists every position, each once.
pub proof fn lemma_order_covers<T: Ranked>(items: Seq<T>, p: Seq<int>)
    requires
        in_order(items, p),
    ensures
        p.no_duplicates(),
        forall|k: int| 0 <= k < items.len() ==> #[trigger] p.contains(k),
{
    assert forall|i: int, j: int| 0 <= i < p.len() && 0 <= j < p.len() && i != j implies p[i]
        != p[j] by {
        if p[i] == p[j] {
            if i < j {
                assert(precedes(items, p[i], p[j]));
            } else {
                assert(precedes(items, p[j], p[i]));
            }
            T::one_way(items[p[i]], items[p[j]]);
        }
    }
    assert forall|k: int| 0 <= k < items.len() implies #[trigger] p.contains(k) by {
        lemma_covers(p, k);
    }
}

/// No item ranks before one that comes out earlier.
pub proof fn lemma_in_order_ranks<T: Ranked>(items: Seq<T>, p: Seq<int>, i: int, j: int)
    requires
        in_order(items, p),
        0 <= i < j < p.len(),
    ensures
        !T::before(items[p[j]], items[p[i]]),
{
    assert(precedes(items, p[i], p[j]));
    if T::before(items[p[i]], items[p[j]]) {
        T::one_way(items[p[i]], items[p[j]]);
    }
}

} // verus!
