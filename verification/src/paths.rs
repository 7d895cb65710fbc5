//! Relative paths, written with `/` between their components.
use vstd::prelude::*;

use crate::text;

verus! {

/// One component of a path: its kind and, for an ordinary name, the name.
///
/// The kinds are ordered as the components of a path are: the root, `.`, `..`, a name.
pub struct Part {
    pub kind: u8,
    pub name: Vec<char>,
}

/// The kind and name of a component.
pub open spec fn part(piece: Seq<char>) -> (int, Seq<char>) {
    if piece == seq!['.', '.'] {
        (2int, seq![])
    } else if piece == seq!['.'] {
        (1int, seq![])
    } else {
        (3int, piece)
    }
}

/// The components among the pieces from the `i`-th on. Empty pieces are none, and `.` is
/// one only at the very start.
pub open spec fn kept(pieces: Seq<Seq<char>>, i: int) -> Seq<(int, Seq<char>)>
    decreases pieces.len() - i,
{
    if i >= pieces.len() {
        seq![]
    } else if pieces[i].len() == 0 || (pieces[i] == seq!['.'] && i > 0) {
        kept(pieces, i + 1)
    } else {
        seq![part(pieces[i])] + kept(pieces, i + 1)
    }
}

/// The components of a path.
pub open spec fn parts(path: Seq<char>) -> Seq<(int, Seq<char>)> {
    let rest = kept(text::split(path, '/'), 0);
    if path.len() > 0 && path[0] == '/' {
        seq![(0int, Seq::<char>::empty())] + rest
    } else {
        rest
    }
}

/// The kinds and names of a list of components.
pub open spec fn named(v: Seq<Part>) -> Seq<(int, Seq<char>)> {
    v.map_values(|p: Part| (p.kind as int, p.name@))
}

/// See [`parts`].
pub fn components(path: &str) -> (r: Vec<Part>)
    ensures
        named(r@) == parts(path@),
{
    let chars = text::chars(path);
    let pieces = text::split_on(&chars, '/');
    let ghost all = text::split(path@, '/');
    let mut r: Vec<Part> = Vec::new();
    if chars.len() > 0 && chars[0] == '/' {
        let root = Part { kind: 0, name: Vec::new() };
        r.push(root);
        assert(named(r@) == seq![(0int, Seq::<char>::empty())]);
    }
    let ghost first = named(r@);
    let mut i: usize = 0;
    while i < pieces.len()
        invariant
            i <= pieces.len(),
            text::texts(pieces@) == all,
            named(r@) + kept(all, i as int) == first + kept(all, 0),
        decreases pieces.len() - i,
    {
        let piece = &pieces[i];
        assert(all[i as int] == piece@);
        let dot = piece.len() == 1 && piece[0] == '.';
        let dots = piece.len() == 2 && piece[0] == '.' && piece[1] == '.';
        assert(dot == (piece@ =~= seq!['.']));
        assert(dots == (piece@ =~= seq!['.', '.']));
        if piece.len() == 0 || (dot && i > 0) {
        } else {
            let ghost before = named(r@);
            let ghost rest = kept(all, i + 1);
            let added = if dots {
                Part { kind: 2, name: Vec::new() }
            } else if dot {
                Part { kind: 1, name: Vec::new() }
            } else {
                Part { kind: 3, name: text::cut(piece, 0, piece.len()) }
            };
            proof {
                assert(piece@.subrange(0, piece@.len() as int) == piece@);
                assert(added.name@ =~= part(piece@).1);
                assert((added.kind as int, added.name@) == part(piece@));
            }
            r.push(added);
            assert(named(r@) == before.push(part(piece@)));
            assert(before.push(part(piece@)) + rest == before + (seq![part(piece@)] + rest));
        }
        i += 1;
    }
    assert(named(r@) == first + kept(all, 0));
    r
}

/// Whether one component ranks before another.
pub open spec fn part_less(a: (int, Seq<char>), b: (int, Seq<char>)) -> bool {
    a.0 < b.0 || (a.0 == b.0 && text::less(a.1, b.1))
}

/// Whether the components `a` come before `b`, from the `i`-th on.
pub open spec fn parts_less(a: Seq<(int, Seq<char>)>, b: Seq<(int, Seq<char>)>, i: int) -> bool
    decreases b.len() - i,
{
    if i >= b.len() {
        false
    } else if i >= a.len() {
        true
    } else if a[i] != b[i] {
        part_less(a[i], b[i])
    } else {
        parts_less(a, b, i + 1)
    }
}

/// Whether one path comes before another, component by component.
pub open spec fn path_less(a: Seq<char>, b: Seq<char>) -> bool {
    parts_less(parts(a), parts(b), 0)
}

proof fn part_less_strict(a: (int, Seq<char>), b: (int, Seq<char>))
    ensures
        !(part_less(a, b) && part_less(b, a)),
        part_less(a, b) || part_less(b, a) || a == b,
{
    assert(a.1.take(0) == b.1.take(0));
    text::lemma_less_total(a.1, b.1, 0);
}

/// At most one of two lists of components comes before the other.
pub proof fn lemma_parts_less_one_way(
    a: Seq<(int, Seq<char>)>,
    b: Seq<(int, Seq<char>)>,
    i: int,
)
    ensures
        !(parts_less(a, b, i) && parts_less(b, a, i)),
    decreases b.len() - i,
{
    if i < a.len() && i < b.len() {
        if a[i] == b[i] {
            lemma_parts_less_one_way(a, b, i + 1);
        } else {
            part_less_strict(a[i], b[i]);
        }
    }
}

/// A list of components that comes before another comes before, or after, any third one.
pub proof fn lemma_parts_less_no_gap(
    a: Seq<(int, Seq<char>)>,
    b: Seq<(int, Seq<char>)>,
    c: Seq<(int, Seq<char>)>,
    i: int,
)
    requires
        parts_less(a, c, i),
    ensures
        parts_less(a, b, i) || parts_less(b, c, i),
    decreases c.len() - i,
{
    if i < a.len() && i < b.len() && i < c.len() {
        if a[i] == b[i] && b[i] == c[i] {
            lemma_parts_less_no_gap(a, b, c, i + 1);
        } else if a[i] != b[i] && b[i] != c[i] {
            part_less_strict(a[i], b[i]);
            part_less_strict(b[i], c[i]);
            part_less_strict(a[i], c[i]);
            if a[i].0 == b[i].0 && b[i].0 == c[i].0 && text::less(b[i].1, a[i].1) && text::less(
                c[i].1,
                b[i].1,
            ) {
                text::lemma_less_transitive(c[i].1, b[i].1, a[i].1, 0);
            }
        }
    }
}

/// See [`path_less`].
pub fn is_path_less(a: &str, b: &str) -> (r: bool)
    ensures
        r == path_less(a@, b@),
{
    let v = components(a);
    let w = components(b);
    let mut i: usize = 0;
    while i < w.len()
        invariant
            i <= w.len(),
            named(v@) == parts(a@),
            named(w@) == parts(b@),
            path_less(a@, b@) == parts_less(parts(a@), parts(b@), i as int),
        decreases w.len() - i,
    {
        if i >= v.len() {
            return true;
        }
        assert(named(v@)[i as int] == (v@[i as int].kind as int, v@[i as int].name@));
        assert(named(w@)[i as int] == (w@[i as int].kind as int, w@[i as int].name@));
        if v[i].kind != w[i].kind {
            return v[i].kind < w[i].kind;
        }
        if !text::equal(&v[i].name, &w[i].name) {
            return text::is_less(&v[i].name, &w[i].name);
        }
        i += 1;
    }
    false
}

/// Whether the components of `path` begin with those of `base`.
pub open spec fn path_begins(path: Seq<char>, base: Seq<char>) -> bool {
    parts(base).len() <= parts(path).len() && parts(path).take(parts(base).len() as int) == parts(
        base,
    )
}

/// See [`path_begins`].
pub fn is_path_within(path: &str, base: &str) -> (r: bool)
    ensures
        r == path_begins(path@, base@),
{
    let p = components(path);
    let b = components(base);
    if b.len() > p.len() {
        return false;
    }
    let ghost whole = named(p@).take(b@.len() as int);
    let mut i: usize = 0;
    while i < b.len()
        invariant
            i <= b.len() <= p.len(),
            named(p@) == parts(path@),
            named(b@) == parts(base@),
            whole == named(p@).take(b@.len() as int),
            forall|k: int| 0 <= k < i ==> #[trigger] whole[k] == named(b@)[k],
        decreases b.len() - i,
    {
        assert(whole[i as int] == (p@[i as int].kind as int, p@[i as int].name@));
        assert(named(b@)[i as int] == (b@[i as int].kind as int, b@[i as int].name@));
        if p[i].kind != b[i].kind || !text::equal(&p[i].name, &b[i].name) {
            assert(whole[i as int] != named(b@)[i as int]);
            return false;
        }
        i += 1;
    }
    assert(whole =~= named(b@));
    true
}

/// The components of the directory that a path lies in, where it lies in one.
pub open spec fn parent_parts(path: Seq<char>) -> Option<Seq<(int, Seq<char>)>> {
    if parts(path).len() > 0 && parts(path).last().0 != 0 {
        Some(parts(path).drop_last())
    } else {
        None
    }
}

/// See [`parent_parts`].
pub fn parent_components(path: &str) -> (r: Option<Vec<Part>>)
    ensures
        match r {
            Some(v) => parent_parts(path@) == Some(named(v@)),
            None => parent_parts(path@) is None,
        },
{
    let mut v = components(path);
    let ghost all = named(v@);
    if v.len() == 0 {
        return None;
    }
    let last: usize = v.len() - 1;
    assert(all.last() == (v@[last as int].kind as int, v@[last as int].name@));
    if v[last].kind == 0 {
        return None;
    }
    let _ = v.pop();
    assert(named(v@) =~= all.drop_last());
    Some(v)
}

} // verus!
