//! What holds of texts: how they are ordered, and where their lines end.
use crate::text;
use vstd::prelude::*;

verus! {

/// Of two texts the one comes first that has the smaller character where they first differ, or
/// that the other goes on from; and never both.
pub proof fn texts_are_ordered_by_their_first_difference(
    common: Seq<char>,
    c: char,
    d: char,
    x: Seq<char>,
    y: Seq<char>,
)
    requires
        c < d,
    ensures
        text::less(common + seq![c] + x, common + seq![d] + y),
        !text::less(common + seq![d] + y, common + seq![c] + x),
        text::less(common, common + seq![c] + x),
        !text::less(common + seq![c] + x, common),
        !text::less(common, common),
{
    let (a, b) = (common + seq![c] + x, common + seq![d] + y);
    let n = common.len() as int;
    assert(a[n] == c && b[n] == d);
    assert(forall|i: int| 0 <= i < n ==> a[i] == common[i] && b[i] == common[i]);
    lemma_same_so_far(a, b, 0, n);
    lemma_same_so_far(b, a, 0, n);
    lemma_same_so_far(common, a, 0, n);
    lemma_same_so_far(a, common, 0, n);
    lemma_same_so_far(common, common, 0, n);
}

proof fn lemma_same_so_far(a: Seq<char>, b: Seq<char>, i: int, n: int)
    requires
        0 <= i <= n <= a.len(),
        n <= b.len(),
        forall|k: int| 0 <= k < n ==> a[k] == b[k],
    ensures
        text::less_from(a, b, i) == text::less_from(a, b, n),
    decreases n - i,
{
    if i < n {
        lemma_same_so_far(a, b, i + 1, n);
    }
}

/// The first line of a text ends at its first line feed, or at a carriage return before that;
/// its other lines are those of what follows. A text without a line feed is one line, unless it
/// is empty, and an end of a line at the end of a text begins no other.
pub proof fn lines_end_at_line_feeds(line: Seq<char>, rest: Seq<char>)
    requires
        !line.contains('\n'),
    ensures
        line.len() == 0 || line.last() != '\r' ==> text::lines(line + seq!['\n'] + rest)
            == seq![line] + text::lines(rest),
        text::lines(line + seq!['\r', '\n'] + rest) == seq![line] + text::lines(rest),
        line.len() > 0 ==> text::lines(line) == seq![line],
        text::lines(Seq::<char>::empty()).len() == 0,
{
    let n = line.len() as int;
    let feed = line + seq!['\n'] + rest;
    lemma_first_feed(line, rest);
    assert(feed =~= (line + seq!['\n']) + rest);
    lemma_lines_shift(line + seq!['\n'], rest, 0);
    assert(feed.subrange(0, n) =~= line);
    if n > 0 {
        assert(feed[n - 1] == line[n - 1]);
    }
    let head = line.push('\r');
    let both = line + seq!['\r', '\n'] + rest;
    assert forall|i: int| 0 <= i < head.len() implies head[i] != '\n' by {
        if i < n {
            assert(line.contains(line[i]));
        }
    }
    lemma_first_feed(head, rest);
    assert(both =~= head + seq!['\n'] + rest);
    assert(both =~= (head + seq!['\n']) + rest);
    lemma_lines_shift(head + seq!['\n'], rest, 0);
    assert(both[n] == '\r');
    assert(both.subrange(0, n) =~= line);
    if n > 0 {
        text::lemma_find_from(line, '\n', 0);
        let at = text::find_from(line, '\n', 0);
        if at < n {
            assert(line.contains(line[at]));
        }
        assert(line.subrange(0, n) =~= line);
    }
}

proof fn lemma_first_feed(line: Seq<char>, rest: Seq<char>)
    requires
        !line.contains('\n'),
    ensures
        text::find_from(line + seq!['\n'] + rest, '\n', 0) == line.len(),
{
    let whole = line + seq!['\n'] + rest;
    text::lemma_find_from(whole, '\n', 0);
    let at = text::find_from(whole, '\n', 0);
    assert(whole[line.len() as int] == '\n');
    if at < line.len() {
        assert(whole[at] == line[at]);
        assert(line.contains(line[at]));
    }
}

proof fn lemma_lines_shift(a: Seq<char>, b: Seq<char>, from: int)
    requires
        0 <= from <= b.len(),
    ensures
        text::lines_from(a + b, a.len() + from) == text::lines_from(b, from),
    decreases b.len() - from,
{
    let n = a.len() as int;
    text::lemma_find_shift(a, b, '\n', from);
    text::lemma_find_from(b, '\n', from);
    let at = text::find_from(b, '\n', from);
    if from < b.len() {
        if at < b.len() {
            lemma_lines_shift(a, b, at + 1);
            if at > from {
                assert((a + b)[n + at - 1] == b[at - 1]);
            }
            let end = text::line_end(b, from, at);
            assert(text::line_end(a + b, n + from, n + at) == n + end);
            assert((a + b).subrange(n + from, n + end) =~= b.subrange(from, end));
        } else {
            assert((a + b).subrange(n + from, (a + b).len() as int) =~= b.subrange(
                from,
                b.len() as int,
            ));
        }
    }
}

} // verus!
