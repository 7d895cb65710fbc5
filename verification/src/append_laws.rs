//! Links that are appended to the body of a task are found there.
use vstd::prelude::*;

use crate::attachments;
use crate::error::ErrorModel;
use crate::link_laws;
use crate::markdown::{self, Fence, Found, MarkModel, Reading};
use crate::text;

verus! {

/// Whether one text begins with another.
spec fn extends(s: Seq<char>, t: Seq<char>) -> bool {
    t.len() <= s.len() && forall|i: int| 0 <= i < t.len() ==> #[trigger] s[i] == t[i]
}

/// Whether no backtick stands from a place on.
spec fn quiet(s: Seq<char>, n: int) -> bool {
    forall|i: int| n <= i < s.len() ==> #[trigger] s[i] != '`'
}

/// Whether a text is empty or ends with the end of a line.
pub open spec fn whole_lines(s: Seq<char>) -> bool {
    s.len() == 0 || s.last() == '\n'
}

proof fn lemma_same_run(s: Seq<char>, t: Seq<char>, c: char, at: int, end: int)
    requires
        extends(s, t),
        0 <= at,
        end <= t.len(),
    ensures
        markdown::run(s, c, at, end) == markdown::run(t, c, at, end),
    decreases end - at,
{
    if at < end && s[at] == c {
        lemma_same_run(s, t, c, at + 1, end);
    }
}

proof fn lemma_same_slashes(s: Seq<char>, t: Seq<char>, from: int, at: int)
    requires
        extends(s, t),
        0 <= from,
        at <= t.len(),
    ensures
        markdown::slashes(s, from, at) == markdown::slashes(t, from, at),
    decreases at - from,
{
    if at > from && s[at - 1] == '\\' {
        lemma_same_slashes(s, t, from, at - 1);
    }
}

/// A run of backticks does not go on behind the end of a line.
proof fn lemma_same_ticks(s: Seq<char>, t: Seq<char>, at: int)
    requires
        extends(s, t),
        whole_lines(t),
        0 <= at < t.len(),
    ensures
        markdown::run(s, '`', at, s.len() as int) == markdown::run(t, '`', at, t.len() as int),
    decreases t.len() - at,
{
    if s[at] == '`' {
        assert(t[at] == '`');
        if at + 1 < t.len() {
            lemma_same_ticks(s, t, at + 1);
        } else {
            assert(t.last() == '`');
        }
    }
}

proof fn lemma_no_code(s: Seq<char>, at: int, ticks: int)
    requires
        quiet(s, at),
        0 <= at,
    ensures
        markdown::code_end(s, at, ticks) is None,
    decreases s.len() - at,
{
    if at < s.len() {
        lemma_no_code(s, at + 1, ticks);
    }
}

proof fn lemma_same_code_end(s: Seq<char>, t: Seq<char>, at: int, ticks: int)
    requires
        extends(s, t),
        whole_lines(t),
        quiet(s, t.len() as int),
        0 <= at <= t.len(),
    ensures
        markdown::code_end(s, at, ticks) == markdown::code_end(t, at, ticks),
    decreases t.len() - at,
{
    if at < t.len() {
        assert(s[at] == t[at]);
        if s[at] != '`' {
            lemma_same_code_end(s, t, at + 1, ticks);
        } else {
            lemma_same_ticks(s, t, at);
            markdown::lemma_run(t, '`', at, t.len() as int);
            lemma_same_code_end(s, t, at + markdown::run(t, '`', at, t.len() as int), ticks);
        }
    } else {
        lemma_no_code(s, at, ticks);
    }
}

proof fn lemma_same_wiki(s: Seq<char>, t: Seq<char>, at: int, end: int)
    requires
        extends(s, t),
        0 <= at,
        end <= t.len(),
    ensures
        markdown::wiki_close(s, at, end) == markdown::wiki_close(t, at, end),
    decreases end - at,
{
    if at + 1 < end {
        lemma_same_wiki(s, t, at + 1, end);
    }
}

proof fn lemma_same_bracket(s: Seq<char>, t: Seq<char>, at: int, depth: int, end: int)
    requires
        extends(s, t),
        0 <= at,
        end <= t.len(),
    ensures
        markdown::bracket_close(s, at, depth, end) == markdown::bracket_close(t, at, depth, end),
    decreases end - at + 1,
{
    if at < end {
        assert(s[at] == t[at]);
        if s[at] == '\\' {
            lemma_same_bracket(s, t, at + 2, depth, end);
        } else if s[at] == '[' {
            lemma_same_bracket(s, t, at + 1, depth + 1, end);
        } else if s[at] == ']' {
            lemma_same_bracket(s, t, at + 1, depth - 1, end);
        } else {
            lemma_same_bracket(s, t, at + 1, depth, end);
        }
    }
}

proof fn lemma_same_paren(s: Seq<char>, t: Seq<char>, from: int, at: int, depth: int, end: int)
    requires
        extends(s, t),
        0 <= from <= at,
        end <= t.len(),
    ensures
        markdown::paren_close(s, from, at, depth, end) == markdown::paren_close(
            t,
            from,
            at,
            depth,
            end,
        ),
    decreases end - at,
{
    if at < end {
        assert(s[at] == t[at]);
        lemma_same_slashes(s, t, from, at);
        lemma_same_paren(s, t, from, at + 1, depth + 1, end);
        lemma_same_paren(s, t, from, at + 1, depth - 1, end);
        lemma_same_paren(s, t, from, at + 1, depth, end);
    }
}

/// One place of a line is read in the same way, whatever quiet text follows.
proof fn lemma_same_one(
    s: Seq<char>,
    t: Seq<char>,
    from: int,
    end: int,
    task_path: Seq<char>,
    store_prefix: Seq<char>,
    state: Reading,
)
    requires
        extends(s, t),
        whole_lines(t),
        quiet(s, t.len() as int),
        0 <= from <= state.at < end <= t.len(),
    ensures
        markdown::read_one(s, from, end, task_path, store_prefix, state) == markdown::read_one(
            t,
            from,
            end,
            task_path,
            store_prefix,
            state,
        ),
{
    let at = state.at;
    let bracket = markdown::bracket_of(s, at, end);
    assert(s[at] == t[at]);
    if at + 1 < end {
        assert(s[at + 1] == t[at + 1]);
    }
    assert(bracket == markdown::bracket_of(t, at, end));
    assert(bracket < end);
    assert(s[bracket] == t[bracket]);
    lemma_same_run(s, t, '`', at, end);
    lemma_same_slashes(s, t, from, at);
    markdown::lemma_run(t, '`', at, end);
    lemma_same_code_end(s, t, at + markdown::run(t, '`', at, end), markdown::run(t, '`', at, end));
    lemma_same_wiki(s, t, bracket + 2, end);
    lemma_same_bracket(s, t, bracket + 1, 1, end);
    markdown::lemma_wiki_close(t, bracket + 2, end);
    markdown::lemma_bracket_close(t, bracket + 1, 1, end);
    if let Some(close) = markdown::wiki_close(t, bracket + 2, end) {
        assert(s.subrange(bracket + 2, close) =~= t.subrange(bracket + 2, close));
    }
    if let Some(close) = markdown::bracket_close(t, bracket + 1, 1, end) {
        lemma_same_paren(s, t, from, close + 2, 1, end);
        markdown::lemma_paren_close(t, from, close + 2, 1, end);
        if close + 1 < end {
            assert(s[close + 1] == t[close + 1]);
        }
        if let Some(stop) = markdown::paren_close(t, from, close + 2, 1, end) {
            assert(s.subrange(close + 2, stop) =~= t.subrange(close + 2, stop));
            assert(s.subrange(bracket + 1, close) =~= t.subrange(bracket + 1, close));
        }
    }
}

/// A line is read in the same way, whatever quiet text follows; and code that it enters ends before
/// that.
proof fn lemma_same_line(
    s: Seq<char>,
    t: Seq<char>,
    from: int,
    end: int,
    task_path: Seq<char>,
    store_prefix: Seq<char>,
    state: Reading,
)
    requires
        extends(s, t),
        whole_lines(t),
        quiet(s, t.len() as int),
        0 <= from <= state.at,
        end <= t.len(),
        state.until <= t.len(),
    ensures
        markdown::read_line(s, from, end, task_path, store_prefix, state) == markdown::read_line(
            t,
            from,
            end,
            task_path,
            store_prefix,
            state,
        ),
        markdown::read_line(t, from, end, task_path, store_prefix, state).until <= t.len(),
    decreases end - state.at, markdown::in_code(state),
{
    if state.at < end {
        lemma_same_one(s, t, from, end, task_path, store_prefix, state);
        markdown::lemma_read_one(t, from, end, task_path, store_prefix, state);
        let next = markdown::read_one(t, from, end, task_path, store_prefix, state);
        lemma_same_line(s, t, from, end, task_path, store_prefix, next);
    }
}

/// How far lines have been read: where code ends that has been entered, the fence that is open, and
/// what has been found.
spec fn after_lines(
    t: Seq<char>,
    from: int,
    task_path: Seq<char>,
    store_prefix: Seq<char>,
    until: int,
    fence: Fence,
    found: Found,
) -> (int, Fence, Found)
    decreases t.len() - from,
    when 0 <= from
{
    if from >= t.len() {
        (until, fence, found)
    } else {
        proof {
            text::lemma_find_from(t, '\n', from);
        }
        let end = markdown::line_stop(t, from);
        let start = from + markdown::run(t, ' ', from, end);
        if markdown::fence_line(t, from, start, end) {
            after_lines(
                t,
                end,
                task_path,
                store_prefix,
                until,
                markdown::next_fence(t, start, end, fence),
                found,
            )
        } else if fence is Some || start - from >= 4 || t[from] == '\t' {
            after_lines(t, end, task_path, store_prefix, until, fence, found)
        } else {
            let state = markdown::read_line(
                t,
                from,
                end,
                task_path,
                store_prefix,
                Reading { at: from, until, found },
            );
            after_lines(t, end, task_path, store_prefix, state.until, fence, state.found)
        }
    }
}

/// The fence of code that is open behind the lines from `from` on.
pub open spec fn open_fence(t: Seq<char>, from: int, fence: Fence) -> Fence
    decreases t.len() - from,
    when 0 <= from
{
    if from >= t.len() {
        fence
    } else {
        proof {
            text::lemma_find_from(t, '\n', from);
        }
        let end = markdown::line_stop(t, from);
        let start = from + markdown::run(t, ' ', from, end);
        if markdown::fence_line(t, from, start, end) {
            open_fence(t, end, markdown::next_fence(t, start, end, fence))
        } else {
            open_fence(t, end, fence)
        }
    }
}

/// Where a line ends, whatever follows the last one.
proof fn lemma_same_stop(s: Seq<char>, t: Seq<char>, from: int)
    requires
        extends(s, t),
        whole_lines(t),
        0 <= from < t.len(),
    ensures
        markdown::line_stop(s, from) == markdown::line_stop(t, from),
        from < markdown::line_stop(t, from) <= t.len(),
{
    text::lemma_find_from(s, '\n', from);
    text::lemma_find_from(t, '\n', from);
    let (a, b) = (text::find_from(s, '\n', from), text::find_from(t, '\n', from));
    assert(t[t.len() - 1] == '\n');
    assert(s[t.len() - 1] == '\n');
    if a < b {
        assert(t[a] == s[a]);
    } else if b < a {
        assert(s[b] == t[b]);
    }
}

/// Reading lines with quiet text behind them is reading the lines and then that text.
proof fn lemma_read_on(
    s: Seq<char>,
    t: Seq<char>,
    from: int,
    task_path: Seq<char>,
    store_prefix: Seq<char>,
    until: int,
    fence: Fence,
    found: Found,
)
    requires
        extends(s, t),
        whole_lines(t),
        quiet(s, t.len() as int),
        0 <= from <= t.len(),
        until <= t.len(),
    ensures
        ({
            let after = after_lines(t, from, task_path, store_prefix, until, fence, found);
            &&& markdown::read_lines(s, from, task_path, store_prefix, until, fence, found)
                == markdown::read_lines(
                s,
                t.len() as int,
                task_path,
                store_prefix,
                after.0,
                after.1,
                after.2,
            )
            &&& markdown::read_lines(t, from, task_path, store_prefix, until, fence, found)
                == after.2
            &&& after.0 <= t.len()
            &&& after.1 == open_fence(t, from, fence)
        }),
    decreases t.len() - from,
{
    if from < t.len() {
        lemma_same_stop(s, t, from);
        let end = markdown::line_stop(t, from);
        lemma_same_run(s, t, ' ', from, end);
        markdown::lemma_run(t, ' ', from, end);
        let start = from + markdown::run(t, ' ', from, end);
        if start < end {
            assert(s[start] == t[start]);
            lemma_same_run(s, t, s[start], start, end);
            markdown::lemma_run(t, t[start], start, end);
            let length = markdown::run(t, t[start], start, end);
            assert(s.subrange(start + length, end) =~= t.subrange(start + length, end));
        }
        assert(s[from] == t[from]);
        let state = Reading { at: from, until, found };
        lemma_same_line(s, t, from, end, task_path, store_prefix, state);
        let next = markdown::read_line(t, from, end, task_path, store_prefix, state);
        if markdown::fence_line(t, from, start, end) {
            lemma_read_on(
                s,
                t,
                end,
                task_path,
                store_prefix,
                until,
                markdown::next_fence(t, start, end, fence),
                found,
            );
        } else if fence is Some || start - from >= 4 || t[from] == '\t' {
            lemma_read_on(s, t, end, task_path, store_prefix, until, fence, found);
        } else {
            lemma_read_on(s, t, end, task_path, store_prefix, next.until, fence, next.found);
        }
    }
}

/// Nothing is found in a line without brackets and backticks.
proof fn lemma_plain_line(
    s: Seq<char>,
    from: int,
    end: int,
    task_path: Seq<char>,
    store_prefix: Seq<char>,
    state: Reading,
)
    requires
        0 <= from <= state.at <= end <= s.len(),
        state.until <= state.at,
        forall|i: int| state.at <= i < end ==> #[trigger] s[i] != '[' && s[i] != '`',
    ensures
        markdown::read_line(s, from, end, task_path, store_prefix, state) == (Reading {
            at: end,
            ..state
        }),
    decreases end - state.at,
{
    if state.at < end {
        let next = Reading { at: state.at + 1, ..state };
        assert(s[state.at] != '[' && s[state.at] != '`');
        if state.at + 1 < end {
            assert(s[state.at + 1] != '[');
        }
        assert(markdown::read_one(s, from, end, task_path, store_prefix, state) == next);
        lemma_plain_line(s, from, end, task_path, store_prefix, next);
    }
}

/// The parenthesis behind an encoded target closes it, on whatever line.
proof fn lemma_paren_on_line(s: Seq<char>, from: int, at: int, stop: int, end: int)
    requires
        0 <= from < at <= stop < end <= s.len(),
        s[at - 1] == '(' || link_laws::plain_char(s[at - 1]),
        forall|i: int| at <= i < stop ==> link_laws::plain_char(#[trigger] s[i]),
        s[stop] == ')',
    ensures
        markdown::paren_close(s, from, at, 1, end) == Some(stop),
    decreases stop - at,
{
    assert(markdown::slashes(s, from, at) == 0);
    if at < stop {
        assert(link_laws::plain_char(s[at]));
        lemma_paren_on_line(s, from, at + 1, stop, end);
    }
}

/// The line of a link.
spec fn link_line(task_path: Seq<char>, selector: Seq<char>) -> Seq<char> {
    "- "@ + attachments::link_text(task_path, selector, markdown::last_name(selector)) + "\n"@
}

/// Whether an attachment can be linked, so that the link is found again: its path has no colon, and
/// its name no backtick and no end of line.
pub open spec fn linkable(selector: Seq<char>) -> bool {
    attachments::selector(selector) && !selector.contains(':') && !selector.contains('`')
        && !selector.contains('\n')
}

/// A line with a link that is made of what opens it, its label and its target, behind other lines.
spec fn line_of(pre: Seq<char>, open: Seq<char>, label: Seq<char>, e: Seq<char>) -> Seq<char> {
    pre + seq!['-', ' '] + open + label + (seq![']', '('] + e + seq![')', '\n'])
}

/// Whether these can open a link, be its label and be its target.
spec fn link_parts(open: Seq<char>, label: Seq<char>, e: Seq<char>) -> bool {
    &&& open == seq!['!', '['] || open == seq!['[']
    &&& forall|i: int| 0 <= i < label.len() ==> #[trigger] label[i] != '`' && label[i] != '\n'
    &&& label.len() > 0 ==> label[0] != '['
    &&& forall|i: int| 0 <= i < e.len() ==> link_laws::plain_char(#[trigger] e[i])
}

/// What stands where in a line with a link.
proof fn lemma_line_chars(pre: Seq<char>, open: Seq<char>, label: Seq<char>, e: Seq<char>)
    requires
        link_parts(open, label, e),
    ensures
        ({
            let t = line_of(pre, open, label, e);
            let from = pre.len() as int;
            let end = t.len() as int;
            let at = from + 2;
            let bracket = at + open.len() - 1;
            let close = bracket + 1 + label.len();
            let stop = close + 2 + e.len();
            &&& t[from] == '-' && t[from + 1] == ' '
            &&& t[at] == open[0]
            &&& markdown::bracket_of(t, at, end) == bracket
            &&& t[bracket] == '[' && t[bracket + 1] != '['
            &&& t[close] == ']' && t[close + 1] == '(' && t[stop] == ')'
            &&& stop + 2 == end
            &&& t[end - 1] == '\n'
        }),
{
    let t = line_of(pre, open, label, e);
    let from = pre.len() as int;
    let at = from + 2;
    let bracket = at + open.len() - 1;
    let close = bracket + 1 + label.len();
    let stop = close + 2 + e.len();
    let tail = seq![']', '('] + e + seq![')', '\n'];
    assert(t[at] == open[0]);
    assert(t[bracket] == open[open.len() - 1]);
    assert(t[close] == tail[0] && t[close + 1] == tail[1]);
    assert(t[stop] == tail[stop - close] && t[stop + 1] == tail[stop + 1 - close]);
    if label.len() > 0 {
        assert(t[bracket + 1] == label[0]);
    }
}

/// A line with a link has no backtick, and one end of line.
proof fn lemma_line_quiet(pre: Seq<char>, open: Seq<char>, label: Seq<char>, e: Seq<char>)
    requires
        link_parts(open, label, e),
    ensures
        ({
            let t = line_of(pre, open, label, e);
            forall|i: int|
                pre.len() <= i < t.len() ==> #[trigger] t[i] != '`' && (i < t.len() - 1 ==> t[i]
                    != '\n')
        }),
{
    let t = line_of(pre, open, label, e);
    let at = pre.len() + 2;
    let tail = seq![']', '('] + e + seq![')', '\n'];
    let close = at + open.len() + label.len();
    assert forall|i: int| pre.len() <= i < t.len() implies #[trigger] t[i] != '`' && (i < t.len() - 1
        ==> t[i] != '\n') by {
        if i < at {
        } else if i < at + open.len() {
            assert(t[i] == open[i - at]);
        } else if i < close {
            assert(t[i] == label[i - at - open.len()]);
        } else {
            assert(t[i] == tail[i - close]);
            if close + 2 <= i < close + 2 + e.len() {
                assert(t[i] == e[i - close - 2]);
                assert(link_laws::plain_char(e[i - close - 2]));
            }
        }
    }
}

/// Where the label and the target of a link on a line close.
proof fn lemma_line_closes(pre: Seq<char>, open: Seq<char>, name: Seq<char>, e: Seq<char>)
    requires
        link_parts(open, attachments::label(name), e),
    ensures
        ({
            let label = attachments::label(name);
            let t = line_of(pre, open, label, e);
            let from = pre.len() as int;
            let end = t.len() as int;
            let bracket = from + 2 + open.len() - 1;
            let close = bracket + 1 + label.len();
            let stop = close + 2 + e.len();
            &&& markdown::inline_close(t, from, bracket, end) == Some((close, stop))
            &&& t.subrange(close + 2, stop) == e
            &&& t.subrange(bracket + 1, close) == label
        }),
{
    let label = attachments::label(name);
    let t = line_of(pre, open, label, e);
    let from = pre.len() as int;
    let end = t.len() as int;
    let bracket = from + 2 + open.len() - 1;
    let close = bracket + 1 + label.len();
    let stop = close + 2 + e.len();
    let head = pre + seq!['-', ' '] + open;
    let tail = seq![']', '('] + e + seq![')', '\n'];
    lemma_line_chars(pre, open, label, e);
    assert(tail[0] == ']');
    link_laws::lemma_bracket(head, name, tail);
    assert(t == head + label + tail);
    assert forall|i: int| close + 2 <= i < stop implies link_laws::plain_char(#[trigger] t[i]) by {
        assert(t[i] == tail[i - close]);
        assert(tail[i - close] == e[i - close - 2]);
    }
    lemma_paren_on_line(t, from, close + 2, stop, end);
    assert(t.subrange(close + 2, stop) =~= e);
    assert(t.subrange(bracket + 1, close) =~= label);
}

/// The parts of the line of a link that is written for an attachment.
proof fn lemma_written_line(pre: Seq<char>, task_path: Seq<char>, selector: Seq<char>)
    requires
        linkable(selector),
    ensures
        link_parts(
            link_laws::opening(selector),
            attachments::label(markdown::last_name(selector)),
            link_laws::target(task_path, selector),
        ),
        pre + link_line(task_path, selector) == line_of(
            pre,
            link_laws::opening(selector),
            attachments::label(markdown::last_name(selector)),
            link_laws::target(task_path, selector),
        ),
{
    reveal_strlit("- ");
    reveal_strlit("\n");
    let name = markdown::last_name(selector);
    let link = attachments::link_text(task_path, selector, name);
    let open = link_laws::opening(selector);
    let e = link_laws::target(task_path, selector);
    let label = attachments::label(name);
    lemma_name_chars(selector);
    link_laws::lemma_link_parts(task_path, selector, name);
    link_laws::lemma_link_line(task_path, selector, name);
    link_laws::lemma_opening(selector);
    link_laws::lemma_target_plain(task_path, selector);
    link_laws::lemma_label_chars(name);
    lemma_label_quiet(name);
    if label.len() > 0 {
        assert(link[open.len() as int] == label[0]);
    }
    assert("- "@ =~= seq!['-', ' ']);
    assert("\n"@ =~= seq!['\n']);
    assert(pre + link_line(task_path, selector) =~= line_of(pre, open, label, e));
}

/// The name of an attachment has the characters of its path.
proof fn lemma_name_chars(selector: Seq<char>)
    requires
        linkable(selector),
    ensures
        !markdown::last_name(selector).contains('\n'),
        !markdown::last_name(selector).contains('`'),
{
    text::lemma_find_back(selector, '/', selector.len() as int);
    let at = text::find_back(selector, '/', selector.len() as int) + 1;
    let name = markdown::last_name(selector);
    assert forall|i: int| 0 <= i < name.len() implies name[i] == #[trigger] selector[at + i] by {}
    if name.contains('\n') {
        let i = name.index_of('\n');
        assert(selector[at + i] == '\n');
    }
    if name.contains('`') {
        let i = name.index_of('`');
        assert(selector[at + i] == '`');
    }
}

/// A label has no backtick where the name has none.
proof fn lemma_label_quiet(name: Seq<char>)
    requires
        !name.contains('`'),
    ensures
        forall|i: int|
            0 <= i < attachments::label(name).len() ==> #[trigger] attachments::label(name)[i]
                != '`',
    decreases name.len(),
{
    if name.len() > 0 {
        let rest = name.drop_last();
        if rest.contains('`') {
            let i = rest.index_of('`');
            assert(name[i] == '`');
        }
        lemma_label_quiet(rest);
        assert(name.last() == name[name.len() - 1]);
        assert(name.last() != '`');
        let all = attachments::label(name);
        let k = attachments::label(rest).len();
        assert forall|i: int| 0 <= i < all.len() implies #[trigger] all[i] != '`' by {
            if i >= k {
                assert(all[i] == attachments::label_char(name.last())[i - k]);
            } else {
                assert(all[i] == attachments::label(rest)[i]);
            }
        }
    }
}

/// The link of a line is found in it, and nothing else.
proof fn lemma_link_on_line(
    pre: Seq<char>,
    open: Seq<char>,
    name: Seq<char>,
    e: Seq<char>,
    task_path: Seq<char>,
    path: Seq<char>,
    store_prefix: Seq<char>,
    until: int,
    found: Found,
)
    requires
        link_parts(open, attachments::label(name), e),
        markdown::inline_target(e) == e,
        markdown::resolved(task_path, e, false, store_prefix) == Some(path),
        markdown::plain_label(attachments::label(name), 0) == name,
        until <= pre.len(),
    ensures
        ({
            let t = line_of(pre, open, attachments::label(name), e);
            let from = pre.len() as int;
            let end = t.len() as int;
            let mark = MarkModel { path, name, start: from + 2, end: end - 1 };
            markdown::read_line(
                t,
                from,
                end,
                task_path,
                store_prefix,
                Reading { at: from, until, found },
            ) == (Reading {
                at: end,
                until,
                found: Found { marks: found.marks.push(mark), odd: found.odd },
            })
        }),
{
    let label = attachments::label(name);
    let t = line_of(pre, open, label, e);
    let from = pre.len() as int;
    let end = t.len() as int;
    lemma_line_chars(pre, open, label, e);
    lemma_line_closes(pre, open, name, e);
    let mark = MarkModel { path, name, start: from + 2, end: end - 1 };
    let next = Found { marks: found.marks.push(mark), odd: found.odd };
    let s0 = Reading { at: from, until, found };
    let s1 = Reading { at: from + 1, until, found };
    let s2 = Reading { at: from + 2, until, found };
    let s3 = Reading { at: end - 1, until, found: next };
    assert(markdown::read_one(t, from, end, task_path, store_prefix, s0) == s1);
    assert(markdown::read_one(t, from, end, task_path, store_prefix, s1) == s2);
    assert(markdown::slashes(t, from, from + 2) == 0);
    assert(markdown::read_one(t, from, end, task_path, store_prefix, s2) == s3);
    lemma_plain_line(t, from, end, task_path, store_prefix, s3);
    assert(markdown::read_line(t, from, end, task_path, store_prefix, s2)
        == markdown::read_line(t, from, end, task_path, store_prefix, s3));
    assert(markdown::read_line(t, from, end, task_path, store_prefix, s1)
        == markdown::read_line(t, from, end, task_path, store_prefix, s2));
    assert(markdown::read_line(t, from, end, task_path, store_prefix, s0)
        == markdown::read_line(t, from, end, task_path, store_prefix, s1));
}

/// The line of a link for an attachment is read as that link.
proof fn lemma_line_read(
    all: Seq<char>,
    pre: Seq<char>,
    task_path: Seq<char>,
    selector: Seq<char>,
    store_prefix: Seq<char>,
    until: int,
    found: Found,
)
    requires
        linkable(selector),
        link_laws::reachable(task_path),
        until <= pre.len(),
        extends(all, pre + link_line(task_path, selector)),
        quiet(all, (pre + link_line(task_path, selector)).len() as int),
    ensures
        ({
            let t = pre + link_line(task_path, selector);
            let mark = MarkModel {
                path: selector,
                name: markdown::last_name(selector),
                start: pre.len() as int + 2,
                end: t.len() - 1,
            };
            markdown::read_lines(
                all,
                pre.len() as int,
                task_path,
                store_prefix,
                until,
                None,
                found,
            ) == markdown::read_lines(
                all,
                t.len() as int,
                task_path,
                store_prefix,
                until,
                None,
                Found { marks: found.marks.push(mark), odd: found.odd },
            )
        }),
{
    let name = markdown::last_name(selector);
    let open = link_laws::opening(selector);
    let e = link_laws::target(task_path, selector);
    let label = attachments::label(name);
    lemma_written_line(pre, task_path, selector);
    link_laws::lemma_link_resolves(task_path, selector, name, store_prefix);
    lemma_parts_read(all, pre, open, name, e, task_path, selector, store_prefix, until, found);
}

proof fn lemma_parts_read(
    all: Seq<char>,
    pre: Seq<char>,
    open: Seq<char>,
    name: Seq<char>,
    e: Seq<char>,
    task_path: Seq<char>,
    path: Seq<char>,
    store_prefix: Seq<char>,
    until: int,
    found: Found,
)
    requires
        link_parts(open, attachments::label(name), e),
        markdown::inline_target(e) == e,
        markdown::resolved(task_path, e, false, store_prefix) == Some(path),
        markdown::plain_label(attachments::label(name), 0) == name,
        until <= pre.len(),
        extends(all, line_of(pre, open, attachments::label(name), e)),
        quiet(all, line_of(pre, open, attachments::label(name), e).len() as int),
    ensures
        ({
            let t = line_of(pre, open, attachments::label(name), e);
            let mark = MarkModel { path, name, start: pre.len() as int + 2, end: t.len() - 1 };
            markdown::read_lines(
                all,
                pre.len() as int,
                task_path,
                store_prefix,
                until,
                None,
                found,
            ) == markdown::read_lines(
                all,
                t.len() as int,
                task_path,
                store_prefix,
                until,
                None,
                Found { marks: found.marks.push(mark), odd: found.odd },
            )
        }),
{
    let label = attachments::label(name);
    let t = line_of(pre, open, label, e);
    let from = pre.len() as int;
    let end = t.len() as int;
    lemma_line_chars(pre, open, label, e);
    lemma_line_quiet(pre, open, label, e);
    assert(t.last() == '\n');
    lemma_same_stop(all, t, from);
    text::lemma_find_from(t, '\n', from);
    assert(markdown::line_stop(t, from) == end);
    assert(all[from] == t[from]);
    assert(markdown::run(all, ' ', from, end) == 0);
    let state = Reading { at: from, until, found };
    lemma_same_line(all, t, from, end, task_path, store_prefix, state);
    lemma_link_on_line(pre, open, name, e, task_path, path, store_prefix, until, found);
}

/// What is found with a line for each of the links from the `i`-th on.
pub open spec fn finds_links(
    had: Found,
    found: Found,
    selectors: Seq<Seq<char>>,
    i: int,
) -> bool {
    let n = had.marks.len() as int;
    &&& found.odd == had.odd
    &&& found.marks.len() == n + selectors.len() - i
    &&& forall|k: int| 0 <= k < n ==> #[trigger] found.marks[k] == had.marks[k]
    &&& forall|k: int|
        i <= k < selectors.len() ==> {
            &&& found.marks[n + k - i].path == #[trigger] selectors[k]
            &&& found.marks[n + k - i].name == markdown::last_name(selectors[k])
        }
}

/// A line of a link is a whole line without backticks.
proof fn lemma_line_facts(pre: Seq<char>, task_path: Seq<char>, selector: Seq<char>)
    requires
        linkable(selector),
    ensures
        ({
            let t = pre + link_line(task_path, selector);
            &&& whole_lines(t)
            &&& quiet(link_line(task_path, selector), 0)
            &&& pre + "- "@ + attachments::link_text(
                task_path,
                selector,
                markdown::last_name(selector),
            ) + "\n"@ == t
        }),
{
    let name = markdown::last_name(selector);
    let line = link_line(task_path, selector);
    let open = link_laws::opening(selector);
    let e = link_laws::target(task_path, selector);
    lemma_written_line(pre, task_path, selector);
    lemma_line_chars(pre, open, attachments::label(name), e);
    lemma_line_quiet(pre, open, attachments::label(name), e);
    let t = pre + line;
    assert forall|i: int| 0 <= i < line.len() implies #[trigger] line[i] != '`' by {
        assert(t[pre.len() + i] == line[i]);
    }
    assert(pre + "- "@ + attachments::link_text(task_path, selector, name) + "\n"@ =~= t);
}

/// What begins with a text and a line begins with the text.
proof fn lemma_extends_less(all: Seq<char>, pre: Seq<char>, line: Seq<char>)
    requires
        extends(all, pre + line),
        quiet(all, (pre + line).len() as int),
        quiet(line, 0),
    ensures
        extends(all, pre),
        quiet(all, pre.len() as int),
{
    let t = pre + line;
    assert forall|k: int| 0 <= k < pre.len() implies #[trigger] all[k] == pre[k] by {
        assert(all[k] == t[k]);
    }
    assert forall|k: int| pre.len() <= k < all.len() implies #[trigger] all[k] != '`' by {
        if k < t.len() {
            assert(all[k] == t[k]);
            assert(t[k] == line[k - pre.len()]);
        }
    }
}

/// Links that are written line by line are found one by one.
proof fn lemma_links_found(
    pre: Seq<char>,
    task_path: Seq<char>,
    selectors: Seq<Seq<char>>,
    i: int,
    store_prefix: Seq<char>,
    until: int,
    found: Found,
)
    requires
        0 <= i <= selectors.len(),
        link_laws::reachable(task_path),
        forall|k: int| 0 <= k < selectors.len() ==> linkable(#[trigger] selectors[k]),
        until <= pre.len(),
        whole_lines(pre),
    ensures
        attachments::with_links(pre, task_path, selectors, i) matches Ok(all) && extends(all, pre)
            && quiet(all, pre.len() as int) && whole_lines(all) && finds_links(
            found,
            markdown::read_lines(
                all,
                pre.len() as int,
                task_path,
                store_prefix,
                until,
                None,
                found,
            ),
            selectors,
            i,
        ),
    decreases selectors.len() - i,
{
    if i < selectors.len() {
        let selector = selectors[i];
        let name = markdown::last_name(selector);
        let line = link_line(task_path, selector);
        let t = pre + line;
        let from = pre.len() as int;
        let end = t.len() as int;
        assert(linkable(selector));
        lemma_line_facts(pre, task_path, selector);
        let mark = MarkModel { path: selector, name, start: from + 2, end: end - 1 };
        let next = Found { marks: found.marks.push(mark), odd: found.odd };
        lemma_links_found(t, task_path, selectors, i + 1, store_prefix, until, next);
        let all = attachments::with_links(pre, task_path, selectors, i)->Ok_0;
        assert(all == attachments::with_links(t, task_path, selectors, i + 1)->Ok_0);
        lemma_extends_less(all, pre, line);
        lemma_line_read(all, pre, task_path, selector, store_prefix, until, found);
        let rest = markdown::read_lines(all, end, task_path, store_prefix, until, None, next);
        let n = found.marks.len() as int;
        assert forall|k: int| 0 <= k < n implies #[trigger] rest.marks[k] == found.marks[k] by {
            assert(rest.marks[k] == next.marks[k]);
        }
        assert forall|k: int| i <= k < selectors.len() implies {
            &&& rest.marks[n + k - i].path == #[trigger] selectors[k]
            &&& rest.marks[n + k - i].name == markdown::last_name(selectors[k])
        } by {
            if k == i {
                assert(rest.marks[n] == next.marks[n]);
            }
        }
    }
}

/// Links that are appended to a body are found in it: all of the list, in order and one each, with
/// the path and the name of each attachment, behind the links that the body had, which stay as they
/// were. The body is made of whole lines and leaves no fence of code open.
pub proof fn appended_links_are_found(
    body: Seq<char>,
    task_path: Seq<char>,
    selectors: Seq<Seq<char>>,
    store_prefix: Seq<char>,
)
    requires
        whole_lines(body),
        open_fence(body, 0, None) is None,
        link_laws::reachable(task_path),
        forall|k: int| 0 <= k < selectors.len() ==> linkable(#[trigger] selectors[k]),
    ensures
        attachments::appended(body, task_path, selectors) matches Ok(all) && finds_links(
            markdown::found_in(body, task_path, store_prefix),
            markdown::found_in(all, task_path, store_prefix),
            selectors,
            0,
        ),
{
    if selectors.len() > 0 {
        let had = Found { marks: seq![], odd: seq![] };
        reveal_strlit("\n");
        reveal_strlit("\n\n");
        reveal_strlit("## Attachments\n\n");
        let title = "## Attachments\n\n"@;
        let gap = attachments::opened(body);
        let pre = gap + title;
        let after = after_lines(body, 0, task_path, store_prefix, 0, None, had);
        assert("\n"@ =~= seq!['\n'] && "\n\n"@ =~= seq!['\n', '\n']);
        assert(title.len() == 16 && title[15] == '\n');
        assert(pre.last() == title[15]);
        assert(extends(body, body) && quiet(body, body.len() as int));
        lemma_read_on(body, body, 0, task_path, store_prefix, 0, None, had);
        lemma_links_found(pre, task_path, selectors, 0, store_prefix, after.0, after.2);
        let all = attachments::appended(body, task_path, selectors)->Ok_0;
        assert(body.len() > 0 ==> body.subrange(body.len() - 1, body.len() as int) =~= "\n"@);
        assert(gap =~= body || gap =~= body + seq!['\n']);
        assert(extends(all, body)) by {
            assert forall|k: int| 0 <= k < body.len() implies #[trigger] all[k] == body[k] by {
                assert(all[k] == pre[k]);
            }
        }
        assert(quiet(all, body.len() as int)) by {
            assert forall|k: int| body.len() <= k < all.len() implies #[trigger] all[k] != '`' by {
                if k < pre.len() {
                    assert(all[k] == pre[k]);
                    if k >= gap.len() {
                        assert(pre[k] == title[k - gap.len()]);
                    }
                }
            }
        }
        lemma_read_on(all, body, 0, task_path, store_prefix, 0, None, had);
        let n = body.len() as int;
        let g = gap.len() as int;
        assert forall|k: int| 0 <= k < 16 implies all[g + k] == #[trigger] title[k] by {
            assert(all[g + k] == pre[g + k]);
        }
        if g > n {
            assert(all[n] == pre[n]);
            lemma_skipped(all, n, g, task_path, store_prefix, after.0, after.2);
        }
        assert forall|k: int| g <= k < g + 14 implies #[trigger] all[k] != '\n' && all[k] != '['
            && all[k] != '`' by {
            assert(all[g + (k - g)] == title[k - g]);
        }
        assert(all[g] == '#' && all[g + 14] == '\n' && all[g + 15] == '\n') by {
            assert(all[g + 0] == title[0] && all[g + 14] == title[14] && all[g + 15] == title[15]);
        }
        lemma_skipped(all, g, g + 15, task_path, store_prefix, after.0, after.2);
        lemma_skipped(all, g + 15, g + 16, task_path, store_prefix, after.0, after.2);
    } else {
        let none = Found { marks: seq![], odd: seq![] };
        assert(finds_links(
            markdown::found_in(body, task_path, store_prefix),
            markdown::found_in(body, task_path, store_prefix),
            selectors,
            0,
        ));
    }
}

/// A line without brackets, backticks and tildes, that is not indented, is read over.
proof fn lemma_skipped(
    s: Seq<char>,
    from: int,
    end: int,
    task_path: Seq<char>,
    store_prefix: Seq<char>,
    until: int,
    found: Found,
)
    requires
        0 <= from < end <= s.len(),
        until <= from,
        s[end - 1] == '\n',
        s[from] == '#' || s[from] == '\n',
        forall|i: int| from <= i < end - 1 ==> #[trigger] s[i] != '\n' && s[i] != '[' && s[i] != '`',
    ensures
        markdown::read_lines(s, from, task_path, store_prefix, until, None, found)
            == markdown::read_lines(s, end, task_path, store_prefix, until, None, found),
{
    text::lemma_find_from(s, '\n', from);
    assert(markdown::line_stop(s, from) == end);
    assert(markdown::run(s, ' ', from, end) == 0);
    lemma_plain_line(
        s,
        from,
        end,
        task_path,
        store_prefix,
        Reading { at: from, until, found },
    );
}

/// One more attachment adds one line to a body, at its end, with the link to it; what stands there
/// already stays. The first one opens a section of its own, behind all of the body.
pub proof fn appending_adds_a_line_for_each_link(
    body: Seq<char>,
    task_path: Seq<char>,
    selectors: Seq<Seq<char>>,
    last: Seq<char>,
)
    requires
        attachments::appended(body, task_path, selectors) is Ok,
    ensures
        ({
            let before = attachments::appended(body, task_path, selectors)->Ok_0;
            let after = attachments::appended(body, task_path, selectors.push(last));
            let line = "- "@ + attachments::link_text(
                task_path,
                last,
                markdown::last_name(last),
            ) + "\n"@;
            &&& after is Ok <==> attachments::selector(last)
            &&& after is Ok && selectors.len() > 0 ==> after->Ok_0 == before + line
            &&& after is Ok && selectors.len() == 0 ==> exists|gap: Seq<char>|
                (gap == ""@ || gap == "\n"@ || gap == "\n\n"@) && #[trigger] (body + gap
                    + "## Attachments\n\n"@ + line) == after->Ok_0
        }),
        selectors.len() == 0 ==> attachments::appended(body, task_path, selectors) == Ok::<
            Seq<char>,
            ErrorModel,
        >(body),
{
    let title = attachments::opened(body) + "## Attachments\n\n"@;
    let line = "- "@ + attachments::link_text(task_path, last, markdown::last_name(last)) + "\n"@;
    lemma_one_more_link(title, task_path, selectors, 0, last);
    if selectors.len() == 0 {
        reveal_strlit("");
        reveal_strlit("\n");
        reveal_strlit("\n\n");
        let gap = attachments::opened(body).subrange(
            body.len() as int,
            attachments::opened(body).len() as int,
        );
        assert(attachments::opened(body) =~= body + gap);
        assert(gap =~= ""@ || gap =~= "\n"@ || gap =~= "\n\n"@);
        assert(body + gap + "## Attachments\n\n"@ + line =~= title + line);
    }
}

proof fn lemma_one_more_link(
    output: Seq<char>,
    task_path: Seq<char>,
    selectors: Seq<Seq<char>>,
    i: int,
    last: Seq<char>,
)
    requires
        0 <= i <= selectors.len(),
        attachments::with_links(output, task_path, selectors, i) is Ok,
    ensures
        ({
            let before = attachments::with_links(output, task_path, selectors, i)->Ok_0;
            let after = attachments::with_links(output, task_path, selectors.push(last), i);
            let line = "- "@ + attachments::link_text(
                task_path,
                last,
                markdown::last_name(last),
            ) + "\n"@;
            &&& after is Ok <==> attachments::selector(last)
            &&& after is Ok ==> after->Ok_0 == before + line
        }),
    decreases selectors.len() - i,
{
    let more = selectors.push(last);
    if i < selectors.len() {
        assert(more[i] == selectors[i]);
        let link = attachments::link_text(
            task_path,
            selectors[i],
            markdown::last_name(selectors[i]),
        );
        lemma_one_more_link(output + "- "@ + link + "\n"@, task_path, selectors, i + 1, last);
    } else {
        let link = attachments::link_text(task_path, last, markdown::last_name(last));
        assert(more[i] == last);
        assert(attachments::with_links(output + "- "@ + link + "\n"@, task_path, more, i + 1) == Ok::<
            Seq<char>,
            ErrorModel,
        >(output + "- "@ + link + "\n"@));
        assert(output + "- "@ + link + "\n"@ =~= output + ("- "@ + link + "\n"@));
    }
}

} // verus!
