//! What is written into a record is read back from it.
use vstd::prelude::*;

use crate::calendar::{self, Date, Time};
use crate::config::{self, ConfigModel};
use crate::error::ErrorModel;
use crate::frontmatter::{self, DocumentModel};
use crate::model::{self, ProjectModel, TaskModel};
use crate::recurrence::{self, RecurrenceMode, RuleModel};
use crate::scan::{self, Cursor};
use crate::text;
use crate::yaml::{self, Property, YamlTree};

verus! {

/// Whether a line can stand among others in front matter: it is whole, it is neither a delimiter
/// nor a conflict marker, and the scan is at rest behind it where it was before it.
spec fn good_line(line: Seq<char>) -> bool {
    &&& line.len() > 0
    &&& !line.contains('\n')
    &&& line.last() != '\r'
    &&& !frontmatter::conflict_marker(line)
    &&& line != seq!['-', '-', '-']
    &&& calm_line(line)
}

/// Whether the scan is at rest between lines, with the indentations that a mapping of texts and
/// lists opens.
spec fn calm(c: Cursor, indents: Seq<usize>) -> bool {
    &&& !c.single && !c.double && !c.escaped
    &&& c.block_scalar is None
    &&& c.plain_scalar is None || c.plain_scalar == Some(0usize)
    &&& c.flow == 0
    &&& indents.len() <= 2
    &&& forall|i: int| 0 <= i < indents.len() ==> #[trigger] indents[i] == 0 || indents[i] == 2
    &&& indents.len() == 2 ==> indents[0] == 0 && indents[1] == 2
}

/// Whether the scan is at rest behind the line where it was before it.
spec fn calm_line(line: Seq<char>) -> bool {
    forall|c: Cursor, indents: Seq<usize>, index: int|
        calm(c, indents) ==> (#[trigger] scan::scan_line(c, indents, line, index) matches Ok((d, k))
            && calm(d, k))
}

/// The scan accepts lines that leave it at rest.
proof fn lemma_scan_lines(c: Cursor, indents: Seq<usize>, lines: Seq<Seq<char>>, i: int)
    requires
        0 <= i,
        calm(c, indents),
        forall|k: int| 0 <= k < lines.len() ==> good_line(#[trigger] lines[k]),
    ensures
        scan::scan_lines(c, indents, lines, i) is Ok,
    decreases lines.len() - i,
{
    if i < lines.len() {
        assert(good_line(lines[i]));
        let r = scan::scan_line(c, indents, lines[i], i);
        assert(r is Ok);
        lemma_scan_lines(r->Ok_0.0, r->Ok_0.1, lines, i + 1);
    }
}

/// The text of lines, taken apart at its first.
proof fn lemma_lines_text_add(a: Seq<Seq<char>>, b: Seq<Seq<char>>)
    ensures
        yaml::lines_text(a + b) == yaml::lines_text(a) + yaml::lines_text(b),
    decreases b.len(),
{
    if b.len() == 0 {
        assert(a + b =~= a);
        assert(yaml::lines_text(a) + yaml::lines_text(b) =~= yaml::lines_text(a));
    } else {
        lemma_lines_text_add(a, b.drop_last());
        assert((a + b).drop_last() =~= a + b.drop_last());
        assert((a + b).last() == b.last());
        assert(yaml::lines_text(a + b) =~= yaml::lines_text(a) + yaml::lines_text(b));
    }
}

proof fn lemma_lines_text_one(line: Seq<char>)
    ensures
        yaml::lines_text(seq![line]) == line + seq!['\n'],
{
    let one = seq![line];
    assert(one.drop_last() =~= Seq::<Seq<char>>::empty());
    assert(yaml::lines_text(one.drop_last()) =~= Seq::<char>::empty());
    assert(yaml::lines_text(one) =~= line + seq!['\n']);
}

/// Where the first line of what stands at a place ends.
proof fn lemma_first_end(s: Seq<char>, from: int, line: Seq<char>)
    requires
        0 <= from,
        from + line.len() < s.len(),
        s.subrange(from, from + line.len()) == line,
        s[from + line.len()] == '\n',
        !line.contains('\n'),
    ensures
        text::find_from(s, '\n', from) == from + line.len(),
{
    text::lemma_find_from(s, '\n', from);
    let at = text::find_from(s, '\n', from);
    if at < from + line.len() {
        assert(line[at - from] == s[at]);
        assert(line.contains('\n'));
    }
}

/// What stands at a place, by its first line.
proof fn lemma_at_first(s: Seq<char>, from: int, lines: Seq<Seq<char>>)
    requires
        0 <= from,
        lines.len() > 0,
        from + yaml::lines_text(lines).len() <= s.len(),
        s.subrange(from, from + yaml::lines_text(lines).len()) == yaml::lines_text(lines),
    ensures
        ({
            let end = from + lines[0].len();
            let rest = lines.drop_first();
            &&& yaml::lines_text(lines).len() == lines[0].len() + 1 + yaml::lines_text(rest).len()
            &&& s.subrange(from, end) == lines[0]
            &&& s[end] == '\n'
            &&& s.subrange(end + 1, end + 1 + yaml::lines_text(rest).len()) == yaml::lines_text(
                rest,
            )
        }),
{
    let all = yaml::lines_text(lines);
    let rest = lines.drop_first();
    let one = seq![lines[0]];
    assert(one + rest =~= lines);
    lemma_lines_text_add(one, rest);
    lemma_lines_text_one(lines[0]);
    let t = s.subrange(from, from + all.len());
    let end = from + lines[0].len();
    assert(s.subrange(from, end) =~= lines[0]) by {
        assert forall|i: int| 0 <= i < lines[0].len() implies s[from + i] == lines[0][i] by {
            assert(t[i] == s[from + i]);
        }
    }
    assert(s[end] == '\n') by {
        assert(t[lines[0].len() as int] == s[end]);
    }
    assert(s.subrange(end + 1, end + 1 + yaml::lines_text(rest).len()) =~= yaml::lines_text(rest))
        by {
        assert forall|i: int| 0 <= i < yaml::lines_text(rest).len() implies s[end + 1 + i]
            == yaml::lines_text(rest)[i] by {
            assert(t[lines[0].len() + 1 + i] == s[end + 1 + i]);
        }
    }
}

/// The lines of a text that holds lines at a place.
proof fn lemma_lines_from(s: Seq<char>, from: int, lines: Seq<Seq<char>>)
    requires
        0 <= from,
        from + yaml::lines_text(lines).len() <= s.len(),
        s.subrange(from, from + yaml::lines_text(lines).len()) == yaml::lines_text(lines),
        forall|k: int|
            0 <= k < lines.len() ==> !(#[trigger] lines[k]).contains('\n') && lines[k].len() > 0
                && lines[k].last() != '\r',
    ensures
        text::lines_from(s, from) == lines + text::lines_from(
            s,
            from + yaml::lines_text(lines).len(),
        ),
    decreases lines.len(),
{
    if lines.len() == 0 {
        assert(lines + text::lines_from(s, from) =~= text::lines_from(s, from));
    } else {
        let rest = lines.drop_first();
        lemma_at_first(s, from, lines);
        let end = from + lines[0].len();
        assert(!lines[0].contains('\n'));
        lemma_first_end(s, from, lines[0]);
        assert(s[end - 1] == lines[0].last()) by {
            assert(s.subrange(from, end)[lines[0].len() - 1] == s[end - 1]);
        }
        assert forall|k: int| 0 <= k < rest.len() implies !(#[trigger] rest[k]).contains('\n')
            && rest[k].len() > 0 && rest[k].last() != '\r' by {
            assert(rest[k] == lines[k + 1]);
        }
        lemma_lines_from(s, end + 1, rest);
        let tail = text::lines_from(s, from + yaml::lines_text(lines).len());
        assert(seq![lines[0]] + (rest + tail) =~= lines + tail);
    }
}

/// The lines of a text behind another.
proof fn lemma_lines_behind(a: Seq<char>, b: Seq<char>, from: int)
    requires
        0 <= from <= b.len(),
    ensures
        text::lines_from(a + b, a.len() + from) == text::lines_from(b, from),
    decreases b.len() - from,
{
    let s = a + b;
    text::lemma_find_shift(a, b, '\n', from);
    text::lemma_find_from(b, '\n', from);
    let at = text::find_from(b, '\n', from);
    if from < b.len() {
        if at >= b.len() {
            assert(s.subrange(a.len() + from, s.len() as int) =~= b.subrange(
                from,
                b.len() as int,
            ));
        } else {
            lemma_lines_behind(a, b, at + 1);
            assert(at > from ==> s[a.len() + at - 1] == b[at - 1]);
            let end = text::line_end(b, from, at);
            assert(s.subrange(a.len() + from, a.len() + end) =~= b.subrange(from, end));
        }
    }
}

/// No line of front matter ends it.
proof fn lemma_closing_behind(s: Seq<char>, from: int, lines: Seq<Seq<char>>)
    requires
        0 <= from,
        from + yaml::lines_text(lines).len() <= s.len(),
        s.subrange(from, from + yaml::lines_text(lines).len()) == yaml::lines_text(lines),
        forall|k: int| 0 <= k < lines.len() ==> good_line(#[trigger] lines[k]),
    ensures
        frontmatter::closing(s, from) == frontmatter::closing(
            s,
            from + yaml::lines_text(lines).len(),
        ),
    decreases lines.len(),
{
    if lines.len() > 0 {
        let rest = lines.drop_first();
        lemma_at_first(s, from, lines);
        let end = from + lines[0].len();
        assert(good_line(lines[0]));
        lemma_first_end(s, from, lines[0]);
        assert(!frontmatter::delimiter(s, from, end)) by {
            assert(seq!['-', '-', '-', '\r'].last() == '\r');
        }
        assert forall|k: int| 0 <= k < rest.len() implies good_line(#[trigger] rest[k]) by {
            assert(rest[k] == lines[k + 1]);
        }
        lemma_closing_behind(s, end + 1, rest);
    }
}

/// No conflict is found exactly where no line has a marker.
proof fn lemma_conflicts(lines: Seq<Seq<char>>, i: int)
    requires
        0 <= i,
    ensures
        frontmatter::check_conflicts(lines, i) is Ok <==> forall|k: int|
            i <= k < lines.len() ==> !frontmatter::conflict_marker(#[trigger] lines[k]),
    decreases lines.len() - i,
{
    if i < lines.len() {
        lemma_conflicts(lines, i + 1);
    }
}

/// A line that does not begin like a conflict marker has none.
proof fn lemma_no_marker(line: Seq<char>)
    requires
        line.len() > 0,
        line[0] != '<' && line[0] != '|' && line[0] != '=' && line[0] != '>',
    ensures
        !frontmatter::conflict_marker(line),
{
    reveal_strlit("<<<<<<<");
    reveal_strlit("|||||||");
    reveal_strlit("=======");
    reveal_strlit(">>>>>>>");
    assert(line.len() >= 7 ==> line.subrange(0, 7)[0] == line[0]);
    assert("<<<<<<<"@[0] == '<' && "|||||||"@[0] == '|' && "======="@[0] == '=' && ">>>>>>>"@[0]
        == '>');
}

/// A record is taken apart into the front matter and the body that it was made of.
proof fn lemma_parts(lines: Seq<Seq<char>>, body: Seq<char>)
    requires
        forall|k: int| 0 <= k < lines.len() ==> good_line(#[trigger] lines[k]),
        frontmatter::check_conflicts(text::lines(body), 0) is Ok,
    ensures
        frontmatter::parts("---\n"@ + yaml::lines_text(lines) + "---\n"@ + body) == Ok::<
            (Seq<char>, Seq<char>),
            ErrorModel,
        >((yaml::lines_text(lines), body)),
{
    reveal_strlit("---\n");
    let mark = "---\n"@;
    let dashes = seq!['-', '-', '-'];
    let header = yaml::lines_text(lines);
    let s = mark + header + mark + body;
    assert(mark =~= dashes + seq!['\n']);
    assert(s.subrange(0, 3) =~= dashes);
    assert(!dashes.contains('\n'));
    lemma_first_end(s, 0, dashes);
    assert(s.subrange(4, 4 + header.len() as int) =~= header);
    let close = 4 + header.len() as int;
    assert(s.subrange(close, close + 3) =~= dashes);
    assert(s[close + 3] == '\n');
    lemma_first_end(s, close, dashes);
    // The place of the closing delimiter.
    lemma_closing_behind(s, 4, lines);
    assert(frontmatter::delimiter(s, close, close + 3));
    assert(frontmatter::closing(s, close) == Some((close, close + 4)));
    assert(s.subrange(close + 4, s.len() as int) =~= body);
    // The lines, none of which has a conflict marker.
    let marked = seq![dashes] + lines + seq![dashes];
    lemma_lines_text_add(seq![dashes] + lines, seq![dashes]);
    lemma_lines_text_add(seq![dashes], lines);
    lemma_lines_text_one(dashes);
    let written = yaml::lines_text(marked);
    assert(written =~= mark + header + mark);
    assert(s =~= written + body);
    assert(s.subrange(0, written.len() as int) =~= written);
    assert forall|k: int| 0 <= k < marked.len() implies !(#[trigger] marked[k]).contains('\n')
        && marked[k].len() > 0 && marked[k].last() != '\r' && !frontmatter::conflict_marker(
        marked[k],
    ) by {
        if 0 < k < marked.len() - 1 {
            assert(marked[k] == lines[k - 1]);
            assert(good_line(lines[k - 1]));
        } else {
            assert(marked[k] == dashes);
            lemma_no_marker(marked[k]);
        }
    }
    lemma_lines_from(s, 0, marked);
    lemma_lines_behind(written, body, 0);
    let tail = text::lines(body);
    lemma_conflicts(tail, 0);
    let all = marked + tail;
    assert(text::lines(s) == all);
    assert forall|k: int| 0 <= k < all.len() implies !frontmatter::conflict_marker(
        #[trigger] all[k],
    ) by {
        if k < marked.len() {
            assert(all[k] == marked[k]);
        } else {
            assert(all[k] == tail[k - marked.len()]);
        }
    }
    lemma_conflicts(all, 0);
}

/// Where the scan stands at the first character of a line, after rest.
spec fn line_start(c: Cursor) -> Cursor {
    Cursor {
        plain_scalar: None,
        token_start: true,
        value_position: false,
        compact: 0,
        plain: false,
        structural: false,
        ..c
    }
}

/// Where the scan stands inside a bare word.
spec fn in_word(c: Cursor) -> Cursor {
    Cursor { plain: true, value_position: false, token_start: false, ..c }
}

/// Where the scan stands behind a key and its colon.
spec fn behind_key(c: Cursor) -> Cursor {
    Cursor { structural: true, plain: false, value_position: true, token_start: true, ..c }
}

/// Whether the scan is outside quotes and words.
spec fn open_cursor(c: Cursor) -> bool {
    !c.single && !c.double && !c.escaped && !c.plain
}

spec fn key_char(c: char) -> bool {
    'a' <= c <= 'z' || c == '_'
}

proof fn lemma_scan_key(c: Cursor, line: Seq<char>, i: int, index: int)
    requires
        open_cursor(c),
        0 < i <= line.len(),
        forall|k: int| 0 <= k < i ==> key_char(#[trigger] line[k]),
    ensures
        scan::scan_chars(c, line, 0, index, 0) == scan::scan_chars(in_word(c), line, i, index, 0),
    decreases i,
{
    if i > 1 {
        lemma_scan_key(c, line, i - 1, index);
    }
    assert(key_char(line[i - 1]));
    let before = if i > 1 {
        in_word(c)
    } else {
        c
    };
    assert(scan::char_step(before, line, i - 1, index, 0) == scan::Step::Next(in_word(c)));
}

/// A key and its colon, before a space or the end of the line.
proof fn lemma_scan_head(c: Cursor, line: Seq<char>, key: Seq<char>, index: int)
    requires
        open_cursor(c),
        yaml::key_word(key),
        key.len() < line.len(),
        line.take(key.len() as int) == key,
        line[key.len() as int] == ':',
        key.len() + 1 == line.len() || line[key.len() as int + 1] == ' ',
    ensures
        scan::scan_chars(c, line, 0, index, 0) == scan::scan_chars(
            behind_key(c),
            line,
            key.len() as int + 1,
            index,
            0,
        ),
        key.len() + 1 < line.len() ==> scan::scan_chars(c, line, 0, index, 0)
            == scan::scan_chars(behind_key(c), line, key.len() as int + 2, index, 0),
{
    let n = key.len() as int;
    assert forall|k: int| 0 <= k < n implies key_char(#[trigger] line[k]) by {
        assert(line.take(n)[k] == line[k]);
        assert(key[k] == line[k]);
    }
    lemma_scan_key(c, line, n, index);
    assert(scan::char_step(in_word(c), line, n, index, 0) == scan::Step::Next(behind_key(c)));
    if n + 1 < line.len() {
        assert(scan::char_step(behind_key(c), line, n + 1, index, 0) == scan::Step::Next(
            behind_key(c),
        ));
    }
}

/// What stands for one character of a quoted text.
proof fn lemma_scan_piece(c: Cursor, line: Seq<char>, a: int, ch: char, index: int, indent: int)
    requires
        c.double && !c.escaped,
        0 <= a,
        a + yaml::json_char(ch).len() <= line.len(),
        line.subrange(a, a + yaml::json_char(ch).len()) == yaml::json_char(ch),
    ensures
        scan::scan_chars(c, line, a, index, indent) == scan::scan_chars(
            c,
            line,
            a + yaml::json_char(ch).len(),
            index,
            indent,
        ),
{
    let piece = yaml::json_char(ch);
    let n = piece.len() as int;
    assert forall|i: int| 0 <= i < n implies line[a + i] == #[trigger] piece[i] by {
        assert(line.subrange(a, a + n)[i] == line[a + i]);
    }
    assert(line[a] == piece[0]);
    if n == 1 {
        assert(scan::char_step(c, line, a, index, indent) == scan::Step::Next(c));
    } else {
        let escaped = Cursor { escaped: true, ..c };
        assert(line[a + 1] == piece[1]);
        assert(scan::char_step(c, line, a, index, indent) == scan::Step::Next(escaped));
        assert(scan::char_step(escaped, line, a + 1, index, indent) == scan::Step::Next(c));
        assert(scan::scan_chars(escaped, line, a + 1, index, indent) == scan::scan_chars(
            c,
            line,
            a + 2,
            index,
            indent,
        ));
        assert(scan::scan_chars(c, line, a, index, indent) == scan::scan_chars(
            c,
            line,
            a + 2,
            index,
            indent,
        ));
        if n == 6 {
            assert(line[a + 2] == piece[2]);
            assert(line[a + 3] == piece[3]);
            assert(line[a + 4] == piece[4]);
            assert(line[a + 5] == piece[5]);
            lemma_hex(ch as int / 16);
            lemma_hex(ch as int % 16);
            assert(scan::char_step(c, line, a + 2, index, indent) == scan::Step::Next(c));
            assert(scan::char_step(c, line, a + 3, index, indent) == scan::Step::Next(c));
            assert(scan::char_step(c, line, a + 4, index, indent) == scan::Step::Next(c));
            assert(scan::char_step(c, line, a + 5, index, indent) == scan::Step::Next(c));
            reveal_with_fuel(scan::scan_chars, 5);
        }
    }
}

proof fn lemma_hex(n: int)
    requires
        0 <= n < 16,
    ensures
        yaml::hex_digit(n) != '"',
        yaml::hex_digit(n) != '\\',
        yaml::hex_digit(n) != '\n',
        yaml::hex_digit(n) != '\r',
{
}

/// The inside of a quoted text leaves the scan inside it.
proof fn lemma_scan_inside(
    c: Cursor,
    line: Seq<char>,
    a: int,
    value: Seq<char>,
    index: int,
    indent: int,
)
    requires
        c.double && !c.escaped,
        0 <= a,
        a + yaml::json_chars(value).len() <= line.len(),
        line.subrange(a, a + yaml::json_chars(value).len()) == yaml::json_chars(value),
    ensures
        scan::scan_chars(c, line, a, index, indent) == scan::scan_chars(
            c,
            line,
            a + yaml::json_chars(value).len(),
            index,
            indent,
        ),
    decreases value.len(),
{
    if value.len() > 0 {
        let front = yaml::json_chars(value.drop_last());
        let piece = yaml::json_char(value.last());
        let all = line.subrange(a, a + front.len() + piece.len());
        assert(line.subrange(a, a + front.len()) =~= front) by {
            assert forall|i: int| 0 <= i < front.len() implies line[a + i] == front[i] by {
                assert(all[i] == line[a + i]);
            }
        }
        let b = a + front.len();
        assert(line.subrange(b, b + piece.len()) =~= piece) by {
            assert forall|i: int| 0 <= i < piece.len() implies line[b + i] == piece[i] by {
                assert(all[front.len() + i] == line[b + i]);
            }
        }
        lemma_scan_inside(c, line, a, value.drop_last(), index, indent);
        lemma_scan_piece(c, line, b, value.last(), index, indent);
    }
}

/// A quoted text at the end of a line.
proof fn lemma_scan_quoted(
    c: Cursor,
    before: Seq<char>,
    value: Seq<char>,
    index: int,
    indent: int,
)
    requires
        open_cursor(c),
    ensures
        scan::scan_chars(
            c,
            before + yaml::json_string(value),
            before.len() as int,
            index,
            indent,
        ) == Ok::<Cursor, ErrorModel>(Cursor { value_position: false, token_start: false, ..c }),
{
    let line = before + yaml::json_string(value);
    let a = before.len() as int;
    let n = yaml::json_chars(value).len() as int;
    let inside = Cursor { double: true, value_position: false, token_start: false, ..c };
    let end = Cursor { value_position: false, token_start: false, ..c };
    assert(line[a] == '"');
    assert(line[a + 1 + n] == '"');
    assert(line.len() == a + n + 2);
    assert(scan::char_step(c, line, a, index, indent) == scan::Step::Next(inside));
    assert(line.subrange(a + 1, a + 1 + n) =~= yaml::json_chars(value));
    lemma_scan_inside(inside, line, a + 1, value, index, indent);
    assert(scan::char_step(inside, line, a + 1 + n, index, indent) == scan::Step::Next(end));
    assert(scan::scan_chars(end, line, a + n + 2, index, indent) == Ok::<Cursor, ErrorModel>(end));
}

/// The rest of a bare word, at the end of a line.
proof fn lemma_scan_word(c: Cursor, line: Seq<char>, i: int, index: int)
    requires
        !c.single && !c.double && c.plain && !c.value_position,
        0 <= i <= line.len(),
        forall|k: int|
            i <= k < line.len() ==> 'a' <= #[trigger] line[k] <= 'z' || yaml::word_digit(line[k])
                || line[k] == '_' || line[k] == '-',
    ensures
        scan::scan_chars(c, line, i, index, 0) matches Ok(end) && end == (Cursor {
            token_start: end.token_start,
            ..c
        }),
    decreases line.len() - i,
{
    if i < line.len() {
        assert('a' <= line[i] <= 'z' || yaml::word_digit(line[i]) || line[i] == '_' || line[i]
            == '-');
        let next = Cursor { token_start: scan::starts_token(line[i]), ..c };
        assert(scan::char_step(c, line, i, index, 0) == scan::Step::Next(next));
        lemma_scan_word(next, line, i + 1, index);
    }
}

/// The scan is at rest behind a line with a key, where it is outside quotes and collections at
/// its end.
proof fn lemma_calm_keyed(
    c: Cursor,
    indents: Seq<usize>,
    line: Seq<char>,
    index: int,
)
    requires
        calm(c, indents),
        line.len() > 0,
        !text::is_whitespace(line[0]),
        scan::scan_chars(line_start(c), line, 0, index, 0) matches Ok(end) && !end.single
            && !end.double && end.block_scalar is None && end.plain_scalar is None && end.flow
            == 0,
    ensures
        scan::scan_line(c, indents, line, index) matches Ok((d, k)) && calm(d, k),
{
    reveal_with_fuel(scan::outer, 3);
    assert(scan::indentation(line) == 0);
    assert(!text::blank(line)) by {
        assert(!text::is_whitespace(line[0]));
    }
    assert(scan::outer(indents, 0) =~= Seq::<usize>::empty());
    assert(scan::outer(indents, 0).push(0usize) =~= seq![0usize]);
}

proof fn lemma_text_line(key: Seq<char>, value: Seq<char>)
    requires
        yaml::key_word(key),
    ensures
        good_line(key + ": "@ + yaml::json_string(value)),
{
    reveal_strlit(": ");
    let before = key + ": "@;
    let line = before + yaml::json_string(value);
    assert forall|c: Cursor, indents: Seq<usize>, index: int| calm(c, indents) implies (
    #[trigger] scan::scan_line(c, indents, line, index) matches Ok((d, k)) && calm(d, k)) by {
        let start = line_start(c);
        assert(line.take(key.len() as int) =~= key);
        lemma_scan_head(start, line, key, index);
        lemma_scan_quoted(behind_key(start), before, value, index, 0);
        assert(key_char(line[0])) by {
            assert(line[0] == key[0]);
        }
        lemma_calm_keyed(c, indents, line, index);
    }
    assert(line[0] == key[0]);
    assert(line.last() == '"');
    lemma_quoted_whole(value);
    lemma_no_marker(line);
    assert forall|i: int| 0 <= i < line.len() implies line[i] != '\n' by {
        if i < key.len() {
            assert(line[i] == key[i]);
        } else if i >= before.len() {
            assert(line[i] == yaml::json_string(value)[i - before.len()]);
        }
    }
}

/// What stands for one character of a quoted text has no line ends.
proof fn lemma_piece_whole(ch: char)
    ensures
        !yaml::json_char(ch).contains('\n'),
{
    if ' ' > ch {
        lemma_hex(ch as int / 16);
        lemma_hex(ch as int % 16);
    }
}

/// A quoted text has no line ends.
proof fn lemma_quoted_whole(value: Seq<char>)
    ensures
        !yaml::json_chars(value).contains('\n'),
        !yaml::json_string(value).contains('\n'),
    decreases value.len(),
{
    if value.len() > 0 {
        lemma_quoted_whole(value.drop_last());
        let front = yaml::json_chars(value.drop_last());
        let ch = value.last();
        let piece = yaml::json_char(ch);
        lemma_piece_whole(ch);
        assert forall|i: int| 0 <= i < (front + piece).len() implies (front + piece)[i] != '\n' by {
            if i < front.len() {
                assert(front.contains(front[i]));
            } else {
                assert(piece.contains(piece[i - front.len()]));
            }
        }
    }
    let inside = yaml::json_chars(value);
    let all = yaml::json_string(value);
    assert forall|i: int| 0 <= i < all.len() implies all[i] != '\n' by {
        if 0 < i < all.len() - 1 {
            assert(all[i] == inside[i - 1]);
            assert(inside.contains(inside[i - 1]));
        }
    }
}

proof fn lemma_word_line(key: Seq<char>, value: Seq<char>)
    requires
        yaml::key_word(key),
        yaml::bare_word(value),
    ensures
        good_line(key + ": "@ + value),
{
    reveal_strlit(": ");
    let before = key + ": "@;
    let line = before + value;
    let n = before.len() as int;
    assert(line[n] == value[0]);
    assert forall|k: int| n <= k < line.len() implies 'a' <= #[trigger] line[k] <= 'z'
        || yaml::word_digit(line[k]) || line[k] == '_' || line[k] == '-' by {
        assert(line[k] == value[k - n]);
    }
    assert forall|c: Cursor, indents: Seq<usize>, index: int| calm(c, indents) implies (
    #[trigger] scan::scan_line(c, indents, line, index) matches Ok((d, k)) && calm(d, k)) by {
        let start = line_start(c);
        assert(line.take(key.len() as int) =~= key);
        lemma_scan_head(start, line, key, index);
        let inside = in_word(behind_key(start));
        assert(scan::char_step(behind_key(start), line, n, index, 0) == scan::Step::Next(inside));
        lemma_scan_word(inside, line, n + 1, index);
        assert(key_char(line[0])) by {
            assert(line[0] == key[0]);
        }
        lemma_calm_keyed(c, indents, line, index);
    }
    assert(line[0] == key[0]);
    assert(line.last() == value.last());
    lemma_no_marker(line);
    assert forall|i: int| 0 <= i < line.len() implies line[i] != '\n' by {
        if i < key.len() {
            assert(line[i] == key[i]);
        }
    }
}

proof fn lemma_list_heads(key: Seq<char>)
    requires
        yaml::key_word(key),
    ensures
        good_line(key + ":"@),
        good_line(key + ": []"@),
{
    reveal_strlit(":");
    reveal_strlit(": []");
    let short = key + ":"@;
    let long = key + ": []"@;
    let n = key.len() as int;
    assert forall|c: Cursor, indents: Seq<usize>, index: int| calm(c, indents) implies (
    #[trigger] scan::scan_line(c, indents, short, index) matches Ok((d, k)) && calm(d, k)) by {
        let start = line_start(c);
        assert(short.take(n) =~= key);
        lemma_scan_head(start, short, key, index);
        assert(short[0] == key[0]);
        lemma_calm_keyed(c, indents, short, index);
    }
    assert forall|c: Cursor, indents: Seq<usize>, index: int| calm(c, indents) implies (
    #[trigger] scan::scan_line(c, indents, long, index) matches Ok((d, k)) && calm(d, k)) by {
        let start = line_start(c);
        assert(long.take(n) =~= key);
        lemma_scan_head(start, long, key, index);
        let behind = behind_key(start);
        let opened = Cursor { flow: 1, ..behind };
        let closed = Cursor { flow: 0, value_position: false, ..opened };
        assert(long[n + 2] == '[' && long[n + 3] == ']');
        assert(scan::char_step(behind, long, n + 2, index, 0) == scan::Step::Next(opened));
        assert(scan::char_step(opened, long, n + 3, index, 0) == scan::Step::Next(closed));
        assert(scan::scan_chars(closed, long, n + 4, index, 0) == Ok::<Cursor, ErrorModel>(closed));
        assert(scan::scan_chars(opened, long, n + 3, index, 0) == Ok::<Cursor, ErrorModel>(closed));
        assert(long[0] == key[0]);
        lemma_calm_keyed(c, indents, long, index);
    }
    assert(short[0] == key[0] && long[0] == key[0]);
    assert(short.last() == ':' && long.last() == ']');
    lemma_no_marker(short);
    lemma_no_marker(long);
    assert forall|i: int| 0 <= i < short.len() implies short[i] != '\n' by {
        if i < n {
            assert(short[i] == key[i]);
        }
    }
    assert forall|i: int| 0 <= i < long.len() implies long[i] != '\n' by {
        if i < n {
            assert(long[i] == key[i]);
        }
    }
}

proof fn lemma_item_line(value: Seq<char>)
    ensures
        good_line("  - "@ + yaml::json_string(value)),
{
    reveal_strlit("  - ");
    let before = "  - "@;
    let line = before + yaml::json_string(value);
    assert(line[0] == ' ' && line[1] == ' ' && line[2] == '-' && line[3] == ' ' && line[4] == '"');
    assert forall|c: Cursor, indents: Seq<usize>, index: int| calm(c, indents) implies (
    #[trigger] scan::scan_line(c, indents, line, index) matches Ok((d, k)) && calm(d, k)) by {
        let start = line_start(c);
        let opened = Cursor { value_position: true, compact: 1, ..start };
        assert(scan::char_step(start, line, 0, index, 2) == scan::Step::Next(start));
        assert(scan::char_step(start, line, 1, index, 2) == scan::Step::Next(start));
        assert(scan::char_step(start, line, 2, index, 2) == scan::Step::Next(opened));
        assert(scan::char_step(opened, line, 3, index, 2) == scan::Step::Next(opened));
        reveal_with_fuel(scan::scan_chars, 5);
        lemma_scan_quoted(opened, before, value, index, 2);
        assert(scan::indentation(line) == 2) by {
            reveal_with_fuel(scan::indentation_from, 3);
        }
        assert(text::skip_space(line, 0) == 2) by {
            reveal_with_fuel(text::skip_space, 3);
        }
        let rest = text::trim_start(line);
        assert(rest[0] == line[2] && rest[1] == line[3]);
        assert(!text::blank(line)) by {
            assert(!text::is_whitespace(line[2]));
        }
        reveal_with_fuel(scan::outer, 3);
        let kept = scan::outer(indents, 2);
        assert(kept =~= Seq::<usize>::empty() || kept =~= seq![0usize]);
        assert(kept.push(2usize) =~= seq![2usize] || kept.push(2usize) =~= seq![0usize, 2usize]);
    }
    assert(line.last() == '"');
    lemma_no_marker(line);
    lemma_quoted_whole(value);
    assert forall|i: int| 0 <= i < line.len() implies line[i] != '\n' by {
        if i >= before.len() {
            assert(line[i] == yaml::json_string(value)[i - before.len()]);
        }
    }
}

/// The inside of a text in single quotes leaves the scan inside it.
proof fn lemma_scan_doubled(c: Cursor, line: Seq<char>, a: int, value: Seq<char>, index: int)
    requires
        c.single && !c.double && !c.plain && !c.value_position && !c.token_start,
        0 <= a,
        a + yaml::doubled(value).len() <= line.len(),
        line.subrange(a, a + yaml::doubled(value).len()) == yaml::doubled(value),
    ensures
        scan::scan_chars(c, line, a, index, 0) == scan::scan_chars(
            c,
            line,
            a + yaml::doubled(value).len(),
            index,
            0,
        ),
    decreases value.len(),
{
    if value.len() > 0 {
        let front = yaml::doubled(value.drop_last());
        let all = line.subrange(a, a + yaml::doubled(value).len());
        assert(line.subrange(a, a + front.len()) =~= front) by {
            assert forall|i: int| 0 <= i < front.len() implies line[a + i] == front[i] by {
                assert(all[i] == line[a + i]);
            }
        }
        lemma_scan_doubled(c, line, a, value.drop_last(), index);
        let b = a + front.len();
        assert(line[b] == all[front.len() as int]);
        if value.last() == '\'' {
            assert(line[b + 1] == all[front.len() as int + 1]);
            let outside = Cursor { single: false, ..c };
            assert(scan::char_step(c, line, b, index, 0) == scan::Step::Next(outside));
            assert(scan::char_step(outside, line, b + 1, index, 0) == scan::Step::Next(c));
            assert(scan::scan_chars(outside, line, b + 1, index, 0) == scan::scan_chars(
                c,
                line,
                b + 2,
                index,
                0,
            ));
        } else {
            assert(scan::char_step(c, line, b, index, 0) == scan::Step::Next(c));
        }
    }
}

/// Whether a text has no control characters of ASCII.
spec fn clean(s: Seq<char>) -> bool {
    forall|i: int| 0 <= i < s.len() ==> ' ' <= #[trigger] s[i]
}

proof fn lemma_clean_add(a: Seq<char>, b: Seq<char>)
    requires
        clean(a),
        clean(b),
    ensures
        clean(a + b),
{
    let s = a + b;
    assert forall|i: int| 0 <= i < s.len() implies ' ' <= #[trigger] s[i] by {
        if i < a.len() {
            assert(s[i] == a[i]);
        } else {
            assert(s[i] == b[i - a.len()]);
        }
    }
}

proof fn lemma_clean_doubled(value: Seq<char>)
    requires
        clean(value),
    ensures
        clean(yaml::doubled(value)),
    decreases value.len(),
{
    if value.len() > 0 {
        let front = yaml::doubled(value.drop_last());
        assert forall|i: int| 0 <= i < value.drop_last().len() implies ' '
            <= #[trigger] value.drop_last()[i] by {
            assert(value.drop_last()[i] == value[i]);
        }
        lemma_clean_doubled(value.drop_last());
        assert(' ' <= value[value.len() - 1]);
        if value.last() == '\'' {
            lemma_clean_add(front, seq!['\'', '\'']);
        } else {
            lemma_clean_add(front, seq![value.last()]);
        }
    }
}

/// Whether the scan takes a text, where it is written bare, for one word: it does not begin with
/// `:`, and all its whitespace are spaces.
pub open spec fn scannable(s: Seq<char>) -> bool {
    &&& s.len() > 0 ==> s[0] != ':'
    &&& forall|i: int| 0 <= i < s.len() && text::is_whitespace(#[trigger] s[i]) ==> s[i] == ' '
}

/// Whether a scalar, where it is a text, is scannable.
pub open spec fn scannable_scalar(tree: YamlTree) -> bool {
    yaml::scalar(tree) && (tree matches YamlTree::Text(s) ==> scannable(s))
}

/// Whether a value is a scalar or a list of scalars, and its texts are scannable.
pub open spec fn scannable_value(tree: YamlTree) -> bool {
    match tree {
        YamlTree::List(items) => forall|i: int|
            0 <= i < items.len() ==> scannable_scalar(#[trigger] items[i]),
        _ => scannable_scalar(tree),
    }
}

/// Whether a key is scannable and does not begin like a conflict marker.
pub open spec fn scannable_key(tree: YamlTree) -> bool {
    tree matches YamlTree::Text(s) && scannable(s) && (s.len() > 0 ==> s[0] != '<' && s[0] != '=')
}

/// Whether a scalar is written in single quotes.
spec fn quoted(w: Seq<char>, s: Seq<char>) -> bool {
    w == seq!['\''] + yaml::doubled(s) + seq!['\'']
}

/// A scalar is written in single quotes or bare.
proof fn lemma_spelled(w: Seq<char>, tree: YamlTree)
    requires
        yaml::spelled(w, tree),
        scannable_scalar(tree),
        yaml::lined(tree, 0),
    ensures
        clean(w),
        (tree is Text && quoted(w, tree->Text_0)) || (yaml::bare_text(w) && scannable(w)),
        tree is Text ==> quoted(w, tree->Text_0) || w == tree->Text_0,
        w.len() > 0,
{
    reveal_strlit("null");
    reveal_strlit("true");
    reveal_strlit("false");
    if let YamlTree::Text(s) = tree {
        lemma_clean_doubled(s);
        lemma_clean_add(seq!['\''], yaml::doubled(s));
        lemma_clean_add(seq!['\''] + yaml::doubled(s), seq!['\'']);
    }
    if let YamlTree::Number(s, _) = tree {
        assert forall|i: int| 0 <= i < s.len() implies ' ' < #[trigger] s[i] && !text::is_whitespace(
            s[i],
        ) && s[i] != ':' && s[i] != '#' by {
            assert(yaml::word_digit(s[i]) || s[i] == '-' || s[i] == '.' || s[i] == 'e');
        }
        assert(s.last() == s[s.len() - 1]);
    }
}

/// Whether the scan stands inside a bare text, outside collections.
spec fn in_bare(c: Cursor) -> bool {
    !c.single && !c.double && c.plain && !c.value_position && c.flow == 0
}

/// The scan of a bare text stays inside it, or stops there at a comment.
proof fn lemma_scan_run(c: Cursor, line: Seq<char>, i: int, j: int, index: int) -> (r: (bool, bool))
    requires
        in_bare(c),
        0 <= i <= j <= line.len(),
        forall|k: int|
            i <= k < j && text::is_whitespace(#[trigger] line[k]) ==> line[k] == ' ',
        forall|k: int|
            i <= k < j && #[trigger] line[k] == ':' ==> k + 1 < line.len() && !text::is_whitespace(
                line[k + 1],
            ),
    ensures
        r.0 ==> scan::scan_chars(c, line, i, index, 0) == Ok::<Cursor, ErrorModel>(
            Cursor { token_start: r.1, ..c },
        ),
        !r.0 ==> scan::scan_chars(c, line, i, index, 0) == scan::scan_chars(
            Cursor { token_start: r.1, ..c },
            line,
            j,
            index,
            0,
        ),
    decreases j - i,
{
    if i == j {
        assert(Cursor { token_start: c.token_start, ..c } == c);
        (false, c.token_start)
    } else if line[i] == '#' && c.token_start {
        assert(scan::char_step(c, line, i, index, 0) == scan::Step::Stop(c));
        assert(Cursor { token_start: c.token_start, ..c } == c);
        (true, c.token_start)
    } else {
        let next = Cursor { token_start: scan::starts_token(line[i]), ..c };
        assert(scan::char_step(c, line, i, index, 0) == scan::Step::Next(next));
        let r = lemma_scan_run(next, line, i + 1, j, index);
        assert(Cursor { token_start: r.1, ..next } == Cursor { token_start: r.1, ..c });
        r
    }
}

/// Whether the scan stands where a token may begin, outside quotes, words and collections.
spec fn fresh(c: Cursor) -> bool {
    open_cursor(c) && c.token_start && c.flow == 0
}

/// The first character of a bare text begins it.
proof fn lemma_scan_first(c: Cursor, line: Seq<char>, a: int, w: Seq<char>, index: int)
    requires
        fresh(c),
        yaml::bare_text(w),
        scannable(w),
        0 <= a,
        a + w.len() <= line.len(),
        line.subrange(a, a + w.len()) == w,
    ensures
        scan::scan_chars(c, line, a, index, 0) == scan::scan_chars(
            Cursor {
                plain: true,
                value_position: false,
                token_start: scan::starts_token(line[a]),
                ..c
            },
            line,
            a + 1,
            index,
            0,
        ),
{
    assert(line.subrange(a, a + w.len())[0] == line[a]);
    assert(!text::is_whitespace(w[0]));
    if w.len() > 1 {
        assert(line.subrange(a, a + w.len())[1] == line[a + 1]);
        assert(w[1] == line[a + 1]);
    }
    let next = Cursor {
        plain: true,
        value_position: false,
        token_start: scan::starts_token(line[a]),
        ..c
    };
    assert(scan::char_step(c, line, a, index, 0) == scan::Step::Next(next));
}

/// What a bare text asks of the line that it stands in.
proof fn lemma_bare_in_line(line: Seq<char>, a: int, w: Seq<char>)
    requires
        yaml::bare_text(w),
        scannable(w),
        0 <= a,
        a + w.len() <= line.len(),
        line.subrange(a, a + w.len()) == w,
    ensures
        forall|k: int|
            a <= k < a + w.len() && text::is_whitespace(#[trigger] line[k]) ==> line[k] == ' ',
        forall|k: int|
            a <= k < a + w.len() && #[trigger] line[k] == ':' ==> k + 1 < line.len()
                && !text::is_whitespace(line[k + 1]),
{
    let t = line.subrange(a, a + w.len());
    assert forall|k: int| a <= k < a + w.len() implies #[trigger] line[k] == w[k - a] by {
        assert(t[k - a] == line[k]);
    }
    assert forall|k: int| a <= k < a + w.len() && #[trigger] line[k] == ':' implies k + 1
        < line.len() && !text::is_whitespace(line[k + 1]) by {
        assert(w[k - a] == ':');
        assert(k - a + 1 < w.len() && w[k - a + 1] != ' ');
        assert(line[k + 1] == w[k + 1 - a]);
    }
}

/// Whether the scan is outside quotes and collections, where another was but for words.
spec fn settled(end: Cursor, c: Cursor) -> bool {
    &&& !end.single && !end.double
    &&& end.block_scalar == c.block_scalar
    &&& end.plain_scalar == c.plain_scalar
    &&& end.flow == 0
}

/// The scan of a scalar at the end of a line is at rest behind it.
proof fn lemma_scan_scalar(
    c: Cursor,
    before: Seq<char>,
    w: Seq<char>,
    tree: YamlTree,
    index: int,
)
    requires
        fresh(c),
        yaml::spelled(w, tree),
        scannable_scalar(tree),
        yaml::lined(tree, 0),
    ensures
        scan::scan_chars(c, before + w, before.len() as int, index, 0) matches Ok(end) && settled(
            end,
            c,
        ),
{
    let line = before + w;
    let a = before.len() as int;
    lemma_spelled(w, tree);
    assert(line.subrange(a, a + w.len()) =~= w);
    if tree is Text && quoted(w, tree->Text_0) {
        let s = tree->Text_0;
        let inner = yaml::doubled(s);
        let inside = Cursor { single: true, value_position: false, token_start: false, ..c };
        let end = Cursor { single: false, ..inside };
        assert(line[a] == '\'');
        assert(scan::char_step(c, line, a, index, 0) == scan::Step::Next(inside));
        assert(line.subrange(a + 1, a + 1 + inner.len()) =~= inner);
        lemma_scan_doubled(inside, line, a + 1, s, index);
        let last = a + 1 + inner.len();
        assert(line[last] == '\'');
        assert(scan::char_step(inside, line, last, index, 0) == scan::Step::Next(end));
        assert(scan::scan_chars(end, line, last + 1, index, 0) == Ok::<Cursor, ErrorModel>(end));
    } else {
        let next = Cursor {
            plain: true,
            value_position: false,
            token_start: scan::starts_token(line[a]),
            ..c
        };
        lemma_scan_first(c, line, a, w, index);
        lemma_bare_in_line(line, a, w);
        let r = lemma_scan_run(next, line, a + 1, line.len() as int, index);
    }
}

/// The scan of a key and its colon stands behind them, or stops in the key, at rest.
proof fn lemma_scan_any_key(c: Cursor, line: Seq<char>, w: Seq<char>, tree: YamlTree, index: int) -> (r:
    bool)
    requires
        fresh(c),
        tree is Text,
        yaml::spelled(w, tree),
        scannable_scalar(tree),
        yaml::lined(tree, 0),
        w.len() < line.len(),
        line.take(w.len() as int) == w,
        line[w.len() as int] == ':',
        w.len() + 1 == line.len() || line[w.len() as int + 1] == ' ',
    ensures
        r ==> (scan::scan_chars(c, line, 0, index, 0) matches Ok(end) && settled(end, c)),
        !r ==> scan::scan_chars(c, line, 0, index, 0) == scan::scan_chars(
            behind_key(c),
            line,
            w.len() as int + 1,
            index,
            0,
        ),
{
    let n = w.len() as int;
    lemma_spelled(w, tree);
    assert(line.subrange(0, n) =~= w);
    if quoted(w, tree->Text_0) {
        let s = tree->Text_0;
        let inner = yaml::doubled(s);
        let inside = Cursor { single: true, value_position: false, token_start: false, ..c };
        let end = Cursor { single: false, ..inside };
        let t = line.take(n);
        assert(t[0] == line[0] && w[0] == '\'');
        assert(scan::char_step(c, line, 0, index, 0) == scan::Step::Next(inside));
        assert(line.subrange(1, 1 + inner.len() as int) =~= inner) by {
            assert forall|i: int| 0 <= i < inner.len() implies line[1 + i] == inner[i] by {
                assert(t[1 + i] == line[1 + i]);
                assert(w[1 + i] == inner[i]);
            }
        }
        lemma_scan_doubled(inside, line, 1, s, index);
        assert(t[n - 1] == line[n - 1] && w[n - 1] == '\'');
        assert(scan::char_step(inside, line, n - 1, index, 0) == scan::Step::Next(end));
        assert(scan::char_step(end, line, n, index, 0) == scan::Step::Next(behind_key(c)));
        assert(scan::scan_chars(end, line, n, index, 0) == scan::scan_chars(
            behind_key(c),
            line,
            n + 1,
            index,
            0,
        ));
        false
    } else {
        let next = Cursor {
            plain: true,
            value_position: false,
            token_start: scan::starts_token(line[0]),
            ..c
        };
        lemma_scan_first(c, line, 0, w, index);
        lemma_bare_in_line(line, 0, w);
        let r = lemma_scan_run(next, line, 1, n, index);
        let at = Cursor { token_start: r.1, ..next };
        assert(scan::char_step(at, line, n, index, 0) == scan::Step::Next(behind_key(c)));
        r.0
    }
}

/// Whether the scan is at rest behind the line, read from its start.
spec fn rests(c: Cursor, line: Seq<char>, index: int) -> bool {
    scan::scan_chars(line_start(c), line, 0, index, 0) matches Ok(end) && settled(end, line_start(c))
}

/// Whether the scan, at rest before the line, is at rest behind it.
spec fn always_rests(line: Seq<char>) -> bool {
    forall|c: Cursor, indents: Seq<usize>, index: int|
        #![trigger calm(c, indents), rests(c, line, index)]
        calm(c, indents) ==> rests(c, line, index)
}

/// A line that has a key, and what is told behind it, can stand in front matter.
proof fn lemma_keyed_line(line: Seq<char>, w: Seq<char>, key: YamlTree)
    requires
        scannable_key(key),
        yaml::lined(key, 0),
        yaml::spelled(w, key),
        w.len() < line.len(),
        line.take(w.len() as int) == w,
        line[w.len() as int] == ':',
        clean(line),
        always_rests(line),
    ensures
        good_line(line),
{
    lemma_spelled(w, key);
    assert(line.take(w.len() as int)[0] == line[0]);
    assert(!text::is_whitespace(line[0]));
    assert forall|c: Cursor, indents: Seq<usize>, index: int| calm(c, indents) implies (
    #[trigger] scan::scan_line(c, indents, line, index) matches Ok((d, k)) && calm(d, k)) by {
        assert(rests(c, line, index));
        lemma_calm_keyed(c, indents, line, index);
    }
    lemma_no_marker(line);
    assert(' ' <= line[line.len() - 1]);
    assert(line != seq!['-', '-', '-']) by {
        assert(seq!['-', '-', '-'][0] == '-' && seq!['-', '-', '-'][1] == '-' && seq!['-', '-', '-'][2]
            == '-');
    }
    assert forall|i: int| 0 <= i < line.len() implies line[i] != '\n' by {
        assert(' ' <= line[i]);
    }
}

/// The line of a key and a scalar can stand in front matter.
proof fn lemma_scalar_line(key: Seq<char>, key_tree: YamlTree, w: Seq<char>, tree: YamlTree)
    requires
        scannable_key(key_tree),
        yaml::lined(key_tree, 0),
        yaml::spelled(key, key_tree),
        yaml::spelled(w, tree),
        scannable_scalar(tree),
        yaml::lined(tree, 0),
    ensures
        good_line(key + ": "@ + w),
{
    reveal_strlit(": ");
    let before = key + ": "@;
    let line = before + w;
    let n = key.len() as int;
    lemma_spelled(key, key_tree);
    lemma_spelled(w, tree);
    lemma_clean_add(key, ": "@);
    lemma_clean_add(before, w);
    assert(line.take(n) =~= key);
    assert forall|c: Cursor, indents: Seq<usize>, index: int|
        #![trigger calm(c, indents), rests(c, line, index)]
        calm(c, indents) implies rests(c, line, index) by {
        let start = line_start(c);
        let stopped = lemma_scan_any_key(start, line, key, key_tree, index);
        if !stopped {
            let behind = behind_key(start);
            assert(scan::char_step(behind, line, n + 1, index, 0) == scan::Step::Next(behind));
            lemma_scan_scalar(behind, before, w, tree, index);
        }
    }
    lemma_keyed_line(line, key, key_tree);
}

/// The lines that begin a list can stand in front matter.
proof fn lemma_any_list_heads(key: Seq<char>, key_tree: YamlTree)
    requires
        scannable_key(key_tree),
        yaml::lined(key_tree, 0),
        yaml::spelled(key, key_tree),
    ensures
        good_line(key + ":"@),
        good_line(key + ": []"@),
{
    reveal_strlit(":");
    reveal_strlit(": []");
    let short = key + ":"@;
    let long = key + ": []"@;
    let n = key.len() as int;
    lemma_spelled(key, key_tree);
    lemma_clean_add(key, ":"@);
    lemma_clean_add(key, ": []"@);
    assert(short.take(n) =~= key);
    assert(long.take(n) =~= key);
    assert forall|c: Cursor, indents: Seq<usize>, index: int|
        #![trigger calm(c, indents), rests(c, short, index)]
        calm(c, indents) implies rests(c, short, index) by {
        let stopped = lemma_scan_any_key(line_start(c), short, key, key_tree, index);
    }
    assert forall|c: Cursor, indents: Seq<usize>, index: int|
        #![trigger calm(c, indents), rests(c, long, index)]
        calm(c, indents) implies rests(c, long, index) by {
        let start = line_start(c);
        let stopped = lemma_scan_any_key(start, long, key, key_tree, index);
        if !stopped {
            let behind = behind_key(start);
            let opened = Cursor { flow: 1, ..behind };
            let closed = Cursor { flow: 0, value_position: false, ..opened };
            assert(long[n + 1] == ' ' && long[n + 2] == '[' && long[n + 3] == ']');
            assert(scan::char_step(behind, long, n + 1, index, 0) == scan::Step::Next(behind));
            assert(scan::char_step(behind, long, n + 2, index, 0) == scan::Step::Next(opened));
            assert(scan::char_step(opened, long, n + 3, index, 0) == scan::Step::Next(closed));
            assert(scan::scan_chars(closed, long, n + 4, index, 0) == Ok::<Cursor, ErrorModel>(
                closed,
            ));
            assert(scan::scan_chars(opened, long, n + 3, index, 0) == Ok::<Cursor, ErrorModel>(
                closed,
            ));
            assert(scan::scan_chars(behind, long, n + 2, index, 0) == Ok::<Cursor, ErrorModel>(
                closed,
            ));
        }
    }
    lemma_keyed_line(short, key, key_tree);
    lemma_keyed_line(long, key, key_tree);
}

/// The line of an item can stand in front matter.
proof fn lemma_any_item_line(w: Seq<char>, tree: YamlTree)
    requires
        yaml::spelled(w, tree),
        scannable_scalar(tree),
        yaml::lined(tree, 0),
    ensures
        good_line("- "@ + w),
{
    reveal_strlit("- ");
    let before = "- "@;
    let line = before + w;
    lemma_spelled(w, tree);
    lemma_clean_add(before, w);
    assert(line[0] == '-' && line[1] == ' ');
    assert forall|c: Cursor, indents: Seq<usize>, index: int| calm(c, indents) implies (
    #[trigger] scan::scan_line(c, indents, line, index) matches Ok((d, k)) && calm(d, k)) by {
        let start = line_start(c);
        let opened = Cursor { value_position: true, compact: 1, ..start };
        assert(scan::char_step(start, line, 0, index, 0) == scan::Step::Next(opened));
        assert(scan::char_step(opened, line, 1, index, 0) == scan::Step::Next(opened));
        assert(scan::scan_chars(opened, line, 1, index, 0) == scan::scan_chars(
            opened,
            line,
            2,
            index,
            0,
        ));
        lemma_scan_scalar(opened, before, w, tree, index);
        lemma_calm_keyed(c, indents, line, index);
    }
    lemma_no_marker(line);
    assert(' ' <= line[line.len() - 1]);
    assert(line != seq!['-', '-', '-']) by {
        assert(seq!['-', '-', '-'][1] == '-');
    }
    assert forall|i: int| 0 <= i < line.len() implies line[i] != '\n' by {
        assert(' ' <= line[i]);
    }
}

/// The lines of plain properties can stand in front matter.
proof fn lemma_property_lines(properties: Seq<Property>)
    requires
        forall|i: int| 0 <= i < properties.len() ==> (#[trigger] properties[i]).plain(),
    ensures
        forall|k: int|
            0 <= k < yaml::property_lines(properties).len() ==> good_line(
                #[trigger] yaml::property_lines(properties)[k],
            ),
    decreases properties.len(),
{
    if properties.len() > 0 {
        let front = properties.drop_last();
        let last = properties.last();
        assert(last.plain()) by {
            assert(properties[properties.len() - 1].plain());
        }
        assert forall|i: int| 0 <= i < front.len() implies (#[trigger] front[i]).plain() by {
            assert(front[i] == properties[i]);
        }
        lemma_property_lines(front);
        let a = yaml::property_lines(front);
        let b = last.lines();
        assert forall|k: int| 0 <= k < b.len() implies good_line(#[trigger] b[k]) by {
            match last {
                Property::Text(key, value) => {
                    lemma_text_line(key, value);
                },
                Property::Word(key, value) => {
                    lemma_word_line(key, value);
                },
                Property::List(key, items) => {
                    lemma_list_heads(key);
                    if k > 0 {
                        lemma_item_line(items[k - 1]);
                        assert(b[k] == "  - "@ + yaml::json_string(items[k - 1]));
                    }
                },
            }
        }
        assert forall|k: int| 0 <= k < (a + b).len() implies good_line(#[trigger] (a + b)[k]) by {
            if k < a.len() {
                assert((a + b)[k] == a[k]);
            } else {
                assert((a + b)[k] == b[k - a.len()]);
            }
        }
    }
}

/// A property that a record may have, under its key.
pub type Slot = (Seq<char>, Option<Property>);

/// The properties that there are, from the `i`-th slot on.
pub open spec fn present(slots: Seq<Slot>, i: int) -> Seq<Property>
    decreases slots.len() - i,
{
    if i >= slots.len() {
        seq![]
    } else {
        match slots[i].1 {
            Some(property) => seq![property] + present(slots, i + 1),
            None => present(slots, i + 1),
        }
    }
}

/// Whether each property stands under its own key, and no two slots have the same.
spec fn orderly(slots: Seq<Slot>) -> bool {
    &&& forall|i: int|
        0 <= i < slots.len() ==> ((#[trigger] slots[i]).1 matches Some(p) ==> p.key() == slots[i].0)
    &&& forall|i: int, j: int|
        0 <= i < j < slots.len() ==> (#[trigger] slots[i]).0 != (#[trigger] slots[j]).0
}

/// The value of an optional property.
spec fn slot_tree(slot: Slot) -> Option<YamlTree> {
    match slot.1 {
        Some(p) => Some(p.tree()),
        None => None,
    }
}

/// The text of an optional property.
spec fn slot_text(slot: Slot) -> Seq<char> {
    match slot.1 {
        Some(p) => yaml::lines_text(p.lines()),
        None => seq![],
    }
}

/// Whether no entry has the key.
spec fn lacks(entries: Seq<(YamlTree, YamlTree)>, key: Seq<char>) -> bool {
    forall|i: int| 0 <= i < entries.len() ==> (#[trigger] entries[i]).0 != YamlTree::Text(key)
}

proof fn lemma_lacks(entries: Seq<(YamlTree, YamlTree)>, key: Seq<char>)
    ensures
        lacks(entries, key) <==> yaml::value_at(entries, key) is None,
{
    yaml::lemma_place(entries, key, 0);
}

/// What is present under a key that no slot from the `i`-th on has, and what keys are present.
proof fn lemma_present(slots: Seq<Slot>, i: int)
    requires
        0 <= i,
        orderly(slots),
    ensures
        forall|k: int|
            0 <= k < present(slots, i).len() ==> exists|j: int|
                i <= j < slots.len() && (#[trigger] slots[j]).1 == Some(
                    #[trigger] present(slots, i)[k],
                ),
        forall|k: int, l: int|
            0 <= k < l < present(slots, i).len() ==> (#[trigger] present(slots, i)[k]).key() != (
            #[trigger] present(slots, i)[l]).key(),
    decreases slots.len() - i,
{
    if i < slots.len() {
        lemma_present(slots, i + 1);
        let rest = present(slots, i + 1);
        let all = present(slots, i);
        if let Some(p) = slots[i].1 {
            assert(all == seq![p] + rest);
            assert forall|k: int| 0 <= k < all.len() implies exists|j: int|
                i <= j < slots.len() && (#[trigger] slots[j]).1 == Some(#[trigger] all[k]) by {
                if k == 0 {
                    assert(slots[i].1 == Some(all[0]));
                } else {
                    assert(all[k] == rest[k - 1]);
                    let j = choose|j: int|
                        i + 1 <= j < slots.len() && (#[trigger] slots[j]).1 == Some(rest[k - 1]);
                    assert(slots[j].1 == Some(all[k]));
                }
            }
            assert forall|k: int, l: int| 0 <= k < l < all.len() implies (
            #[trigger] all[k]).key() != (#[trigger] all[l]).key() by {
                assert(all[l] == rest[l - 1]);
                if k > 0 {
                    assert(all[k] == rest[k - 1]);
                } else {
                    let j = choose|j: int|
                        i + 1 <= j < slots.len() && (#[trigger] slots[j]).1 == Some(rest[l - 1]);
                    assert(slots[j].0 == rest[l - 1].key());
                    assert(slots[i].0 == p.key());
                }
            }
        }
    }
}

/// The first slot's value is found under its key, and the others are left without it.
proof fn lemma_slot(slots: Seq<Slot>, i: int, extras: Seq<(YamlTree, YamlTree)>)
    requires
        0 <= i < slots.len(),
        orderly(slots),
        lacks(extras, slots[i].0),
    ensures
        ({
            let all = yaml::property_entries(present(slots, i)) + extras;
            let rest = yaml::property_entries(present(slots, i + 1)) + extras;
            &&& yaml::value_at(all, slots[i].0) == slot_tree(slots[i])
            &&& yaml::without(all, slots[i].0) == rest
        }),
{
    let key = slots[i].0;
    let after = present(slots, i + 1);
    let rest = yaml::property_entries(after) + extras;
    lemma_present(slots, i + 1);
    assert(lacks(rest, key)) by {
        assert forall|k: int| 0 <= k < rest.len() implies (#[trigger] rest[k]).0
            != YamlTree::Text(key) by {
            if k < after.len() {
                assert(rest[k].0 == YamlTree::Text(after[k].key()));
                let j = choose|j: int|
                    i + 1 <= j < slots.len() && (#[trigger] slots[j]).1 == Some(after[k]);
                assert(slots[j].0 == after[k].key());
            } else {
                assert(rest[k] == extras[k - after.len()]);
            }
        }
    }
    lemma_lacks(rest, key);
    if let Some(p) = slots[i].1 {
        let all = yaml::property_entries(present(slots, i)) + extras;
        assert(all =~= seq![(YamlTree::Text(key), p.tree())] + rest);
        assert(all[0].0 == YamlTree::Text(key));
        assert(yaml::place_from(all, key, 0) == Some(0int));
        assert(all.remove(0) =~= rest);
    }
}

proof fn lemma_property_lines_add(p: Property, rest: Seq<Property>)
    ensures
        yaml::property_lines(seq![p] + rest) == p.lines() + yaml::property_lines(rest),
    decreases rest.len(),
{
    let all = seq![p] + rest;
    if rest.len() == 0 {
        assert(all.drop_last() =~= rest);
        assert(all.last() == p);
        assert(yaml::property_lines(all) =~= p.lines() + yaml::property_lines(rest));
    } else {
        lemma_property_lines_add(p, rest.drop_last());
        assert(all.drop_last() =~= seq![p] + rest.drop_last());
        assert(all.last() == rest.last());
        assert(yaml::property_lines(all) =~= p.lines() + yaml::property_lines(rest));
    }
}

/// The text of what is present, by its first slot.
proof fn lemma_slot_text(slots: Seq<Slot>, i: int)
    requires
        0 <= i < slots.len(),
    ensures
        yaml::properties_text(present(slots, i)) == slot_text(slots[i]) + yaml::properties_text(
            present(slots, i + 1),
        ),
{
    let rest = present(slots, i + 1);
    match slots[i].1 {
        Some(p) => {
            lemma_property_lines_add(p, rest);
            lemma_lines_text_add(p.lines(), yaml::property_lines(rest));
        },
        None => {
            assert(slot_text(slots[i]) + yaml::properties_text(rest) =~= yaml::properties_text(
                rest,
            ));
        },
    }
}

/// Present properties that are plain are so together.
proof fn lemma_plain(slots: Seq<Slot>)
    requires
        orderly(slots),
        slots.len() > 0,
        slots[0].1 is Some,
        forall|i: int|
            0 <= i < slots.len() ==> ((#[trigger] slots[i]).1 matches Some(p) ==> p.plain()),
    ensures
        yaml::plain_properties(present(slots, 0)),
{
    lemma_present(slots, 0);
    let all = present(slots, 0);
    assert forall|k: int| 0 <= k < all.len() implies (#[trigger] all[k]).plain() by {
        let j = choose|j: int| 0 <= j < slots.len() && (#[trigger] slots[j]).1 == Some(all[k]);
        assert(slots[j].1 == Some(all[k]));
    }
}

/// A record of properties and a body.
pub open spec fn record_text(properties: Seq<Property>, body: Seq<char>) -> Seq<char> {
    "---\n"@ + yaml::properties_text(properties) + "---\n"@ + body
}

/// Whether what is read from a record are the properties and the body that it was made of, where
/// it was made so: the properties are plain, and neither they nor the body break a rule.
pub open spec fn holds_properties(bytes: Seq<u8>, outcome: Result<DocumentModel, ErrorModel>) -> bool {
    forall|properties: Seq<Property>, body: Seq<char>|
        bytes == vstd::utf8::encode_utf8(#[trigger] record_text(properties, body)) && bytes.len()
            <= frontmatter::MAX_RECORD_BYTES && yaml::plain_properties(properties)
            && frontmatter::check_conflicts(text::lines(body), 0) is Ok
            && frontmatter::check_mapping(yaml::property_entries(properties)) is Ok ==> outcome
            == Ok::<DocumentModel, ErrorModel>(
            DocumentModel { properties: yaml::property_entries(properties), body },
        )
}

/// A record is read as the properties and the body that it was made of, where YAML's reader takes
/// properties for what they say.
pub(crate) proof fn lemma_documents(bytes: Seq<u8>)
    ensures
        frontmatter::reads_as_written(bytes) ==> holds_properties(
            bytes,
            frontmatter::document_of(bytes),
        ),
{
    assert forall|properties: Seq<Property>, body: Seq<char>|
        frontmatter::reads_as_written(bytes) && bytes == vstd::utf8::encode_utf8(
            #[trigger] record_text(properties, body),
        ) && bytes.len() <= frontmatter::MAX_RECORD_BYTES && yaml::plain_properties(properties)
            && frontmatter::check_conflicts(text::lines(body), 0) is Ok
            && frontmatter::check_mapping(yaml::property_entries(properties)) is Ok implies frontmatter::document_of(
        bytes,
    ) == Ok::<DocumentModel, ErrorModel>(
        DocumentModel { properties: yaml::property_entries(properties), body },
    ) by {
        lemma_document(properties, body);
    }
}

/// The scan accepts the text of lines that leave it at rest.
proof fn lemma_scan_text(lines: Seq<Seq<char>>)
    requires
        forall|k: int| 0 <= k < lines.len() ==> good_line(#[trigger] lines[k]),
    ensures
        scan::scan(yaml::lines_text(lines)) is Ok,
{
    let s = yaml::lines_text(lines);
    assert(text::lines(s) =~= lines) by {
        assert(s.subrange(0, s.len() as int) =~= s);
        assert forall|k: int| 0 <= k < lines.len() implies !(#[trigger] lines[k]).contains('\n')
            && lines[k].len() > 0 && lines[k].last() != '\r' by {
            assert(good_line(lines[k]));
        }
        lemma_lines_from(s, 0, lines);
    }
    assert(calm(scan::start_cursor(), seq![]));
    lemma_scan_lines(scan::start_cursor(), seq![], lines, 0);
}

/// A record with plain properties can be taken apart and scanned.
proof fn lemma_document(properties: Seq<Property>, body: Seq<char>)
    requires
        yaml::plain_properties(properties),
        frontmatter::check_conflicts(text::lines(body), 0) is Ok,
    ensures
        ({
            let source = record_text(properties, body);
            let bytes = vstd::utf8::encode_utf8(source);
            let header = yaml::properties_text(properties);
            &&& vstd::utf8::valid_utf8(bytes)
            &&& vstd::utf8::decode_utf8(bytes) == source
            &&& bytes[0] != 0xEF
            &&& frontmatter::parts(source) == Ok::<(Seq<char>, Seq<char>), ErrorModel>((header, body))
            &&& scan::scan(header) is Ok
        }),
{
    let source = record_text(properties, body);
    let bytes = vstd::utf8::encode_utf8(source);
    lemma_property_lines(properties);
    lemma_parts(yaml::property_lines(properties), body);
    lemma_scan_text(yaml::property_lines(properties));
    reveal_strlit("---\n");
    assert(source[0] == '-');
    lemma_source(source);
}

/// An optional text in quotes under its key.
pub open spec fn text_slot(key: Seq<char>, value: Option<Seq<char>>) -> Slot {
    match value {
        Some(value) => (key, Some(Property::Text(key, value))),
        None => (key, None),
    }
}

/// An optional bare word under its key.
pub open spec fn word_slot(key: Seq<char>, value: Option<Seq<char>>) -> Slot {
    match value {
        Some(value) => (key, Some(Property::Word(key, value))),
        None => (key, None),
    }
}

/// A list under its key.
pub open spec fn list_slot(key: Seq<char>, items: Seq<Seq<char>>) -> Slot {
    (key, Some(Property::List(key, items)))
}

impl TaskModel {
    /// The properties that the task's record may have, in order.
    pub open spec fn slots(self, config: ConfigModel) -> Seq<Slot> {
        seq![
            text_slot("name"@, Some(self.name)),
            if frontmatter::ambiguous_word(self.state) {
                text_slot("state"@, Some(self.state))
            } else {
                word_slot("state"@, Some(self.state))
            },
            list_slot("projects"@, frontmatter::links(text::sorted(self.projects), config)),
            list_slot("tags"@, text::sorted(self.tags)),
            text_slot("parent"@, frontmatter::upper_opt(self.parent)),
            text_slot("url"@, self.url),
            word_slot("due_date"@, frontmatter::date_opt(self.due_date)),
            text_slot("due_time"@, frontmatter::time_opt(self.due_time)),
            text_slot("recurrence"@, frontmatter::rule_opt(self.recurrence)),
            word_slot("recurrence_from"@, frontmatter::mode_opt(self.recurrence_from)),
            word_slot("last_completed_date"@, frontmatter::date_opt(self.last_completed_date)),
        ]
    }

    /// What the properties of the task's record hold, before those that are not the task's own.
    pub open spec fn entries(self, config: ConfigModel) -> Seq<(YamlTree, YamlTree)> {
        yaml::property_entries(present(self.slots(config), 0))
    }

    /// The task with what reading a record does to it: IDs in capitals, projects and tags in
    /// order.
    pub open spec fn settled(self) -> TaskModel {
        TaskModel {
            id: text::upper(self.id),
            projects: text::sorted(self.projects),
            tags: text::sorted(self.tags),
            parent: frontmatter::upper_opt(self.parent),
            ..self
        }
    }

    /// Whether the dates, the time and the rule are those of values.
    pub open spec fn well_formed(self) -> bool {
        &&& self.due_date matches Some(date) ==> date.valid()
        &&& self.due_time matches Some(time) ==> time.valid()
        &&& self.last_completed_date matches Some(date) ==> date.valid()
        &&& self.recurrence matches Some(rule) ==> rule.well_formed()
    }

    /// Whether YAML's reader gives the task's texts back: they are legible, the state is an ID,
    /// and there are not too many of them.
    pub open spec fn legible(self, config: ConfigModel) -> bool {
        &&& config::state_id(self.state)
        &&& yaml::legible(self.name)
        &&& forall|i: int| 0 <= i < self.tags.len() ==> yaml::legible(#[trigger] self.tags[i])
        &&& self.projects.len() > 0 ==> yaml::legible(config.link_target_prefix())
        &&& self.url matches Some(url) ==> yaml::legible(url)
        &&& frontmatter::check_mapping(self.entries(config) + self.extra_properties) is Ok
    }
}

/// The keys of a task's properties are different.
proof fn lemma_task_keys(task: TaskModel, config: ConfigModel)
    ensures
        orderly(task.slots(config)),
        forall|i: int|
            0 <= i < task.slots(config).len() ==> yaml::key_word((#[trigger] task.slots(config)[i]).0),
        task.slots(config).len() == 11,
{
    reveal_strlit("name");
    reveal_strlit("state");
    reveal_strlit("projects");
    reveal_strlit("tags");
    reveal_strlit("parent");
    reveal_strlit("url");
    reveal_strlit("due_date");
    reveal_strlit("due_time");
    reveal_strlit("recurrence");
    reveal_strlit("recurrence_from");
    reveal_strlit("last_completed_date");
    reveal_strlit("null");
    reveal_strlit("true");
    reveal_strlit("false");
    let slots = task.slots(config);
    assert("name"@[0] == 'n' && "tags"@[0] == 't' && "null"@[1] == 'u' && "true"@[1] == 'r');
    assert("name"@[1] == 'a' && "tags"@[1] == 'a' && "state"@[0] == 's' && "false"@[0] == 'f');
    assert("projects"@[0] == 'p' && "due_date"@[4] == 'd' && "due_time"@[4] == 't');
    assert("due_date"@[0] == 'd' && "due_time"@[0] == 'd');
    assert forall|i: int, j: int| 0 <= i < j < slots.len() implies (#[trigger] slots[i]).0 != (
    #[trigger] slots[j]).0 by {
        assert(slots[i].0.len() != slots[j].0.len() || slots[i].0[0] != slots[j].0[0]
            || slots[i].0[4] != slots[j].0[4]);
    }
    assert(yaml::key_word("name"@));
    assert(yaml::key_word("state"@));
    assert(yaml::key_word("projects"@));
    assert(yaml::key_word("tags"@));
    assert(yaml::key_word("parent"@));
    assert(yaml::key_word("url"@));
    assert(yaml::key_word("due_date"@));
    assert(yaml::key_word("due_time"@));
    assert(yaml::key_word("recurrence"@));
    assert(yaml::key_word("recurrence_from"@));
    assert(yaml::key_word("last_completed_date"@));
    assert forall|i: int| 0 <= i < slots.len() implies yaml::key_word((#[trigger] slots[i]).0) by {
        assert(i == 0 || i == 1 || i == 2 || i == 3 || i == 4 || i == 5 || i == 6 || i == 7 || i == 8
            || i == 9 || i == 10);
    }
}

/// Sorting keeps what all texts have in common, and that no two are equal.
proof fn lemma_sorted_same_texts(s: Seq<Seq<char>>)
    ensures
        forall|i: int| 0 <= i < s.len() ==> s.contains(#[trigger] text::sorted(s)[i]),
        text::sorted(s).len() == s.len(),
        s.no_duplicates() ==> text::sorted(s).no_duplicates(),
{
    broadcast use vstd::seq_lib::group_to_multiset_ensures;

    text::lemma_sorted(s);
    let t = text::sorted(s);
    assert forall|i: int| 0 <= i < s.len() implies s.contains(#[trigger] t[i]) by {
        assert(t.contains(t[i]));
        assert(t.to_multiset().contains(t[i]));
    }
    if s.no_duplicates() {
        s.lemma_multiset_has_no_duplicates();
        t.lemma_multiset_has_no_duplicates_conv();
    }
}

proof fn lemma_unique(values: Seq<Seq<char>>, i: int)
    requires
        0 <= i <= values.len(),
    ensures
        model::check_unique(values, i) is Ok <==> forall|k: int, l: int|
            0 <= k < l < values.len() && i <= l ==> #[trigger] values[k] != #[trigger] values[l],
    decreases values.len() - i,
{
    if i < values.len() {
        lemma_unique(values, i + 1);
        let before = values.take(i);
        if before.contains(values[i]) {
            let k = choose|k: int| 0 <= k < before.len() && before[k] == values[i];
            assert(values[k] == values[i]);
        } else {
            assert forall|k: int| 0 <= k < i implies #[trigger] values[k] != values[i] by {
                assert(before[k] == values[k]);
            }
        }
    }
}

proof fn lemma_slugs(values: Seq<Seq<char>>, i: int)
    requires
        0 <= i <= values.len(),
    ensures
        model::check_slugs(values, i) is Ok <==> forall|k: int|
            i <= k < values.len() ==> model::slug(#[trigger] values[k]),
    decreases values.len() - i,
{
    if i < values.len() {
        lemma_slugs(values, i + 1);
    }
}

proof fn lemma_tags(values: Seq<Seq<char>>, i: int)
    requires
        0 <= i <= values.len(),
    ensures
        model::check_tags(values, i) is Ok <==> (forall|k: int|
            i <= k < values.len() ==> model::tag(#[trigger] values[k])) && model::check_unique(
            values,
            i,
        ) is Ok,
    decreases values.len() - i,
{
    if i < values.len() {
        lemma_tags(values, i + 1);
    }
}

/// Texts keep their rules when they are sorted.
proof fn lemma_sorted_checks(values: Seq<Seq<char>>)
    ensures
        model::check_unique(values, 0) is Ok ==> model::check_unique(text::sorted(values), 0) is Ok,
        model::check_slugs(values, 0) is Ok ==> model::check_slugs(text::sorted(values), 0) is Ok,
        model::check_tags(values, 0) is Ok ==> model::check_tags(text::sorted(values), 0) is Ok,
{
    let t = text::sorted(values);
    lemma_sorted_same_texts(values);
    lemma_unique(values, 0);
    lemma_unique(t, 0);
    lemma_slugs(values, 0);
    lemma_slugs(t, 0);
    lemma_tags(values, 0);
    lemma_tags(t, 0);
    if model::check_unique(values, 0) is Ok {
        assert(values.no_duplicates()) by {
            assert forall|i: int, j: int|
                0 <= i < values.len() && 0 <= j < values.len() && i != j implies values[i]
                != values[j] by {
                if i < j {
                    assert(values[i] != values[j]);
                } else {
                    assert(values[j] != values[i]);
                }
            }
        }
        assert(t.no_duplicates());
    }
    assert forall|k: int| 0 <= k < t.len() implies exists|j: int|
        0 <= j < values.len() && #[trigger] values[j] == #[trigger] t[k] by {
        assert(values.contains(t[k]));
    }
}

/// A task that keeps the rules keeps them as it is read back.
proof fn lemma_settled(task: TaskModel, config: ConfigModel)
    requires
        task.check(config) is Ok,
    ensures
        task.settled().check(config) is Ok,
        task.parent matches Some(parent) ==> model::parent_id(text::upper(parent)) == Ok::<
            Seq<char>,
            ErrorModel,
        >(text::upper(parent)),
{
    lemma_upper_id(task.id);
    if let Some(parent) = task.parent {
        lemma_upper_id(parent);
    }
    lemma_sorted_checks(task.projects);
    lemma_sorted_checks(task.tags);
    let s = task.settled();
    assert(s.check_parent(config) is Ok);
    assert(s.check_state(config) == task.check_state(config));
    assert(s.check_due() == task.check_due());
    assert(s.check_completed() == task.check_completed());
    assert(s.check_recurrence() == task.check_recurrence());
}

proof fn lemma_upper_id(id: Seq<char>)
    requires
        model::task_id(id),
    ensures
        model::task_id(text::upper(id)),
        text::upper(text::upper(id)) == text::upper(id),
{
    model::lemma_upper_ulid(id);
    let u = text::upper(id);
    assert(u[0] == text::upper_char(id[0]));
    assert forall|i: int| 0 <= i < u.len() implies text::upper_char(u[i]) == u[i] by {
        assert(u[i] == text::upper_char(id[i]));
    }
    assert(text::upper(u) =~= u);
}

/// The texts of items are read back.
proof fn lemma_item_texts(items: Seq<Seq<char>>, i: int, key: Seq<char>)
    requires
        0 <= i <= items.len(),
    ensures
        frontmatter::item_texts(
            items.map_values(|item: Seq<char>| YamlTree::Text(item)),
            i,
            items.take(i),
            key,
        ) == Ok::<Seq<Seq<char>>, ErrorModel>(items),
    decreases items.len() - i,
{
    let trees = items.map_values(|item: Seq<char>| YamlTree::Text(item));
    if i < items.len() {
        assert(trees[i] == YamlTree::Text(items[i]));
        assert(items.take(i).push(items[i]) =~= items.take(i + 1));
        lemma_item_texts(items, i + 1, key);
    } else {
        assert(items.take(i) =~= items);
    }
}

/// Links to projects lead back to them all.
proof fn lemma_projects(slugs: Seq<Seq<char>>, i: int, config: ConfigModel)
    requires
        0 <= i <= slugs.len(),
        forall|k: int| 0 <= k < slugs.len() ==> model::slug(#[trigger] slugs[k]),
    ensures
        frontmatter::projects_of(frontmatter::links(slugs, config), i, slugs.take(i), config)
            == Ok::<Seq<Seq<char>>, ErrorModel>(slugs),
    decreases slugs.len() - i,
{
    let links = frontmatter::links(slugs, config);
    if i < slugs.len() {
        assert(links[i] == config.link(slugs[i]));
        frontmatter::project_links_lead_back(slugs[i], config);
        assert(slugs.take(i).push(slugs[i]) =~= slugs.take(i + 1));
        lemma_projects(slugs, i + 1, config);
    } else {
        assert(slugs.take(i) =~= slugs);
    }
}

/// No reserved key is among properties that can stand beside a record's own.
proof fn lemma_reserved(entries: Seq<(YamlTree, YamlTree)>, keys: Seq<Seq<char>>, i: int)
    requires
        0 <= i,
        frontmatter::check_reserved(entries, keys, i) is Ok,
    ensures
        forall|k: int| i <= k < keys.len() ==> lacks(entries, #[trigger] keys[k]),
    decreases keys.len() - i,
{
    if i < keys.len() {
        lemma_lacks(entries, keys[i]);
        lemma_reserved(entries, keys, i + 1);
    }
}

/// Properties beside a task's own have none of its keys.
proof fn lemma_task_extras(task: TaskModel, config: ConfigModel)
    requires
        frontmatter::check_extras(
            task.extra_properties,
            frontmatter::task_keys(config.schema_version),
        ) is Ok,
    ensures
        lacks(task.extra_properties, "id"@),
        forall|i: int|
            0 <= i < 11 && (i != 4 || config.schema_version == 2) ==> lacks(
                task.extra_properties,
                (#[trigger] task.slots(config)[i]).0,
            ),
{
    let extras = task.extra_properties;
    let keys = frontmatter::task_keys(config.schema_version).push("id"@);
    lemma_reserved(extras, keys, 0);
    assert(keys.last() == "id"@);
    assert(lacks(extras, keys[keys.len() - 1]));
    assert(lacks(extras, keys[0]) && lacks(extras, keys[1]) && lacks(extras, keys[2]) && lacks(
        extras,
        keys[3],
    ) && lacks(extras, keys[4]) && lacks(extras, keys[5]) && lacks(extras, keys[6]) && lacks(
        extras,
        keys[7],
    ) && lacks(extras, keys[8]) && lacks(extras, keys[9]));
    if config.schema_version == 2 {
        assert(keys[10] == "parent"@);
        assert(lacks(extras, keys[10]));
    }
    let slots = task.slots(config);
    assert forall|i: int| 0 <= i < 11 && (i != 4 || config.schema_version == 2) implies lacks(
        extras,
        (#[trigger] slots[i]).0,
    ) by {
        assert(i == 0 || i == 1 || i == 2 || i == 3 || i == 4 || i == 5 || i == 6 || i == 7 || i == 8
            || i == 9 || i == 10);
    }
}

/// No entry has a key that no slot has.
proof fn lemma_other_key(slots: Seq<Slot>, key: Seq<char>, extras: Seq<(YamlTree, YamlTree)>)
    requires
        orderly(slots),
        forall|i: int| 0 <= i < slots.len() ==> (#[trigger] slots[i]).0 != key,
        lacks(extras, key),
    ensures
        yaml::value_at(yaml::property_entries(present(slots, 0)) + extras, key) is None,
{
    lemma_present(slots, 0);
    let own = present(slots, 0);
    let all = yaml::property_entries(own) + extras;
    assert forall|k: int| 0 <= k < all.len() implies (#[trigger] all[k]).0 != YamlTree::Text(key) by {
        if k < own.len() {
            assert(all[k].0 == YamlTree::Text(own[k].key()));
            let j = choose|j: int| 0 <= j < slots.len() && (#[trigger] slots[j]).1 == Some(own[k]);
            assert(slots[j].0 == own[k].key());
        } else {
            assert(all[k] == extras[k - own.len()]);
        }
    }
    lemma_lacks(all, key);
}

/// The entries of a task's record from its `i`-th slot on.
#[verifier::opaque]
spec fn tail(task: TaskModel, config: ConfigModel, i: int) -> Seq<(YamlTree, YamlTree)> {
    yaml::property_entries(present(task.slots(config), i)) + task.extra_properties
}

/// The value of a slot is found under its key, and the others are left without it.
proof fn lemma_task_slot(task: TaskModel, config: ConfigModel, i: int)
    requires
        0 <= i < 11,
        i != 4 || config.schema_version == 2,
        frontmatter::check_extras(
            task.extra_properties,
            frontmatter::task_keys(config.schema_version),
        ) is Ok,
    ensures
        yaml::value_at(tail(task, config, i), task.slots(config)[i].0) == slot_tree(
            task.slots(config)[i],
        ),
        yaml::without(tail(task, config, i), task.slots(config)[i].0) == tail(task, config, i + 1),
{
    reveal(tail);
    lemma_task_keys(task, config);
    lemma_task_extras(task, config);
    lemma_slot(task.slots(config), i, task.extra_properties);
}

/// The options of a task are read back from its properties.
proof fn lemma_task_options(task: TaskModel, config: ConfigModel)
    requires
        task.well_formed(),
        task.check(config) is Ok,
        frontmatter::check_extras(
            task.extra_properties,
            frontmatter::task_keys(config.schema_version),
        ) is Ok,
    ensures
        frontmatter::read_options(tail(task, config, 4), config.schema_version) == Ok::<frontmatter::Options, ErrorModel>(
            frontmatter::Options {
                parent: frontmatter::upper_opt(task.parent),
                url: task.url,
                due_date: task.due_date,
                due_time: task.due_time,
                recurrence: task.recurrence,
                recurrence_from: task.recurrence_from,
                last_completed_date: task.last_completed_date,
                rest: task.extra_properties,
            },
        ),
{
    let version = config.schema_version;
    lemma_settled(task, config);
    if version == 2 {
        lemma_task_slot(task, config, 4);
    } else {
        assert(task.parent is None);
        assert(task.slots(config)[4].1 is None);
        reveal(tail);
    }
    let e0 = tail(task, config, 5);
    assert(frontmatter::read_parent(tail(task, config, 4), version) == Ok::<
        (Option<Seq<char>>, Seq<(YamlTree, YamlTree)>),
        ErrorModel,
    >((frontmatter::upper_opt(task.parent), e0)));
    lemma_task_slot(task, config, 5);
    lemma_task_slot(task, config, 6);
    lemma_task_slot(task, config, 7);
    assert(frontmatter::optional_text(e0, "url"@) == Ok::<Option<Seq<char>>, ErrorModel>(task.url));
    let e1 = tail(task, config, 6);
    assert(yaml::without(e0, "url"@) == e1);
    assert(frontmatter::due_property(e1) == Ok::<Option<Date>, ErrorModel>(task.due_date)) by {
        if let Some(date) = task.due_date {
            recurrence::written_dates_are_read_back(date, "due_date"@);
        }
    }
    let e2 = tail(task, config, 7);
    assert(yaml::without(e1, "due_date"@) == e2);
    let time = frontmatter::time_opt(task.due_time);
    assert(frontmatter::optional_text(e2, "due_time"@) == Ok::<Option<Seq<char>>, ErrorModel>(time));
    assert(frontmatter::optional_time(time) == Ok::<Option<Time>, ErrorModel>(task.due_time)) by {
        if let Some(time) = task.due_time {
            model::written_times_are_read_back(time);
        }
    }
    assert(yaml::without(e2, "due_time"@) == tail(task, config, 8));
    lemma_task_recurrence(task, config);
}

/// The recurrence of a task is read back from its properties.
proof fn lemma_task_recurrence(task: TaskModel, config: ConfigModel)
    requires
        task.well_formed(),
        task.check(config) is Ok,
        frontmatter::check_extras(
            task.extra_properties,
            frontmatter::task_keys(config.schema_version),
        ) is Ok,
    ensures
        frontmatter::read_recurrence(
            frontmatter::upper_opt(task.parent),
            task.url,
            task.due_date,
            task.due_time,
            tail(task, config, 8),
        ) == Ok::<frontmatter::Options, ErrorModel>(
            frontmatter::Options {
                parent: frontmatter::upper_opt(task.parent),
                url: task.url,
                due_date: task.due_date,
                due_time: task.due_time,
                recurrence: task.recurrence,
                recurrence_from: task.recurrence_from,
                last_completed_date: task.last_completed_date,
                rest: task.extra_properties,
            },
        ),
{
    lemma_task_slot(task, config, 8);
    lemma_task_slot(task, config, 9);
    lemma_task_slot(task, config, 10);
    let e0 = tail(task, config, 8);
    let e1 = tail(task, config, 9);
    let e2 = tail(task, config, 10);
    assert(tail(task, config, 11) =~= task.extra_properties) by {
        reveal(tail);
    }
    let rule = frontmatter::rule_opt(task.recurrence);
    assert(frontmatter::optional_text(e0, "recurrence"@) == Ok::<Option<Seq<char>>, ErrorModel>(
        rule,
    ));
    assert(frontmatter::optional_rule(rule) == Ok::<Option<RuleModel>, ErrorModel>(
        task.recurrence,
    )) by {
        if let Some(rule) = task.recurrence {
            recurrence::written_rules_are_read_back(rule);
        }
    }
    assert(yaml::without(e0, "recurrence"@) == e1);
    let mode = frontmatter::mode_opt(task.recurrence_from);
    assert(frontmatter::optional_text(e1, "recurrence_from"@) == Ok::<
        Option<Seq<char>>,
        ErrorModel,
    >(mode));
    assert(frontmatter::optional_mode(mode) == Ok::<Option<RecurrenceMode>, ErrorModel>(
        task.recurrence_from,
    )) by {
        if let Some(mode) = task.recurrence_from {
            recurrence::mode_words_parse(mode);
        }
    }
    assert(yaml::without(e1, "recurrence_from"@) == e2);
    assert(frontmatter::optional_date(e2, "last_completed_date"@) == Ok::<
        Option<Date>,
        ErrorModel,
    >(task.last_completed_date)) by {
        if let Some(date) = task.last_completed_date {
            recurrence::written_dates_are_read_back(date, "last_completed_date"@);
        }
    }
    assert(yaml::without(e2, "last_completed_date"@) == task.extra_properties);
}

/// The properties that a task's record is written with, beside those that are not the task's own,
/// make the task that was written: with its IDs in capitals, and its projects and tags in order.
pub proof fn written_properties_make_the_task(task: TaskModel, config: ConfigModel)
    requires
        task.well_formed(),
        task.check(config) is Ok,
        frontmatter::check_extras(
            task.extra_properties,
            frontmatter::task_keys(config.schema_version),
        ) is Ok,
    ensures
        frontmatter::task_from(
            task.id,
            task.path,
            (DocumentModel {
                properties: task.entries(config) + task.extra_properties,
                body: task.body,
            }),
            config,
        ) == Ok::<TaskModel, ErrorModel>(task.settled()),
{
    let slots = task.slots(config);
    let extras = task.extra_properties;
    lemma_task_keys(task, config);
    lemma_task_extras(task, config);
    assert forall|i: int| 0 <= i < slots.len() implies (#[trigger] slots[i]).0 != "id"@ by {
        reveal_strlit("id");
        reveal_strlit("url");
        assert(slots[i].0.len() > 2) by {
            lemma_long_keys(task, config, i);
        }
    }
    lemma_other_key(slots, "id"@, extras);
    assert(task.entries(config) + extras == tail(task, config, 0)) by {
        reveal(tail);
    }
    lemma_task_slot(task, config, 0);
    lemma_task_slot(task, config, 1);
    lemma_task_slot(task, config, 2);
    lemma_task_slot(task, config, 3);
    let projects = text::sorted(task.projects);
    let tags = text::sorted(task.tags);
    let links = frontmatter::links(projects, config);
    lemma_item_texts(links, 0, "projects"@);
    assert(links.take(0) =~= Seq::<Seq<char>>::empty());
    lemma_item_texts(tags, 0, "tags"@);
    assert(tags.take(0) =~= Seq::<Seq<char>>::empty());
    lemma_sorted_checks(task.projects);
    lemma_slugs(projects, 0);
    lemma_projects(projects, 0, config);
    assert(projects.take(0) =~= Seq::<Seq<char>>::empty());
    lemma_task_options(task, config);
    lemma_settled(task, config);
}

/// The keys of a task are longer than that of an ID.
proof fn lemma_long_keys(task: TaskModel, config: ConfigModel, i: int)
    requires
        0 <= i < 11,
    ensures
        task.slots(config)[i].0.len() > 2,
{
    reveal_strlit("name");
    reveal_strlit("state");
    reveal_strlit("projects");
    reveal_strlit("tags");
    reveal_strlit("parent");
    reveal_strlit("url");
    reveal_strlit("due_date");
    reveal_strlit("due_time");
    reveal_strlit("recurrence");
    reveal_strlit("recurrence_from");
    reveal_strlit("last_completed_date");
    assert(i == 0 || i == 1 || i == 2 || i == 3 || i == 4 || i == 5 || i == 6 || i == 7 || i == 8 || i
        == 9 || i == 10);
}

/// The line of a text or of a word.
proof fn lemma_line_text(key: Seq<char>, value: Option<Seq<char>>)
    ensures
        slot_text(text_slot(key, value)) == frontmatter::opt_line(
            key + ": "@,
            frontmatter::quoted_opt(value),
        ),
        slot_text(word_slot(key, value)) == frontmatter::opt_line(key + ": "@, value),
{
    reveal_strlit("\n");
    assert("\n"@ =~= seq!['\n']);
    if let Some(value) = value {
        lemma_lines_text_one(key + ": "@ + yaml::json_string(value));
        lemma_lines_text_one(key + ": "@ + value);
    }
}

proof fn lemma_items_text(items: Seq<Seq<char>>)
    ensures
        yaml::lines_text(items.map_values(|item: Seq<char>| "  - "@ + yaml::json_string(item)))
            == frontmatter::items_text(items),
    decreases items.len(),
{
    reveal_strlit("\n");
    assert("\n"@ =~= seq!['\n']);
    let lines = items.map_values(|item: Seq<char>| "  - "@ + yaml::json_string(item));
    if items.len() > 0 {
        lemma_items_text(items.drop_last());
        assert(lines.drop_last() =~= items.drop_last().map_values(
            |item: Seq<char>| "  - "@ + yaml::json_string(item),
        ));
        assert(lines.last() == "  - "@ + yaml::json_string(items.last()));
        assert(yaml::lines_text(lines) =~= frontmatter::items_text(items));
    }
}

/// The lines of a list.
proof fn lemma_list_text(key: Seq<char>, items: Seq<Seq<char>>)
    ensures
        slot_text(list_slot(key, items)) == key + ":"@ + frontmatter::list_text(items),
{
    reveal_strlit("\n");
    reveal_strlit(":");
    reveal_strlit(": []");
    reveal_strlit(" []\n");
    if items.len() == 0 {
        lemma_lines_text_one(key + ": []"@);
        assert(key + ": []"@ + seq!['\n'] =~= key + ":"@ + " []\n"@);
    } else {
        let rest = items.map_values(|item: Seq<char>| "  - "@ + yaml::json_string(item));
        lemma_lines_text_add(seq![key + ":"@], rest);
        lemma_lines_text_one(key + ":"@);
        lemma_items_text(items);
        assert((key + ":"@ + seq!['\n']) + frontmatter::items_text(items) =~= key + ":"@ + ("\n"@
            + frontmatter::items_text(items)));
    }
}

/// The front matter of a task's record is the text of its properties.
proof fn lemma_task_text(task: TaskModel, config: ConfigModel)
    ensures
        task.required_lines(config) + task.optional_lines() == "---\n"@ + yaml::properties_text(
            present(task.slots(config), 0),
        ),
{
    lemma_required_heads();
    lemma_required_text(task, config);
    lemma_optional_text(task, config);
    lemma_task_sum(
        yaml::json_string(task.name),
        frontmatter::state_text(task.state),
        frontmatter::list_text(frontmatter::links(text::sorted(task.projects), config)),
        frontmatter::list_text(text::sorted(task.tags)),
        task.optional_lines(),
    );
}

/// How the lines of the properties that every task has begin.
proof fn lemma_required_heads()
    ensures
        "---\nname: "@ == "---\n"@ + "name"@ + ": "@,
        "\nstate: "@ == "\n"@ + "state"@ + ": "@,
        "\nprojects:"@ == "\n"@ + "projects"@ + ":"@,
        "tags:"@ == "tags"@ + ":"@,
{
    reveal_strlit("---\nname: ");
    reveal_strlit("---\n");
    reveal_strlit("name");
    reveal_strlit(": ");
    reveal_strlit("\nstate: ");
    reveal_strlit("\n");
    reveal_strlit("state");
    reveal_strlit("\nprojects:");
    reveal_strlit("projects");
    reveal_strlit(":");
    reveal_strlit("tags:");
    reveal_strlit("tags");
    assert("---\nname: "@ =~= "---\n"@ + "name"@ + ": "@);
    assert("\nstate: "@ =~= "\n"@ + "state"@ + ": "@);
    assert("\nprojects:"@ =~= "\n"@ + "projects"@ + ":"@);
    assert("tags:"@ =~= "tags"@ + ":"@);
}

/// The text of the properties that every task has, before that of the others.
proof fn lemma_required_text(task: TaskModel, config: ConfigModel)
    ensures
        yaml::properties_text(present(task.slots(config), 0)) == ("name"@ + ": "@
            + yaml::json_string(task.name) + "\n"@) + (("state"@ + ": "@ + frontmatter::state_text(
            task.state,
        ) + "\n"@) + (("projects"@ + ":"@ + frontmatter::list_text(
            frontmatter::links(text::sorted(task.projects), config),
        )) + (("tags"@ + ":"@ + frontmatter::list_text(text::sorted(task.tags)))
            + yaml::properties_text(present(task.slots(config), 4))))),
{
    let slots = task.slots(config);
    lemma_slot_text(slots, 0);
    lemma_slot_text(slots, 1);
    lemma_slot_text(slots, 2);
    lemma_slot_text(slots, 3);
    lemma_line_text("name"@, Some(task.name));
    lemma_line_text("state"@, Some(task.state));
    lemma_list_text("projects"@, frontmatter::links(text::sorted(task.projects), config));
    lemma_list_text("tags"@, text::sorted(task.tags));
    assert(slot_text(slots[0]) == "name"@ + ": "@ + yaml::json_string(task.name) + "\n"@);
    assert(slot_text(slots[1]) == "state"@ + ": "@ + frontmatter::state_text(task.state) + "\n"@);
}

/// The same pieces, joined in two ways.
proof fn lemma_task_sum(
    name: Seq<char>,
    state: Seq<char>,
    a: Seq<char>,
    b: Seq<char>,
    rest: Seq<char>,
)
    ensures
        (("---\n"@ + "name"@ + ": "@) + name + ("\n"@ + "state"@ + ": "@) + state + ("\n"@
            + "projects"@ + ":"@) + a + ("tags"@ + ":"@) + b) + rest == "---\n"@ + (("name"@ + ": "@
            + name + "\n"@) + (("state"@ + ": "@ + state + "\n"@) + (("projects"@ + ":"@ + a) + ((
        "tags"@ + ":"@ + b) + rest)))),
{
    assert((("---\n"@ + "name"@ + ": "@) + name + ("\n"@ + "state"@ + ": "@) + state + ("\n"@
        + "projects"@ + ":"@) + a + ("tags"@ + ":"@) + b) + rest =~= "---\n"@ + (("name"@ + ": "@
        + name + "\n"@) + (("state"@ + ": "@ + state + "\n"@) + (("projects"@ + ":"@ + a) + ((
    "tags"@ + ":"@ + b) + rest)))));
}

/// The optional lines of a task's record are the text of its optional properties.
proof fn lemma_optional_text(task: TaskModel, config: ConfigModel)
    ensures
        task.optional_lines() == yaml::properties_text(present(task.slots(config), 4)),
{
    let slots = task.slots(config);
    lemma_slot_text(slots, 4);
    lemma_slot_text(slots, 5);
    lemma_slot_text(slots, 6);
    lemma_slot_text(slots, 7);
    lemma_slot_text(slots, 8);
    lemma_slot_text(slots, 9);
    lemma_slot_text(slots, 10);
    lemma_line_text("parent"@, frontmatter::upper_opt(task.parent));
    lemma_line_text("url"@, task.url);
    lemma_line_text("due_date"@, frontmatter::date_opt(task.due_date));
    lemma_line_text("due_time"@, frontmatter::time_opt(task.due_time));
    lemma_line_text("recurrence"@, frontmatter::rule_opt(task.recurrence));
    lemma_line_text("recurrence_from"@, frontmatter::mode_opt(task.recurrence_from));
    lemma_line_text("last_completed_date"@, frontmatter::date_opt(task.last_completed_date));
    lemma_option_keys();
    assert(yaml::properties_text(present(slots, 11)) =~= Seq::<char>::empty());
    lemma_sum(
        slot_text(slots[4]),
        slot_text(slots[5]),
        slot_text(slots[6]),
        slot_text(slots[7]),
        slot_text(slots[8]),
        slot_text(slots[9]),
        slot_text(slots[10]),
    );
}

proof fn lemma_option_keys()
    ensures
        "parent: "@ == "parent"@ + ": "@,
        "url: "@ == "url"@ + ": "@,
        "due_date: "@ == "due_date"@ + ": "@,
        "due_time: "@ == "due_time"@ + ": "@,
        "recurrence: "@ == "recurrence"@ + ": "@,
        "recurrence_from: "@ == "recurrence_from"@ + ": "@,
        "last_completed_date: "@ == "last_completed_date"@ + ": "@,
{
    reveal_strlit(": ");
    reveal_strlit("parent: ");
    reveal_strlit("parent");
    reveal_strlit("url: ");
    reveal_strlit("url");
    reveal_strlit("due_date: ");
    reveal_strlit("due_date");
    reveal_strlit("due_time: ");
    reveal_strlit("due_time");
    reveal_strlit("recurrence: ");
    reveal_strlit("recurrence");
    reveal_strlit("recurrence_from: ");
    reveal_strlit("recurrence_from");
    reveal_strlit("last_completed_date: ");
    reveal_strlit("last_completed_date");
    assert("parent: "@ =~= "parent"@ + ": "@);
    assert("url: "@ =~= "url"@ + ": "@);
    assert("due_date: "@ =~= "due_date"@ + ": "@);
    assert("due_time: "@ =~= "due_time"@ + ": "@);
    assert("recurrence: "@ =~= "recurrence"@ + ": "@);
    assert("recurrence_from: "@ =~= "recurrence_from"@ + ": "@);
    assert("last_completed_date: "@ =~= "last_completed_date"@ + ": "@);
}

/// The same pieces, joined in two ways.
proof fn lemma_sum(
    a: Seq<char>,
    b: Seq<char>,
    c: Seq<char>,
    d: Seq<char>,
    e: Seq<char>,
    f: Seq<char>,
    g: Seq<char>,
)
    ensures
        a + b + c + d + e + f + g == a + (b + (c + (d + (e + (f + (g + Seq::<char>::empty())))))),
{
    assert(a + b + c + d + e + f + g =~= a + (b + (c + (d + (e + (f + (g
        + Seq::<char>::empty())))))));
}

proof fn lemma_legible_add(a: Seq<char>, b: Seq<char>)
    requires
        yaml::legible(a),
        yaml::legible(b),
    ensures
        yaml::legible(a + b),
{
    let s = a + b;
    assert forall|i: int| 0 <= i < s.len() implies yaml::legible_char(#[trigger] s[i]) by {
        if i < a.len() {
            assert(s[i] == a[i]);
        } else {
            assert(s[i] == b[i - a.len()]);
        }
    }
}

proof fn lemma_legible_joined(items: Seq<Seq<char>>)
    requires
        forall|i: int| 0 <= i < items.len() ==> yaml::legible(#[trigger] items[i]),
    ensures
        yaml::legible(text::joined(items, ","@)),
    decreases items.len(),
{
    reveal_strlit(",");
    if items.len() == 1 {
        assert(yaml::legible(items[0]));
    } else if items.len() > 1 {
        text::lemma_joined_first(items, ","@);
        let rest = items.drop_first();
        assert forall|i: int| 0 <= i < rest.len() implies yaml::legible(#[trigger] rest[i]) by {
            assert(rest[i] == items[i + 1]);
        }
        lemma_legible_joined(rest);
        assert(yaml::legible(items[0]));
        lemma_legible_add(items[0], ","@);
        lemma_legible_add(items[0] + ","@, text::joined(rest, ","@));
    }
}

proof fn lemma_legible_number(n: nat)
    ensures
        yaml::legible(text::decimal(n)),
{
    text::lemma_decimal(n);
    let s = text::decimal(n);
    assert forall|i: int| 0 <= i < s.len() implies yaml::legible_char(#[trigger] s[i]) by {
        assert(text::is_digit(s[i]));
    }
}

proof fn lemma_legible_clause(name: Seq<char>, items: Seq<Seq<char>>)
    requires
        yaml::legible(name),
        forall|i: int| 0 <= i < items.len() ==> yaml::legible(#[trigger] items[i]),
    ensures
        yaml::legible(recurrence::list_clause(name, items)),
{
    reveal_strlit(";");
    reveal_strlit("=");
    lemma_legible_joined(items);
    lemma_legible_add(";"@, name);
    lemma_legible_add(";"@ + name, "="@);
    lemma_legible_add(";"@ + name + "="@, text::joined(items, ","@));
}

/// A rule is written in legible characters.
proof fn lemma_legible_rule(rule: RuleModel)
    ensures
        yaml::legible(recurrence::rule_text(rule)),
{
    reveal_strlit("FREQ=");
    reveal_strlit(";INTERVAL=");
    reveal_strlit("BYDAY");
    reveal_strlit("BYMONTHDAY");
    reveal_strlit("BYMONTH");
    reveal_strlit("DAILY");
    reveal_strlit("WEEKLY");
    reveal_strlit("MONTHLY");
    reveal_strlit("YEARLY");
    let word = recurrence::frequency_word(rule.frequency);
    let days = recurrence::day_texts(rule.by_day);
    let month_days = recurrence::number_texts(rule.by_month_day);
    let months = recurrence::number_texts(rule.by_month);
    let number = text::decimal(rule.interval as nat);
    lemma_legible_number(rule.interval as nat);
    assert forall|i: int| 0 <= i < days.len() implies yaml::legible(#[trigger] days[i]) by {
        reveal_strlit("MO");
        reveal_strlit("TU");
        reveal_strlit("WE");
        reveal_strlit("TH");
        reveal_strlit("FR");
        reveal_strlit("SA");
        reveal_strlit("SU");
        assert(days[i] == recurrence::weekday_letters(rule.by_day[i]));
    }
    assert forall|i: int| 0 <= i < month_days.len() implies yaml::legible(
        #[trigger] month_days[i],
    ) by {
        lemma_legible_number(rule.by_month_day[i] as nat);
    }
    assert forall|i: int| 0 <= i < months.len() implies yaml::legible(#[trigger] months[i]) by {
        lemma_legible_number(rule.by_month[i] as nat);
    }
    lemma_legible_clause("BYDAY"@, days);
    lemma_legible_clause("BYMONTHDAY"@, month_days);
    lemma_legible_clause("BYMONTH"@, months);
    let s1 = "FREQ="@ + word;
    let s2 = s1 + ";INTERVAL="@;
    let s3 = s2 + number;
    let s4 = s3 + recurrence::list_clause("BYDAY"@, days);
    let s5 = s4 + recurrence::list_clause("BYMONTHDAY"@, month_days);
    lemma_legible_add("FREQ="@, word);
    lemma_legible_add(s1, ";INTERVAL="@);
    lemma_legible_add(s2, number);
    lemma_legible_add(s3, recurrence::list_clause("BYDAY"@, days));
    lemma_legible_add(s4, recurrence::list_clause("BYMONTHDAY"@, month_days));
    lemma_legible_add(s5, recurrence::list_clause("BYMONTH"@, months));
}

/// An ID is written in legible characters.
proof fn lemma_legible_id(id: Seq<char>)
    requires
        model::task_id(id),
    ensures
        yaml::legible(text::upper(id)),
{
    model::lemma_upper_ulid(id);
    let u = text::upper(id);
    assert forall|i: int| 0 <= i < u.len() implies yaml::legible_char(#[trigger] u[i]) by {
        assert(model::ulid_char(u[i]));
    }
}

/// Links to projects are legible where what stands before the slugs is.
proof fn lemma_legible_links(slugs: Seq<Seq<char>>, config: ConfigModel)
    requires
        yaml::legible(config.link_target_prefix()),
        forall|k: int| 0 <= k < slugs.len() ==> model::slug(#[trigger] slugs[k]),
    ensures
        forall|k: int|
            0 <= k < slugs.len() ==> yaml::legible(#[trigger] frontmatter::links(slugs, config)[k]),
{
    reveal_strlit("[[");
    reveal_strlit("]]");
    let links = frontmatter::links(slugs, config);
    let prefix = config.link_target_prefix();
    assert forall|k: int| 0 <= k < slugs.len() implies yaml::legible(#[trigger] links[k]) by {
        assert(links[k] == config.link(slugs[k]));
        let slug = slugs[k];
        assert(model::slug(slug));
        assert(yaml::legible(slug)) by {
            assert forall|i: int| 0 <= i < slug.len() implies yaml::legible_char(
                #[trigger] slug[i],
            ) by {
                assert(text::is_lower(slug[i]) || text::is_digit(slug[i]) || slug[i] == '-');
            }
        }
        lemma_legible_add("[["@, prefix);
        lemma_legible_add("[["@ + prefix, slug);
        lemma_legible_add("[["@ + prefix + slug, "]]"@);
    }
}

/// A date is written as a word that YAML reads as a text.
proof fn lemma_date_word(date: Date)
    requires
        date.valid(),
        recurrence::writable(date),
    ensures
        yaml::bare_word(calendar::date_text(date.y(), date.m(), date.d())),
{
    let s = calendar::date_text(date.y(), date.m(), date.d());
    let (y, m, d) = (date.y(), date.m(), date.d());
    assert(s =~= calendar::two_digits(y / 100) + calendar::two_digits(y % 100) + seq!['-']
        + calendar::two_digits(m) + seq!['-'] + calendar::two_digits(d));
    assert(s.len() == 10);
    assert(s[0] == calendar::digit(y / 100 / 10 % 10));
    assert(s[1] == calendar::digit(y / 100 % 10));
    assert(s[2] == calendar::digit(y % 100 / 10 % 10));
    assert(s[3] == calendar::digit(y % 100 % 10));
    assert(s[5] == calendar::digit(m / 10 % 10));
    assert(s[6] == calendar::digit(m % 10));
    assert(s[8] == calendar::digit(d / 10 % 10));
    assert(s[9] == calendar::digit(d % 10));
}

/// The properties of a legible task are plain.
proof fn lemma_task_plain(task: TaskModel, config: ConfigModel)
    requires
        task.well_formed(),
        task.check(config) is Ok,
        task.legible(config),
    ensures
        yaml::plain_properties(present(task.slots(config), 0)),
{
    let slots = task.slots(config);
    lemma_task_keys(task, config);
    let projects = text::sorted(task.projects);
    let tags = text::sorted(task.tags);
    lemma_sorted_checks(task.projects);
    lemma_slugs(projects, 0);
    lemma_sorted_same_texts(task.projects);
    lemma_sorted_same_texts(task.tags);
    assert(slots[1].1->0.plain()) by {
        assert(yaml::key_word(slots[1].0));
        let state = task.state;
        if frontmatter::ambiguous_word(state) {
            assert forall|i: int| 0 <= i < state.len() implies yaml::legible_char(
                #[trigger] state[i],
            ) by {
                assert(text::is_lower(state[i]) || text::is_digit(state[i]) || state[i] == '_'
                    || state[i] == '-');
            }
        } else {
            assert forall|i: int| 0 <= i < state.len() implies 'a' <= #[trigger] state[i] <= 'z'
                || yaml::word_digit(state[i]) || state[i] == '_' || state[i] == '-' by {
                assert(text::is_lower(state[i]) || text::is_digit(state[i]) || state[i] == '_'
                    || state[i] == '-');
            }
        }
    }
    assert(slots[2].1->0.plain()) by {
        assert(yaml::key_word(slots[2].0));
        if task.projects.len() > 0 {
            lemma_legible_links(projects, config);
        }
    }
    assert(slots[3].1->0.plain()) by {
        assert(yaml::key_word(slots[3].0));
        assert forall|i: int| 0 <= i < tags.len() implies yaml::legible(#[trigger] tags[i]) by {
            assert(task.tags.contains(tags[i]));
        }
    }
    if let Some(parent) = task.parent {
        lemma_legible_id(parent);
    }
    if let Some(date) = task.due_date {
        lemma_date_word(date);
    }
    if let Some(date) = task.last_completed_date {
        lemma_date_word(date);
    }
    if let Some(time) = task.due_time {
        lemma_legible_time(time);
    }
    if let Some(rule) = task.recurrence {
        lemma_legible_rule(rule);
    }
    if let Some(mode) = task.recurrence_from {
        lemma_mode_word(mode);
    }
    assert forall|i: int| 0 <= i < slots.len() implies ((#[trigger] slots[i]).1 matches Some(p)
        ==> p.plain()) by {
        assert(yaml::key_word(slots[i].0));
        assert(i == 0 || i == 1 || i == 2 || i == 3 || i == 4 || i == 5 || i == 6 || i == 7 || i == 8
            || i == 9 || i == 10);
    }
    lemma_plain(slots);
}

proof fn lemma_legible_time(time: Time)
    requires
        time.valid(),
    ensures
        yaml::legible(calendar::time_text(time.h(), time.min())),
{
    let s = calendar::time_text(time.h(), time.min());
    assert(s =~= seq![
        calendar::digit(time.h() / 10 % 10),
        calendar::digit(time.h() % 10),
        ':',
        calendar::digit(time.min() / 10 % 10),
        calendar::digit(time.min() % 10),
    ]);
}

proof fn lemma_mode_word(mode: RecurrenceMode)
    ensures
        yaml::bare_word(recurrence::mode_word(mode)),
{
    reveal_strlit("schedule");
    reveal_strlit("completion");
    reveal_strlit("null");
    reveal_strlit("true");
    reveal_strlit("false");
}

/// Whether the text that properties beside a record's own are written as is read back, and is laid
/// out in lines, as far as YAML's writer promises it.
pub open spec fn writes_extras(extras: Seq<(YamlTree, YamlTree)>) -> bool {
    yaml::gives_back(yaml::yaml_text(extras), extras) && yaml::lays_out(
        yaml::yaml_text(extras),
        extras,
    )
}

/// Whether properties beside a record's own are made of lines.
pub open spec fn lined_extras(extras: Seq<(YamlTree, YamlTree)>) -> bool {
    extras.len() == 0 || yaml::lined_entries(extras, 64)
}

/// Whether such properties are scalars and lists of scalars whose texts are scannable.
pub open spec fn scannable_extras(extras: Seq<(YamlTree, YamlTree)>) -> bool {
    forall|i: int|
        0 <= i < extras.len() ==> scannable_key((#[trigger] extras[i]).0) && scannable_value(
            extras[i].1,
        )
}

/// Whether front matter is taken apart from the body behind it, and the scan accepts it.
pub open spec fn accepted(front: Seq<char>, body: Seq<char>) -> bool {
    &&& frontmatter::parts("---\n"@ + front + "---\n"@ + body) == Ok::<
        (Seq<char>, Seq<char>),
        ErrorModel,
    >((front, body))
    &&& scan::scan(front) is Ok
}

/// Whether the task is what is read from a record under its ID and path that it was written to:
/// where its texts are legible, the properties beside its own are made of lines, and these are
/// scannable or else the front matter is accepted.
pub open spec fn recalled(
    task: TaskModel,
    config: ConfigModel,
    bytes: Seq<u8>,
    outcome: Result<TaskModel, ErrorModel>,
) -> bool {
    task.well_formed() && task.legible(config) && lined_extras(task.extra_properties)
        && writes_extras(task.extra_properties) && (scannable_extras(task.extra_properties)
        || accepted(front_matter(task, config), task.body)) && task.serialized(config) == Ok::<
        Seq<u8>,
        ErrorModel,
    >(bytes) ==> outcome == Ok::<TaskModel, ErrorModel>(task.settled())
}

/// What is made of lines is so at any depth.
proof fn lemma_lined(tree: YamlTree, depth: nat)
    requires
        yaml::lined(tree, depth),
        yaml::scalar(tree),
    ensures
        yaml::lined(tree, 0),
{
}

/// The lines of an entry can stand in front matter.
proof fn lemma_entry_lines(lines: Seq<Seq<char>>, entry: (YamlTree, YamlTree))
    requires
        yaml::entry_lines(lines, entry),
        scannable_key(entry.0),
        scannable_value(entry.1),
        yaml::line_key(entry.0),
        yaml::lined(entry.1, 64),
    ensures
        forall|k: int| 0 <= k < lines.len() ==> good_line(#[trigger] lines[k]),
{
    let key = choose|key: Seq<char>| #[trigger]
        yaml::spelled(key, entry.0) && yaml::value_lines(lines, key, entry.1);
    if let YamlTree::List(items) = entry.1 {
        lemma_any_list_heads(key, entry.0);
        assert forall|k: int| 0 <= k < lines.len() implies good_line(#[trigger] lines[k]) by {
            if k > 0 {
                let item = items[k - 1];
                assert(yaml::item_line(lines[k - 1 + 1], item));
                let w = choose|w: Seq<char>| #[trigger]
                    yaml::spelled(w, item) && lines[k] == "- "@ + w;
                assert(yaml::lined(item, 63));
                lemma_lined(item, 63);
                lemma_any_item_line(w, item);
            }
        }
    } else {
        let w = choose|w: Seq<char>| #[trigger]
            yaml::spelled(w, entry.1) && lines == seq![key + ": "@ + w];
        lemma_lined(entry.1, 64);
        lemma_scalar_line(key, entry.0, w, entry.1);
    }
}

/// All lines of blocks can stand in front matter where those of each block can.
proof fn lemma_gathered(blocks: Seq<Seq<Seq<char>>>)
    requires
        forall|i: int, k: int|
            0 <= i < blocks.len() && 0 <= k < blocks[i].len() ==> good_line(#[trigger] blocks[i][k]),
    ensures
        forall|k: int|
            0 <= k < yaml::gathered(blocks).len() ==> good_line(
                #[trigger] yaml::gathered(blocks)[k],
            ),
    decreases blocks.len(),
{
    if blocks.len() > 0 {
        let rest = blocks.drop_last();
        assert forall|i: int, k: int| 0 <= i < rest.len() && 0 <= k < rest[i].len() implies good_line(
            #[trigger] rest[i][k],
        ) by {
            assert(good_line(blocks[i][k]));
        }
        lemma_gathered(rest);
        let a = yaml::gathered(rest);
        let b = blocks.last();
        let all = a + b;
        assert forall|k: int| 0 <= k < all.len() implies good_line(#[trigger] all[k]) by {
            if k < a.len() {
                assert(all[k] == a[k]);
            } else {
                assert(all[k] == blocks[blocks.len() - 1][k - a.len()]);
            }
        }
    }
}

/// The lines of entries, all of which can stand in front matter.
proof fn lemma_laid_out(s: Seq<char>, entries: Seq<(YamlTree, YamlTree)>) -> (lines: Seq<Seq<char>>)
    requires
        yaml::laid_out(s, entries),
        scannable_extras(entries),
        yaml::lined_entries(entries, 64),
    ensures
        s == yaml::lines_text(lines),
        forall|k: int| 0 <= k < lines.len() ==> good_line(#[trigger] lines[k]),
{
    let blocks = choose|blocks: Seq<Seq<Seq<char>>>| #[trigger]
        yaml::blocks_of(blocks, entries) && s == yaml::lines_text(yaml::gathered(blocks));
    assert forall|i: int, k: int| 0 <= i < blocks.len() && 0 <= k < blocks[i].len() implies good_line(
        #[trigger] blocks[i][k],
    ) by {
        assert(yaml::entry_lines(blocks[i], entries[i]));
        assert(yaml::line_key(entries[i].0) && yaml::lined(entries[i].1, 64));
        lemma_entry_lines(blocks[i], entries[i]);
    }
    lemma_gathered(blocks);
    yaml::gathered(blocks)
}

/// Front matter of plain properties and scannable ones beside them is accepted.
proof fn lemma_accepted(
    own: Seq<Property>,
    extras: Seq<(YamlTree, YamlTree)>,
    body: Seq<char>,
)
    requires
        yaml::plain_properties(own),
        extras.len() > 0,
        lined_extras(extras),
        writes_extras(extras),
        scannable_extras(extras),
        frontmatter::check_conflicts(text::lines(body), 0) is Ok,
    ensures
        accepted(yaml::properties_text(own) + yaml::yaml_text(extras)->Ok_0, body),
{
    assert forall|i: int| 0 <= i < extras.len() implies yaml::flat((#[trigger] extras[i]).1) by {
        assert(scannable_value(extras[i].1));
        if let YamlTree::List(items) = extras[i].1 {
            assert forall|k: int| 0 <= k < items.len() implies yaml::scalar(#[trigger] items[k]) by {
                assert(scannable_scalar(items[k]));
            }
        }
    }
    let written = yaml::yaml_text(extras)->Ok_0;
    let more = lemma_laid_out(written, extras);
    let first = yaml::property_lines(own);
    lemma_property_lines(own);
    let all = first + more;
    assert forall|k: int| 0 <= k < all.len() implies good_line(#[trigger] all[k]) by {
        if k < first.len() {
            assert(all[k] == first[k]);
        } else {
            assert(all[k] == more[k - first.len()]);
        }
    }
    lemma_lines_text_add(first, more);
    lemma_parts(all, body);
    lemma_scan_text(all);
}

/// What is written of properties and of those beside them is read back as both.
proof fn lemma_extras_read(own: Seq<Property>, extras: Seq<(YamlTree, YamlTree)>)
    requires
        yaml::plain_properties(own),
        extras.len() > 0,
        lined_extras(extras),
        writes_extras(extras),
        forall|i: int| 0 <= i < own.len() ==> lacks(extras, (#[trigger] own[i]).key()),
    ensures
        yaml::yaml_text(extras) is Ok,
        yaml::yaml_outcome(yaml::properties_text(own) + yaml::yaml_text(extras)->Ok_0) == Ok::<
            YamlTree,
            (Seq<char>, Option<(usize, usize)>),
        >(YamlTree::Table(yaml::property_entries(own) + extras)),
{
    assert(yaml::apart(own, extras)) by {
        assert forall|i: int, j: int|
            0 <= i < own.len() && 0 <= j < extras.len() implies YamlTree::Text(
            (#[trigger] own[i]).key(),
        ) != (#[trigger] extras[j]).0 by {
            assert(lacks(extras, own[i].key()));
        }
    }
}

/// Properties beside a task's own have none of the keys that its record has.
proof fn lemma_own_keys(task: TaskModel, config: ConfigModel)
    requires
        task.check(config) is Ok,
        frontmatter::check_extras(
            task.extra_properties,
            frontmatter::task_keys(config.schema_version),
        ) is Ok,
    ensures
        forall|i: int|
            0 <= i < present(task.slots(config), 0).len() ==> lacks(
                task.extra_properties,
                (#[trigger] present(task.slots(config), 0)[i]).key(),
            ),
{
    let slots = task.slots(config);
    let own = present(slots, 0);
    lemma_task_keys(task, config);
    lemma_task_extras(task, config);
    lemma_present(slots, 0);
    assert forall|i: int| 0 <= i < own.len() implies lacks(
        task.extra_properties,
        (#[trigger] own[i]).key(),
    ) by {
        let j = choose|j: int| 0 <= j < slots.len() && (#[trigger] slots[j]).1 == Some(own[i]);
        assert(slots[j].0 == own[i].key());
        if j == 4 {
            assert(task.parent is Some);
            assert(config.schema_version == 2);
        }
    }
}

/// A task is read back from the record that it was written to, where records hold the properties
/// that they were made of, with all properties beside its own: with its IDs in capitals, and its
/// projects and tags in order. Its texts are legible; the properties beside its own are made of
/// lines; and they are scannable, or else the scan accepts the front matter.
pub proof fn written_tasks_are_read_back(task: TaskModel, config: ConfigModel, bytes: Seq<u8>)
    ensures
        holds_properties(bytes, frontmatter::document_of(bytes)) ==> recalled(
            task,
            config,
            bytes,
            frontmatter::task_of(task.id, task.path, bytes, config),
        ),
{
    let extras = task.extra_properties;
    if task.well_formed() && task.legible(config) && lined_extras(extras) && writes_extras(extras)
        && (scannable_extras(extras) || accepted(front_matter(task, config), task.body))
        && task.serialized(config) == Ok::<Seq<u8>, ErrorModel>(bytes) {
        let own = present(task.slots(config), 0);
        lemma_task_record(task, config, bytes);
        lemma_task_plain(task, config);
        let front = front_matter(task, config);
        if extras.len() == 0 {
            assert(front =~= yaml::properties_text(own));
            assert(bytes == vstd::utf8::encode_utf8(record_text(own, task.body)));
            assert(task.entries(config) + extras =~= task.entries(config));
            written_properties_make_the_task(task, config);
        } else {
            lemma_own_keys(task, config);
            lemma_extras_read(own, extras);
            if scannable_extras(extras) {
                lemma_accepted(own, extras, task.body);
            }
            records_give_every_property_back(task, config, bytes);
        }
    }
}

/// The front matter of a task's record.
pub open spec fn front_matter(task: TaskModel, config: ConfigModel) -> Seq<char> {
    yaml::properties_text(present(task.slots(config), 0)) + frontmatter::extras_text(
        task.extra_properties,
    )->Ok_0
}

/// Whether the front matter of a task's record is taken apart from its body, passes the scan, and
/// is read as the properties that were written, all of which can be kept.
pub open spec fn read_as_written(task: TaskModel, config: ConfigModel) -> bool {
    let front = front_matter(task, config);
    let entries = task.entries(config) + task.extra_properties;
    &&& accepted(front, task.body)
    &&& yaml::yaml_outcome(front) == Ok::<YamlTree, (Seq<char>, Option<(usize, usize)>)>(
        YamlTree::Table(entries),
    )
    &&& frontmatter::check_mapping(entries) is Ok
}

/// A task comes back from the record that it was written to, with all its properties and its
/// body, whatever they are, where the front matter is read as it was written.
pub proof fn records_give_every_property_back(task: TaskModel, config: ConfigModel, bytes: Seq<u8>)
    ensures
        task.well_formed() && task.serialized(config) == Ok::<Seq<u8>, ErrorModel>(bytes)
            && read_as_written(task, config) ==> frontmatter::task_of(
            task.id,
            task.path,
            bytes,
            config,
        ) == Ok::<TaskModel, ErrorModel>(task.settled()),
{
    if task.well_formed() && task.serialized(config) == Ok::<Seq<u8>, ErrorModel>(bytes)
        && read_as_written(task, config) {
        let front = front_matter(task, config);
        let entries = task.entries(config) + task.extra_properties;
        lemma_task_record(task, config, bytes);
        lemma_read(front, task.body, entries);
        written_properties_make_the_task(task, config);
    }
}

/// What the record of a task is.
#[verifier::spinoff_prover]
proof fn lemma_task_record(task: TaskModel, config: ConfigModel, bytes: Seq<u8>)
    requires
        task.serialized(config) == Ok::<Seq<u8>, ErrorModel>(bytes),
    ensures
        task.check(config) is Ok,
        frontmatter::check_extras(
            task.extra_properties,
            frontmatter::task_keys(config.schema_version),
        ) is Ok,
        frontmatter::check_conflicts(text::lines(task.body), 0) is Ok,
        bytes == vstd::utf8::encode_utf8(
            "---\n"@ + front_matter(task, config) + "---\n"@ + task.body,
        ),
        bytes.len() <= frontmatter::MAX_RECORD_BYTES,
{
    lemma_serialized(task, config, bytes);
    lemma_task_text(task, config);
    lemma_joined(
        "---\n"@,
        yaml::properties_text(present(task.slots(config), 0)),
        frontmatter::extras_text(task.extra_properties)->Ok_0,
    );
}

/// Texts are joined in any grouping.
proof fn lemma_joined(a: Seq<char>, b: Seq<char>, c: Seq<char>)
    ensures
        (a + b) + c == a + (b + c),
{
    assert((a + b) + c =~= a + (b + c));
}

/// What holds of a task that has a record, and the text of that record.
#[verifier::spinoff_prover]
proof fn lemma_serialized(task: TaskModel, config: ConfigModel, bytes: Seq<u8>)
    requires
        task.serialized(config) == Ok::<Seq<u8>, ErrorModel>(bytes),
    ensures
        task.check(config) is Ok,
        frontmatter::check_extras(
            task.extra_properties,
            frontmatter::task_keys(config.schema_version),
        ) is Ok,
        frontmatter::check_conflicts(text::lines(task.body), 0) is Ok,
        bytes == vstd::utf8::encode_utf8(
            task.required_lines(config) + task.optional_lines() + frontmatter::extras_text(
                task.extra_properties,
            )->Ok_0 + "---\n"@ + task.body,
        ),
        bytes.len() <= frontmatter::MAX_RECORD_BYTES,
{
}

/// A record is read as properties and a body where its front matter is.
proof fn lemma_read(front: Seq<char>, body: Seq<char>, entries: Seq<(YamlTree, YamlTree)>)
    requires
        frontmatter::parts("---\n"@ + front + "---\n"@ + body) == Ok::<
            (Seq<char>, Seq<char>),
            ErrorModel,
        >((front, body)),
        scan::scan(front) is Ok,
        yaml::yaml_outcome(front) == Ok::<YamlTree, (Seq<char>, Option<(usize, usize)>)>(
            YamlTree::Table(entries),
        ),
        frontmatter::check_mapping(entries) is Ok,
        vstd::utf8::encode_utf8("---\n"@ + front + "---\n"@ + body).len()
            <= frontmatter::MAX_RECORD_BYTES,
    ensures
        frontmatter::document_of(
            vstd::utf8::encode_utf8("---\n"@ + front + "---\n"@ + body),
        ) == Ok::<DocumentModel, ErrorModel>(DocumentModel { properties: entries, body }),
{
    reveal_strlit("---\n");
    let source = "---\n"@ + front + "---\n"@ + body;
    assert(source[0] == '-');
    lemma_source(source);
}

/// What is written as a record is decoded as it was, and has no byte order mark.
proof fn lemma_source(source: Seq<char>)
    requires
        source.len() > 0,
        source[0] == '-',
    ensures
        vstd::utf8::valid_utf8(vstd::utf8::encode_utf8(source)),
        vstd::utf8::decode_utf8(vstd::utf8::encode_utf8(source)) == source,
        vstd::utf8::encode_utf8(source)[0] != 0xEF,
{
    let bytes = vstd::utf8::encode_utf8(source);
    vstd::utf8::encode_utf8_valid_utf8(source);
    vstd::utf8::encode_utf8_decode_utf8(source);
    vstd::utf8::encode_utf8_first_scalar(source);
    assert(0x2Du32 & 0x7F == 0x2D) by (bit_vector);
    assert(bytes == vstd::utf8::encode_scalar(source[0] as u32) + vstd::utf8::encode_utf8(
        source.drop_first(),
    ));
}

/// The property that new tasks have beside their own is made of lines and scannable, where the
/// links of the store are one line whose whitespace are spaces.
pub proof fn new_tasks_have_scannable_extras(config: ConfigModel)
    requires
        config.obsidian_link_prefix.len() < 0x100000,
        yaml::one_line(config.obsidian_link_prefix),
        forall|i: int|
            0 <= i < config.obsidian_link_prefix.len() && text::is_whitespace(
                #[trigger] config.obsidian_link_prefix[i],
            ) ==> config.obsidian_link_prefix[i] == ' ',
    ensures
        lined_extras(yaml::with_text(seq![], "base"@, config.base_link())),
        scannable_extras(yaml::with_text(seq![], "base"@, config.base_link())),
{
    reveal_strlit("base");
    reveal_strlit("[[");
    reveal_strlit("]]");
    reveal_strlit("/");
    reveal_strlit("todos.base");
    let link = config.base_link();
    let prefix = config.obsidian_link_prefix;
    assert forall|i: int| 0 <= i < link.len() implies yaml::legible_char(#[trigger] link[i]) && ' '
        <= link[i] && link[i] != '\u{feff}' && (text::is_whitespace(link[i]) ==> link[i] == ' ') by {
        if prefix.len() > 0 && 2 <= i < 2 + prefix.len() {
            assert(link[i] == prefix[i - 2]);
            assert(yaml::legible_char(prefix[i - 2]));
        }
    }
    let key = "base"@;
    assert(text::byte_len(key) <= 128) by {
        reveal_with_fuel(text::byte_len, 5);
        assert(key.drop_last().drop_last().drop_last().drop_last() =~= Seq::<char>::empty());
    }
    assert(yaml::one_line(key));
    let entries = yaml::with_text(seq![], key, link);
    assert(entries =~= seq![(YamlTree::Text(key), YamlTree::Text(link))]);
}

/// Whether the project is what is read from a record under its slug and path that it was written
/// to: where its name is legible, the properties beside it are made of lines and not too many, and
/// these are scannable or else the front matter is accepted.
pub open spec fn project_recalled(
    project: ProjectModel,
    bytes: Seq<u8>,
    outcome: Result<ProjectModel, ErrorModel>,
) -> bool {
    yaml::legible(project.name) && lined_extras(project.extra_properties) && writes_extras(
        project.extra_properties,
    ) && (scannable_extras(project.extra_properties) || accepted(
        project_front_matter(project),
        project.body,
    )) && frontmatter::check_mapping(
        yaml::property_entries(seq![name_property(project)]) + project.extra_properties,
    ) is Ok && project.serialized() == Ok::<Seq<u8>, ErrorModel>(bytes) ==> outcome == Ok::<
        ProjectModel,
        ErrorModel,
    >(project)
}

/// The properties that a project's record is written with, beside those that are not the
/// project's own, make the project that was written.
pub proof fn written_properties_make_the_project(project: ProjectModel)
    requires
        model::check_name(project.name, "name"@) is Ok,
        frontmatter::check_extras(project.extra_properties, seq!["name"@]) is Ok,
    ensures
        frontmatter::project_from(
            project.slug,
            project.path,
            (DocumentModel {
                properties: seq![(YamlTree::Text("name"@), YamlTree::Text(project.name))]
                    + project.extra_properties,
                body: project.body,
            }),
        ) == Ok::<ProjectModel, ErrorModel>(project),
{
    let extras = project.extra_properties;
    let keys = seq!["name"@].push("id"@);
    lemma_reserved(extras, keys, 0);
    assert(lacks(extras, keys[0]) && lacks(extras, keys[1]));
    let all = seq![(YamlTree::Text("name"@), YamlTree::Text(project.name))] + extras;
    reveal_strlit("name");
    reveal_strlit("id");
    assert("name"@.len() == 4 && "id"@.len() == 2);
    assert(yaml::place_from(all, "name"@, 0) == Some(0int));
    assert(all.remove(0) =~= extras);
    assert(lacks(all, "id"@)) by {
        assert forall|i: int| 0 <= i < all.len() implies (#[trigger] all[i]).0 != YamlTree::Text(
            "id"@,
        ) by {
            if i > 0 {
                assert(all[i] == extras[i - 1]);
            }
        }
    }
    lemma_lacks(all, "id"@);
}

/// What a project's name is as a property.
pub open spec fn name_property(project: ProjectModel) -> Property {
    Property::Text("name"@, project.name)
}

/// The front matter of a project's record begins with its name.
proof fn lemma_project_text(project: ProjectModel)
    ensures
        "---\nname: "@ + yaml::json_string(project.name) + "\n"@ == "---\n"@ + yaml::properties_text(
            seq![name_property(project)],
        ),
        yaml::property_entries(seq![name_property(project)]) == seq![
            (YamlTree::Text("name"@), YamlTree::Text(project.name)),
        ],
{
    let property = name_property(project);
    let properties = seq![property];
    let line = "name"@ + ": "@ + yaml::json_string(project.name);
    lemma_property_lines_add(property, seq![]);
    assert(seq![property] + Seq::<Property>::empty() =~= properties);
    assert(yaml::property_lines(properties) =~= seq![line]);
    lemma_lines_text_one(line);
    reveal_strlit("---\nname: ");
    reveal_strlit("---\n");
    reveal_strlit("\n");
    reveal_strlit(": ");
    reveal_strlit("name");
    assert("---\nname: "@ + yaml::json_string(project.name) + "\n"@ =~= "---\n"@
        + yaml::properties_text(properties));
    assert(yaml::property_entries(properties) =~= seq![
        (YamlTree::Text("name"@), YamlTree::Text(project.name)),
    ]);
}

/// A project is read back from the record that it was written to, where records hold the
/// properties that they were made of, with all properties beside its name. Its name is legible;
/// the properties beside it are made of lines; and they are scannable, or else the scan accepts
/// the front matter.
pub proof fn written_projects_are_read_back(project: ProjectModel, bytes: Seq<u8>)
    ensures
        (model::slug(project.slug) ==> holds_properties(bytes, frontmatter::document_of(bytes)))
            ==> project_recalled(
            project,
            bytes,
            frontmatter::project_of_bytes(project.slug, project.path, bytes),
        ),
{
    let extras = project.extra_properties;
    let own = seq![name_property(project)];
    let front = project_front_matter(project);
    if yaml::legible(project.name) && lined_extras(extras) && writes_extras(extras) && (
    scannable_extras(extras) || accepted(front, project.body)) && frontmatter::check_mapping(
        yaml::property_entries(own) + extras,
    ) is Ok && project.serialized() == Ok::<Seq<u8>, ErrorModel>(bytes) {
        reveal_strlit("name");
        reveal_strlit("null");
        reveal_strlit("true");
        reveal_strlit("false");
        assert("name"@[1] == 'a' && "null"@[1] == 'u' && "true"@[1] == 'r');
        assert(yaml::key_word("name"@));
        assert(yaml::plain_properties(own));
        let keys = seq!["name"@].push("id"@);
        lemma_reserved(extras, keys, 0);
        assert(lacks(extras, keys[0]));
        if extras.len() == 0 {
            lemma_project_text(project);
            assert("---\n"@ + yaml::properties_text(own) + Seq::<char>::empty() =~= "---\n"@
                + yaml::properties_text(own));
            assert(bytes == vstd::utf8::encode_utf8(record_text(own, project.body)));
            assert(yaml::property_entries(own) + extras =~= yaml::property_entries(own));
            written_properties_make_the_project(project);
        } else {
            lemma_extras_read(own, extras);
            if scannable_extras(extras) {
                lemma_accepted(own, extras, project.body);
            }
            project_records_give_every_property_back(project, bytes);
        }
    }
}

/// The front matter of a project's record.
pub open spec fn project_front_matter(project: ProjectModel) -> Seq<char> {
    yaml::properties_text(seq![name_property(project)]) + frontmatter::extras_text(
        project.extra_properties,
    )->Ok_0
}

/// Whether the front matter of a project's record is taken apart from its body, passes the scan,
/// and is read as the properties that were written, all of which can be kept.
pub open spec fn project_read_as_written(project: ProjectModel) -> bool {
    let front = project_front_matter(project);
    let entries = yaml::property_entries(seq![name_property(project)]) + project.extra_properties;
    &&& accepted(front, project.body)
    &&& yaml::yaml_outcome(front) == Ok::<YamlTree, (Seq<char>, Option<(usize, usize)>)>(
        YamlTree::Table(entries),
    )
    &&& frontmatter::check_mapping(entries) is Ok
}

/// A project comes back from the record that it was written to, with all its properties and its
/// body, whatever they are, where the front matter is read as it was written.
pub proof fn project_records_give_every_property_back(project: ProjectModel, bytes: Seq<u8>)
    ensures
        project.serialized() == Ok::<Seq<u8>, ErrorModel>(bytes) && project_read_as_written(project)
            ==> frontmatter::project_of_bytes(project.slug, project.path, bytes) == Ok::<
            ProjectModel,
            ErrorModel,
        >(project),
{
    if project.serialized() == Ok::<Seq<u8>, ErrorModel>(bytes) && project_read_as_written(
        project,
    ) {
        lemma_project_text(project);
        let own = yaml::properties_text(seq![name_property(project)]);
        let written = frontmatter::extras_text(project.extra_properties)->Ok_0;
        assert(("---\n"@ + own) + written =~= "---\n"@ + (own + written));
        let entries = yaml::property_entries(seq![name_property(project)])
            + project.extra_properties;
        lemma_read(project_front_matter(project), project.body, entries);
        written_properties_make_the_project(project);
    }
}

/// Every task is read back from the record that it was written to. See [`recalled`].
pub(crate) proof fn lemma_tasks(
    id: Seq<char>,
    path: Seq<char>,
    bytes: Seq<u8>,
    config: ConfigModel,
)
    ensures
        holds_properties(bytes, frontmatter::document_of(bytes)) ==> forall|task: TaskModel|
            task.id == id && task.path == path ==> #[trigger] recalled(
                task,
                config,
                bytes,
                frontmatter::task_of(id, path, bytes, config),
            ),
{
    assert forall|task: TaskModel|
        holds_properties(bytes, frontmatter::document_of(bytes)) && task.id == id && task.path
            == path implies #[trigger] recalled(
        task,
        config,
        bytes,
        frontmatter::task_of(id, path, bytes, config),
    ) by {
        written_tasks_are_read_back(task, config, bytes);
    }
}

/// Every project is read back from the record that it was written to. See [`project_recalled`].
pub(crate) proof fn lemma_projects_read(slug: Seq<char>, path: Seq<char>, bytes: Seq<u8>)
    ensures
        (model::slug(slug) ==> holds_properties(bytes, frontmatter::document_of(bytes)))
            ==> forall|project: ProjectModel|
            project.slug == slug && project.path == path ==> #[trigger] project_recalled(
                project,
                bytes,
                frontmatter::project_of_bytes(slug, path, bytes),
            ),
{
    assert forall|project: ProjectModel|
        (model::slug(slug) ==> holds_properties(bytes, frontmatter::document_of(bytes)))
            && project.slug == slug && project.path == path implies #[trigger] project_recalled(
        project,
        bytes,
        frontmatter::project_of_bytes(slug, path, bytes),
    ) by {
        written_projects_are_read_back(project, bytes);
    }
}

} // verus!
