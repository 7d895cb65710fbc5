//! What is written as a link to an attachment is read as one.
use vstd::prelude::*;

use crate::attachments;
use crate::markdown::{self, Found, MarkModel, Reading};
use crate::model;
use crate::paths;
use crate::text;

verus! {

/// The pieces of a text, joined again.
proof fn lemma_joined_split(s: Seq<char>, sep: char, from: int)
    requires
        0 <= from <= s.len(),
    ensures
        text::split_from(s, sep, from).len() > 0,
        text::joined(text::split_from(s, sep, from), seq![sep]) == s.subrange(
            from,
            s.len() as int,
        ),
    decreases s.len() - from,
{
    text::lemma_find_from(s, sep, from);
    let at = text::find_from(s, sep, from);
    let all = text::split_from(s, sep, from);
    if at < s.len() {
        let rest = text::split_from(s, sep, at + 1);
        lemma_joined_split(s, sep, at + 1);
        text::lemma_joined_first(all, seq![sep]);
        assert(all.drop_first() =~= rest);
        assert(s.subrange(from, at) + seq![sep] + s.subrange(at + 1, s.len() as int)
            =~= s.subrange(from, s.len() as int));
    }
}

/// The components of an attachment's path are its pieces.
proof fn lemma_kept(pieces: Seq<Seq<char>>, i: int)
    requires
        0 <= i <= pieces.len(),
        forall|k: int| 0 <= k < pieces.len() ==> !attachments::odd_piece(#[trigger] pieces[k]),
    ensures
        paths::kept(pieces, i) == pieces.subrange(i, pieces.len() as int).map_values(
            |piece: Seq<char>| (3int, piece),
        ),
    decreases pieces.len() - i,
{
    if i < pieces.len() {
        lemma_kept(pieces, i + 1);
        assert(!attachments::odd_piece(pieces[i]));
        assert(seq![(3int, pieces[i])] + pieces.subrange(i + 1, pieces.len() as int).map_values(
            |piece: Seq<char>| (3int, piece),
        ) =~= pieces.subrange(i, pieces.len() as int).map_values(
            |piece: Seq<char>| (3int, piece),
        ));
    }
}

proof fn lemma_selector_parts(value: Seq<char>)
    requires
        attachments::selector(value),
    ensures
        markdown::part_texts(paths::parts(value)) == text::split(value, '/'),
        text::joined(text::split(value, '/'), "/"@) == value,
        paths::parts(value).len() > 0,
        paths::parts(value)[0] == (3int, "Attachments"@),
{
    let pieces = text::split(value, '/');
    reveal_strlit("Attachments/");
    reveal_strlit("Attachments");
    reveal_strlit("/");
    lemma_kept(pieces, 0);
    assert(pieces.subrange(0, pieces.len() as int) =~= pieces);
    let start = value.subrange(0, 12);
    assert(start == "Attachments/"@);
    assert(value[0] == start[0]);
    assert(paths::parts(value) == paths::kept(pieces, 0));
    assert(markdown::part_texts(paths::parts(value)) =~= pieces) by {
        assert forall|k: int| 0 <= k < pieces.len() implies markdown::part_texts(
            paths::parts(value),
        )[k] == pieces[k] by {
            assert(paths::parts(value)[k] == (3int, pieces[k]));
        }
    }
    lemma_joined_split(value, '/', 0);
    assert("/"@ =~= seq!['/']);
    assert(value.subrange(0, value.len() as int) =~= value);
    let first = "Attachments"@;
    let rest = value.subrange(12, value.len() as int);
    assert(value =~= first + seq!['/'] + rest) by {
        assert(value.subrange(0, 12) =~= first + seq!['/']);
        assert(value =~= value.subrange(0, 12) + rest);
    }
    assert(!first.contains('/'));
    text::lemma_split_first(first, '/', rest);
    assert(pieces[0] == first);
}

/// Repeating a text once more puts it before the others too.
proof fn lemma_repeated_first(s: Seq<char>, n: nat)
    ensures
        attachments::repeated(s, n + 1) == s + attachments::repeated(s, n),
    decreases n,
{
    reveal_with_fuel(attachments::repeated, 2);
    if n == 0 {
        assert(Seq::<char>::empty() + s =~= s + Seq::<char>::empty());
        assert(attachments::repeated(s, 0) =~= Seq::<char>::empty());
    } else {
        lemma_repeated_first(s, (n - 1) as nat);
        assert(s + attachments::repeated(s, (n - 1) as nat) + s =~= s + (attachments::repeated(
            s,
            (n - 1) as nat,
        ) + s));
    }
}

/// Walking up as many times as there are names, then along the pieces, leads to the pieces.
proof fn lemma_walk_up(names: Seq<Seq<char>>, rest: Seq<char>)
    ensures
        markdown::walk(
            names,
            text::split(attachments::repeated("../"@, names.len()) + rest, '/'),
            0,
        ) == markdown::walk(seq![], text::split(rest, '/'), 0),
    decreases names.len(),
{
    let n = names.len();
    if n == 0 {
        assert(attachments::repeated("../"@, 0) + rest =~= rest);
        assert(names =~= Seq::<Seq<char>>::empty());
    } else {
        let m = (n - 1) as nat;
        let tail = attachments::repeated("../"@, m) + rest;
        let whole = attachments::repeated("../"@, n) + rest;
        let dots: Seq<char> = seq!['.', '.'];
        reveal_strlit("../");
        assert("../"@ =~= dots + seq!['/']);
        lemma_repeated_first("../"@, m);
        assert(whole =~= dots + seq!['/'] + tail);
        text::lemma_split_first(dots, '/', tail);
        let pieces = text::split(whole, '/');
        assert(pieces[0] == dots);
        assert(markdown::walk(names, pieces, 0) == markdown::walk(names.drop_last(), pieces, 1));
        lemma_walk_shift(names.drop_last(), text::split(tail, '/'), dots, 0);
        lemma_walk_up(names.drop_last(), rest);
    }
}

/// A piece that has been walked along plays no further part.
proof fn lemma_walk_shift(
    names: Seq<Seq<char>>,
    pieces: Seq<Seq<char>>,
    first: Seq<char>,
    i: int,
)
    requires
        0 <= i <= pieces.len(),
    ensures
        markdown::walk(names, seq![first] + pieces, i + 1) == markdown::walk(names, pieces, i),
    decreases pieces.len() - i,
{
    let all = seq![first] + pieces;
    if i < pieces.len() {
        assert(all[i + 1] == pieces[i]);
        lemma_walk_shift(names, pieces, first, i + 1);
        if names.len() > 0 {
            lemma_walk_shift(names.drop_last(), pieces, first, i + 1);
        }
        lemma_walk_shift(names.push(pieces[i]), pieces, first, i + 1);
    }
}

/// Walking along plain pieces adds them.
proof fn lemma_walk_along(names: Seq<Seq<char>>, pieces: Seq<Seq<char>>, i: int)
    requires
        0 <= i <= pieces.len(),
        forall|k: int| 0 <= k < pieces.len() ==> !attachments::odd_piece(#[trigger] pieces[k]),
    ensures
        markdown::walk(names, pieces, i) == Some(
            names + pieces.subrange(i, pieces.len() as int),
        ),
    decreases pieces.len() - i,
{
    if i < pieces.len() {
        assert(!attachments::odd_piece(pieces[i]));
        lemma_walk_along(names.push(pieces[i]), pieces, i + 1);
        assert(names.push(pieces[i]) + pieces.subrange(i + 1, pieces.len() as int) =~= names
            + pieces.subrange(i, pieces.len() as int));
    } else {
        assert(names + pieces.subrange(i, pieces.len() as int) =~= names);
    }
}

/// What bytes in the target of a link are made of.
pub open spec fn plain_char(c: char) -> bool {
    text::is_alnum(c) || c == '-' || c == '.' || c == '_' || c == '~' || c == '/' || c == '%'
}

proof fn lemma_encoded_plain(bytes: Seq<u8>)
    ensures
        forall|i: int|
            0 <= i < attachments::encoded(bytes).len() ==> plain_char(
                #[trigger] attachments::encoded(bytes)[i],
            ),
    decreases bytes.len(),
{
    if bytes.len() > 0 {
        lemma_encoded_plain(bytes.drop_last());
        let b = bytes.last();
        let last = attachments::encoded_byte(b);
        assert forall|i: int| 0 <= i < last.len() implies plain_char(#[trigger] last[i]) by {
            if attachments::plain_byte(b) {
                assert(last[i] == b as char);
            } else {
                assert(0 <= b as int / 16 < 16 && 0 <= b as int % 16 < 16);
            }
        }
        let e = attachments::encoded(bytes);
        let n = attachments::encoded(bytes.drop_last()).len();
        assert forall|i: int| 0 <= i < e.len() implies plain_char(#[trigger] e[i]) by {
            if i >= n {
                assert(e[i] == last[i - n]);
            }
        }
    }
}

/// Encoded bytes begin with the first byte encoded.
proof fn lemma_encoded_first(bytes: Seq<u8>)
    requires
        bytes.len() > 0,
    ensures
        attachments::encoded(bytes) == attachments::encoded_byte(bytes[0])
            + attachments::encoded(bytes.drop_first()),
    decreases bytes.len(),
{
    if bytes.len() == 1 {
        assert(bytes.drop_last() =~= Seq::<u8>::empty());
        assert(bytes.drop_first() =~= Seq::<u8>::empty());
        assert(attachments::encoded(bytes.drop_last()) =~= Seq::<char>::empty());
        assert(Seq::<char>::empty() + attachments::encoded_byte(bytes[0])
            =~= attachments::encoded_byte(bytes[0]) + Seq::<char>::empty());
    } else {
        lemma_encoded_first(bytes.drop_last());
        assert(bytes.drop_last().drop_first() =~= bytes.drop_first().drop_last());
        assert(bytes.drop_first().last() == bytes.last());
        let a = attachments::encoded_byte(bytes[0]);
        let b = attachments::encoded(bytes.drop_first().drop_last());
        let c = attachments::encoded_byte(bytes.last());
        assert(a + b + c =~= a + (b + c));
    }
}

/// The byte that two capital hexadecimal digits write.
proof fn lemma_percent(b: u8)
    ensures
        markdown::percent(
            attachments::hex_digit(b as int / 16) as u8,
            attachments::hex_digit(b as int % 16) as u8,
        ) == Some(b),
{
    let x = b as int / 16;
    let y = b as int % 16;
    assert(0 <= x < 16 && 0 <= y < 16 && b == 16 * x + y);
}

/// The bytes of an ASCII text.
spec fn ascii(s: Seq<char>) -> Seq<u8> {
    s.map_values(|c: char| c as u8)
}

/// Reading encoded bytes, from some place on, gives the bytes.
proof fn lemma_unescaped(before: Seq<u8>, bytes: Seq<u8>)
    ensures
        markdown::unescaped(
            before + ascii(attachments::encoded(bytes)),
            before.len() as int,
        ) == Some(bytes),
    decreases bytes.len(),
{
    let e = attachments::encoded(bytes);
    let all = before + ascii(e);
    if bytes.len() == 0 {
        assert(bytes =~= Seq::<u8>::empty());
    } else {
        let b = bytes[0];
        let rest = bytes.drop_first();
        let first = attachments::encoded_byte(b);
        lemma_encoded_first(bytes);
        assert(all =~= (before + ascii(first)) + ascii(attachments::encoded(rest)));
        lemma_unescaped(before + ascii(first), rest);
        assert(seq![b] + rest =~= bytes);
        let at = before.len() as int;
        assert(all[at] == first[0] as u8);
        if attachments::plain_byte(b) {
            assert((b as char) as u8 == b);
            assert(all[at] == b);
        } else {
            assert(all[at] == 37);
            assert(all[at + 1] == first[1] as u8);
            assert(all[at + 2] == first[2] as u8);
            lemma_percent(b);
        }
    }
}

/// An encoded text is decoded to what it was.
proof fn lemma_decoded(s: Seq<char>)
    ensures
        markdown::decoded(attachments::encoded(vstd::utf8::encode_utf8(s))) == Some(s),
{
    let bytes = vstd::utf8::encode_utf8(s);
    let e = attachments::encoded(bytes);
    lemma_encoded_plain(bytes);
    assert(vstd::utf8::is_ascii_chars(e)) by {
        assert forall|i: int| 0 <= i < e.len() implies '\0' <= #[trigger] e[i] <= '\u{7f}' by {
            assert(plain_char(e[i]));
        }
    }
    vstd::utf8::is_ascii_chars_encode_utf8(e);
    assert(vstd::utf8::encode_utf8(e) =~= Seq::<u8>::empty() + ascii(e));
    lemma_unescaped(Seq::<u8>::empty(), bytes);
    vstd::utf8::encode_utf8_valid_utf8(s);
    vstd::utf8::encode_utf8_decode_utf8(s);
}

/// Nothing of an encoded target is cut off.
proof fn lemma_target(e: Seq<char>)
    requires
        forall|i: int| 0 <= i < e.len() ==> plain_char(#[trigger] e[i]),
    ensures
        markdown::inline_target(e) == e,
        markdown::address(e) == e,
{
    text::lemma_skip_space(e, 0);
    if text::skip_space(e, 0) > 0 {
        assert(text::is_whitespace(e[0]));
    }
    assert(text::trim_start(e) =~= e);
    text::lemma_drop_space(e, e.len() as int);
    if text::drop_space(e, e.len() as int) < e.len() {
        assert(text::is_whitespace(e[e.len() - 1]));
    }
    assert(text::trim_end(e) =~= e);
    lemma_word_end(e, 0);
    assert(e.subrange(0, e.len() as int) =~= e);
    text::lemma_find_from(e, '#', 0);
    text::lemma_find_from(e, '?', 0);
    assert(e.len() > 0 ==> plain_char(e[0]));
}

proof fn lemma_word_end(e: Seq<char>, i: int)
    requires
        0 <= i <= e.len(),
        forall|i: int| 0 <= i < e.len() ==> plain_char(#[trigger] e[i]),
    ensures
        markdown::word_end(e, i) == e.len(),
    decreases e.len() - i,
{
    if i < e.len() {
        assert(plain_char(e[i]));
        lemma_word_end(e, i + 1);
    }
}

/// The way from a task to an attachment leads to the attachment.
proof fn lemma_followed(task_path: Seq<char>, selector: Seq<char>)
    requires
        attachments::selector(selector),
        !selector.contains(':'),
        reachable(task_path),
    ensures
        markdown::followed(task_path, attachments::way(task_path, selector), false) == Some(
            selector,
        ),
{
    let source = attachments::task_directory(task_path);
    let target = paths::parts(selector);
    let w = attachments::way(task_path, selector);
    let pieces = text::split(selector, '/');
    let up = attachments::repeated("../"@, source.len());
    lemma_selector_parts(selector);
    assert(attachments::shared(source, target, 0) == 0);
    assert(target.subrange(0, target.len() as int) =~= target);
    assert(w == up + selector);
    let names = markdown::part_texts(source);
    lemma_walk_up(names, selector);
    lemma_walk_along(seq![], pieces, 0);
    assert(Seq::<Seq<char>>::empty() + pieces.subrange(0, pieces.len() as int) =~= pieces);
    lemma_up_chars(source.len());
    reveal_strlit("../");
    reveal_strlit("/");
    reveal_strlit("./");
    reveal_strlit("Attachments/");
    if w.contains(':') {
        let i = choose|i: int| 0 <= i < w.len() && w[i] == ':';
        if i >= up.len() {
            assert(selector[i - up.len()] == ':');
        } else {
            assert(up[i] == ':');
        }
    }
    if w.contains('\\') {
        let i = choose|i: int| 0 <= i < w.len() && w[i] == '\\';
        if i >= up.len() {
            assert(selector[i - up.len()] == '\\');
        } else {
            assert(up[i] == '\\');
        }
    }
    if source.len() == 0 {
        assert(w =~= selector);
        assert(w.subrange(0, 12)[0] == w[0]);
        assert("Attachments/"@[0] == 'A');
    } else {
        lemma_repeated_first("../"@, (source.len() - 1) as nat);
        assert(w.subrange(0, 3) =~= "../"@);
        assert(w[0] == '.');
    }
    assert(w.len() > 0);
    assert(w.subrange(0, 1)[0] == w[0]);
}

proof fn lemma_up_chars(n: nat)
    ensures
        forall|i: int|
            0 <= i < attachments::repeated("../"@, n).len() ==> {
                ||| #[trigger] attachments::repeated("../"@, n)[i] == '.'
                ||| attachments::repeated("../"@, n)[i] == '/'
            },
    decreases n,
{
    if n > 0 {
        lemma_up_chars((n - 1) as nat);
        reveal_strlit("../");
        let before = attachments::repeated("../"@, (n - 1) as nat);
        let all = attachments::repeated("../"@, n);
        assert forall|i: int| 0 <= i < all.len() implies {
            ||| #[trigger] all[i] == '.'
            ||| all[i] == '/'
        } by {
            if i >= before.len() {
                assert(all[i] == "../"@[i - before.len()]);
            } else {
                assert(all[i] == before[i]);
            }
        }
    }
}

/// A label begins with its first character.
proof fn lemma_label_first(s: Seq<char>)
    requires
        s.len() > 0,
    ensures
        attachments::label(s) == attachments::label_char(s[0]) + attachments::label(
            s.drop_first(),
        ),
    decreases s.len(),
{
    if s.len() == 1 {
        assert(s.drop_last() =~= Seq::<char>::empty());
        assert(s.drop_first() =~= Seq::<char>::empty());
        assert(attachments::label(s.drop_last()) =~= Seq::<char>::empty());
        assert(Seq::<char>::empty() + attachments::label_char(s[0]) =~= attachments::label_char(
            s[0],
        ) + Seq::<char>::empty());
    } else {
        lemma_label_first(s.drop_last());
        assert(s.drop_last().drop_first() =~= s.drop_first().drop_last());
        let a = attachments::label_char(s[0]);
        let b = attachments::label(s.drop_first().drop_last());
        let c = attachments::label_char(s.last());
        assert(a + b + c =~= a + (b + c));
    }
}

/// A label is read as the name it was made of.
proof fn lemma_plain_label(before: Seq<char>, name: Seq<char>)
    ensures
        markdown::plain_label(before + attachments::label(name), before.len() as int) == name,
    decreases name.len(),
{
    let all = before + attachments::label(name);
    if name.len() > 0 {
        let c = name[0];
        let first = attachments::label_char(c);
        let rest = name.drop_first();
        lemma_label_first(name);
        assert(all =~= (before + first) + attachments::label(rest));
        lemma_plain_label(before + first, rest);
        assert(seq![c] + rest =~= name);
        let at = before.len() as int;
        assert(all[at] == first[0]);
        if first.len() == 2 {
            assert(all[at + 1] == first[1]);
        }
    } else {
        assert(name =~= Seq::<char>::empty());
    }
}

/// The bracket behind a label closes it.
pub(crate) proof fn lemma_bracket(before: Seq<char>, name: Seq<char>, after: Seq<char>)
    requires
        after.len() > 0,
        after[0] == ']',
    ensures
        ({
            let all = before + attachments::label(name) + after;
            markdown::bracket_close(all, before.len() as int, 1, all.len() as int) == Some(
                (before.len() + attachments::label(name).len()) as int,
            )
        }),
    decreases name.len(),
{
    let all = before + attachments::label(name) + after;
    let at = before.len() as int;
    if name.len() > 0 {
        let c = name[0];
        let first = attachments::label_char(c);
        let rest = name.drop_first();
        lemma_label_first(name);
        assert(all =~= (before + first) + attachments::label(rest) + after);
        lemma_bracket(before + first, rest, after);
        assert(all[at] == first[0]);
    } else {
        assert(all[at] == after[0]);
    }
}

/// The parenthesis behind an encoded target closes it.
proof fn lemma_paren(s: Seq<char>, at: int, stop: int)
    requires
        0 < at <= stop < s.len(),
        s[at - 1] == '(' || plain_char(s[at - 1]),
        forall|i: int| at <= i < stop ==> plain_char(#[trigger] s[i]),
        s[stop] == ')',
    ensures
        markdown::paren_close(s, 0, at, 1, s.len() as int) == Some(stop),
    decreases stop - at,
{
    assert(markdown::slashes(s, 0, at) == 0);
    if at < stop {
        assert(plain_char(s[at]));
        lemma_paren(s, at + 1, stop);
    }
}

/// Whether a link from the task to an attachment can be followed: the task lies in a directory
/// that does not begin with that of the attachments.
pub open spec fn reachable(task_path: Seq<char>) -> bool {
    match paths::parent_parts(task_path) {
        Some(parts) => parts.len() == 0 || parts[0] != (3int, "Attachments"@),
        None => false,
    }
}

/// What the text of a link is made of: what opens it, the label, and the rest.
pub(crate) closed spec fn opening(selector: Seq<char>) -> Seq<char> {
    if attachments::image(selector) {
        seq!['!', '[']
    } else {
        seq!['[']
    }
}

pub(crate) closed spec fn target(task_path: Seq<char>, selector: Seq<char>) -> Seq<char> {
    attachments::encoded(vstd::utf8::encode_utf8(attachments::way(task_path, selector)))
}

/// What opens a link.
pub(crate) proof fn lemma_opening(selector: Seq<char>)
    ensures
        opening(selector) == seq!['!', '['] || opening(selector) == seq!['['],
{
}

/// What the target of a link is made of.
pub(crate) proof fn lemma_target_plain(task_path: Seq<char>, selector: Seq<char>)
    ensures
        forall|i: int|
            0 <= i < target(task_path, selector).len() ==> plain_char(
                #[trigger] target(task_path, selector)[i],
            ),
{
    lemma_encoded_plain(vstd::utf8::encode_utf8(attachments::way(task_path, selector)));
}

pub(crate) proof fn lemma_link_parts(task_path: Seq<char>, selector: Seq<char>, name: Seq<char>)
    ensures
        attachments::link_text(task_path, selector, name) == opening(selector)
            + attachments::label(name) + (seq![']', '('] + target(task_path, selector) + seq![')']),
{
    reveal_strlit("!");
    reveal_strlit("");
    reveal_strlit("[");
    reveal_strlit("](");
    reveal_strlit(")");
    assert("!"@ =~= seq!['!']);
    assert(""@ =~= Seq::<char>::empty());
    assert("["@ =~= seq!['[']);
    assert("]("@ =~= seq![']', '(']);
    assert(")"@ =~= seq![')']);
    assert(attachments::link_text(task_path, selector, name) =~= opening(selector)
        + attachments::label(name) + (seq![']', '('] + target(task_path, selector) + seq![')']));
}

/// Where the label and the target of a written link close.
proof fn lemma_link_closes(task_path: Seq<char>, selector: Seq<char>, name: Seq<char>)
    ensures
        ({
            let s = attachments::link_text(task_path, selector, name);
            let bracket = opening(selector).len() - 1;
            let close = bracket + 1 + attachments::label(name).len();
            let stop = close + 2 + target(task_path, selector).len();
            &&& stop + 1 == s.len()
            &&& markdown::inline_close(s, 0, bracket, s.len() as int) == Some((close, stop))
            &&& s.subrange(close + 2, stop) == target(task_path, selector)
            &&& s.subrange(bracket + 1, close) == attachments::label(name)
        }),
{
    let s = attachments::link_text(task_path, selector, name);
    let e = target(task_path, selector);
    let label = attachments::label(name);
    let open = opening(selector);
    let bracket = open.len() - 1;
    let close = bracket + 1 + label.len();
    let stop = close + 2 + e.len();
    let after = seq![']', '('] + e + seq![')'];
    lemma_link_parts(task_path, selector, name);
    lemma_bracket(open, name, after);
    lemma_encoded_plain(vstd::utf8::encode_utf8(attachments::way(task_path, selector)));
    assert forall|i: int| close + 2 <= i < stop implies plain_char(#[trigger] s[i]) by {
        assert(s[i] == e[i - close - 2]);
    }
    assert(s[close] == after[0]);
    assert(s[close + 1] == after[1]);
    assert(s[stop] == after[stop - close]);
    lemma_paren(s, close + 2, stop);
    assert(s.subrange(close + 2, stop) =~= e);
    assert(s.subrange(bracket + 1, close) =~= label);
}

/// A written link is one line, which is neither fenced nor indented.
pub(crate) proof fn lemma_link_line(task_path: Seq<char>, selector: Seq<char>, name: Seq<char>)
    requires
        !name.contains('\n'),
    ensures
        ({
            let s = attachments::link_text(task_path, selector, name);
            &&& s.len() > 2
            &&& markdown::line_stop(s, 0) == s.len()
            &&& markdown::run(s, ' ', 0, s.len() as int) == 0
            &&& s[0] == '!' || s[0] == '['
            &&& markdown::bracket_of(s, 0, s.len() as int) == opening(selector).len() - 1
            &&& s[opening(selector).len() - 1] == '['
            &&& s[opening(selector).len() as int] != '['
        }),
{
    let s = attachments::link_text(task_path, selector, name);
    let e = target(task_path, selector);
    let label = attachments::label(name);
    let open = opening(selector);
    let after = seq![']', '('] + e + seq![')'];
    let n = s.len() as int;
    lemma_link_parts(task_path, selector, name);
    lemma_encoded_plain(vstd::utf8::encode_utf8(attachments::way(task_path, selector)));
    lemma_label_chars(name);
    assert forall|i: int| 0 <= i < n implies #[trigger] s[i] != '\n' by {
        let k = i - open.len() - label.len();
        if i < open.len() {
            assert(s[i] == open[i]);
        } else if k < 0 {
            assert(s[i] == label[i - open.len()]);
        } else {
            assert(s[i] == after[k]);
            if 2 <= k < 2 + e.len() {
                assert(after[k] == e[k - 2]);
                assert(plain_char(e[k - 2]));
            }
        }
    }
    text::lemma_find_from(s, '\n', 0);
    assert(s[0] == open[0]);
    assert(s[open.len() - 1] == open[open.len() - 1]);
    if label.len() > 0 {
        assert(s[open.len() as int] == label[0]);
        lemma_label_first(name);
        assert(label[0] == attachments::label_char(name[0])[0]);
    } else {
        assert(s[open.len() as int] == after[0]);
    }
}

/// The label and the target of a written link are read as what they were made of.
pub(crate) proof fn lemma_link_resolves(
    task_path: Seq<char>,
    selector: Seq<char>,
    name: Seq<char>,
    store_prefix: Seq<char>,
)
    requires
        attachments::selector(selector),
        !selector.contains(':'),
        reachable(task_path),
    ensures
        markdown::inline_target(target(task_path, selector)) == target(task_path, selector),
        markdown::resolved(task_path, target(task_path, selector), false, store_prefix) == Some(
            selector,
        ),
        markdown::plain_label(attachments::label(name), 0) == name,
{
    let w = attachments::way(task_path, selector);
    let e = target(task_path, selector);
    lemma_encoded_plain(vstd::utf8::encode_utf8(w));
    lemma_target(e);
    lemma_decoded(w);
    lemma_followed(task_path, selector);
    lemma_plain_label(Seq::<char>::empty(), name);
    assert(Seq::<char>::empty() + attachments::label(name) =~= attachments::label(name));
}

/// Reading on from the start of a written link gives the link.
proof fn lemma_link_read(
    task_path: Seq<char>,
    selector: Seq<char>,
    name: Seq<char>,
    store_prefix: Seq<char>,
)
    requires
        attachments::selector(selector),
        !selector.contains(':'),
        !name.contains('\n'),
        reachable(task_path),
    ensures
        ({
            let s = attachments::link_text(task_path, selector, name);
            let n = s.len() as int;
            let none = Found { marks: seq![], odd: seq![] };
            let mark = MarkModel { path: selector, name, start: 0, end: n };
            markdown::read_one(
                s,
                0,
                n,
                task_path,
                store_prefix,
                Reading { at: 0, until: 0, found: none },
            ) == (Reading { at: n, until: 0, found: Found { marks: seq![mark], odd: seq![] } })
        }),
{
    let s = attachments::link_text(task_path, selector, name);
    let n = s.len() as int;
    let none = Found { marks: seq![], odd: seq![] };
    let mark = MarkModel { path: selector, name, start: 0, end: n };
    lemma_link_line(task_path, selector, name);
    lemma_link_closes(task_path, selector, name);
    lemma_link_resolves(task_path, selector, name, store_prefix);
    assert(markdown::code_at(s, 0, n, 0) is None);
    assert(!markdown::escaped(s, 0, 0));
    assert(none.marks.push(mark) =~= seq![mark]);
}

/// A link that is written for an attachment is read as the one link of the text, with the
/// attachment's path and the name it was given.
pub proof fn written_links_are_read_back(
    task_path: Seq<char>,
    selector: Seq<char>,
    name: Seq<char>,
    store_prefix: Seq<char>,
)
    requires
        attachments::selector(selector),
        !selector.contains(':'),
        !name.contains('\n'),
        reachable(task_path),
    ensures
        ({
            let link = attachments::link_text(task_path, selector, name);
            markdown::found_in(link, task_path, store_prefix) == (Found {
                marks: seq![
                    MarkModel { path: selector, name, start: 0, end: link.len() as int },
                ],
                odd: seq![],
            })
        }),
{
    let s = attachments::link_text(task_path, selector, name);
    let n = s.len() as int;
    lemma_link_line(task_path, selector, name);
    lemma_link_read(task_path, selector, name, store_prefix);
    let none = Found { marks: seq![], odd: seq![] };
    let state = Reading { at: 0, until: 0, found: none };
    let next = markdown::read_one(s, 0, n, task_path, store_prefix, state);
    assert(markdown::read_line(s, 0, n, task_path, store_prefix, next) == next);
    assert(markdown::read_line(s, 0, n, task_path, store_prefix, state) == next);
    assert(!markdown::fence_line(s, 0, 0, n));
    assert(markdown::read_lines(s, n, task_path, store_prefix, 0, None, next.found)
        == next.found);
}

pub(crate) proof fn lemma_label_chars(name: Seq<char>)
    requires
        !name.contains('\n'),
    ensures
        forall|i: int|
            0 <= i < attachments::label(name).len() ==> #[trigger] attachments::label(name)[i]
                != '\n',
    decreases name.len(),
{
    if name.len() > 0 {
        let rest = name.drop_last();
        assert(!rest.contains('\n')) by {
            if rest.contains('\n') {
                let i = choose|i: int| 0 <= i < rest.len() && rest[i] == '\n';
                assert(name[i] == '\n');
            }
        }
        lemma_label_chars(rest);
        assert(name.last() != '\n');
        let all = attachments::label(name);
        let k = attachments::label(rest).len();
        assert forall|i: int| 0 <= i < all.len() implies #[trigger] all[i] != '\n' by {
            if i >= k {
                assert(all[i] == attachments::label_char(name.last())[i - k]);
            } else {
                assert(all[i] == attachments::label(rest)[i]);
            }
        }
    }
}

} // verus!
