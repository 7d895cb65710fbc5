//! Links to attachments in the body of a task.
//!
//! Only explicit paths count, and what stands in code is left alone.
use vstd::prelude::*;

use crate::attachments;
use crate::model;
use crate::paths;
use crate::text;

verus! {

/// The value of a hexadecimal digit.
pub open spec fn hex_value(b: u8) -> Option<u8> {
    if 48 <= b <= 57 {
        Some((b - 48) as u8)
    } else if 65 <= b <= 70 {
        Some((b - 55) as u8)
    } else if 97 <= b <= 102 {
        Some((b - 87) as u8)
    } else {
        None
    }
}

fn hex(b: u8) -> (r: Option<u8>)
    ensures
        r == hex_value(b),
        r matches Some(v) ==> v < 16,
{
    if 48 <= b && b <= 57 {
        Some(b - 48)
    } else if 65 <= b && b <= 70 {
        Some(b - 55)
    } else if 97 <= b && b <= 102 {
        Some(b - 87)
    } else {
        None
    }
}

/// The byte that two characters behind `%` write: two hexadecimal digits, or one behind a `+`.
pub open spec fn percent(a: u8, b: u8) -> Option<u8> {
    match (hex_value(a), hex_value(b)) {
        (Some(x), Some(y)) => Some((16 * x + y) as u8),
        (None, Some(y)) => if a == 43 {
            Some(y)
        } else {
            None
        },
        _ => None,
    }
}

/// One byte before the rest, where there is a rest.
pub open spec fn before(b: u8, rest: Option<Seq<u8>>) -> Option<Seq<u8>> {
    match rest {
        Some(rest) => Some(seq![b] + rest),
        None => None,
    }
}

/// The bytes from the `i`-th on, with `%` and two digits for the byte they write, and what
/// follows a backslash for itself.
pub open spec fn unescaped(bytes: Seq<u8>, i: int) -> Option<Seq<u8>>
    decreases bytes.len() - i,
{
    if i >= bytes.len() {
        Some(seq![])
    } else if bytes[i] == 37 {
        if i + 2 < bytes.len() && percent(bytes[i + 1], bytes[i + 2]) is Some {
            before(percent(bytes[i + 1], bytes[i + 2])->0, unescaped(bytes, i + 3))
        } else {
            None
        }
    } else if bytes[i] == 92 && i + 1 < bytes.len() {
        before(bytes[i + 1], unescaped(bytes, i + 2))
    } else {
        before(bytes[i], unescaped(bytes, i + 1))
    }
}

/// The text that an escaped text writes.
pub open spec fn decoded(value: Seq<char>) -> Option<Seq<char>> {
    match unescaped(vstd::utf8::encode_utf8(value), 0) {
        Some(bytes) => if vstd::utf8::valid_utf8(bytes) {
            Some(vstd::utf8::decode_utf8(bytes))
        } else {
            None
        },
        None => None,
    }
}

/// What is left of a whole once its first bytes are known.
spec fn completed(first: Seq<u8>, rest: Option<Seq<u8>>) -> Option<Seq<u8>> {
    match rest {
        Some(rest) => Some(first + rest),
        None => None,
    }
}

proof fn lemma_completed(first: Seq<u8>, b: u8, rest: Option<Seq<u8>>)
    ensures
        completed(first, before(b, rest)) == completed(first.push(b), rest),
{
    if let Some(tail) = rest {
        assert(first + (seq![b] + tail) =~= first.push(b) + tail);
    }
}

fn decode(value: &str) -> (r: Option<String>)
    ensures
        text::opt(r) == decoded(value@),
{
    let bytes = value.as_bytes();
    let mut output: Vec<u8> = Vec::new();
    let n: usize = bytes.len();
    let mut i: usize = 0;
    assert(completed(output@, unescaped(bytes@, 0)) == unescaped(bytes@, 0)) by {
        if let Some(rest) = unescaped(bytes@, 0) {
            assert(output@ + rest =~= rest);
        }
    }
    while i < n
        invariant
            i <= n == bytes@.len(),
            bytes@ == vstd::utf8::encode_utf8(value@),
            unescaped(bytes@, 0) == completed(output@, unescaped(bytes@, i as int)),
        decreases n - i,
    {
        let ghost first = output@;
        if bytes[i] == 37 {
            if n - i <= 2 {
                return None;
            }
            let low = match hex(bytes[i + 2]) {
                Some(low) => low,
                None => {
                    return None;
                },
            };
            let b: u8 = match hex(bytes[i + 1]) {
                Some(high) => 16 * high + low,
                None => {
                    if bytes[i + 1] != 43 {
                        return None;
                    }
                    low
                },
            };
            output.push(b);
            proof {
                lemma_completed(first, b, unescaped(bytes@, i + 3));
            }
            i += 3;
        } else if bytes[i] == 92 && n - i > 1 {
            output.push(bytes[i + 1]);
            proof {
                lemma_completed(first, bytes@[i + 1], unescaped(bytes@, i + 2));
            }
            i += 2;
        } else {
            output.push(bytes[i]);
            proof {
                lemma_completed(first, bytes@[i as int], unescaped(bytes@, i + 1));
            }
            i += 1;
        }
    }
    assert(output@ + Seq::<u8>::empty() =~= output@);
    match text::decode(output.as_slice()) {
        Ok(s) => Some(s.to_owned()),
        Err(_) => None,
    }
}

/// The target of a link without a fragment and a query.
pub open spec fn address(target: Seq<char>) -> Seq<char> {
    let t = target.subrange(0, text::find_from(target, '#', 0));
    t.subrange(0, text::find_from(t, '?', 0))
}

/// The text without the prefix and the `/` behind it, where it begins so.
pub open spec fn without_prefix(s: Seq<char>, prefix: Seq<char>) -> Seq<char> {
    if prefix.len() > 0 && text::begins(s, prefix + "/"@) {
        s.subrange(prefix.len() as int + 1, s.len() as int)
    } else {
        s
    }
}

/// Whether a path is plainly meant as one.
pub open spec fn explicit(target: Seq<char>) -> bool {
    text::begins(target, "Attachments/"@) || text::begins(target, "../"@) || text::begins(
        target,
        "./"@,
    )
}

/// The names of components, as they are written.
pub open spec fn part_texts(parts: Seq<(int, Seq<char>)>) -> Seq<Seq<char>> {
    parts.map_values(|part: (int, Seq<char>)| model::part_text(part))
}

/// The names that the pieces from the `i`-th on lead to; `..` leads up, where that is possible.
pub open spec fn walk(names: Seq<Seq<char>>, pieces: Seq<Seq<char>>, i: int) -> Option<
    Seq<Seq<char>>,
>
    decreases pieces.len() - i,
{
    if i >= pieces.len() {
        Some(names)
    } else if pieces[i].len() == 0 || pieces[i] == seq!['.'] {
        walk(names, pieces, i + 1)
    } else if pieces[i] == seq!['.', '.'] {
        if names.len() == 0 {
            None
        } else {
            walk(names.drop_last(), pieces, i + 1)
        }
    } else {
        walk(names.push(pieces[i]), pieces, i + 1)
    }
}

/// Where the walk to a target begins: at the store for a wikilink to `Attachments/`, else in
/// the directory of the task.
pub open spec fn base(task_path: Seq<char>, target: Seq<char>, wiki: bool) -> Option<
    Seq<Seq<char>>,
> {
    if wiki && text::begins(target, "Attachments/"@) {
        Some(seq![])
    } else {
        match paths::parent_parts(task_path) {
            Some(parts) => Some(part_texts(parts)),
            None => None,
        }
    }
}

/// The attachment that a decoded target leads to.
pub open spec fn followed(task_path: Seq<char>, target: Seq<char>, wiki: bool) -> Option<
    Seq<char>,
> {
    if target.contains(':') || text::begins(target, "/"@) || target.contains('\\') || !explicit(
        target,
    ) {
        None
    } else {
        match base(task_path, target, wiki) {
            None => None,
            Some(names) => match walk(names, text::split(target, '/'), 0) {
                None => None,
                Some(names) => {
                    let path = text::joined(names, "/"@);
                    if attachments::selector(path) {
                        Some(path)
                    } else {
                        None
                    }
                },
            },
        }
    }
}

/// The attachment that the target of a link leads to.
pub open spec fn resolved(
    task_path: Seq<char>,
    target: Seq<char>,
    wiki: bool,
    store_prefix: Seq<char>,
) -> Option<Seq<char>> {
    match decoded(address(target)) {
        None => None,
        Some(s) => followed(
            task_path,
            if wiki {
                without_prefix(s, store_prefix)
            } else {
                s
            },
            wiki,
        ),
    }
}

fn address_of(target: &Vec<char>) -> (r: Vec<char>)
    ensures
        r@ == address(target@),
{
    let t = text::cut(target, 0, text::find_char(target, '#', 0));
    text::cut(&t, 0, text::find_char(&t, '?', 0))
}

fn base_names(task_path: &str, target: &Vec<char>, wiki: bool) -> (r: Option<Vec<String>>)
    ensures
        match r {
            Some(names) => base(task_path@, target@, wiki) == Some(text::strings(names@)),
            None => base(task_path@, target@, wiki) is None,
        },
{
    if wiki && text::is_at(target, "Attachments/", 0) {
        let none: Vec<String> = Vec::new();
        assert(text::strings(none@) =~= Seq::<Seq<char>>::empty());
        return Some(none);
    }
    let parts = match paths::parent_components(task_path) {
        Some(parts) => parts,
        None => {
            return None;
        },
    };
    Some(names_of(&parts))
}

pub(crate) fn names_of(parts: &Vec<paths::Part>) -> (r: Vec<String>)
    ensures
        text::strings(r@) == part_texts(paths::named(parts@)),
{
    let ghost all = paths::named(parts@);
    let mut r: Vec<String> = Vec::new();
    let mut i: usize = 0;
    while i < parts.len()
        invariant
            i <= parts@.len(),
            r@.len() == i,
            all == paths::named(parts@),
            forall|k: int| 0 <= k < i ==> (#[trigger] r@[k])@ == model::part_text(all[k]),
        decreases parts.len() - i,
    {
        assert(all[i as int] == (parts@[i as int].kind as int, parts@[i as int].name@));
        let kind: u8 = parts[i].kind;
        if kind == 0 {
            r.push("/".to_owned());
        } else if kind == 1 {
            r.push(".".to_owned());
        } else if kind == 2 {
            r.push("..".to_owned());
        } else {
            r.push(text::string(&parts[i].name));
        }
        i += 1;
    }
    assert(text::strings(r@) =~= part_texts(all));
    r
}

fn walk_names(start: Vec<String>, pieces: &Vec<Vec<char>>) -> (r: Option<Vec<String>>)
    ensures
        match r {
            Some(v) => walk(text::strings(start@), text::texts(pieces@), 0) == Some(
                text::strings(v@),
            ),
            None => walk(text::strings(start@), text::texts(pieces@), 0) is None,
        },
{
    let ghost all = text::texts(pieces@);
    let ghost whole = walk(text::strings(start@), all, 0);
    let mut names = start;
    let mut i: usize = 0;
    while i < pieces.len()
        invariant
            i <= pieces@.len(),
            all == text::texts(pieces@),
            whole == walk(text::strings(start@), all, 0),
            whole == walk(text::strings(names@), all, i as int),
        decreases pieces.len() - i,
    {
        let piece = &pieces[i];
        assert(all[i as int] == piece@);
        let ghost had = text::strings(names@);
        let dot = piece.len() == 1 && piece[0] == '.';
        let dots = piece.len() == 2 && piece[0] == '.' && piece[1] == '.';
        assert(dot == (piece@ =~= seq!['.']));
        assert(dots == (piece@ =~= seq!['.', '.']));
        if piece.len() == 0 || dot {
        } else if dots {
            if names.len() == 0 {
                return None;
            }
            let _ = names.pop();
            assert(text::strings(names@) =~= had.drop_last());
        } else {
            names.push(text::string(piece));
            assert(text::strings(names@) =~= had.push(piece@));
        }
        i += 1;
    }
    Some(names)
}

fn follow(task_path: &str, target: &Vec<char>, wiki: bool) -> (r: Option<String>)
    ensures
        text::opt(r) == followed(task_path@, target@, wiki),
{
    if text::has(target, ':') || text::is_at(target, "/", 0) || text::has(target, '\\') {
        return None;
    }
    if !text::is_at(target, "Attachments/", 0) && !text::is_at(target, "../", 0) && !text::is_at(
        target,
        "./",
        0,
    ) {
        return None;
    }
    let names = match base_names(task_path, target, wiki) {
        Some(names) => names,
        None => {
            return None;
        },
    };
    let pieces = text::split_on(target, '/');
    let names = match walk_names(names, &pieces) {
        Some(names) => names,
        None => {
            return None;
        },
    };
    let path = text::join(&names, "/");
    if attachments::is_selector(path.as_str()) {
        Some(path)
    } else {
        None
    }
}

/// The attachment that the target of a link leads to. See [`resolved`].
pub fn resolve(task_path: &str, target: &[char], wiki: bool, store_prefix: &str) -> (r: Option<
    String,
>)
    ensures
        text::opt(r) == resolved(task_path@, target@, wiki, store_prefix@),
{
    let whole = text::cut(target, 0, target.len());
    assert(whole@ =~= target@);
    let address = text::string(&address_of(&whole));
    let s = match decode(address.as_str()) {
        Some(s) => text::chars(s.as_str()),
        None => {
            return None;
        },
    };
    if wiki {
        let n: usize = s.len();
        let prefix = text::chars(store_prefix);
        let start = text::join2(store_prefix, "/");
        if prefix.len() > 0 && text::is_at(&s, start.as_str(), 0) {
            proof {
                reveal_strlit("/");
                assert("/"@.len() == 1);
            }
            let rest = text::cut(&s, prefix.len() + 1, n);
            return follow(task_path, &rest, true);
        }
    }
    follow(task_path, &s, wiki)
}

/// A link to an attachment: where it leads, its name, and where it begins and ends.
#[verifier::ext_equal]
pub struct MarkModel {
    pub path: Seq<char>,
    pub name: Seq<char>,
    pub start: int,
    pub end: int,
}

/// A link to an attachment, by the places of its first character and of the one behind it.
pub struct Mark {
    pub path: String,
    pub name: String,
    pub start: usize,
    pub end: usize,
}

impl View for Mark {
    type V = MarkModel;

    open spec fn view(&self) -> MarkModel {
        MarkModel {
            path: self.path@,
            name: self.name@,
            start: self.start as int,
            end: self.end as int,
        }
    }
}

/// What links are.
pub open spec fn mark_models(marks: Seq<Mark>) -> Seq<MarkModel> {
    marks.map_values(|mark: Mark| mark@)
}

/// The links of a text to attachments, and the targets that look like attachments and lead to
/// none.
#[verifier::ext_equal]
pub struct Found {
    pub marks: Seq<MarkModel>,
    pub odd: Seq<Seq<char>>,
}

/// How many backslashes stand before a place of a line that begins at `from`.
pub open spec fn slashes(s: Seq<char>, from: int, at: int) -> nat
    decreases at - from,
{
    if at > from && s[at - 1] == '\\' {
        1 + slashes(s, from, at - 1)
    } else {
        0
    }
}

/// Whether a place of a line is escaped.
pub open spec fn escaped(s: Seq<char>, from: int, at: int) -> bool {
    slashes(s, from, at) % 2 == 1
}

fn is_escaped(s: &Vec<char>, from: usize, at: usize) -> (r: bool)
    requires
        from <= at <= s@.len(),
    ensures
        r == escaped(s@, from as int, at as int),
{
    let mut i: usize = at;
    let mut odd = false;
    while i > from && s[i - 1] == '\\'
        invariant
            from <= i <= at <= s@.len(),
            escaped(s@, from as int, at as int) == (odd != escaped(s@, from as int, i as int)),
        decreases i,
    {
        odd = !odd;
        i -= 1;
    }
    odd
}

/// How often the character stands from `at` on, before `end`.
pub open spec fn run(s: Seq<char>, c: char, at: int, end: int) -> int
    decreases end - at,
{
    if at < end && s[at] == c {
        1 + run(s, c, at + 1, end)
    } else {
        0
    }
}

/// How long a run can be.
pub proof fn lemma_run(s: Seq<char>, c: char, at: int, end: int)
    requires
        0 <= at <= end <= s.len(),
    ensures
        0 <= run(s, c, at, end) <= end - at,
        at < end && s[at] == c ==> run(s, c, at, end) > 0,
    decreases end - at,
{
    if at < end && s[at] == c {
        lemma_run(s, c, at + 1, end);
    }
}

fn run_length(s: &Vec<char>, c: char, at: usize, end: usize) -> (r: usize)
    requires
        at <= end <= s@.len(),
    ensures
        r == run(s@, c, at as int, end as int),
        r <= end - at,
        at < end && s@[at as int] == c ==> r > 0,
{
    let mut i: usize = at;
    proof {
        lemma_run(s@, c, at as int, end as int);
    }
    while i < end && s[i] == c
        invariant
            at <= i <= end <= s@.len(),
            run(s@, c, at as int, end as int) == i - at + run(s@, c, i as int, end as int),
        decreases end - i,
    {
        i += 1;
    }
    i - at
}

/// Where the code that opens with so many backticks ends: behind the first run of as many, from
/// `at` on.
pub open spec fn code_end(s: Seq<char>, at: int, ticks: int) -> Option<int>
    decreases s.len() - at,
    when 0 <= at
{
    if at >= s.len() {
        None
    } else if s[at] != '`' {
        code_end(s, at + 1, ticks)
    } else if run(s, '`', at, s.len() as int) == ticks {
        Some(at + ticks)
    } else {
        proof {
            lemma_run(s, '`', at, s.len() as int);
        }
        code_end(s, at + run(s, '`', at, s.len() as int), ticks)
    }
}

pub(crate) proof fn lemma_code_end(s: Seq<char>, at: int, ticks: int)
    requires
        0 <= at <= s.len(),
        ticks > 0,
    ensures
        code_end(s, at, ticks) matches Some(end) ==> at < end <= s.len(),
    decreases s.len() - at,
{
    if at < s.len() {
        if s[at] != '`' {
            lemma_code_end(s, at + 1, ticks);
        } else {
            lemma_run(s, '`', at, s.len() as int);
            lemma_code_end(s, at + run(s, '`', at, s.len() as int), ticks);
        }
    }
}

/// What an optional place is.
pub open spec fn place(o: Option<usize>) -> Option<int> {
    match o {
        Some(i) => Some(i as int),
        None => None,
    }
}

fn find_code_end(s: &Vec<char>, from: usize, ticks: usize) -> (r: Option<usize>)
    requires
        from <= s@.len(),
        ticks > 0,
    ensures
        place(r) == code_end(s@, from as int, ticks as int),
        r matches Some(end) ==> from < end <= s@.len(),
{
    let n: usize = s.len();
    let mut at: usize = from;
    while at < n
        invariant
            from <= at <= n == s@.len(),
            ticks > 0,
            code_end(s@, from as int, ticks as int) == code_end(s@, at as int, ticks as int),
        decreases n - at,
    {
        if s[at] != '`' {
            at += 1;
        } else {
            let length: usize = run_length(s, '`', at, n);
            if length == ticks {
                return Some(at + ticks);
            }
            at += length;
        }
    }
    None
}

/// Where the code that opens at a place of a line ends.
pub open spec fn code_at(s: Seq<char>, from: int, end: int, at: int) -> Option<int> {
    let ticks = run(s, '`', at, end);
    if s[at] == '`' && !escaped(s, from, at) {
        code_end(s, at + ticks, ticks)
    } else {
        None
    }
}

fn code_from(s: &Vec<char>, from: usize, end: usize, at: usize) -> (r: Option<usize>)
    requires
        from <= at < end <= s@.len(),
    ensures
        place(r) == code_at(s@, from as int, end as int, at as int),
        r matches Some(stop) ==> at < stop <= s@.len(),
{
    if s[at] == '`' && !is_escaped(s, from, at) {
        let ticks: usize = run_length(s, '`', at, end);
        find_code_end(s, at + ticks, ticks)
    } else {
        None
    }
}

/// Where `]]` first stands, from `at` on, before `end`.
pub open spec fn wiki_close(s: Seq<char>, at: int, end: int) -> Option<int>
    decreases end - at,
{
    if at + 1 >= end {
        None
    } else if s[at] == ']' && s[at + 1] == ']' {
        Some(at)
    } else {
        wiki_close(s, at + 1, end)
    }
}

fn find_wiki_close(s: &Vec<char>, from: usize, end: usize) -> (r: Option<usize>)
    requires
        from <= end <= s@.len(),
    ensures
        place(r) == wiki_close(s@, from as int, end as int),
        r matches Some(at) ==> from <= at && at + 2 <= end,
{
    let mut at: usize = from;
    while at < end && end - at > 1
        invariant
            from <= at <= end <= s@.len(),
            wiki_close(s@, from as int, end as int) == wiki_close(s@, at as int, end as int),
        decreases end - at,
    {
        if s[at] == ']' && s[at + 1] == ']' {
            return Some(at);
        }
        at += 1;
    }
    None
}

/// Where the bracket closes that encloses a place `depth` deep.
pub open spec fn bracket_close(s: Seq<char>, at: int, depth: int, end: int) -> Option<int>
    decreases end - at + 1,
{
    if at >= end {
        None
    } else if s[at] == '\\' {
        bracket_close(s, at + 2, depth, end)
    } else if s[at] == '[' {
        bracket_close(s, at + 1, depth + 1, end)
    } else if s[at] == ']' {
        if depth == 1 {
            Some(at)
        } else {
            bracket_close(s, at + 1, depth - 1, end)
        }
    } else {
        bracket_close(s, at + 1, depth, end)
    }
}

fn find_bracket_close(s: &Vec<char>, from: usize, end: usize) -> (r: Option<usize>)
    requires
        1 <= from <= end <= s@.len(),
    ensures
        place(r) == bracket_close(s@, from as int, 1, end as int),
        r matches Some(at) ==> from <= at < end,
{
    let n: usize = s.len();
    let mut at: usize = from;
    let mut depth: usize = 1;
    while at < end
        invariant
            1 <= from <= at <= end <= s@.len() == n,
            1 <= depth <= at - from + 1,
            bracket_close(s@, from as int, 1, end as int) == bracket_close(
                s@,
                at as int,
                depth as int,
                end as int,
            ),
        decreases end - at,
    {
        if s[at] == '\\' {
            if end - at <= 1 {
                assert(bracket_close(s@, at + 2, depth as int, end as int) is None);
                return None;
            }
            at += 2;
        } else {
            if s[at] == '[' {
                depth += 1;
            } else if s[at] == ']' {
                if depth == 1 {
                    return Some(at);
                }
                depth -= 1;
            }
            at += 1;
        }
    }
    None
}

/// Where the parenthesis closes that encloses a place `depth` deep, on a line that begins at
/// `from`. Escaped ones do not count.
pub open spec fn paren_close(s: Seq<char>, from: int, at: int, depth: int, end: int) -> Option<int>
    decreases end - at,
{
    if at >= end {
        None
    } else if !escaped(s, from, at) && s[at] == '(' {
        paren_close(s, from, at + 1, depth + 1, end)
    } else if !escaped(s, from, at) && s[at] == ')' {
        if depth == 1 {
            Some(at)
        } else {
            paren_close(s, from, at + 1, depth - 1, end)
        }
    } else {
        paren_close(s, from, at + 1, depth, end)
    }
}

fn find_paren_close(s: &Vec<char>, from: usize, start: usize, end: usize) -> (r: Option<usize>)
    requires
        from < start <= end <= s@.len(),
    ensures
        place(r) == paren_close(s@, from as int, start as int, 1, end as int),
        r matches Some(at) ==> start <= at < end,
{
    let mut at: usize = start;
    let mut depth: usize = 1;
    while at < end
        invariant
            from < start <= at <= end <= s@.len(),
            1 <= depth <= at - start + 1,
            paren_close(s@, from as int, start as int, 1, end as int) == paren_close(
                s@,
                from as int,
                at as int,
                depth as int,
                end as int,
            ),
        decreases end - at,
    {
        if !is_escaped(s, from, at) {
            if s[at] == '(' {
                depth += 1;
            } else if s[at] == ')' {
                if depth == 1 {
                    return Some(at);
                }
                depth -= 1;
            }
        }
        at += 1;
    }
    None
}

/// Where the label of an inline link closes that opens at `bracket`, and where its target does.
pub open spec fn inline_close(s: Seq<char>, from: int, bracket: int, end: int) -> Option<
    (int, int),
> {
    match bracket_close(s, bracket + 1, 1, end) {
        Some(close) => if close + 1 < end && s[close + 1] == '(' {
            match paren_close(s, from, close + 2, 1, end) {
                Some(stop) => Some((close, stop)),
                None => None,
            }
        } else {
            None
        },
        None => None,
    }
}

/// The end of the first word of a text, from `i` on.
pub open spec fn word_end(s: Seq<char>, i: int) -> int
    decreases s.len() - i,
{
    if i < s.len() && !text::is_whitespace(s[i]) {
        word_end(s, i + 1)
    } else {
        i
    }
}

/// The target that an inline link has between its parentheses: what stands in `<>`, else the
/// first word.
pub open spec fn inline_target(inside: Seq<char>) -> Seq<char> {
    let s = text::trim(inside);
    if s.len() > 0 && s[0] == '<' {
        s.subrange(1, text::find_from(s, '>', 1))
    } else {
        s.subrange(0, word_end(s, 0))
    }
}

fn target_of(inside: &Vec<char>) -> (r: Vec<char>)
    ensures
        r@ == inline_target(inside@),
{
    let s = text::trimmed(inside);
    if s.len() > 0 && s[0] == '<' {
        return text::cut(&s, 1, text::find_char(&s, '>', 1));
    }
    let mut i: usize = 0;
    while i < s.len() && !text::is_whitespace(s[i])
        invariant
            i <= s@.len(),
            word_end(s@, 0) == word_end(s@, i as int),
        decreases s.len() - i,
    {
        i += 1;
    }
    text::cut(&s, 0, i)
}

/// A label from the `i`-th character on, without the backslashes that escape punctuation.
pub open spec fn plain_label(s: Seq<char>, i: int) -> Seq<char>
    decreases s.len() - i,
{
    if i >= s.len() {
        seq![]
    } else if s[i] == '\\' && i + 1 < s.len() && text::is_punctuation(s[i + 1]) {
        seq![s[i + 1]] + plain_label(s, i + 2)
    } else {
        seq![s[i]] + plain_label(s, i + 1)
    }
}

fn unescape_label(s: &Vec<char>) -> (r: String)
    ensures
        r@ == plain_label(s@, 0),
{
    let n: usize = s.len();
    let mut r = String::new();
    let mut i: usize = 0;
    assert(r@ + plain_label(s@, 0) =~= plain_label(s@, 0));
    while i < n
        invariant
            i <= n == s@.len(),
            plain_label(s@, 0) == r@ + plain_label(s@, i as int),
        decreases n - i,
    {
        let ghost had = r@;
        if s[i] == '\\' && n - i > 1 && text::is_punctuation(s[i + 1]) {
            r.push(s[i + 1]);
            assert(had + (seq![s@[i + 1]] + plain_label(s@, i + 2)) =~= r@ + plain_label(
                s@,
                i + 2,
            ));
            i += 2;
        } else {
            r.push(s[i]);
            assert(had + (seq![s@[i as int]] + plain_label(s@, i + 1)) =~= r@ + plain_label(
                s@,
                i + 1,
            ));
            i += 1;
        }
    }
    assert(r@ + Seq::<char>::empty() =~= r@);
    r
}

/// Whether a target looks like that of an attachment.
pub open spec fn attachment_like(target: Seq<char>) -> bool {
    let e = attachments::extension(target);
    &&& !text::within(target, "://"@)
    &&& !text::begins(target, "mailto:"@)
    &&& (text::within(target, "Attachments/"@) || attachments::image(target) || e == "pdf"@ || e
        == "zip"@ || e == "docx"@ || e == "xlsx"@ || e == "pptx"@)
}

fn is_attachment_like(target: &Vec<char>) -> (r: bool)
    ensures
        r == attachment_like(target@),
{
    if text::is_within(target, "://") || text::is_at(target, "mailto:", 0) {
        return false;
    }
    let e = attachments::extension_of(target);
    text::is_within(target, "Attachments/") || attachments::is_image(
        text::string(target).as_str(),
    ) || text::spells(&e, "pdf") || text::spells(&e, "zip") || text::spells(&e, "docx")
        || text::spells(&e, "xlsx") || text::spells(&e, "pptx")
}

/// What follows the last `/` of a path; all of it where there is none.
pub open spec fn last_name(path: Seq<char>) -> Seq<char> {
    path.subrange(text::find_back(path, '/', path.len() as int) + 1, path.len() as int)
}

/// See [`last_name`].
pub fn last_name_of(path: &str) -> (r: String)
    ensures
        r@ == last_name(path@),
{
    let s = text::chars(path);
    let n: usize = s.len();
    match text::find_last(&s, '/') {
        Some(at) => text::string(&text::cut(&s, at + 1, n)),
        None => text::string(&text::cut(&s, 0, n)),
    }
}

/// What is found with a wikilink more, which begins at `start` and has `s[open..close]`
/// between its brackets.
pub open spec fn with_wiki(
    s: Seq<char>,
    start: int,
    open: int,
    close: int,
    task_path: Seq<char>,
    store_prefix: Seq<char>,
    found: Found,
) -> Found {
    let inside = s.subrange(open, close);
    let bar = text::find_from(inside, '|', 0);
    let target = inside.subrange(0, bar);
    match resolved(task_path, target, true, store_prefix) {
        Some(path) => Found {
            marks: found.marks.push(
                MarkModel {
                    path,
                    name: if bar < inside.len() {
                        inside.subrange(bar + 1, inside.len() as int)
                    } else {
                        last_name(path)
                    },
                    start,
                    end: close + 2,
                },
            ),
            odd: found.odd,
        },
        None => if attachment_like(target) {
            Found { marks: found.marks, odd: found.odd.push(target) }
        } else {
            found
        },
    }
}

/// What is found with an inline link more, which begins at `start`, has `s[open..close]` as its
/// label, and ends with the parenthesis at `stop`.
pub open spec fn with_inline(
    s: Seq<char>,
    start: int,
    open: int,
    close: int,
    stop: int,
    task_path: Seq<char>,
    store_prefix: Seq<char>,
    found: Found,
) -> Found {
    let target = inline_target(s.subrange(close + 2, stop));
    match resolved(task_path, target, false, store_prefix) {
        Some(path) => Found {
            marks: found.marks.push(
                MarkModel {
                    path,
                    name: plain_label(s.subrange(open, close), 0),
                    start,
                    end: stop + 1,
                },
            ),
            odd: found.odd,
        },
        None => if attachment_like(target) {
            Found { marks: found.marks, odd: found.odd.push(target) }
        } else {
            found
        },
    }
}

/// How far a line has been read: the place, where code ends that has been entered, and what has
/// been found.
#[verifier::ext_equal]
pub struct Reading {
    pub at: int,
    pub until: int,
    pub found: Found,
}

/// Where the bracket of a link stands that begins at a place.
pub open spec fn bracket_of(s: Seq<char>, at: int, end: int) -> int {
    if s[at] == '!' && at + 1 < end && s[at + 1] == '[' {
        at + 1
    } else {
        at
    }
}

/// Read on from one place of the line that begins at `from` and ends before `end`.
pub open spec fn read_one(
    s: Seq<char>,
    from: int,
    end: int,
    task_path: Seq<char>,
    store_prefix: Seq<char>,
    state: Reading,
) -> Reading {
    let at = state.at;
    let bracket = bracket_of(s, at, end);
    if at < state.until {
        Reading {
            at: if state.until < end {
                state.until
            } else {
                end
            },
            ..state
        }
    } else if code_at(s, from, end, at) is Some {
        Reading { until: code_at(s, from, end, at)->0, ..state }
    } else if s[bracket] != '[' || escaped(s, from, at) {
        Reading { at: at + 1, ..state }
    } else if bracket + 1 < end && s[bracket + 1] == '[' {
        match wiki_close(s, bracket + 2, end) {
            Some(close) => Reading {
                at: close + 2,
                until: state.until,
                found: with_wiki(
                    s,
                    at,
                    bracket + 2,
                    close,
                    task_path,
                    store_prefix,
                    state.found,
                ),
            },
            None => Reading { at: bracket + 1, ..state },
        }
    } else {
        match inline_close(s, from, bracket, end) {
            Some((close, stop)) => Reading {
                at: stop + 1,
                until: state.until,
                found: with_inline(
                    s,
                    at,
                    bracket + 1,
                    close,
                    stop,
                    task_path,
                    store_prefix,
                    state.found,
                ),
            },
            None => Reading { at: bracket + 1, ..state },
        }
    }
}

pub(crate) proof fn lemma_bracket_close(s: Seq<char>, at: int, depth: int, end: int)
    ensures
        bracket_close(s, at, depth, end) matches Some(close) ==> at <= close < end,
    decreases end - at + 1,
{
    if at < end {
        lemma_bracket_close(s, at + 2, depth, end);
        lemma_bracket_close(s, at + 1, depth + 1, end);
        lemma_bracket_close(s, at + 1, depth - 1, end);
        lemma_bracket_close(s, at + 1, depth, end);
    }
}

pub(crate) proof fn lemma_paren_close(s: Seq<char>, from: int, at: int, depth: int, end: int)
    ensures
        paren_close(s, from, at, depth, end) matches Some(close) ==> at <= close < end,
    decreases end - at,
{
    if at < end {
        lemma_paren_close(s, from, at + 1, depth + 1, end);
        lemma_paren_close(s, from, at + 1, depth - 1, end);
        lemma_paren_close(s, from, at + 1, depth, end);
    }
}

pub(crate) proof fn lemma_wiki_close(s: Seq<char>, at: int, end: int)
    ensures
        wiki_close(s, at, end) matches Some(close) ==> at <= close && close + 2 <= end,
    decreases end - at,
{
    if at + 1 < end {
        lemma_wiki_close(s, at + 1, end);
    }
}

/// Reading goes on, and does not leave the line.
pub proof fn lemma_read_one(
    s: Seq<char>,
    from: int,
    end: int,
    task_path: Seq<char>,
    store_prefix: Seq<char>,
    state: Reading,
)
    requires
        0 <= from <= state.at < end <= s.len(),
    ensures
        ({
            let next = read_one(s, from, end, task_path, store_prefix, state);
            &&& state.at <= next.at <= end
            &&& next.at > state.at || (next.until > next.at && state.until <= state.at)
            &&& next.until == state.until || next.at < next.until <= s.len()
        }),
{
    let at = state.at;
    let bracket = bracket_of(s, at, end);
    lemma_run(s, '`', at, end);
    if s[at] == '`' {
        lemma_code_end(s, at + run(s, '`', at, end), run(s, '`', at, end));
    }
    lemma_wiki_close(s, bracket + 2, end);
    lemma_bracket_close(s, bracket + 1, 1, end);
    if let Some(close) = bracket_close(s, bracket + 1, 1, end) {
        lemma_paren_close(s, from, close + 2, 1, end);
    }
}

/// Whether code has been entered that ends behind the place.
pub open spec fn in_code(state: Reading) -> int {
    if state.until > state.at {
        0
    } else {
        1
    }
}

/// Read the line that begins at `from` and ends before `end` to its end.
pub open spec fn read_line(
    s: Seq<char>,
    from: int,
    end: int,
    task_path: Seq<char>,
    store_prefix: Seq<char>,
    state: Reading,
) -> Reading
    decreases end - state.at, in_code(state),
    when 0 <= from <= state.at && end <= s.len()
{
    if state.at >= end {
        state
    } else {
        proof {
            lemma_read_one(s, from, end, task_path, store_prefix, state);
        }
        read_line(
            s,
            from,
            end,
            task_path,
            store_prefix,
            read_one(s, from, end, task_path, store_prefix, state),
        )
    }
}

/// A fence of code: the character it is made of, and how many.
pub type Fence = Option<(char, int)>;

/// Where the line that begins at `from` ends, its `\n` included.
pub open spec fn line_stop(s: Seq<char>, from: int) -> int {
    let at = text::find_from(s, '\n', from);
    if at < s.len() {
        at + 1
    } else {
        s.len() as int
    }
}

/// Whether the line from `from` to `end` opens or closes a fence, by the place at which its
/// spaces end.
pub open spec fn fence_line(s: Seq<char>, from: int, start: int, end: int) -> bool {
    &&& start - from <= 3
    &&& start < end
    &&& s[start] == '`' || s[start] == '~'
    &&& run(s, s[start], start, end) >= 3
}

/// The fence after a line that opens or closes one.
pub open spec fn next_fence(s: Seq<char>, start: int, end: int, fence: Fence) -> Fence {
    let length = run(s, s[start], start, end);
    match fence {
        Some((open, ticks)) => if s[start] == open && length >= ticks && text::blank(
            s.subrange(start + length, end),
        ) {
            None
        } else {
            fence
        },
        None => Some((s[start], length)),
    }
}

/// What is found in the lines from `from` on. What stands in fenced or indented code does not
/// count.
pub open spec fn read_lines(
    s: Seq<char>,
    from: int,
    task_path: Seq<char>,
    store_prefix: Seq<char>,
    until: int,
    fence: Fence,
    found: Found,
) -> Found
    decreases s.len() - from,
    when 0 <= from
{
    if from >= s.len() {
        found
    } else {
        proof {
            text::lemma_find_from(s, '\n', from);
        }
        let end = line_stop(s, from);
        let start = from + run(s, ' ', from, end);
        if fence_line(s, from, start, end) {
            read_lines(
                s,
                end,
                task_path,
                store_prefix,
                until,
                next_fence(s, start, end, fence),
                found,
            )
        } else if fence is Some || start - from >= 4 || s[from] == '\t' {
            read_lines(s, end, task_path, store_prefix, until, fence, found)
        } else {
            let state = read_line(
                s,
                from,
                end,
                task_path,
                store_prefix,
                Reading { at: from, until, found },
            );
            read_lines(s, end, task_path, store_prefix, state.until, fence, state.found)
        }
    }
}

/// The links of a body to attachments, and the targets that look like attachments and lead to
/// none.
pub open spec fn found_in(body: Seq<char>, task_path: Seq<char>, store_prefix: Seq<char>) -> Found {
    read_lines(
        body,
        0,
        task_path,
        store_prefix,
        0,
        None,
        Found { marks: seq![], odd: seq![] },
    )
}

/// The links and odd targets found so far, in code.
pub struct Findings {
    pub marks: Vec<Mark>,
    pub odd: Vec<String>,
}

impl View for Findings {
    type V = Found;

    open spec fn view(&self) -> Found {
        Found { marks: mark_models(self.marks@), odd: text::strings(self.odd@) }
    }
}

impl Findings {
    fn add_mark(&mut self, path: String, name: String, start: usize, end: usize)
        ensures
            final(self)@ == (Found {
                marks: old(self)@.marks.push(
                    MarkModel { path: path@, name: name@, start: start as int, end: end as int },
                ),
                odd: old(self)@.odd,
            }),
    {
        let mark = Mark { path, name, start, end };
        let ghost had = mark_models(self.marks@);
        self.marks.push(mark);
        assert(mark_models(self.marks@) =~= had.push(mark@));
    }

    fn add_odd(&mut self, target: &Vec<char>)
        ensures
            final(self)@ == (if attachment_like(target@) {
                Found { marks: old(self)@.marks, odd: old(self)@.odd.push(target@) }
            } else {
                old(self)@
            }),
    {
        if is_attachment_like(target) {
            let ghost had = text::strings(self.odd@);
            self.odd.push(text::string(target));
            assert(text::strings(self.odd@) =~= had.push(target@));
        }
    }

    fn add_wiki(
        &mut self,
        s: &Vec<char>,
        start: usize,
        open: usize,
        close: usize,
        task_path: &str,
        store_prefix: &str,
    )
        requires
            open <= close,
            close + 2 <= s@.len(),
        ensures
            final(self)@ == with_wiki(
                s@,
                start as int,
                open as int,
                close as int,
                task_path@,
                store_prefix@,
                old(self)@,
            ),
    {
        let n: usize = s.len();
        let inside = text::cut(s, open, close);
        let length: usize = inside.len();
        let bar: usize = text::find_char(&inside, '|', 0);
        let target = text::cut(&inside, 0, bar);
        match resolve(task_path, &target, true, store_prefix) {
            Some(path) => {
                let name = if bar < length {
                    text::string(&text::cut(&inside, bar + 1, length))
                } else {
                    last_name_of(path.as_str())
                };
                self.add_mark(path, name, start, close + 2);
            },
            None => {
                self.add_odd(&target);
            },
        }
    }

    fn add_inline(
        &mut self,
        s: &Vec<char>,
        start: usize,
        open: usize,
        close: usize,
        stop: usize,
        task_path: &str,
        store_prefix: &str,
    )
        requires
            open <= close,
            close + 2 <= stop < s@.len(),
        ensures
            final(self)@ == with_inline(
                s@,
                start as int,
                open as int,
                close as int,
                stop as int,
                task_path@,
                store_prefix@,
                old(self)@,
            ),
    {
        let n: usize = s.len();
        let target = target_of(&text::cut(s, close + 2, stop));
        match resolve(task_path, &target, false, store_prefix) {
            Some(path) => {
                let name = unescape_label(&text::cut(s, open, close));
                self.add_mark(path, name, start, stop + 1);
            },
            None => {
                self.add_odd(&target);
            },
        }
    }

    /// See [`read_one`]. What comes back are the next place and where code ends.
    fn read_one(
        &mut self,
        s: &Vec<char>,
        from: usize,
        end: usize,
        task_path: &str,
        store_prefix: &str,
        at: usize,
        until: usize,
    ) -> (r: (usize, usize))
        requires
            from <= at < end <= s@.len(),
        ensures
            (Reading { at: r.0 as int, until: r.1 as int, found: final(self)@ }) == read_one(
                s@,
                from as int,
                end as int,
                task_path@,
                store_prefix@,
                Reading { at: at as int, until: until as int, found: old(self)@ },
            ),
    {
        let n: usize = s.len();
        if at < until {
            return (
                if until < end {
                    until
                } else {
                    end
                },
                until,
            );
        }
        if let Some(stop) = code_from(s, from, end, at) {
            return (at, stop);
        }
        let bracket: usize = if s[at] == '!' && end - at > 1 && s[at + 1] == '[' {
            at + 1
        } else {
            at
        };
        if s[bracket] != '[' || is_escaped(s, from, at) {
            return (at + 1, until);
        }
        if end - bracket > 1 && s[bracket + 1] == '[' {
            if let Some(close) = find_wiki_close(s, bracket + 2, end) {
                self.add_wiki(s, at, bracket + 2, close, task_path, store_prefix);
                return (close + 2, until);
            }
        } else if let Some(close) = find_bracket_close(s, bracket + 1, end) {
            if end - close > 1 && s[close + 1] == '(' {
                if let Some(stop) = find_paren_close(s, from, close + 2, end) {
                    self.add_inline(
                        s,
                        at,
                        bracket + 1,
                        close,
                        stop,
                        task_path,
                        store_prefix,
                    );
                    return (stop + 1, until);
                }
            }
        }
        (bracket + 1, until)
    }

    /// See [`read_line`]. What comes back is where code ends.
    fn read_line(
        &mut self,
        s: &Vec<char>,
        from: usize,
        end: usize,
        task_path: &str,
        store_prefix: &str,
        until: usize,
    ) -> (r: usize)
        requires
            from <= end <= s@.len(),
        ensures
            ({
                let state = read_line(
                    s@,
                    from as int,
                    end as int,
                    task_path@,
                    store_prefix@,
                    Reading { at: from as int, until: until as int, found: old(self)@ },
                );
                r == state.until && final(self)@ == state.found
            }),
    {
        let mut at: usize = from;
        let mut code: usize = until;
        let ghost whole = read_line(
            s@,
            from as int,
            end as int,
            task_path@,
            store_prefix@,
            Reading { at: from as int, until: until as int, found: self@ },
        );
        while at < end
            invariant
                from <= at <= end <= s@.len(),
                whole == read_line(
                    s@,
                    from as int,
                    end as int,
                    task_path@,
                    store_prefix@,
                    Reading { at: at as int, until: code as int, found: self@ },
                ),
            decreases end - at, in_code(Reading { at: at as int, until: code as int, found: self@ }),
        {
            proof {
                lemma_read_one(
                    s@,
                    from as int,
                    end as int,
                    task_path@,
                    store_prefix@,
                    Reading { at: at as int, until: code as int, found: self@ },
                );
            }
            let next = self.read_one(s, from, end, task_path, store_prefix, at, code);
            at = next.0;
            code = next.1;
        }
        code
    }
}

/// The fence as values.
spec fn fence_of(fence: Option<(char, usize)>) -> Fence {
    match fence {
        Some((c, n)) => Some((c, n as int)),
        None => None,
    }
}

fn after_fence(s: &Vec<char>, start: usize, end: usize, fence: Option<(char, usize)>) -> (r: Option<
    (char, usize),
>)
    requires
        start < end <= s@.len(),
    ensures
        fence_of(r) == next_fence(s@, start as int, end as int, fence_of(fence)),
{
    let length: usize = run_length(s, s[start], start, end);
    match fence {
        Some((open, ticks)) => {
            let rest = text::cut(s, start + length, end);
            if s[start] == open && length >= ticks && text::is_blank(&rest) {
                None
            } else {
                fence
            }
        },
        None => Some((s[start], length)),
    }
}

/// The links of a body to attachments, and the targets that look like attachments and lead to
/// none. See [`found_in`].
pub(crate) fn parse_links(body: &str, task_path: &str, store_prefix: &str) -> (r: Findings)
    ensures
        r@ == found_in(body@, task_path@, store_prefix@),
{
    let s = text::chars(body);
    let n: usize = s.len();
    let mut findings = Findings { marks: Vec::new(), odd: Vec::new() };
    assert(findings@ =~= Found { marks: seq![], odd: seq![] });
    let mut from: usize = 0;
    let mut until: usize = 0;
    let mut fence: Option<(char, usize)> = None;
    while from < n
        invariant
            from <= n == s@.len(),
            s@ == body@,
            found_in(body@, task_path@, store_prefix@) == read_lines(
                s@,
                from as int,
                task_path@,
                store_prefix@,
                until as int,
                fence_of(fence),
                findings@,
            ),
        decreases n - from,
    {
        let newline: usize = text::find_char(&s, '\n', from);
        let end: usize = if newline < n {
            newline + 1
        } else {
            n
        };
        let indent: usize = run_length(&s, ' ', from, end);
        let start: usize = from + indent;
        if indent <= 3 && start < end && (s[start] == '`' || s[start] == '~') && run_length(
            &s,
            s[start],
            start,
            end,
        ) >= 3 {
            fence = after_fence(&s, start, end, fence);
        } else if fence.is_some() || indent >= 4 || s[from] == '\t' {
        } else {
            until = findings.read_line(&s, from, end, task_path, store_prefix, until);
        }
        from = end;
    }
    findings
}

/// Whether links follow one another between `0` and `limit`.
pub open spec fn in_sequence(marks: Seq<MarkModel>, limit: int) -> bool {
    &&& forall|i: int|
        0 <= i < marks.len() ==> 0 <= (#[trigger] marks[i]).start < marks[i].end <= limit
    &&& forall|i: int, j: int|
        0 <= i < j < marks.len() ==> (#[trigger] marks[i]).end <= (#[trigger] marks[j]).start
}

proof fn lemma_in_sequence_one(
    s: Seq<char>,
    from: int,
    end: int,
    task_path: Seq<char>,
    store_prefix: Seq<char>,
    state: Reading,
)
    requires
        0 <= from <= state.at < end <= s.len(),
        in_sequence(state.found.marks, state.at),
    ensures
        ({
            let next = read_one(s, from, end, task_path, store_prefix, state);
            in_sequence(next.found.marks, next.at)
        }),
{
    let at = state.at;
    let bracket = bracket_of(s, at, end);
    lemma_read_one(s, from, end, task_path, store_prefix, state);
    lemma_wiki_close(s, bracket + 2, end);
    lemma_bracket_close(s, bracket + 1, 1, end);
    if let Some(close) = bracket_close(s, bracket + 1, 1, end) {
        lemma_paren_close(s, from, close + 2, 1, end);
    }
}

proof fn lemma_in_sequence_line(
    s: Seq<char>,
    from: int,
    end: int,
    task_path: Seq<char>,
    store_prefix: Seq<char>,
    state: Reading,
)
    requires
        0 <= from <= state.at <= end <= s.len(),
        in_sequence(state.found.marks, state.at),
    ensures
        in_sequence(
            read_line(s, from, end, task_path, store_prefix, state).found.marks,
            end,
        ),
    decreases end - state.at, in_code(state),
{
    if state.at < end {
        lemma_read_one(s, from, end, task_path, store_prefix, state);
        lemma_in_sequence_one(s, from, end, task_path, store_prefix, state);
        lemma_in_sequence_line(
            s,
            from,
            end,
            task_path,
            store_prefix,
            read_one(s, from, end, task_path, store_prefix, state),
        );
    }
}

proof fn lemma_in_sequence_lines(
    s: Seq<char>,
    from: int,
    task_path: Seq<char>,
    store_prefix: Seq<char>,
    until: int,
    fence: Fence,
    found: Found,
)
    requires
        0 <= from <= s.len(),
        in_sequence(found.marks, from),
    ensures
        in_sequence(
            read_lines(s, from, task_path, store_prefix, until, fence, found).marks,
            s.len() as int,
        ),
    decreases s.len() - from,
{
    if from < s.len() {
        text::lemma_find_from(s, '\n', from);
        let end = line_stop(s, from);
        let start = from + run(s, ' ', from, end);
        if fence_line(s, from, start, end) {
            lemma_in_sequence_lines(
                s,
                end,
                task_path,
                store_prefix,
                until,
                next_fence(s, start, end, fence),
                found,
            );
        } else if fence is Some || start - from >= 4 || s[from] == '\t' {
            lemma_in_sequence_lines(s, end, task_path, store_prefix, until, fence, found);
        } else {
            let first = Reading { at: from, until, found };
            let state = read_line(s, from, end, task_path, store_prefix, first);
            lemma_in_sequence_line(s, from, end, task_path, store_prefix, first);
            lemma_in_sequence_lines(
                s,
                end,
                task_path,
                store_prefix,
                state.until,
                fence,
                state.found,
            );
        }
    }
}

/// The links of a body follow one another; no two overlap.
pub proof fn links_do_not_overlap(
    body: Seq<char>,
    task_path: Seq<char>,
    store_prefix: Seq<char>,
)
    ensures
        in_sequence(found_in(body, task_path, store_prefix).marks, body.len() as int),
{
    lemma_in_sequence_lines(
        body,
        0,
        task_path,
        store_prefix,
        0,
        None,
        Found { marks: seq![], odd: seq![] },
    );
}

} // verus!
