//! Characters and strings: what a text is made of, how it is cut and put together.
//!
//! A text is modelled by its sequence of characters. Executable code works on a
//! `Vec<char>` or a slice of one, taken from a string by [`chars`] and turned back
//! by [`string`].
use vstd::prelude::*;

verus! {

/// `String::push` appends the given character.
pub assume_specification[ String::push ](s: &mut String, c: char)
    ensures
        final(s)@ == old(s)@.push(c),
;

/// `str::eq` holds of exactly the pairs that are made of the same characters.
pub assume_specification[ <str as PartialEq<str>>::eq ](a: &str, b: &str) -> (r: bool)
    ensures
        r == (a@ == b@),
;

/// Whether both strings are made of the same characters.
pub fn same(a: &str, b: &str) -> (r: bool)
    ensures
        r == (a@ == b@),
{
    *a == *b
}

/// The characters of a string, in order.
pub fn chars(s: &str) -> (result: Vec<char>)
    ensures
        result@ == s@,
{
    let mut result: Vec<char> = Vec::new();
    for c in iter: s.chars()
        invariant
            result@ == iter.seq().take(iter.index() as int),
            iter.seq() == s@,
    {
        result.push(c);
    }
    result
}

/// The string made of the given characters.
pub fn string(chars: &[char]) -> (result: String)
    ensures
        result@ == chars@,
{
    let mut result = String::new();
    let mut i: usize = 0;
    while i < chars.len()
        invariant
            i <= chars.len(),
            result@ == chars@.take(i as int),
        decreases chars.len() - i,
    {
        result.push(chars[i]);
        i += 1;
    }
    result
}

/// A copy of a stretch of characters.
pub fn cut(s: &[char], from: usize, to: usize) -> (result: Vec<char>)
    requires
        from <= to <= s@.len(),
    ensures
        result@ == s@.subrange(from as int, to as int),
{
    let mut result: Vec<char> = Vec::new();
    let mut i: usize = from;
    while i < to
        invariant
            from <= i <= to <= s@.len(),
            result@ == s@.subrange(from as int, i as int),
        decreases to - i,
    {
        result.push(s[i]);
        i += 1;
    }
    result
}

/// The two strings, one after the other.
pub fn join2(a: &str, b: &str) -> (r: String)
    ensures
        r@ == a@ + b@,
{
    let mut r = a.to_owned();
    r.append(b);
    r
}

/// The three strings, one after the other.
pub fn join3(a: &str, b: &str, c: &str) -> (r: String)
    ensures
        r@ == a@ + b@ + c@,
{
    let mut r = a.to_owned();
    r.append(b);
    r.append(c);
    r
}

/// The four strings, one after the other.
pub fn join4(a: &str, b: &str, c: &str, d: &str) -> (r: String)
    ensures
        r@ == a@ + b@ + c@ + d@,
{
    let mut r = a.to_owned();
    r.append(b);
    r.append(c);
    r.append(d);
    r
}

/// The five strings, one after the other.
pub fn join5(a: &str, b: &str, c: &str, d: &str, e: &str) -> (r: String)
    ensures
        r@ == a@ + b@ + c@ + d@ + e@,
{
    let mut r = a.to_owned();
    r.append(b);
    r.append(c);
    r.append(d);
    r.append(e);
    r
}

/// What `format!("{:?}", s)` writes for a string: the characters between double
/// quotes, escaped as `str::escape_debug` does.
pub uninterp spec fn debug_text(s: Seq<char>) -> Seq<char>;

/// The `Debug` form of a string. Which characters are escaped is not stated.
#[verifier::external_body]
pub(crate) fn debug(s: &str) -> (r: String)
    ensures
        r@ == debug_text(s@),
{
    format!("{s:?}")
}

/// What `str::to_lowercase` makes of a string.
pub uninterp spec fn lowercase_text(s: Seq<char>) -> Seq<char>;

/// `str::to_lowercase`, the Unicode lowercase form. The case tables are not stated.
#[verifier::external_body]
pub(crate) fn to_lowercase(s: &str) -> (r: String)
    ensures
        r@ == lowercase_text(s@),
{
    s.to_lowercase()
}

/// What `char::is_alphanumeric` says of a character.
pub uninterp spec fn alphanumeric(c: char) -> bool;

/// `char::is_alphanumeric`: a Unicode letter or number. The tables are not stated.
#[verifier::external_body]
pub(crate) fn is_alphanumeric(c: char) -> (r: bool)
    ensures
        r == alphanumeric(c),
{
    c.is_alphanumeric()
}

/// The Unicode property `White_Space`.
#[verifier::allow_in_spec]
pub fn is_whitespace(c: char) -> bool
    returns
        ('\u{9}' <= c && c <= '\u{d}') || c == ' ' || c == '\u{85}' || c == '\u{a0}'
            || c == '\u{1680}' || ('\u{2000}' <= c && c <= '\u{200a}') || c == '\u{2028}'
            || c == '\u{2029}' || c == '\u{202f}' || c == '\u{205f}' || c == '\u{3000}',
{
    ('\u{9}' <= c && c <= '\u{d}') || c == ' ' || c == '\u{85}' || c == '\u{a0}' || c
        == '\u{1680}' || ('\u{2000}' <= c && c <= '\u{200a}') || c == '\u{2028}' || c
        == '\u{2029}' || c == '\u{202f}' || c == '\u{205f}' || c == '\u{3000}'
}

/// The Unicode general category `Cc`.
#[verifier::allow_in_spec]
pub fn is_control(c: char) -> bool
    returns
        c <= '\u{1f}' || ('\u{7f}' <= c && c <= '\u{9f}'),
{
    c <= '\u{1f}' || ('\u{7f}' <= c && c <= '\u{9f}')
}

/// `0` to `9`.
#[verifier::allow_in_spec]
pub fn is_digit(c: char) -> bool
    returns
        '0' <= c && c <= '9',
{
    '0' <= c && c <= '9'
}

/// `a` to `z`.
#[verifier::allow_in_spec]
pub fn is_lower(c: char) -> bool
    returns
        'a' <= c && c <= 'z',
{
    'a' <= c && c <= 'z'
}

/// `A` to `Z`.
#[verifier::allow_in_spec]
pub fn is_upper(c: char) -> bool
    returns
        'A' <= c && c <= 'Z',
{
    'A' <= c && c <= 'Z'
}

/// An ASCII letter.
#[verifier::allow_in_spec]
pub fn is_alpha(c: char) -> bool
    returns
        is_lower(c) || is_upper(c),
{
    is_lower(c) || is_upper(c)
}

/// An ASCII letter or digit.
#[verifier::allow_in_spec]
pub fn is_alnum(c: char) -> bool
    returns
        is_alpha(c) || is_digit(c),
{
    is_alpha(c) || is_digit(c)
}

/// A hexadecimal digit, in either case.
#[verifier::allow_in_spec]
pub fn is_hex(c: char) -> bool
    returns
        is_digit(c) || ('a' <= c && c <= 'f') || ('A' <= c && c <= 'F'),
{
    is_digit(c) || ('a' <= c && c <= 'f') || ('A' <= c && c <= 'F')
}

/// ASCII punctuation.
#[verifier::allow_in_spec]
pub fn is_punctuation(c: char) -> bool
    returns
        ('!' <= c && c <= '/') || (':' <= c && c <= '@') || ('[' <= c && c <= '`') || ('{' <= c && c
            <= '~'),
{
    ('!' <= c && c <= '/') || (':' <= c && c <= '@') || ('[' <= c && c <= '`') || ('{' <= c && c
        <= '~')
}

/// The ASCII capital of a small letter; any other character as it is.
pub open spec fn upper_char(c: char) -> char {
    if is_lower(c) {
        ((c as int) - 32) as char
    } else {
        c
    }
}

/// The ASCII small letter of a capital; any other character as it is.
pub open spec fn lower_char(c: char) -> char {
    if is_upper(c) {
        ((c as int) + 32) as char
    } else {
        c
    }
}

/// The text with ASCII small letters made capitals.
pub open spec fn upper(s: Seq<char>) -> Seq<char> {
    s.map_values(|c: char| upper_char(c))
}

/// The text with ASCII capitals made small letters.
pub open spec fn lower(s: Seq<char>) -> Seq<char> {
    s.map_values(|c: char| lower_char(c))
}

/// See [`upper_char`].
pub fn to_upper_char(c: char) -> (r: char)
    ensures
        r == upper_char(c),
{
    if is_lower(c) {
        (c as u8 - 32) as char
    } else {
        c
    }
}

/// See [`lower_char`].
pub fn to_lower_char(c: char) -> (r: char)
    ensures
        r == lower_char(c),
{
    if is_upper(c) {
        (c as u8 + 32) as char
    } else {
        c
    }
}

/// See [`upper`].
pub fn to_upper(s: &[char]) -> (r: Vec<char>)
    ensures
        r@ == upper(s@),
{
    let mut r: Vec<char> = Vec::new();
    let mut i: usize = 0;
    while i < s.len()
        invariant
            i <= s.len(),
            r@ == upper(s@.take(i as int)),
        decreases s.len() - i,
    {
        r.push(to_upper_char(s[i]));
        i += 1;
    }
    assert(s@.take(i as int) == s@);
    r
}

/// See [`lower`].
pub fn to_lower(s: &[char]) -> (r: Vec<char>)
    ensures
        r@ == lower(s@),
{
    let mut r: Vec<char> = Vec::new();
    let mut i: usize = 0;
    while i < s.len()
        invariant
            i <= s.len(),
            r@ == lower(s@.take(i as int)),
        decreases s.len() - i,
    {
        r.push(to_lower_char(s[i]));
        i += 1;
    }
    assert(s@.take(i as int) == s@);
    r
}

/// The ASCII capital form of a string.
pub fn upper_string(s: &str) -> (r: String)
    ensures
        r@ == upper(s@),
{
    let v = chars(s);
    string(&to_upper(&v))
}

/// Whether two stretches of characters are equal.
pub fn equal(a: &[char], b: &[char]) -> (r: bool)
    ensures
        r == (a@ == b@),
{
    if a.len() != b.len() {
        return false;
    }
    let mut i: usize = 0;
    while i < a.len()
        invariant
            i <= a.len() == b.len(),
            a@.take(i as int) == b@.take(i as int),
        decreases a.len() - i,
    {
        if a[i] != b[i] {
            assert(a@[i as int] != b@[i as int]);
            return false;
        }
        assert(a@.take(i + 1) == a@.take(i as int).push(a@[i as int]));
        assert(b@.take(i + 1) == b@.take(i as int).push(b@[i as int]));
        i += 1;
    }
    assert(a@.take(i as int) == a@);
    assert(b@.take(i as int) == b@);
    true
}

/// Whether the characters spell the given string.
pub fn spells(a: &[char], b: &str) -> (r: bool)
    ensures
        r == (a@ == b@),
{
    let v = chars(b);
    equal(a, &v)
}

/// Whether `p` stands in `s` at position `at`.
pub open spec fn stands_at(s: Seq<char>, p: Seq<char>, at: int) -> bool {
    0 <= at && at + p.len() <= s.len() && s.subrange(at, at + p.len()) == p
}

/// See [`stands_at`].
pub fn is_at(s: &[char], p: &str, at: usize) -> (r: bool)
    ensures
        r == stands_at(s@, p@, at as int),
{
    let v = chars(p);
    if at > s.len() || s.len() - at < v.len() {
        return false;
    }
    let mut i: usize = 0;
    while i < v.len()
        invariant
            v@ == p@,
            i <= v.len(),
            at + v.len() <= s.len(),
            forall|k: int| 0 <= k < i ==> s@[at + k] == v@[k],
        decreases v.len() - i,
    {
        if s[at + i] != v[i] {
            assert(s@.subrange(at as int, at + v@.len())[i as int] != v@[i as int]);
            return false;
        }
        i += 1;
    }
    assert(s@.subrange(at as int, at + v@.len()) =~= v@);
    true
}

/// Whether a text begins with another.
pub open spec fn begins(s: Seq<char>, p: Seq<char>) -> bool {
    stands_at(s, p, 0)
}

/// Whether a text ends with another.
pub open spec fn ends(s: Seq<char>, p: Seq<char>) -> bool {
    stands_at(s, p, s.len() - p.len())
}

/// The first position from `from` on at which `c` stands; the length where there is none.
pub open spec fn find_from(s: Seq<char>, c: char, from: int) -> int
    decreases s.len() - from,
{
    if from >= s.len() {
        s.len() as int
    } else if s[from] == c {
        from
    } else {
        find_from(s, c, from + 1)
    }
}

/// What [`find_from`] gives is in range, holds `c`, and nothing before it does.
pub proof fn lemma_find_from(s: Seq<char>, c: char, from: int)
    requires
        0 <= from <= s.len(),
    ensures
        from <= find_from(s, c, from) <= s.len(),
        find_from(s, c, from) < s.len() ==> s[find_from(s, c, from)] == c,
        forall|i: int| from <= i < find_from(s, c, from) ==> s[i] != c,
    decreases s.len() - from,
{
    if from < s.len() && s[from] != c {
        lemma_find_from(s, c, from + 1);
    }
}

/// See [`find_from`].
pub fn find_char(s: &[char], c: char, from: usize) -> (r: usize)
    requires
        from <= s@.len(),
    ensures
        r == find_from(s@, c, from as int),
        from <= r <= s@.len(),
{
    let mut i: usize = from;
    while i < s.len() && s[i] != c
        invariant
            from <= i <= s@.len(),
            find_from(s@, c, from as int) == find_from(s@, c, i as int),
        decreases s.len() - i,
    {
        i += 1;
    }
    i
}

/// Whether `c` occurs in the text.
pub fn has(s: &[char], c: char) -> (r: bool)
    ensures
        r == s@.contains(c),
{
    let i: usize = find_char(s, c, 0);
    proof {
        lemma_find_from(s@, c, 0);
    }
    i < s.len()
}

/// The last position before `to` at which `c` stands; -1 where there is none.
pub open spec fn find_back(s: Seq<char>, c: char, to: int) -> int
    decreases to,
{
    if to <= 0 {
        -1
    } else if s[to - 1] == c {
        to - 1
    } else {
        find_back(s, c, to - 1)
    }
}

/// What [`find_back`] gives is in range, holds `c`, and nothing after it does.
pub proof fn lemma_find_back(s: Seq<char>, c: char, to: int)
    requires
        0 <= to <= s.len(),
    ensures
        -1 <= find_back(s, c, to) < to || (to == 0 && find_back(s, c, to) == -1),
        find_back(s, c, to) >= 0 ==> s[find_back(s, c, to)] == c,
        forall|i: int| find_back(s, c, to) < i < to ==> s[i] != c,
    decreases to,
{
    if to > 0 && s[to - 1] != c {
        lemma_find_back(s, c, to - 1);
    }
}

/// See [`find_back`].
pub fn find_last(s: &[char], c: char) -> (r: Option<usize>)
    ensures
        r matches Some(i) ==> i < s@.len() && i == find_back(s@, c, s@.len() as int),
        r is None ==> find_back(s@, c, s@.len() as int) == -1,
{
    let mut i: usize = s.len();
    while i > 0
        invariant
            i <= s@.len(),
            find_back(s@, c, s@.len() as int) == find_back(s@, c, i as int),
        decreases i,
    {
        if s[i - 1] == c {
            return Some(i - 1);
        }
        i -= 1;
    }
    None
}

/// The pieces between the occurrences of `sep`, from position `from` on. There is
/// always one more piece than there are occurrences.
pub open spec fn split_from(s: Seq<char>, sep: char, from: int) -> Seq<Seq<char>>
    decreases s.len() - from,
    when 0 <= from
{
    let at = find_from(s, sep, from);
    if from > s.len() {
        seq![]
    } else if at >= s.len() || at < from {
        seq![s.subrange(from, s.len() as int)]
    } else {
        seq![s.subrange(from, at)] + split_from(s, sep, at + 1)
    }
}

/// The pieces of the text between the occurrences of `sep`.
pub open spec fn split(s: Seq<char>, sep: char) -> Seq<Seq<char>> {
    split_from(s, sep, 0)
}

/// The texts of a list of character vectors.
pub open spec fn texts(v: Seq<Vec<char>>) -> Seq<Seq<char>> {
    v.map_values(|x: Vec<char>| x@)
}

/// The texts of a list of strings.
pub open spec fn strings(v: Seq<String>) -> Seq<Seq<char>> {
    v.map_values(|x: String| x@)
}

/// See [`split`].
pub fn split_on(s: &[char], sep: char) -> (r: Vec<Vec<char>>)
    ensures
        texts(r@) == split(s@, sep),
        r@.len() > 0,
{
    let mut r: Vec<Vec<char>> = Vec::new();
    let mut from: usize = 0;
    loop
        invariant
            from <= s@.len(),
            texts(r@) + split_from(s@, sep, from as int) == split(s@, sep),
        decreases s@.len() - from,
    {
        let at: usize = find_char(s, sep, from);
        proof {
            lemma_find_from(s@, sep, from as int);
        }
        let piece = cut(s, from, at);
        let ghost before = texts(r@);
        r.push(piece);
        assert(texts(r@) == before.push(piece@));
        if at >= s.len() {
            assert(texts(r@) == before + seq![s@.subrange(from as int, s@.len() as int)]);
            return r;
        }
        assert(before.push(piece@) + split_from(s@, sep, at + 1) == before + (seq![piece@]
            + split_from(s@, sep, at + 1)));
        from = at + 1;
    }
}

/// Where the leading whitespace ends.
pub open spec fn skip_space(s: Seq<char>, from: int) -> int
    decreases s.len() - from,
{
    if from < s.len() && is_whitespace(s[from]) {
        skip_space(s, from + 1)
    } else {
        from
    }
}

/// Where the trailing whitespace begins.
pub open spec fn drop_space(s: Seq<char>, to: int) -> int
    decreases to,
{
    if to > 0 && is_whitespace(s[to - 1]) {
        drop_space(s, to - 1)
    } else {
        to
    }
}

/// Where the leading whitespace ends is in range.
pub proof fn lemma_skip_space(s: Seq<char>, from: int)
    requires
        0 <= from <= s.len(),
    ensures
        from <= skip_space(s, from) <= s.len(),
        skip_space(s, from) < s.len() ==> !is_whitespace(s[skip_space(s, from)]),
        forall|i: int| from <= i < skip_space(s, from) ==> is_whitespace(s[i]),
    decreases s.len() - from,
{
    if from < s.len() && is_whitespace(s[from]) {
        lemma_skip_space(s, from + 1);
    }
}

/// Where the trailing whitespace begins is in range.
pub proof fn lemma_drop_space(s: Seq<char>, to: int)
    requires
        0 <= to <= s.len(),
    ensures
        0 <= drop_space(s, to) <= to,
        drop_space(s, to) > 0 ==> !is_whitespace(s[drop_space(s, to) - 1]),
        forall|i: int| drop_space(s, to) <= i < to ==> is_whitespace(s[i]),
    decreases to,
{
    if to > 0 && is_whitespace(s[to - 1]) {
        lemma_drop_space(s, to - 1);
    }
}

/// The text without leading whitespace.
pub open spec fn trim_start(s: Seq<char>) -> Seq<char> {
    s.subrange(skip_space(s, 0), s.len() as int)
}

/// The text without trailing whitespace.
pub open spec fn trim_end(s: Seq<char>) -> Seq<char> {
    s.subrange(0, drop_space(s, s.len() as int))
}

/// The text without leading and trailing whitespace.
pub open spec fn trim(s: Seq<char>) -> Seq<char> {
    trim_end(trim_start(s))
}

/// Whether the text is empty or all whitespace.
pub open spec fn blank(s: Seq<char>) -> bool {
    forall|i: int| 0 <= i < s.len() ==> is_whitespace(#[trigger] s[i])
}

/// See [`blank`].
pub fn is_blank(s: &[char]) -> (r: bool)
    ensures
        r == blank(s@),
{
    let mut i: usize = 0;
    while i < s.len()
        invariant
            i <= s.len(),
            forall|k: int| 0 <= k < i ==> is_whitespace(#[trigger] s@[k]),
        decreases s.len() - i,
    {
        if !is_whitespace(s[i]) {
            return false;
        }
        i += 1;
    }
    true
}

/// See [`trim_start`].
pub fn trimmed_start(s: &[char]) -> (r: Vec<char>)
    ensures
        r@ == trim_start(s@),
{
    let mut i: usize = 0;
    while i < s.len() && is_whitespace(s[i])
        invariant
            i <= s.len(),
            skip_space(s@, 0) == skip_space(s@, i as int),
        decreases s.len() - i,
    {
        i += 1;
    }
    cut(s, i, s.len())
}

/// See [`trim_end`].
pub fn trimmed_end(s: &[char]) -> (r: Vec<char>)
    ensures
        r@ == trim_end(s@),
{
    let mut i: usize = s.len();
    while i > 0 && is_whitespace(s[i - 1])
        invariant
            i <= s.len(),
            drop_space(s@, s@.len() as int) == drop_space(s@, i as int),
        decreases i,
    {
        i -= 1;
    }
    cut(s, 0, i)
}

/// See [`trim`].
pub fn trimmed(s: &[char]) -> (r: Vec<char>)
    ensures
        r@ == trim(s@),
{
    trimmed_end(&trimmed_start(s))
}

/// Whether every character of the text is a decimal digit.
pub open spec fn all_digits(s: Seq<char>) -> bool {
    forall|i: int| 0 <= i < s.len() ==> is_digit(#[trigger] s[i])
}

/// See [`all_digits`].
pub fn is_number(s: &[char]) -> (r: bool)
    ensures
        r == all_digits(s@),
{
    let mut i: usize = 0;
    while i < s.len()
        invariant
            i <= s.len(),
            forall|k: int| 0 <= k < i ==> is_digit(#[trigger] s@[k]),
        decreases s.len() - i,
    {
        if !is_digit(s[i]) {
            return false;
        }
        i += 1;
    }
    true
}

/// The number that a text of decimal digits writes.
pub open spec fn number(s: Seq<char>) -> nat
    decreases s.len(),
{
    if s.len() == 0 {
        0
    } else {
        (number(s.drop_last()) * 10 + (s.last() as int - '0' as int)) as nat
    }
}

/// The decimal digits of a number, without leading zeros.
pub open spec fn decimal(n: nat) -> Seq<char>
    decreases n,
{
    if n < 10 {
        seq![('0' as int + n) as char]
    } else {
        decimal(n / 10).push(('0' as int + n % 10) as char)
    }
}

/// A longer text of digits never writes a smaller number than its beginning.
pub proof fn lemma_number_grows(s: Seq<char>, k: int)
    requires
        all_digits(s),
        0 <= k <= s.len(),
    ensures
        number(s.take(k)) <= number(s),
    decreases s.len() - k,
{
    if k < s.len() {
        lemma_number_grows(s, k + 1);
        assert(s.take(k + 1).drop_last() == s.take(k));
        assert(is_digit(s[k]));
    } else {
        assert(s.take(k) == s);
    }
}

/// The decimal digits of a number write that number.
pub proof fn lemma_decimal(n: nat)
    ensures
        decimal(n).len() > 0,
        all_digits(decimal(n)),
        number(decimal(n)) == n,
        n > 0 ==> decimal(n)[0] != '0',
    decreases n,
{
    reveal_with_fuel(number, 2);
    if n < 10 {
        assert(decimal(n).drop_last() == Seq::<char>::empty());
    } else {
        lemma_decimal(n / 10);
        assert(decimal(n).drop_last() == decimal(n / 10));
    }
}

/// The number that a text writes, where it is made of digits and fits.
pub fn parse_number(s: &[char]) -> (r: Option<u64>)
    ensures
        r matches Some(v) ==> s@.len() > 0 && all_digits(s@) && v == number(s@),
        r is None ==> s@.len() == 0 || !all_digits(s@) || number(s@) > u64::MAX,
{
    if s.len() == 0 || !is_number(s) {
        return None;
    }
    let mut v: u64 = 0;
    let mut i: usize = 0;
    while i < s.len()
        invariant
            i <= s.len(),
            all_digits(s@),
            v == number(s@.take(i as int)),
        decreases s.len() - i,
    {
        assert(is_digit(s@[i as int]));
        let d: u64 = (s[i] as u32 - '0' as u32) as u64;
        proof {
            assert(s@.take(i + 1).drop_last() == s@.take(i as int));
            lemma_number_grows(s@, i + 1);
        }
        if v > (u64::MAX - d) / 10 {
            return None;
        }
        v = v * 10 + d;
        i += 1;
    }
    assert(s@.take(i as int) == s@);
    Some(v)
}

/// See [`decimal`].
pub fn format_number(n: u64) -> (r: String)
    ensures
        r@ == decimal(n as nat),
    decreases n,
{
    if n < 10 {
        let mut r = String::new();
        r.push((48 + n as u8) as char);
        assert(r@ =~= decimal(n as nat));
        r
    } else {
        let mut r = format_number(n / 10);
        r.push((48 + (n % 10) as u8) as char);
        r
    }
}

/// Whether `a` comes before `b` in the order of characters, from position `i` on.
pub open spec fn less_from(a: Seq<char>, b: Seq<char>, i: int) -> bool
    decreases b.len() - i,
{
    if i >= b.len() {
        false
    } else if i >= a.len() {
        true
    } else if a[i] != b[i] {
        a[i] < b[i]
    } else {
        less_from(a, b, i + 1)
    }
}

/// Whether `a` comes before `b`: at the first place where they differ `a` has the
/// smaller character, or ends.
pub open spec fn less(a: Seq<char>, b: Seq<char>) -> bool {
    less_from(a, b, 0)
}

/// Of two texts that agree up to `i`, at most one comes first, and one does unless they
/// are equal.
pub proof fn lemma_less_total(a: Seq<char>, b: Seq<char>, i: int)
    requires
        0 <= i <= a.len(),
        i <= b.len(),
        a.take(i) == b.take(i),
    ensures
        !(less_from(a, b, i) && less_from(b, a, i)),
        less_from(a, b, i) || less_from(b, a, i) || a == b,
    decreases a.len() - i,
{
    if i < a.len() && i < b.len() && a[i] == b[i] {
        assert(a.take(i + 1) == a.take(i).push(a[i]));
        assert(b.take(i + 1) == b.take(i).push(b[i]));
        lemma_less_total(a, b, i + 1);
    } else if i == a.len() && i == b.len() {
        assert(a.take(i) == a);
        assert(b.take(i) == b);
    }
}

/// The order of texts is transitive.
pub proof fn lemma_less_transitive(a: Seq<char>, b: Seq<char>, c: Seq<char>, i: int)
    requires
        0 <= i,
        less_from(a, b, i),
        less_from(b, c, i),
    ensures
        less_from(a, c, i),
    decreases c.len() - i,
{
    if i < a.len() && i < b.len() && i < c.len() && a[i] == b[i] && b[i] == c[i] {
        lemma_less_transitive(a, b, c, i + 1);
    }
}

/// A text that comes before another comes before, or after, any third one.
pub proof fn lemma_less_between(a: Seq<char>, b: Seq<char>, c: Seq<char>)
    requires
        less(a, c),
    ensures
        less(a, b) || less(b, c),
{
    assert(a.take(0) == b.take(0));
    lemma_less_total(a, b, 0);
    if less(b, a) {
        lemma_less_transitive(b, a, c, 0);
    }
}

/// See [`less`].
pub fn is_less(a: &[char], b: &[char]) -> (r: bool)
    ensures
        r == less(a@, b@),
{
    let mut i: usize = 0;
    while i < b.len()
        invariant
            i <= b.len(),
            less(a@, b@) == less_from(a@, b@, i as int),
        decreases b.len() - i,
    {
        if i >= a.len() {
            return true;
        }
        if a[i] != b[i] {
            return a[i] < b[i];
        }
        i += 1;
    }
    false
}

/// The text of an optional string.
pub open spec fn opt(o: Option<String>) -> Option<Seq<char>> {
    match o {
        Some(s) => Some(s@),
        None => None,
    }
}

/// A copy of an optional string.
pub fn clone_opt(o: &Option<String>) -> (r: Option<String>)
    ensures
        opt(r) == opt(*o),
        r == *o,
{
    match o {
        Some(s) => Some(s.clone()),
        None => None,
    }
}

/// A copy of a list of strings.
pub fn clone_all(v: &Vec<String>) -> (r: Vec<String>)
    ensures
        r@ == v@,
{
    let mut r: Vec<String> = Vec::new();
    let mut i: usize = 0;
    while i < v.len()
        invariant
            i <= v.len(),
            r@ == v@.take(i as int),
        decreases v.len() - i,
    {
        r.push(v[i].clone());
        i += 1;
    }
    assert(v@.take(i as int) == v@);
    r
}

/// The texts, with the separator between each two.
pub open spec fn joined(items: Seq<Seq<char>>, separator: Seq<char>) -> Seq<char>
    decreases items.len(),
{
    if items.len() == 0 {
        seq![]
    } else if items.len() == 1 {
        items[0]
    } else {
        joined(items.drop_last(), separator) + separator + items.last()
    }
}

/// See [`joined`].
pub fn join(items: &Vec<String>, separator: &str) -> (r: String)
    ensures
        r@ == joined(strings(items@), separator@),
{
    let mut r = String::new();
    let ghost all = strings(items@);
    let mut i: usize = 0;
    while i < items.len()
        invariant
            i <= items.len(),
            all == strings(items@),
            r@ == joined(all.take(i as int), separator@),
        decreases items.len() - i,
    {
        assert(all.take(i + 1).drop_last() == all.take(i as int));
        assert(all[i as int] == items@[i as int]@);
        if i > 0 {
            r.append(separator);
        }
        r.append(items[i].as_str());
        assert(i == 0 ==> r@ =~= all[0]);
        i += 1;
    }
    assert(all.take(i as int) == all);
    r
}

/// Where nothing in a text is the separator, it is one piece.
pub proof fn lemma_split_whole(s: Seq<char>, sep: char)
    requires
        !s.contains(sep),
    ensures
        split(s, sep) == seq![s],
{
    lemma_find_from(s, sep, 0);
    assert(s.subrange(0, s.len() as int) == s);
}

/// Finding a character from some place on is finding it in what begins there.
pub proof fn lemma_find_shift(a: Seq<char>, b: Seq<char>, c: char, from: int)
    requires
        0 <= from <= b.len(),
    ensures
        find_from(a + b, c, a.len() + from) == a.len() + find_from(b, c, from),
    decreases b.len() - from,
{
    if from < b.len() {
        assert((a + b)[a.len() + from] == b[from]);
        if b[from] != c {
            lemma_find_shift(a, b, c, from + 1);
        }
    }
}

/// Splitting from some place on is splitting what begins there.
pub proof fn lemma_split_shift(a: Seq<char>, b: Seq<char>, sep: char, from: int)
    requires
        0 <= from <= b.len(),
    ensures
        split_from(a + b, sep, a.len() + from) == split_from(b, sep, from),
    decreases b.len() - from,
{
    lemma_find_shift(a, b, sep, from);
    lemma_find_from(b, sep, from);
    let at = find_from(b, sep, from);
    if at < b.len() {
        lemma_split_shift(a, b, sep, at + 1);
        assert((a + b).subrange(a.len() + from, a.len() + at) =~= b.subrange(from, at));
    } else {
        assert((a + b).subrange(a.len() + from, (a + b).len() as int) =~= b.subrange(
            from,
            b.len() as int,
        ));
    }
}

/// The first piece of a text ends at the first separator; the others are those of the rest.
pub proof fn lemma_split_first(a: Seq<char>, sep: char, b: Seq<char>)
    requires
        !a.contains(sep),
    ensures
        split(a + seq![sep] + b, sep) == seq![a] + split(b, sep),
{
    let s = a + seq![sep] + b;
    lemma_find_from(s, sep, 0);
    assert(s[a.len() as int] == sep);
    let at = find_from(s, sep, 0);
    if at < a.len() {
        assert(s[at] == a[at]);
        assert(a.contains(sep));
    }
    assert(at == a.len());
    assert(s.subrange(0, at) =~= a);
    assert(s =~= (a + seq![sep]) + b);
    lemma_split_shift(a + seq![sep], b, sep, 0);
}

/// The pieces of texts joined by a separator that is in none of them are those texts.
pub proof fn lemma_split_joined(items: Seq<Seq<char>>, sep: char)
    requires
        items.len() > 0,
        forall|i: int| 0 <= i < items.len() ==> !(#[trigger] items[i]).contains(sep),
    ensures
        split(joined(items, seq![sep]), sep) == items,
    decreases items.len(),
{
    if items.len() == 1 {
        lemma_split_whole(items[0], sep);
        assert(seq![items[0]] =~= items);
    } else {
        lemma_joined_first(items, seq![sep]);
        lemma_split_joined(items.drop_first(), sep);
        lemma_split_first(items[0], sep, joined(items.drop_first(), seq![sep]));
        assert(seq![items[0]] + items.drop_first() =~= items);
    }
}

/// Joined texts begin with the first, then the separator, then the others joined.
pub proof fn lemma_joined_first(items: Seq<Seq<char>>, separator: Seq<char>)
    requires
        items.len() > 1,
    ensures
        joined(items, separator) == items[0] + separator + joined(items.drop_first(), separator),
    decreases items.len(),
{
    let rest = items.drop_first();
    if items.len() == 2 {
        assert(joined(items.drop_last(), separator) == items[0]);
        assert(joined(rest, separator) == items[1]);
    } else {
        lemma_joined_first(items.drop_last(), separator);
        assert(items.drop_last().drop_first() =~= rest.drop_last());
        assert(items.drop_last()[0] == items[0]);
        assert(rest.last() == items.last());
        let middle = joined(rest.drop_last(), separator);
        assert(items[0] + separator + middle + separator + items.last() =~= items[0] + separator
            + (middle + separator + items.last()));
    }
}

/// How many bytes a character takes in UTF-8.
pub open spec fn width(c: char) -> nat {
    if (c as u32) < 0x80 {
        1
    } else if (c as u32) < 0x800 {
        2
    } else if (c as u32) < 0x10000 {
        3
    } else {
        4
    }
}

/// How many bytes a text takes in UTF-8.
pub open spec fn byte_len(s: Seq<char>) -> nat
    decreases s.len(),
{
    if s.len() == 0 {
        0
    } else {
        byte_len(s.drop_last()) + width(s.last())
    }
}

/// The bytes of joined texts add up.
pub proof fn lemma_byte_len_add(a: Seq<char>, b: Seq<char>)
    ensures
        byte_len(a + b) == byte_len(a) + byte_len(b),
    decreases b.len(),
{
    if b.len() > 0 {
        assert((a + b).drop_last() =~= a + b.drop_last());
        lemma_byte_len_add(a, b.drop_last());
    } else {
        assert(a + b =~= a);
    }
}

/// The number of bytes is the length of the UTF-8 encoding.
pub proof fn lemma_byte_len(s: Seq<char>)
    ensures
        byte_len(s) == vstd::utf8::encode_utf8(s).len(),
    decreases s.len(),
{
    if s.len() > 0 {
        let rest = s.drop_first();
        lemma_byte_len(rest);
        lemma_byte_len_add(seq![s[0]], rest);
        assert(seq![s[0]] + rest =~= s);
        reveal_with_fuel(byte_len, 2);
        assert(seq![s[0]].drop_last() =~= Seq::<char>::empty());
        assert(byte_len(seq![s[0]]) == width(s[0]));
        vstd::utf8::char_is_scalar(s[0]);
        assert(vstd::utf8::encode_scalar(s[0] as u32).len() == width(s[0]));
    }
}

/// See [`width`].
pub fn char_width(c: char) -> (r: usize)
    ensures
        r == width(c),
        1 <= r <= 4,
{
    let n: u32 = c as u32;
    if n < 0x80 {
        1
    } else if n < 0x800 {
        2
    } else if n < 0x10000 {
        3
    } else {
        4
    }
}

/// The number of characters of the text that take exactly so many bytes, where there is one.
pub open spec fn chars_in(s: Seq<char>, bytes: int, i: int) -> Option<int>
    decreases s.len() - i,
{
    if bytes == 0 {
        Some(i)
    } else if bytes < 0 || i >= s.len() {
        None
    } else {
        chars_in(s, bytes - width(s[i]), i + 1)
    }
}

/// See [`chars_in`].
pub fn char_offset(s: &[char], bytes: usize) -> (r: Option<usize>)
    ensures
        (match r {
            Some(i) => Some(i as int),
            None => None,
        }) == chars_in(s@, bytes as int, 0),
        r matches Some(i) ==> i <= s@.len(),
{
    let mut left: usize = bytes;
    let mut i: usize = 0;
    while left > 0
        invariant
            i <= s@.len(),
            chars_in(s@, bytes as int, 0) == chars_in(s@, left as int, i as int),
        decreases s@.len() - i,
    {
        if i >= s.len() {
            return None;
        }
        let w: usize = char_width(s[i]);
        if w > left {
            assert(chars_in(s@, left - w, i + 1) is None);
            return None;
        }
        left -= w;
        i += 1;
    }
    Some(i)
}

/// The lines of the text from position `from` on, without their ends `\n` or `\r\n`.
pub open spec fn lines_from(s: Seq<char>, from: int) -> Seq<Seq<char>>
    decreases s.len() - from,
    when 0 <= from
{
    let at = find_from(s, '\n', from);
    if from >= s.len() {
        seq![]
    } else if at >= s.len() || at < from {
        seq![s.subrange(from, s.len() as int)]
    } else {
        seq![s.subrange(from, line_end(s, from, at))] + lines_from(s, at + 1)
    }
}

/// Where the line that begins at `from` and whose `\n` is at `at` ends.
pub open spec fn line_end(s: Seq<char>, from: int, at: int) -> int {
    if at > from && s[at - 1] == '\r' {
        at - 1
    } else {
        at
    }
}

/// The lines of the text, without their ends `\n` or `\r\n`.
pub open spec fn lines(s: Seq<char>) -> Seq<Seq<char>> {
    lines_from(s, 0)
}

/// See [`lines`].
pub fn split_lines(s: &[char]) -> (r: Vec<Vec<char>>)
    ensures
        texts(r@) == lines(s@),
        r@.len() <= s@.len(),
        forall|i: int| 0 <= i < r@.len() ==> (#[trigger] r@[i])@.len() <= s@.len(),
{
    let mut r: Vec<Vec<char>> = Vec::new();
    let mut from: usize = 0;
    while from < s.len()
        invariant
            from <= s@.len(),
            r@.len() <= from,
            forall|i: int| 0 <= i < r@.len() ==> (#[trigger] r@[i])@.len() <= s@.len(),
            texts(r@) + lines_from(s@, from as int) == lines(s@),
        decreases s@.len() - from,
    {
        let at: usize = find_char(s, '\n', from);
        proof {
            lemma_find_from(s@, '\n', from as int);
        }
        let ghost before = texts(r@);
        if at >= s.len() {
            let piece = cut(s, from, at);
            r.push(piece);
            assert(texts(r@) =~= before + seq![piece@]);
            assert(before + lines_from(s@, from as int) =~= texts(r@));
            return r;
        }
        let end: usize = if at > from && s[at - 1] == '\r' {
            at - 1
        } else {
            at
        };
        let piece = cut(s, from, end);
        r.push(piece);
        assert(texts(r@) =~= before.push(piece@));
        assert(before.push(piece@) + lines_from(s@, at + 1) =~= before + (seq![piece@]
            + lines_from(s@, at + 1)));
        from = at + 1;
    }
    assert(texts(r@) + Seq::<Seq<char>>::empty() =~= texts(r@));
    r
}

/// Whether a text stands somewhere in another.
pub open spec fn within(s: Seq<char>, p: Seq<char>) -> bool {
    exists|at: int| stands_at(s, p, at)
}

/// See [`within`].
pub fn is_within(s: &[char], p: &str) -> (r: bool)
    ensures
        r == within(s@, p@),
{
    let mut at: usize = 0;
    while at < s.len()
        invariant
            at <= s.len(),
            forall|k: int| 0 <= k < at ==> !stands_at(s@, p@, k),
        decreases s.len() - at,
    {
        if is_at(s, p, at) {
            return true;
        }
        at += 1;
    }
    if is_at(s, p, at) {
        return true;
    }
    assert forall|k: int| !stands_at(s@, p@, k) by {}
    false
}

/// What `str::from_utf8` says of bytes that are not UTF-8.
pub uninterp spec fn utf8_fault(bytes: Seq<u8>) -> Seq<char>;

/// `str::from_utf8`: the text, where the bytes are UTF-8, else the words of the error, which
/// are not stated.
#[verifier::external_body]
pub(crate) fn decode(bytes: &[u8]) -> (r: Result<&str, String>)
    ensures
        r is Ok <==> vstd::utf8::valid_utf8(bytes@),
        r matches Ok(s) ==> s@ == vstd::utf8::decode_utf8(bytes@),
        r matches Err(message) ==> message@ == utf8_fault(bytes@),
{
    core::str::from_utf8(bytes).map_err(|error| error.to_string())
}

/// A text has at least as many bytes as characters.
pub proof fn lemma_chars_fit(s: Seq<char>)
    ensures
        s.len() <= byte_len(s),
    decreases s.len(),
{
    if s.len() > 0 {
        lemma_chars_fit(s.drop_last());
    }
}

/// The text that bytes encode has at most as many characters as there are bytes.
pub proof fn lemma_decoded_fits(bytes: Seq<u8>)
    requires
        vstd::utf8::valid_utf8(bytes),
    ensures
        vstd::utf8::decode_utf8(bytes).len() <= bytes.len(),
        byte_len(vstd::utf8::decode_utf8(bytes)) == bytes.len(),
{
    let s = vstd::utf8::decode_utf8(bytes);
    vstd::utf8::decode_utf8_encode_utf8(bytes);
    lemma_byte_len(s);
    lemma_chars_fit(s);
}

/// The first place, from `from` on, at which a text stands in another.
pub open spec fn seek(s: Seq<char>, p: Seq<char>, from: int) -> Option<int>
    decreases s.len() - from + 1,
{
    if from > s.len() {
        None
    } else if stands_at(s, p, from) {
        Some(from)
    } else {
        seek(s, p, from + 1)
    }
}

/// What [`seek`] gives is in range.
pub proof fn lemma_seek(s: Seq<char>, p: Seq<char>, from: int)
    requires
        0 <= from,
    ensures
        seek(s, p, from) matches Some(at) ==> from <= at && at + p.len() <= s.len() && stands_at(
            s,
            p,
            at,
        ),
        forall|k: int|
            from <= k && #[trigger] stands_at(s, p, k) ==> seek(s, p, from) is Some && seek(
                s,
                p,
                from,
            )->0 <= k,
    decreases s.len() - from + 1,
{
    if from <= s.len() && !stands_at(s, p, from) {
        lemma_seek(s, p, from + 1);
    }
}

/// See [`seek`].
pub fn seek_text(s: &[char], p: &str, from: usize) -> (r: Option<usize>)
    requires
        from <= s@.len(),
    ensures
        (match r {
            Some(at) => Some(at as int),
            None => None,
        }) == seek(s@, p@, from as int),
        r matches Some(at) ==> from <= at && at + p@.len() <= s@.len(),
{
    let mut at: usize = from;
    proof {
        lemma_seek(s@, p@, from as int);
    }
    while at < s.len()
        invariant
            from <= at <= s.len(),
            seek(s@, p@, from as int) == seek(s@, p@, at as int),
        decreases s.len() - at,
    {
        if is_at(s, p, at) {
            return Some(at);
        }
        at += 1;
    }
    if is_at(s, p, at) {
        return Some(at);
    }
    assert(seek(s@, p@, at + 1) is None);
    None
}

/// Whether a string is one of those listed.
pub fn is_listed(list: &[String], s: &str) -> (r: bool)
    ensures
        r == strings(list@).contains(s@),
{
    let mut i: usize = 0;
    while i < list.len()
        invariant
            i <= list.len(),
            forall|k: int| 0 <= k < i ==> #[trigger] strings(list@)[k] != s@,
        decreases list.len() - i,
    {
        if same(list[i].as_str(), s) {
            assert(strings(list@)[i as int] == s@);
            return true;
        }
        i += 1;
    }
    false
}

/// A sorted list with one more text in its place, after those equal to it.
pub open spec fn inserted(s: Seq<Seq<char>>, x: Seq<char>) -> Seq<Seq<char>>
    decreases s.len(),
{
    if s.len() > 0 && less(x, s.last()) {
        inserted(s.drop_last(), x).push(s.last())
    } else {
        s.push(x)
    }
}

/// The texts in order.
pub open spec fn sorted(s: Seq<Seq<char>>) -> Seq<Seq<char>>
    decreases s.len(),
{
    if s.len() == 0 {
        seq![]
    } else {
        inserted(sorted(s.drop_last()), s.last())
    }
}

/// Whether no text comes before an earlier one.
pub open spec fn in_text_order(s: Seq<Seq<char>>) -> bool {
    forall|i: int, j: int| 0 <= i < j < s.len() ==> !less(#[trigger] s[j], #[trigger] s[i])
}

proof fn lemma_inserted(s: Seq<Seq<char>>, x: Seq<char>)
    requires
        in_text_order(s),
    ensures
        in_text_order(inserted(s, x)),
        inserted(s, x).to_multiset() == s.to_multiset().insert(x),
        inserted(s, x).len() == s.len() + 1,
        forall|y: Seq<char>| #[trigger]
            inserted(s, x).contains(y) ==> s.contains(y) || y == x,
    decreases s.len(),
{
    broadcast use vstd::seq_lib::group_to_multiset_ensures;

    if s.len() > 0 && less(x, s.last()) {
        let rest = s.drop_last();
        lemma_inserted(rest, x);
        let before = inserted(rest, x);
        assert(rest.push(s.last()) =~= s);
        assert forall|i: int| 0 <= i < before.len() implies !less(
            s.last(),
            #[trigger] before[i],
        ) by {
            assert(before.contains(before[i]));
            let y = before[i];
            if y == x {
                assert(x.take(0) == s.last().take(0));
                lemma_less_total(x, s.last(), 0);
            } else {
                let k = rest.index_of(y);
                assert(s[k] == y && s[s.len() - 1] == s.last());
            }
        }
        assert(before.push(s.last()).to_multiset() == before.to_multiset().insert(s.last()));
        assert(s.to_multiset() == rest.to_multiset().insert(s.last()));
        assert(rest.to_multiset().insert(x).insert(s.last()) =~= rest.to_multiset().insert(
            s.last(),
        ).insert(x));
        assert forall|y: Seq<char>| before.push(s.last()).contains(y) implies s.contains(y) || y
            == x by {
            let k = before.push(s.last()).index_of(y);
            if k < before.len() {
                assert(before.contains(before[k]));
                if y != x {
                    let m = rest.index_of(y);
                    assert(s[m] == y);
                }
            } else {
                assert(s[s.len() - 1] == y);
            }
        }
    } else {
        assert forall|i: int| 0 <= i < s.len() implies !less(x, #[trigger] s[i]) by {
            if i < s.len() - 1 && less(x, s[i]) {
                assert(!less(s[s.len() - 1], s[i]));
                lemma_less_between(x, s.last(), s[i]);
            }
        }
        assert forall|y: Seq<char>| s.push(x).contains(y) implies s.contains(y) || y == x by {
            let k = s.push(x).index_of(y);
            if k < s.len() {
                assert(s[k] == y);
            }
        }
    }
}

/// Sorting gives the same texts, in order.
pub proof fn lemma_sorted(s: Seq<Seq<char>>)
    ensures
        in_text_order(sorted(s)),
        sorted(s).to_multiset() == s.to_multiset(),
        sorted(s).len() == s.len(),
    decreases s.len(),
{
    broadcast use vstd::seq_lib::group_to_multiset_ensures;

    if s.len() > 0 {
        lemma_sorted(s.drop_last());
        lemma_inserted(sorted(s.drop_last()), s.last());
        assert(s.drop_last().push(s.last()) =~= s);
    } else {
        assert(s =~= Seq::<Seq<char>>::empty());
    }
}

/// Texts that are in order already stay as they are.
pub proof fn lemma_sorted_same(s: Seq<Seq<char>>)
    requires
        in_text_order(s),
    ensures
        sorted(s) == s,
    decreases s.len(),
{
    if s.len() > 0 {
        let rest = s.drop_last();
        assert(in_text_order(rest)) by {
            assert forall|i: int, j: int| 0 <= i < j < rest.len() implies !less(
                #[trigger] rest[j],
                #[trigger] rest[i],
            ) by {
                assert(!less(s[j], s[i]));
            }
        }
        lemma_sorted_same(rest);
        if rest.len() > 0 {
            assert(!less(s[s.len() - 1], s[s.len() - 2]));
        }
        assert(rest.push(s.last()) =~= s);
    }
}

fn comes_before(x: &Vec<char>, s: &String) -> (r: bool)
    ensures
        r == less(x@, s@),
{
    is_less(x, &chars(s.as_str()))
}

fn insert_string(list: &mut Vec<String>, x: String)
    ensures
        strings(final(list)@) == inserted(strings(old(list)@), x@),
{
    let ghost whole = strings(list@);
    let xs = chars(x.as_str());
    let mut i: usize = list.len();
    let ghost mut tail: Seq<Seq<char>> = seq![];
    assert(whole.take(i as int) =~= whole);
    assert(inserted(whole, x@) + tail =~= inserted(whole, x@));
    while i > 0 && comes_before(&xs, &list[i - 1])
        invariant
            i <= list@.len(),
            whole == strings(list@),
            list@ == old(list)@,
            xs@ == x@,
            tail == whole.subrange(i as int, whole.len() as int),
            inserted(whole, x@) == inserted(whole.take(i as int), x@) + tail,
        decreases i,
    {
        assert(whole[i - 1] == list@[i - 1]@);
        assert(whole.take(i as int).last() == whole[i - 1]);
        assert(whole.take(i as int).drop_last() =~= whole.take(i - 1));
        proof {
            let before = inserted(whole.take(i - 1), x@);
            assert(before.push(whole[i - 1]) + tail =~= before + (seq![whole[i - 1]] + tail));
            tail = seq![whole[i - 1]] + tail;
            assert(tail =~= whole.subrange(i - 1, whole.len() as int));
        }
        i -= 1;
    }
    proof {
        if i > 0 {
            assert(whole.take(i as int).last() == list@[i - 1]@);
        }
        assert(inserted(whole.take(i as int), x@) =~= whole.take(i as int).push(x@));
        assert(whole.insert(i as int, x@) =~= whole.take(i as int).push(x@) + tail);
    }
    list.insert(i, x);
    assert(strings(list@) =~= whole.insert(i as int, x@));
}

/// See [`sorted`].
pub fn sort_strings(list: &Vec<String>) -> (r: Vec<String>)
    ensures
        strings(r@) == sorted(strings(list@)),
{
    let ghost all = strings(list@);
    let mut r: Vec<String> = Vec::new();
    let mut i: usize = 0;
    assert(strings(r@) =~= sorted(all.take(0)));
    while i < list.len()
        invariant
            i <= list.len(),
            all == strings(list@),
            strings(r@) == sorted(all.take(i as int)),
        decreases list.len() - i,
    {
        assert(all[i as int] == list@[i as int]@);
        assert(all.take(i + 1).drop_last() =~= all.take(i as int));
        insert_string(&mut r, list[i].clone());
        i += 1;
    }
    assert(all.take(i as int) =~= all);
    r
}

/// The first place, from `i` on, of a text in a list.
pub open spec fn place_in(list: Seq<Seq<char>>, s: Seq<char>, i: int) -> Option<int>
    decreases list.len() - i,
{
    if i >= list.len() {
        None
    } else if list[i] == s {
        Some(i)
    } else {
        place_in(list, s, i + 1)
    }
}

/// See [`place_in`].
pub fn position(list: &Vec<String>, s: &str) -> (r: Option<usize>)
    ensures
        (match r {
            Some(i) => Some(i as int),
            None => None,
        }) == place_in(strings(list@), s@, 0),
        r matches Some(i) ==> i < list@.len(),
{
    let mut i: usize = 0;
    while i < list.len()
        invariant
            i <= list@.len(),
            place_in(strings(list@), s@, 0) == place_in(strings(list@), s@, i as int),
        decreases list.len() - i,
    {
        assert(strings(list@)[i as int] == list@[i as int]@);
        if same(list[i].as_str(), s) {
            return Some(i);
        }
        i += 1;
    }
    None
}

} // verus!
