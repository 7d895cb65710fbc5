//! Web links: which texts are absolute HTTP or HTTPS URLs with a valid host.
use vstd::prelude::*;

use crate::error::{self, Error, ErrorModel};
use crate::text;

verus! {

/// Whether a character can stand nowhere in a URL.
#[verifier::allow_in_spec]
pub fn is_forbidden(c: char) -> bool
    returns
        text::is_whitespace(c) || text::is_control(c) || c == '\\' || c == '<' || c == '>' || c
            == '"' || c == '{' || c == '}' || c == '|' || c == '^' || c == '`',
{
    text::is_whitespace(c) || text::is_control(c) || c == '\\' || c == '<' || c == '>' || c == '"'
        || c == '{' || c == '}' || c == '|' || c == '^' || c == '`'
}

/// Whether every `%` in the text is followed by two hexadecimal digits.
pub open spec fn escapes_ok(s: Seq<char>) -> bool {
    forall|i: int|
        0 <= i < s.len() && #[trigger] s[i] == '%' ==> i + 2 < s.len() && text::is_hex(s[i + 1])
            && text::is_hex(s[i + 2])
}

/// Where the authority of a URL ends: at the first `/`, `?` or `#` from the `i`-th character
/// on, or at the end.
pub open spec fn authority_end(s: Seq<char>, i: int) -> int
    decreases s.len() - i,
{
    if i >= s.len() || s[i] == '/' || s[i] == '?' || s[i] == '#' {
        i
    } else {
        authority_end(s, i + 1)
    }
}

/// Whether a text is a group of an IPv6 address: one to four hexadecimal digits.
pub open spec fn hex_group(s: Seq<char>) -> bool {
    1 <= s.len() <= 4 && forall|i: int| 0 <= i < s.len() ==> text::is_hex(#[trigger] s[i])
}

/// Whether a text is a part of an IPv4 address: a number up to 255 without leading zeros.
pub open spec fn octet(s: Seq<char>) -> bool {
    &&& 1 <= s.len() <= 3
    &&& text::all_digits(s)
    &&& s.len() > 1 ==> s[0] != '0'
    &&& text::number(s) <= 255
}

/// Whether a text is an IPv4 address.
pub open spec fn ipv4(s: Seq<char>) -> bool {
    let parts = text::split(s, '.');
    parts.len() == 4 && forall|i: int| 0 <= i < 4 ==> octet(#[trigger] parts[i])
}

/// How many groups the pieces stand for, where all are groups but for the last, which may be
/// an IPv4 address, where that is allowed, and then stands for two.
pub open spec fn group_count(parts: Seq<Seq<char>>, mixed: bool) -> Option<int> {
    if forall|i: int| 0 <= i < parts.len() - 1 ==> hex_group(#[trigger] parts[i]) {
        if parts.len() > 0 && hex_group(parts.last()) {
            Some(parts.len() as int)
        } else if parts.len() > 0 && mixed && ipv4(parts.last()) {
            Some(parts.len() as int + 1)
        } else {
            None
        }
    } else {
        None
    }
}

/// How many groups a part of an address stands for; an empty part stands for none.
pub open spec fn part_groups(s: Seq<char>, mixed: bool) -> Option<int> {
    if s.len() == 0 {
        Some(0)
    } else {
        group_count(text::split(s, ':'), mixed)
    }
}

/// Whether a text is an IPv6 address: eight groups, or fewer with one `::` for those left out.
pub open spec fn ipv6(s: Seq<char>) -> bool {
    match text::seek(s, seq![':', ':'], 0) {
        None => group_count(text::split(s, ':'), true) == Some(8int),
        Some(at) => match (
            part_groups(s.take(at), false),
            part_groups(s.subrange(at + 2, s.len() as int), true),
        ) {
            (Some(left), Some(right)) => left + right <= 7,
            _ => false,
        },
    }
}

/// Whether a character can stand in the name of a host, escapes included.
#[verifier::allow_in_spec]
pub fn is_host_char(c: char) -> bool
    returns
        c >= '\u{80}' || text::is_alnum(c) || c == '-' || c == '.' || c == '_' || c == '~' || c
            == '%' || c == '!' || c == '$' || c == '&' || c == '\'' || c == '(' || c == ')' || c
            == '*' || c == '+' || c == ',' || c == ';' || c == '=',
{
    c >= '\u{80}' || text::is_alnum(c) || c == '-' || c == '.' || c == '_' || c == '~' || c == '%'
        || c == '!' || c == '$' || c == '&' || c == '\'' || c == '(' || c == ')' || c == '*' || c
        == '+' || c == ',' || c == ';' || c == '='
}

/// Whether a character cannot stand in the name of a host, even escaped.
#[verifier::allow_in_spec]
pub fn is_host_breaker(c: char) -> bool
    returns
        text::is_whitespace(c) || text::is_control(c) || c == '/' || c == '\\' || c == '?' || c
            == '#' || c == '@' || c == ':' || c == '[' || c == ']' || c == '<' || c == '>' || c
            == '"' || c == '{' || c == '}' || c == '|' || c == '^' || c == '`',
{
    text::is_whitespace(c) || text::is_control(c) || c == '/' || c == '\\' || c == '?' || c == '#'
        || c == '@' || c == ':' || c == '[' || c == ']' || c == '<' || c == '>' || c == '"' || c
        == '{' || c == '}' || c == '|' || c == '^' || c == '`'
}

/// The value of a hexadecimal digit.
pub open spec fn hex_value(c: char) -> int {
    if text::is_digit(c) {
        c as int - '0' as int
    } else if text::is_lower(c) {
        c as int - 'a' as int + 10
    } else {
        c as int - 'A' as int + 10
    }
}

/// The bytes that the text from the `i`-th character on stands for, each escape for one byte.
pub open spec fn unescaped(s: Seq<char>, i: int) -> Seq<u8>
    decreases s.len() - i,
{
    if i >= s.len() {
        seq![]
    } else if s[i] == '%' && i + 2 < s.len() {
        seq![(hex_value(s[i + 1]) * 16 + hex_value(s[i + 2])) as u8] + unescaped(s, i + 3)
    } else {
        vstd::utf8::encode_utf8(seq![s[i]]) + unescaped(s, i + 1)
    }
}

/// Whether a text is the name of a host.
pub open spec fn host_name(s: Seq<char>) -> bool {
    &&& s.len() > 0
    &&& forall|i: int| 0 <= i < s.len() ==> is_host_char(#[trigger] s[i])
    &&& s.contains('%') ==> {
        &&& vstd::utf8::valid_utf8(unescaped(s, 0))
        &&& forall|i: int|
            0 <= i < vstd::utf8::decode_utf8(unescaped(s, 0)).len() ==> !is_host_breaker(
                #[trigger] vstd::utf8::decode_utf8(unescaped(s, 0))[i],
            )
    }
}

/// Whether a text is a port.
pub open spec fn port(s: Seq<char>) -> bool {
    s.len() > 0 && text::all_digits(s) && text::number(s) <= 65535
}

/// Whether a text is a host, in brackets an IPv6 address, and perhaps a port.
pub open spec fn host_and_port(s: Seq<char>) -> bool {
    if s.len() > 0 && s[0] == '[' {
        let rest = s.drop_first();
        let at = text::find_from(rest, ']', 0);
        let suffix = rest.subrange(at + 1, rest.len() as int);
        at < rest.len() && ipv6(rest.take(at)) && (suffix.len() == 0 || (suffix[0] == ':' && port(
            suffix.drop_first(),
        )))
    } else {
        let at = text::find_from(s, ':', 0);
        host_name(s.take(at)) && (at >= s.len() || port(s.subrange(at + 1, s.len() as int)))
    }
}

/// Whether a text is an authority: perhaps user information and `@`, then a host and perhaps a
/// port.
pub open spec fn authority(s: Seq<char>) -> bool {
    let at = text::find_back(s, '@', s.len() as int);
    if at >= 0 {
        let user = s.take(at);
        !user.contains('@') && !user.contains('[') && !user.contains(']') && host_and_port(
            s.subrange(at + 1, s.len() as int),
        )
    } else {
        host_and_port(s)
    }
}

/// Whether a text is an absolute HTTP or HTTPS URL with a valid host.
pub open spec fn web_url(s: Seq<char>) -> bool {
    &&& forall|i: int| 0 <= i < s.len() ==> !is_forbidden(#[trigger] s[i])
    &&& escapes_ok(s)
    &&& match text::seek(s, "://"@, 0) {
        None => false,
        Some(at) => {
            let scheme = text::lower(s.take(at));
            let rest = s.subrange(at + 3, s.len() as int);
            (scheme == "http"@ || scheme == "https"@) && authority(
                rest.take(authority_end(rest, 0)),
            )
        },
    }
}

/// What is said of a link that is no URL.
pub open spec fn url_error() -> ErrorModel {
    ErrorModel::validation(
        "invalid_url"@,
        "URL must be an absolute HTTP or HTTPS URL with a valid host"@,
    ).with_field("url"@)
}

/// Whether a link, where there is one, is a URL.
pub open spec fn check_url(value: Option<Seq<char>>) -> Result<(), ErrorModel> {
    match value {
        None => Ok(()),
        Some(s) => if web_url(s) {
            Ok(())
        } else {
            Err(url_error())
        },
    }
}

fn has_escapes_ok(s: &Vec<char>) -> (r: bool)
    ensures
        r == escapes_ok(s@),
{
    let mut i: usize = 0;
    while i < s.len()
        invariant
            i <= s.len(),
            forall|k: int|
                0 <= k < i && #[trigger] s@[k] == '%' ==> k + 2 < s@.len() && text::is_hex(
                    s@[k + 1],
                ) && text::is_hex(s@[k + 2]),
        decreases s.len() - i,
    {
        if s[i] == '%' {
            if s.len() - i < 3 || !text::is_hex(s[i + 1]) || !text::is_hex(s[i + 2]) {
                assert(s@[i as int] == '%');
                return false;
            }
        }
        i += 1;
    }
    true
}

fn has_forbidden(s: &Vec<char>) -> (r: bool)
    ensures
        r == !(forall|i: int| 0 <= i < s@.len() ==> !is_forbidden(#[trigger] s@[i])),
{
    let mut i: usize = 0;
    while i < s.len()
        invariant
            i <= s.len(),
            forall|k: int| 0 <= k < i ==> !is_forbidden(#[trigger] s@[k]),
        decreases s.len() - i,
    {
        if is_forbidden(s[i]) {
            assert(is_forbidden(s@[i as int]));
            return true;
        }
        i += 1;
    }
    false
}

fn is_hex_group(s: &Vec<char>) -> (r: bool)
    ensures
        r == hex_group(s@),
{
    if s.len() < 1 || s.len() > 4 {
        return false;
    }
    let mut i: usize = 0;
    while i < s.len()
        invariant
            i <= s.len(),
            forall|k: int| 0 <= k < i ==> text::is_hex(#[trigger] s@[k]),
        decreases s.len() - i,
    {
        if !text::is_hex(s[i]) {
            return false;
        }
        i += 1;
    }
    true
}

fn is_octet(s: &Vec<char>) -> (r: bool)
    ensures
        r == octet(s@),
{
    if s.len() < 1 || s.len() > 3 || (s.len() > 1 && s[0] == '0') {
        return false;
    }
    match text::parse_number(s) {
        Some(n) => n <= 255,
        None => false,
    }
}

fn is_ipv4(s: &Vec<char>) -> (r: bool)
    ensures
        r == ipv4(s@),
{
    let parts = text::split_on(s, '.');
    let ghost all = text::split(s@, '.');
    if parts.len() != 4 {
        return false;
    }
    let mut i: usize = 0;
    while i < 4
        invariant
            i <= 4,
            parts@.len() == 4,
            all == text::split(s@, '.'),
            text::texts(parts@) == all,
            forall|k: int| 0 <= k < i ==> octet(#[trigger] all[k]),
        decreases 4 - i,
    {
        assert(all[i as int] == parts@[i as int]@);
        if !is_octet(&parts[i]) {
            return false;
        }
        i += 1;
    }
    true
}

/// The optional number, as a mathematical integer.
spec fn opt_int(n: Option<usize>) -> Option<int> {
    match n {
        Some(n) => Some(n as int),
        None => None,
    }
}

fn count_groups(s: &Vec<char>, mixed: bool) -> (r: Option<usize>)
    ensures
        opt_int(r) == group_count(text::split(s@, ':'), mixed) || (r is None && group_count(
            text::split(s@, ':'),
            mixed,
        ) is Some && group_count(text::split(s@, ':'), mixed)->0 > usize::MAX),
{
    let parts = text::split_on(s, ':');
    let ghost all = text::split(s@, ':');
    let mut i: usize = 0;
    while i < parts.len() - 1
        invariant
            i <= parts@.len() - 1,
            parts@.len() > 0,
            all == text::split(s@, ':'),
            text::texts(parts@) == all,
            forall|k: int| 0 <= k < i ==> hex_group(#[trigger] all[k]),
        decreases parts.len() - i,
    {
        assert(all[i as int] == parts@[i as int]@);
        if !is_hex_group(&parts[i]) {
            return None;
        }
        i += 1;
    }
    assert(all[i as int] == parts@[i as int]@);
    let last = &parts[parts.len() - 1];
    if is_hex_group(last) {
        Some(parts.len())
    } else if mixed && is_ipv4(last) {
        if parts.len() < usize::MAX {
            Some(parts.len() + 1)
        } else {
            None
        }
    } else {
        None
    }
}

fn is_ipv6(s: &Vec<char>) -> (r: bool)
    ensures
        r == ipv6(s@),
{
    proof {
        reveal_strlit("::");
        assert("::"@ =~= seq![':', ':']);
    }
    match text::seek_text(s, "::", 0) {
        None => match count_groups(s, true) {
            Some(n) => n == 8,
            None => false,
        },
        Some(at) => {
            let left = text::cut(s, 0, at);
            let end: usize = s.len();
            let right = text::cut(s, at + 2, end);
            assert(left@ == s@.take(at as int));
            let before = if left.len() == 0 {
                Some(0usize)
            } else {
                count_groups(&left, false)
            };
            let after = if right.len() == 0 {
                Some(0usize)
            } else {
                count_groups(&right, true)
            };
            match (before, after) {
                (Some(a), Some(b)) => a <= 7 && b <= 7 && a + b <= 7,
                _ => false,
            }
        },
    }
}

fn hex_number(c: char) -> (r: u8)
    requires
        text::is_hex(c),
    ensures
        r == hex_value(c),
        r < 16,
{
    if text::is_digit(c) {
        c as u8 - 48
    } else if text::is_lower(c) {
        c as u8 - 97 + 10
    } else {
        c as u8 - 65 + 10
    }
}

fn unescape(s: &Vec<char>) -> (r: Vec<u8>)
    requires
        escapes_ok(s@),
    ensures
        r@ == unescaped(s@, 0),
{
    let mut r: Vec<u8> = Vec::new();
    let mut i: usize = 0;
    while i < s.len()
        invariant
            i <= s.len(),
            escapes_ok(s@),
            r@ + unescaped(s@, i as int) == unescaped(s@, 0),
        decreases s.len() - i,
    {
        let ghost before = r@;
        if s[i] == '%' {
            assert(s@[i as int] == '%');
            let byte: u8 = hex_number(s[i + 1]) * 16 + hex_number(s[i + 2]);
            r.push(byte);
            assert(before.push(byte) + unescaped(s@, i + 3) =~= before + (seq![byte]
                + unescaped(s@, i + 3)));
            i += 3;
        } else {
            let mut one = String::new();
            one.push(s[i]);
            assert(one@ =~= seq![s@[i as int]]);
            let bytes = one.as_str().as_bytes();
            let mut k: usize = 0;
            while k < bytes.len()
                invariant
                    k <= bytes@.len(),
                    r@ == before + bytes@.take(k as int),
                decreases bytes.len() - k,
            {
                r.push(bytes[k]);
                assert(before + bytes@.take(k + 1) =~= (before + bytes@.take(k as int)).push(
                    bytes@[k as int],
                ));
                k += 1;
            }
            assert(bytes@.take(k as int) =~= bytes@);
            assert((before + bytes@) + unescaped(s@, i + 1) =~= before + (bytes@ + unescaped(
                s@,
                i + 1,
            )));
            i += 1;
        }
    }
    assert(r@ + Seq::<u8>::empty() =~= r@);
    r
}

fn is_host_name(s: &Vec<char>) -> (r: bool)
    requires
        escapes_ok(s@),
    ensures
        r == host_name(s@),
{
    if s.len() == 0 {
        return false;
    }
    let mut i: usize = 0;
    while i < s.len()
        invariant
            i <= s.len(),
            forall|k: int| 0 <= k < i ==> is_host_char(#[trigger] s@[k]),
        decreases s.len() - i,
    {
        if !is_host_char(s[i]) {
            return false;
        }
        i += 1;
    }
    if text::has(s, '%') {
        let bytes = unescape(s);
        match text::decode(&bytes) {
            Err(_) => {
                return false;
            },
            Ok(decoded) => {
                let decoded = text::chars(decoded);
                let mut k: usize = 0;
                while k < decoded.len()
                    invariant
                        k <= decoded.len(),
                        decoded@ == vstd::utf8::decode_utf8(unescaped(s@, 0)),
                        s@.contains('%'),
                        forall|m: int| 0 <= m < k ==> !is_host_breaker(#[trigger] decoded@[m]),
                    decreases decoded.len() - k,
                {
                    if is_host_breaker(decoded[k]) {
                        return false;
                    }
                    k += 1;
                }
            },
        }
    }
    true
}

fn is_port(s: &Vec<char>) -> (r: bool)
    ensures
        r == port(s@),
{
    match text::parse_number(s) {
        Some(n) => n <= 65535,
        None => false,
    }
}

fn is_host_and_port(s: &Vec<char>) -> (r: bool)
    requires
        escapes_ok(s@),
    ensures
        r == host_and_port(s@),
{
    if s.len() > 0 && s[0] == '[' {
        let rest = text::cut(s, 1, s.len());
        assert(rest@ == s@.drop_first());
        let at: usize = text::find_char(&rest, ']', 0);
        if at >= rest.len() {
            return false;
        }
        let host = text::cut(&rest, 0, at);
        assert(host@ == rest@.take(at as int));
        let suffix = text::cut(&rest, at + 1, rest.len());
        if !is_ipv6(&host) {
            return false;
        }
        if suffix.len() == 0 {
            return true;
        }
        if suffix[0] != ':' {
            return false;
        }
        let number = text::cut(&suffix, 1, suffix.len());
        assert(number@ == suffix@.drop_first());
        is_port(&number)
    } else {
        let at: usize = text::find_char(s, ':', 0);
        let host = text::cut(s, 0, at);
        assert(host@ == s@.take(at as int));
        proof {
            text::lemma_find_from(s@, ':', 0);
            lemma_escapes_before(s@, at as int);
        }
        if !is_host_name(&host) {
            return false;
        }
        if at >= s.len() {
            return true;
        }
        let number = text::cut(s, at + 1, s.len());
        is_port(&number)
    }
}

/// What stands before the end, or before a `:`, of a text whose escapes are whole has whole
/// escapes.
proof fn lemma_escapes_before(s: Seq<char>, at: int)
    requires
        escapes_ok(s),
        0 <= at <= s.len(),
        at < s.len() ==> !text::is_hex(s[at]),
    ensures
        escapes_ok(s.take(at)),
{
    let t = s.take(at);
    assert forall|i: int| 0 <= i < t.len() && #[trigger] t[i] == '%' implies i + 2 < t.len()
        && text::is_hex(t[i + 1]) && text::is_hex(t[i + 2]) by {
        assert(s[i] == '%');
    }
}

/// What stands from some place on in a text whose escapes are whole has whole escapes.
proof fn lemma_escapes_after(s: Seq<char>, at: int)
    requires
        escapes_ok(s),
        0 <= at <= s.len(),
    ensures
        escapes_ok(s.subrange(at, s.len() as int)),
{
    let t = s.subrange(at, s.len() as int);
    assert forall|i: int| 0 <= i < t.len() && #[trigger] t[i] == '%' implies i + 2 < t.len()
        && text::is_hex(t[i + 1]) && text::is_hex(t[i + 2]) by {
        assert(s[at + i] == '%');
    }
}

fn is_authority(s: &Vec<char>) -> (r: bool)
    requires
        escapes_ok(s@),
    ensures
        r == authority(s@),
{
    match text::find_last(s, '@') {
        Some(at) => {
            let user = text::cut(s, 0, at);
            assert(user@ == s@.take(at as int));
            if text::has(&user, '@') || text::has(&user, '[') || text::has(&user, ']') {
                return false;
            }
            proof {
                lemma_escapes_after(s@, at + 1);
            }
            let end: usize = s.len();
            let rest = text::cut(s, at + 1, end);
            is_host_and_port(&rest)
        },
        None => is_host_and_port(s),
    }
}

fn find_authority_end(s: &Vec<char>) -> (r: usize)
    ensures
        r == authority_end(s@, 0),
        r <= s@.len(),
        r < s@.len() ==> !text::is_hex(s@[r as int]),
{
    let mut i: usize = 0;
    while i < s.len() && s[i] != '/' && s[i] != '?' && s[i] != '#'
        invariant
            i <= s.len(),
            authority_end(s@, 0) == authority_end(s@, i as int),
        decreases s.len() - i,
    {
        i += 1;
    }
    i
}

fn is_web_url(s: &Vec<char>) -> (r: bool)
    ensures
        r == web_url(s@),
{
    if has_forbidden(s) || !has_escapes_ok(s) {
        return false;
    }
    proof {
        reveal_strlit("://");
        assert("://"@.len() == 3);
    }
    match text::seek_text(s, "://", 0) {
        None => false,
        Some(at) => {
            let scheme = text::cut(s, 0, at);
            assert(scheme@ == s@.take(at as int));
            let scheme = text::to_lower(&scheme);
            if !text::spells(&scheme, "http") && !text::spells(&scheme, "https") {
                return false;
            }
            let length: usize = s.len();
            let rest = text::cut(s, at + 3, length);
            let end: usize = find_authority_end(&rest);
            proof {
                lemma_escapes_after(s@, at + 3);
                lemma_escapes_before(rest@, end as int);
            }
            let host = text::cut(&rest, 0, end);
            assert(host@ == rest@.take(end as int));
            is_authority(&host)
        },
    }
}

/// Validate a web link without normalizing it or contacting its host.
pub fn validate_url(value: Option<&str>) -> (r: Result<(), Error>)
    ensures
        error::outcome(r) == check_url(
            match value {
                Some(s) => Some(s@),
                None => None,
            },
        ),
{
    match value {
        None => Ok(()),
        Some(s) => {
            let chars = text::chars(s);
            if is_web_url(&chars) {
                Ok(())
            } else {
                Err(
                    Error::validation(
                        "invalid_url",
                        "URL must be an absolute HTTP or HTTPS URL with a valid host",
                    ).with_field("url"),
                )
            }
        },
    }
}

} // verus!
