//! What holds of web links and of the endings of files.
use crate::attachments;
use crate::text;
use crate::url;
use vstd::prelude::*;

verus! {

/// A web link begins with `http://` or `https://`, in small letters or capitals, goes on behind
/// that, and has no whitespace and none of the characters that cannot stand in a link.
pub proof fn web_links_name_their_scheme(s: Seq<char>)
    requires
        url::check_url(Some(s)) is Ok,
    ensures
        text::begins(text::lower(s), "http://"@) && s.len() > 7 || text::begins(
            text::lower(s),
            "https://"@,
        ) && s.len() > 8,
        forall|i: int|
            0 <= i < s.len() ==> (#[trigger] s[i]) != ' ' && s[i] != '\n' && s[i] != '\t' && s[i]
                != '"' && s[i] != '<' && s[i] != '>' && s[i] != '\\',
{
    assert(url::web_url(s));
    assert forall|i: int| 0 <= i < s.len() implies (#[trigger] s[i]) != ' ' && s[i] != '\n' && s[i]
        != '\t' && s[i] != '"' && s[i] != '<' && s[i] != '>' && s[i] != '\\' by {
        assert(!url::is_forbidden(s[i]));
    }
    text::lemma_seek(s, "://"@, 0);
    let at = text::seek(s, "://"@, 0)->0;
    let rest = s.subrange(at + 3, s.len() as int);
    reveal_strlit("://");
    reveal_strlit("http");
    reveal_strlit("https");
    reveal_strlit("http://");
    reveal_strlit("https://");
    let scheme = text::lower(s.take(at));
    let small = text::lower(s);
    assert(s.subrange(at, at + 3) == "://"@);
    assert(s[at] == "://"@[0] && s[at + 1] == "://"@[1] && s[at + 2] == "://"@[2]) by {
        let middle = s.subrange(at, at + 3);
        assert(middle[0] == s[at] && middle[1] == s[at + 1] && middle[2] == s[at + 2]);
    }
    assert(scheme.len() == at);
    assert forall|i: int| 0 <= i < at implies small[i] == scheme[i] by {}
    if scheme == "http"@ {
        assert(small.subrange(0, 7) =~= "http://"@);
    } else {
        assert(small.subrange(0, 8) =~= "https://"@);
    }
    if rest.len() == 0 {
        lemma_no_host(rest);
        assert(false);
    }
}

/// A link to no host is refused, whatever follows.
pub proof fn web_links_need_a_host(rest: Seq<char>)
    requires
        rest.len() == 0 || rest[0] == '/' || rest[0] == '?' || rest[0] == '#',
    ensures
        url::check_url(Some("http://"@ + rest)) is Err,
        url::check_url(Some("https://"@ + rest)) is Err,
{
    reveal_strlit("http://");
    reveal_strlit("https://");
    lemma_no_host(rest);
    let (a, b) = ("http://"@ + rest, "https://"@ + rest);
    assert(a.subrange(7, a.len() as int) =~= rest);
    assert(b.subrange(8, b.len() as int) =~= rest);
    lemma_scheme(a, rest, 4);
    lemma_scheme(b, rest, 5);
}

proof fn lemma_no_host(rest: Seq<char>)
    requires
        rest.len() == 0 || rest[0] == '/' || rest[0] == '?' || rest[0] == '#',
    ensures
        !url::authority(rest.take(url::authority_end(rest, 0))),
{
    let none = rest.take(0);
    assert(url::authority_end(rest, 0) == 0);
    assert(text::find_back(none, '@', 0) == -1);
    assert(text::find_from(none, ':', 0) == 0);
    assert(none.take(0).len() == 0);
}

/// Where the scheme of a link ends.
proof fn lemma_scheme(s: Seq<char>, rest: Seq<char>, n: int)
    requires
        0 <= n,
        s.len() == n + 3 + rest.len(),
        s[n] == ':' && s[n + 1] == '/' && s[n + 2] == '/',
        forall|i: int| 0 <= i < n ==> s[i] != ':',
        s.subrange(n + 3, s.len() as int) == rest,
    ensures
        text::seek(s, "://"@, 0) == Some(n),
{
    reveal_strlit("://");
    text::lemma_seek(s, "://"@, 0);
    assert(s.subrange(n, n + 3) =~= "://"@);
    assert(text::stands_at(s, "://"@, n));
    let at = text::seek(s, "://"@, 0)->0;
    if at < n {
        let found = s.subrange(at, at + 3);
        assert(found[0] == s[at]);
        assert("://"@[0] == ':');
        assert(false);
    }
}

/// Whether a text is made of small letters, digits, hyphens and dots.
pub open spec fn plain_host(host: Seq<char>) -> bool {
    &&& host.len() > 0
    &&& forall|i: int|
        0 <= i < host.len() ==> 'a' <= (#[trigger] host[i]) <= 'z' || '0' <= host[i] <= '9'
            || host[i] == '-' || host[i] == '.'
}

/// A scheme and a host of letters, digits, hyphens and dots make a web link, with whatever may
/// stand in one behind them.
pub proof fn plain_web_links_are_accepted(host: Seq<char>, tail: Seq<char>)
    requires
        plain_host(host),
        tail.len() == 0 || tail[0] == '/' || tail[0] == '?' || tail[0] == '#',
        forall|i: int| 0 <= i < tail.len() ==> !url::is_forbidden(#[trigger] tail[i]) && tail[i]
            != '%',
    ensures
        url::check_url(Some("http://"@ + host + tail)) is Ok,
        url::check_url(Some("https://"@ + host + tail)) is Ok,
{
    reveal_strlit("http://");
    reveal_strlit("https://");
    reveal_strlit("http");
    reveal_strlit("https");
    let rest = host + tail;
    lemma_plain_authority(host, tail);
    let a = "http://"@ + host + tail;
    let b = "https://"@ + host + tail;
    assert(a =~= "http://"@ + rest);
    assert(b =~= "https://"@ + rest);
    assert(a.subrange(7, a.len() as int) =~= rest);
    assert(b.subrange(8, b.len() as int) =~= rest);
    lemma_scheme(a, rest, 4);
    lemma_scheme(b, rest, 5);
    assert(text::lower(a.take(4)) =~= "http"@);
    assert(text::lower(b.take(5)) =~= "https"@);
    assert forall|i: int| 0 <= i < a.len() implies !url::is_forbidden(#[trigger] a[i]) && a[i]
        != '%' by {
        if i < 7 {
            assert(a[i] == "http://"@[i]);
        } else if i < 7 + host.len() {
            assert(a[i] == host[i - 7]);
        } else {
            assert(a[i] == tail[i - 7 - host.len()]);
        }
    }
    assert forall|i: int| 0 <= i < b.len() implies !url::is_forbidden(#[trigger] b[i]) && b[i]
        != '%' by {
        if i < 8 {
            assert(b[i] == "https://"@[i]);
        } else if i < 8 + host.len() {
            assert(b[i] == host[i - 8]);
        } else {
            assert(b[i] == tail[i - 8 - host.len()]);
        }
    }
}

proof fn lemma_plain_authority(host: Seq<char>, tail: Seq<char>)
    requires
        plain_host(host),
        tail.len() == 0 || tail[0] == '/' || tail[0] == '?' || tail[0] == '#',
    ensures
        url::authority((host + tail).take(url::authority_end(host + tail, 0))),
{
    let rest = host + tail;
    let n = host.len() as int;
    assert forall|i: int| 0 <= i < n implies (#[trigger] rest[i]) != '/' && rest[i] != '?'
        && rest[i] != '#' by {
        assert(rest[i] == host[i]);
    }
    if tail.len() > 0 {
        assert(rest[n] == tail[0]);
    }
    lemma_authority_end(rest, 0, n);
    assert(rest.take(n) =~= host);
    text::lemma_find_back(host, '@', n);
    text::lemma_find_from(host, ':', 0);
    let at = text::find_back(host, '@', n);
    if at >= 0 {
        assert(host[at] == '@');
    }
    let colon = text::find_from(host, ':', 0);
    if colon < n {
        assert(host[colon] == ':');
    }
    assert(host.take(n) =~= host);
    if host.contains('%') {
        let i = choose|i: int| 0 <= i < host.len() && host[i] == '%';
        assert(host[i] == '%');
    }
    assert(host[0] == host[0]);
}

proof fn lemma_authority_end(s: Seq<char>, i: int, n: int)
    requires
        0 <= i <= n <= s.len(),
        forall|k: int|
            0 <= k < n ==> (#[trigger] s[k]) != '/' && s[k] != '?' && s[k] != '#',
        n < s.len() ==> s[n] == '/' || s[n] == '?' || s[n] == '#',
    ensures
        url::authority_end(s, i) == n,
    decreases n - i,
{
    if i < n {
        lemma_authority_end(s, i + 1, n);
    }
}

/// A file is an image by what follows its last dot, in small letters or capitals, whatever
/// stands before that; a document or a text is none.
pub proof fn images_are_known_by_their_endings(base: Seq<char>, ending: Seq<char>)
    requires
        !ending.contains('.'),
    ensures
        attachments::image(base + seq!['.'] + ending) <==> {
            let small = text::lower(ending);
            ||| small == "png"@ || small == "jpg"@ || small == "jpeg"@ || small == "gif"@
            ||| small == "webp"@ || small == "svg"@ || small == "bmp"@ || small == "heic"@
            ||| small == "heif"@ || small == "tiff"@ || small == "tif"@ || small == "avif"@
        },
        text::lower(ending) == "pdf"@ || text::lower(ending) == "txt"@ || text::lower(ending)
            == "md"@ ==> !attachments::image(base + seq!['.'] + ending),
{
    let path = base + seq!['.'] + ending;
    let n = path.len() as int;
    text::lemma_find_back(path, '.', n);
    let at = text::find_back(path, '.', n);
    assert(path[base.len() as int] == '.');
    if at > base.len() {
        assert(ending[at - base.len() - 1] == '.');
        assert(ending.contains('.'));
    }
    assert(at == base.len());
    assert(attachments::extension(path) =~= ending);
    reveal_strlit("pdf");
    reveal_strlit("txt");
    reveal_strlit("md");
    reveal_strlit("png");
    reveal_strlit("jpg");
    reveal_strlit("jpeg");
    reveal_strlit("gif");
    reveal_strlit("webp");
    reveal_strlit("svg");
    reveal_strlit("bmp");
    reveal_strlit("heic");
    reveal_strlit("heif");
    reveal_strlit("tiff");
    reveal_strlit("tif");
    reveal_strlit("avif");
    let small = text::lower(ending);
    if small == "pdf"@ {
        assert(small[0] == 'p' && small[1] == 'd' && small.len() == 3);
    }
    if small == "txt"@ {
        assert(small[0] == 't' && small[1] == 'x' && small.len() == 3);
    }
    if small == "md"@ {
        assert(small.len() == 2);
    }
}

} // verus!
