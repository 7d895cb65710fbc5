//! Attachments: ordinary files that a task's body links to.
use vstd::prelude::*;

use crate::config::{self, Config, ConfigModel};
use crate::error::{self, Error, ErrorModel, IssueModel, ValidationIssue};
use crate::markdown::{self, Mark, MarkModel};
use crate::paths;
use crate::text;

verus! {

/// The directory of all attachments, below the store.
pub const DIRECTORY: &'static str = "Attachments";

/// How many bytes an attachment may have.
pub const MAX_ATTACHMENT_BYTES: u64 = 20971520;

/// The error where a record directory overlaps the attachments.
pub open spec fn disabled_error() -> ErrorModel {
    ErrorModel::validation(
        "attachments_disabled"@,
        "Attachments overlaps a configured record directory; ordinary task operations remain available"@,
    )
}

/// Whether no record directory overlaps the attachments.
pub open spec fn enabled(config: ConfigModel) -> bool {
    !config::overlap("Attachments"@, config.tasks_directory) && !config::overlap(
        "Attachments"@,
        config.projects_directory,
    )
}

/// Fail where a record directory overlaps the attachments.
pub fn ensure_enabled(config: &Config) -> (r: Result<(), Error>)
    ensures
        r is Ok <==> enabled(config@),
        r matches Err(e) ==> e@ == disabled_error(),
{
    if config::managed_paths_overlap("Attachments", config.tasks_directory.as_str())
        || config::managed_paths_overlap("Attachments", config.projects_directory.as_str()) {
        return Err(
            Error::validation(
                "attachments_disabled",
                "Attachments overlaps a configured record directory; ordinary task operations remain available",
            ),
        );
    }
    Ok(())
}

/// Whether a piece of a path is no plain name.
pub open spec fn odd_piece(piece: Seq<char>) -> bool {
    piece.len() == 0 || piece == seq!['.'] || piece == seq!['.', '.']
}

/// Whether a text is the normalized path of an attachment below the store.
pub open spec fn selector(value: Seq<char>) -> bool {
    let pieces = text::split(value, '/');
    &&& text::begins(value, "Attachments/"@)
    &&& forall|i: int|
        0 <= i < value.len() ==> #[trigger] value[i] != '\\' && !text::is_control(value[i])
    &&& forall|i: int| 0 <= i < pieces.len() ==> !odd_piece(#[trigger] pieces[i])
}

/// The error for a path that names no attachment.
pub open spec fn selector_error(value: Seq<char>) -> ErrorModel {
    ErrorModel::validation(
        "unsafe_attachment_path"@,
        "Use an explicit normalized store-relative Attachments/... file path"@,
    ).with_path(value)
}

/// Whether a text is the normalized path of an attachment below the store.
pub fn is_selector(value: &str) -> (r: bool)
    ensures
        r == selector(value@),
{
    let chars = text::chars(value);
    if !text::is_at(&chars, "Attachments/", 0) {
        return false;
    }
    let mut i: usize = 0;
    while i < chars.len()
        invariant
            i <= chars@.len(),
            chars@ == value@,
            forall|k: int|
                0 <= k < i ==> #[trigger] value@[k] != '\\' && !text::is_control(value@[k]),
        decreases chars.len() - i,
    {
        if chars[i] == '\\' || text::is_control(chars[i]) {
            assert(value@[i as int] == chars@[i as int]);
            return false;
        }
        i += 1;
    }
    let pieces = text::split_on(&chars, '/');
    let ghost all = text::split(value@, '/');
    let mut k: usize = 0;
    while k < pieces.len()
        invariant
            k <= pieces@.len(),
            all == text::split(value@, '/'),
            text::texts(pieces@) == all,
            forall|j: int| 0 <= j < k ==> !odd_piece(#[trigger] all[j]),
        decreases pieces.len() - k,
    {
        let piece = &pieces[k];
        assert(all[k as int] == piece@);
        let dot = piece.len() == 1 && piece[0] == '.';
        let dots = piece.len() == 2 && piece[0] == '.' && piece[1] == '.';
        assert(dot == (piece@ =~= seq!['.']));
        assert(dots == (piece@ =~= seq!['.', '.']));
        if piece.len() == 0 || dot || dots {
            assert(odd_piece(all[k as int]));
            return false;
        }
        k += 1;
    }
    true
}

/// The path of an attachment, as it is given.
pub fn validate_selector(value: &str) -> (r: Result<&str, Error>)
    ensures
        r is Ok <==> selector(value@),
        r matches Ok(path) ==> path@ == value@,
        r matches Err(e) ==> e@ == selector_error(value@),
{
    if is_selector(value) {
        Ok(value)
    } else {
        Err(
            Error::validation(
                "unsafe_attachment_path",
                "Use an explicit normalized store-relative Attachments/... file path",
            ).with_path(value),
        )
    }
}

/// Whether a character cannot stand in a file name.
pub open spec fn unsafe_char(c: char) -> bool {
    text::is_control(c) || "/\\:*?\"<>|"@.contains(c)
}

/// The text with `_` for what cannot stand in a file name.
pub open spec fn safe_chars(s: Seq<char>) -> Seq<char> {
    s.map_values(
        |c: char|
            if unsafe_char(c) {
                '_'
            } else {
                c
            },
    )
}

/// Whether a character is cut off at the ends of a file name.
pub open spec fn edge(c: char) -> bool {
    text::is_whitespace(c) || c == '.'
}

/// Where what is cut off at the start ends.
pub open spec fn edge_end(s: Seq<char>, from: int) -> int
    decreases s.len() - from,
{
    if from < s.len() && edge(s[from]) {
        edge_end(s, from + 1)
    } else {
        from
    }
}

/// Where what is cut off at the end begins, not before `from`.
pub open spec fn edge_start(s: Seq<char>, from: int, to: int) -> int
    decreases to,
{
    if to > from && to > 0 && edge(s[to - 1]) {
        edge_start(s, from, to - 1)
    } else {
        to
    }
}

/// The text without whitespace and dots at its ends.
pub open spec fn bare(s: Seq<char>) -> Seq<char> {
    let from = edge_end(s, 0);
    s.subrange(from, edge_start(s, from, s.len() as int))
}

/// The longest beginning of the text that has no more than 200 bytes.
pub open spec fn fitted(s: Seq<char>) -> Seq<char>
    decreases s.len(),
{
    if s.len() > 0 && text::byte_len(s) > 200 {
        fitted(s.drop_last())
    } else {
        s
    }
}

/// A name that a file system takes, made of the given one.
pub open spec fn file_name(name: Seq<char>) -> Seq<char> {
    let fit = fitted(bare(safe_chars(name)));
    if fit.len() == 0 {
        "attachment"@
    } else {
        fit
    }
}

fn is_unsafe_char(c: char) -> (r: bool)
    ensures
        r == unsafe_char(c),
{
    let listed = text::chars("/\\:*?\"<>|");
    text::is_control(c) || text::has(&listed, c)
}

fn is_edge(c: char) -> (r: bool)
    ensures
        r == edge(c),
{
    text::is_whitespace(c) || c == '.'
}

/// A name that a file system takes, made of the given one: at most 200 bytes, without control
/// characters and separators, and without whitespace and dots at its ends.
#[must_use]
pub fn sanitize_filename(name: &str) -> (r: String)
    ensures
        r@ == file_name(name@),
{
    let chars = text::chars(name);
    let mut safe: Vec<char> = Vec::new();
    let mut i: usize = 0;
    while i < chars.len()
        invariant
            i <= chars@.len(),
            chars@ == name@,
            safe@ == safe_chars(name@.take(i as int)),
        decreases chars.len() - i,
    {
        assert(name@.take(i + 1) =~= name@.take(i as int).push(name@[i as int]));
        if is_unsafe_char(chars[i]) {
            safe.push('_');
        } else {
            safe.push(chars[i]);
        }
        assert(safe@ =~= safe_chars(name@.take(i + 1)));
        i += 1;
    }
    assert(name@.take(i as int) =~= name@);
    let mut from: usize = 0;
    while from < safe.len() && is_edge(safe[from])
        invariant
            from <= safe@.len(),
            edge_end(safe@, 0) == edge_end(safe@, from as int),
        decreases safe.len() - from,
    {
        from += 1;
    }
    let mut to: usize = safe.len();
    while to > from && is_edge(safe[to - 1])
        invariant
            from <= to <= safe@.len(),
            edge_start(safe@, from as int, safe@.len() as int) == edge_start(
                safe@,
                from as int,
                to as int,
            ),
        decreases to,
    {
        to -= 1;
    }
    let cut = text::cut(&safe, from, to);
    assert(cut@ == bare(safe@));
    let mut n: usize = 0;
    let mut bytes: usize = 0;
    while n < cut.len() && bytes + text::char_width(cut[n]) <= 200
        invariant
            n <= cut@.len(),
            bytes <= 200,
            bytes == text::byte_len(cut@.take(n as int)),
        decreases cut.len() - n,
    {
        assert(cut@.take(n + 1).drop_last() =~= cut@.take(n as int));
        bytes += text::char_width(cut[n]);
        n += 1;
    }
    proof {
        lemma_fitted(cut@, n as int);
    }
    if n == 0 {
        return "attachment".to_owned();
    }
    text::string(&text::cut(&cut, 0, n))
}

/// A beginning that fits, where one more character does not, is the longest that fits.
proof fn lemma_fitted(s: Seq<char>, n: int)
    requires
        0 <= n <= s.len(),
        text::byte_len(s.take(n)) <= 200,
        n < s.len() ==> text::byte_len(s.take(n)) + text::width(s[n]) > 200,
    ensures
        fitted(s) == s.take(n),
        s.subrange(0, n) == s.take(n),
    decreases s.len(),
{
    if n < s.len() {
        let t = s.take(n + 1);
        assert(t.drop_last() =~= s.take(n));
        assert(s =~= t + s.subrange(n + 1, s.len() as int));
        text::lemma_byte_len_add(t, s.subrange(n + 1, s.len() as int));
        assert(s.drop_last().take(n) =~= s.take(n));
        lemma_fitted(s.drop_last(), n);
    } else {
        assert(s.take(n) =~= s);
    }
}

/// What follows the last dot of a text; all of it where there is none.
pub open spec fn extension(s: Seq<char>) -> Seq<char> {
    s.subrange(text::find_back(s, '.', s.len() as int) + 1, s.len() as int)
}

pub(crate) fn extension_of(s: &Vec<char>) -> (r: Vec<char>)
    ensures
        r@ == extension(s@),
{
    let n: usize = s.len();
    match text::find_last(s, '.') {
        Some(at) => text::cut(s, at + 1, n),
        None => text::cut(s, 0, n),
    }
}

/// Whether a small-letter extension is that of an image.
pub open spec fn image_extension(s: Seq<char>) -> bool {
    ||| s == "png"@
    ||| s == "jpg"@
    ||| s == "jpeg"@
    ||| s == "gif"@
    ||| s == "webp"@
    ||| s == "svg"@
    ||| s == "bmp"@
    ||| s == "heic"@
    ||| s == "heif"@
    ||| s == "tiff"@
    ||| s == "tif"@
    ||| s == "avif"@
}

/// Whether a path is that of an image, by its extension.
pub open spec fn image(path: Seq<char>) -> bool {
    image_extension(text::lower(extension(path)))
}

/// Whether a path is that of an image, by its extension.
#[must_use]
pub fn is_image(path: &str) -> (r: bool)
    ensures
        r == image(path@),
{
    let e = text::to_lower(&extension_of(&text::chars(path)));
    text::spells(&e, "png") || text::spells(&e, "jpg") || text::spells(&e, "jpeg")
        || text::spells(&e, "gif") || text::spells(&e, "webp") || text::spells(&e, "svg")
        || text::spells(&e, "bmp") || text::spells(&e, "heic") || text::spells(&e, "heif")
        || text::spells(&e, "tiff") || text::spells(&e, "tif") || text::spells(&e, "avif")
}

/// How many components two paths have in common, from the `i`-th on.
pub open spec fn shared(a: Seq<(int, Seq<char>)>, b: Seq<(int, Seq<char>)>, i: int) -> int
    decreases a.len() - i,
{
    if i < a.len() && i < b.len() && a[i] == b[i] {
        shared(a, b, i + 1)
    } else {
        i
    }
}

fn shared_parts(a: &Vec<paths::Part>, b: &Vec<paths::Part>) -> (r: usize)
    ensures
        r == shared(paths::named(a@), paths::named(b@), 0),
        r <= a@.len(),
        r <= b@.len(),
{
    let mut i: usize = 0;
    while i < a.len() && i < b.len() && a[i].kind == b[i].kind && text::equal(
        &a[i].name,
        &b[i].name,
    )
        invariant
            i <= a@.len(),
            i <= b@.len(),
            shared(paths::named(a@), paths::named(b@), 0) == shared(
                paths::named(a@),
                paths::named(b@),
                i as int,
            ),
        decreases a.len() - i,
    {
        assert(paths::named(a@)[i as int] == (a@[i as int].kind as int, a@[i as int].name@));
        assert(paths::named(b@)[i as int] == (b@[i as int].kind as int, b@[i as int].name@));
        i += 1;
    }
    if i < a.len() && i < b.len() {
        assert(paths::named(a@)[i as int] == (a@[i as int].kind as int, a@[i as int].name@));
        assert(paths::named(b@)[i as int] == (b@[i as int].kind as int, b@[i as int].name@));
    }
    i
}

/// The text so many times.
pub open spec fn repeated(s: Seq<char>, n: nat) -> Seq<char>
    decreases n,
{
    if n == 0 {
        seq![]
    } else {
        repeated(s, (n - 1) as nat) + s
    }
}

/// The components of the directory that a task lies in.
pub open spec fn task_directory(task_path: Seq<char>) -> Seq<(int, Seq<char>)> {
    match paths::parent_parts(task_path) {
        Some(parts) => parts,
        None => seq![],
    }
}

/// The way from a task to an attachment.
pub open spec fn way(task_path: Seq<char>, selector: Seq<char>) -> Seq<char> {
    let source = task_directory(task_path);
    let target = paths::parts(selector);
    let common = shared(source, target, 0);
    repeated("../"@, (source.len() - common) as nat) + text::joined(
        markdown::part_texts(target.subrange(common, target.len() as int)),
        "/"@,
    )
}

fn way_to(task_path: &str, selector: &str) -> (r: String)
    ensures
        r@ == way(task_path@, selector@),
{
    let source = match paths::parent_components(task_path) {
        Some(parts) => parts,
        None => {
            let none: Vec<paths::Part> = Vec::new();
            assert(paths::named(none@) =~= Seq::<(int, Seq<char>)>::empty());
            none
        },
    };
    let target = paths::components(selector);
    let common: usize = shared_parts(&source, &target);
    let up: usize = source.len() - common;
    let mut r = String::new();
    let mut i: usize = 0;
    assert(r@ =~= repeated("../"@, 0));
    while i < up
        invariant
            i <= up,
            r@ == repeated("../"@, i as nat),
        decreases up - i,
    {
        r.append("../");
        i += 1;
    }
    let names = markdown::names_of(&target);
    let ghost all = text::strings(names@);
    assert(all.len() == names@.len() && all.len() == target@.len());
    let mut rest: Vec<String> = Vec::new();
    let mut k: usize = common;
    while k < names.len()
        invariant
            common <= k <= names@.len(),
            rest@.len() == k - common,
            all == text::strings(names@),
            all == markdown::part_texts(paths::parts(selector@)),
            forall|j: int| 0 <= j < rest@.len() ==> (#[trigger] rest@[j])@ == all[common + j],
        decreases names.len() - k,
    {
        assert(all[k as int] == names@[k as int]@);
        rest.push(names[k].clone());
        k += 1;
    }
    assert(text::strings(rest@) =~= markdown::part_texts(
        paths::parts(selector@).subrange(common as int, paths::parts(selector@).len() as int),
    ));
    r.append(text::join(&rest, "/").as_str());
    r
}

/// Whether a byte stands for itself in the target of a link.
pub open spec fn plain_byte(b: u8) -> bool {
    48 <= b <= 57 || 65 <= b <= 90 || 97 <= b <= 122 || b == 45 || b == 46 || b == 95 || b == 126
        || b == 47
}

/// A capital hexadecimal digit.
pub open spec fn hex_digit(n: int) -> char {
    if n < 10 {
        ('0' as int + n) as char
    } else {
        ('A' as int + n - 10) as char
    }
}

/// A byte in the target of a link.
pub open spec fn encoded_byte(b: u8) -> Seq<char> {
    if plain_byte(b) {
        seq![b as char]
    } else {
        seq!['%', hex_digit(b as int / 16), hex_digit(b as int % 16)]
    }
}

/// Bytes in the target of a link.
pub open spec fn encoded(bytes: Seq<u8>) -> Seq<char>
    decreases bytes.len(),
{
    if bytes.len() == 0 {
        seq![]
    } else {
        encoded(bytes.drop_last()) + encoded_byte(bytes.last())
    }
}

fn push_hex(s: &mut String, n: u8)
    requires
        n < 16,
    ensures
        final(s)@ == old(s)@.push(hex_digit(n as int)),
{
    if n < 10 {
        s.push((48 + n) as char);
    } else {
        s.push((55 + n) as char);
    }
}

fn encode(bytes: &[u8]) -> (r: String)
    ensures
        r@ == encoded(bytes@),
{
    let mut r = String::new();
    let mut i: usize = 0;
    assert(r@ =~= encoded(bytes@.take(0)));
    while i < bytes.len()
        invariant
            i <= bytes@.len(),
            r@ == encoded(bytes@.take(i as int)),
        decreases bytes.len() - i,
    {
        let b: u8 = bytes[i];
        assert(bytes@.take(i + 1).drop_last() =~= bytes@.take(i as int));
        let ghost had = r@;
        if (48 <= b && b <= 57) || (65 <= b && b <= 90) || (97 <= b && b <= 122) || b == 45 || b
            == 46 || b == 95 || b == 126 || b == 47 {
            r.push(b as char);
            assert(r@ =~= had + encoded_byte(b));
        } else {
            r.push('%');
            push_hex(&mut r, b / 16);
            push_hex(&mut r, b % 16);
            assert(r@ =~= had + encoded_byte(b));
        }
        i += 1;
    }
    assert(bytes@.take(i as int) =~= bytes@);
    r
}

/// A character in the label of a link.
pub open spec fn label_char(c: char) -> Seq<char> {
    if c == '\\' || c == '[' || c == ']' {
        seq!['\\', c]
    } else {
        seq![c]
    }
}

/// A text as the label of a link.
pub open spec fn label(s: Seq<char>) -> Seq<char>
    decreases s.len(),
{
    if s.len() == 0 {
        seq![]
    } else {
        label(s.drop_last()) + label_char(s.last())
    }
}

fn label_of(name: &str) -> (r: String)
    ensures
        r@ == label(name@),
{
    let s = text::chars(name);
    let mut r = String::new();
    let mut i: usize = 0;
    assert(r@ =~= label(s@.take(0)));
    while i < s.len()
        invariant
            i <= s@.len(),
            r@ == label(s@.take(i as int)),
        decreases s.len() - i,
    {
        let c = s[i];
        assert(s@.take(i + 1).drop_last() =~= s@.take(i as int));
        let ghost had = r@;
        if c == '\\' || c == '[' || c == ']' {
            r.push('\\');
        }
        r.push(c);
        assert(r@ =~= had + label_char(c));
        i += 1;
    }
    assert(s@.take(i as int) =~= s@);
    r
}

/// A link from a task to an attachment; an image is embedded.
pub open spec fn link_text(task_path: Seq<char>, selector: Seq<char>, name: Seq<char>) -> Seq<
    char,
> {
    let mark = if image(selector) {
        "!"@
    } else {
        ""@
    };
    mark + "["@ + label(name) + "]("@ + encoded(
        vstd::utf8::encode_utf8(way(task_path, selector)),
    ) + ")"@
}

/// A link from a task to an attachment.
pub open spec fn checked_link(task_path: Seq<char>, value: Seq<char>, name: Seq<char>) -> Result<
    Seq<char>,
    ErrorModel,
> {
    if selector(value) {
        Ok(link_text(task_path, value, name))
    } else {
        Err(selector_error(value))
    }
}

/// A Markdown link from a task to an attachment; an image is embedded.
pub fn markdown_link(task_path: &str, selector: &str, display_name: &str) -> (r: Result<
    String,
    Error,
>)
    ensures
        error::viewed(r) == checked_link(task_path@, selector@, display_name@),
{
    if let Err(e) = validate_selector(selector) {
        return Err(e);
    }
    let mark = if is_image(selector) {
        "!"
    } else {
        ""
    };
    let mut r = mark.to_owned();
    r.append("[");
    r.append(label_of(display_name).as_str());
    r.append("](");
    r.append(encode(way_to(task_path, selector).as_str().as_bytes()).as_str());
    r.append(")");
    Ok(r)
}

/// The body with an end of line behind it, and an empty line, where there is anything in it.
pub open spec fn opened(body: Seq<char>) -> Seq<char> {
    let first = if body.len() > 0 && !text::ends(body, "\n"@) {
        body + "\n"@
    } else {
        body
    };
    if first.len() > 0 && !text::ends(first, "\n\n"@) {
        first + "\n"@
    } else {
        first
    }
}

/// The text with a line for each of the links from the `i`-th on.
pub open spec fn with_links(
    output: Seq<char>,
    task_path: Seq<char>,
    selectors: Seq<Seq<char>>,
    i: int,
) -> Result<Seq<char>, ErrorModel>
    decreases selectors.len() - i,
{
    if i >= selectors.len() {
        Ok(output)
    } else {
        match checked_link(task_path, selectors[i], markdown::last_name(selectors[i])) {
            Ok(link) => with_links(output + "- "@ + link + "\n"@, task_path, selectors, i + 1),
            Err(e) => Err(e),
        }
    }
}

/// The body with links to attachments under a heading of their own.
pub open spec fn appended(body: Seq<char>, task_path: Seq<char>, selectors: Seq<Seq<char>>) -> Result<
    Seq<char>,
    ErrorModel,
> {
    if selectors.len() == 0 {
        Ok(body)
    } else {
        with_links(opened(body) + "## Attachments\n\n"@, task_path, selectors, 0)
    }
}

fn open_body(body: &str) -> (r: String)
    ensures
        r@ == opened(body@),
{
    let chars = text::chars(body);
    let mut r = body.to_owned();
    let n: usize = chars.len();
    proof {
        reveal_strlit("\n");
        reveal_strlit("\n\n");
        assert("\n"@.len() == 1);
        assert("\n\n"@.len() == 2);
    }
    if n > 0 && !text::is_at(&chars, "\n", n - 1) {
        r.append("\n");
    }
    let chars = text::chars(r.as_str());
    let n: usize = chars.len();
    if n > 0 && (n < 2 || !text::is_at(&chars, "\n\n", n - 2)) {
        r.append("\n");
    }
    r
}

/// The body with links to attachments under a heading of their own.
pub fn append_links(body: &str, task_path: &str, selectors: &[String]) -> (r: Result<
    String,
    Error,
>)
    ensures
        error::viewed(r) == appended(body@, task_path@, text::strings(selectors@)),
{
    if selectors.len() == 0 {
        return Ok(body.to_owned());
    }
    let ghost all = text::strings(selectors@);
    let mut output = open_body(body);
    output.append("## Attachments\n\n");
    let ghost start = output@;
    let mut i: usize = 0;
    while i < selectors.len()
        invariant
            i <= selectors@.len(),
            all == text::strings(selectors@),
            with_links(start, task_path@, all, 0) == with_links(
                output@,
                task_path@,
                all,
                i as int,
            ),
            selectors@.len() > 0,
            start == opened(body@) + "## Attachments\n\n"@,
        decreases selectors.len() - i,
    {
        assert(all[i as int] == selectors@[i as int]@);
        let name = markdown::last_name_of(selectors[i].as_str());
        match markdown_link(task_path, selectors[i].as_str(), name.as_str()) {
            Ok(link) => {
                output.append("- ");
                output.append(link.as_str());
                output.append("\n");
            },
            Err(e) => {
                return Err(e);
            },
        }
        i += 1;
    }
    Ok(output)
}

/// A link to an attachment: where it leads, its name, and the bytes of the body that it takes.
#[derive(Debug)]
pub struct AttachmentLink {
    pub path: String,
    pub display_name: String,
    pub range: std::ops::Range<usize>,
}

/// What a link is.
#[verifier::ext_equal]
pub struct LinkModel {
    pub path: Seq<char>,
    pub display_name: Seq<char>,
    pub start: int,
    pub end: int,
}

impl View for AttachmentLink {
    type V = LinkModel;

    open spec fn view(&self) -> LinkModel {
        LinkModel {
            path: self.path@,
            display_name: self.display_name@,
            start: self.range.start as int,
            end: self.range.end as int,
        }
    }
}

/// What links are.
pub open spec fn link_models(links: Seq<AttachmentLink>) -> Seq<LinkModel> {
    links.map_values(|link: AttachmentLink| link@)
}

/// How many bytes the body has before a place.
pub open spec fn byte_offset(body: Seq<char>, at: int) -> int {
    text::byte_len(body.take(at)) as int
}

/// The links of a body, by the bytes that they take.
pub open spec fn links_of(body: Seq<char>, marks: Seq<MarkModel>) -> Seq<LinkModel> {
    marks.map_values(
        |mark: MarkModel|
            LinkModel {
                path: mark.path,
                display_name: mark.name,
                start: byte_offset(body, mark.start),
                end: byte_offset(body, mark.end),
            },
    )
}

/// The number of bytes before each character, and after the last.
fn byte_offsets(body: &str) -> (r: Vec<usize>)
    ensures
        r@.len() == body@.len() + 1,
        forall|i: int| 0 <= i <= body@.len() ==> #[trigger] r@[i] == byte_offset(body@, i),
{
    let s = text::chars(body);
    let bytes = body.as_bytes();
    let total: usize = bytes.len();
    let mut r: Vec<usize> = Vec::new();
    let mut at: usize = 0;
    let mut i: usize = 0;
    proof {
        text::lemma_byte_len(body@);
    }
    r.push(0);
    while i < s.len()
        invariant
            i <= s@.len(),
            s@ == body@,
            total == text::byte_len(body@),
            r@.len() == i + 1,
            at == byte_offset(body@, i as int),
            forall|k: int| 0 <= k <= i ==> #[trigger] r@[k] == byte_offset(body@, k),
        decreases s.len() - i,
    {
        proof {
            assert(body@.take(i + 1).drop_last() =~= body@.take(i as int));
            let rest = body@.subrange(i + 1, body@.len() as int);
            assert(body@ =~= body@.take(i + 1) + rest);
            text::lemma_byte_len_add(body@.take(i + 1), rest);
        }
        at += text::char_width(s[i]);
        r.push(at);
        i += 1;
    }
    r
}

/// The links of a body to attachments, with the bytes that they take. Links in code do not
/// count, nor those whose path is not explicit. A wikilink may begin with the prefix of the
/// store.
pub fn links_with_prefix(body: &str, task_path: &str, store_prefix: &str) -> (r: Vec<
    AttachmentLink,
>)
    ensures
        link_models(r@) == links_of(
            body@,
            markdown::found_in(body@, task_path@, store_prefix@).marks,
        ),
{
    let offsets = byte_offsets(body);
    let findings = markdown::parse_links(body, task_path, store_prefix);
    let ghost marks = findings@.marks;
    proof {
        markdown::links_do_not_overlap(body@, task_path@, store_prefix@);
    }
    let mut r: Vec<AttachmentLink> = Vec::new();
    let mut i: usize = 0;
    while i < findings.marks.len()
        invariant
            i <= findings.marks@.len(),
            marks == markdown::mark_models(findings.marks@),
            markdown::in_sequence(marks, body@.len() as int),
            offsets@.len() == body@.len() + 1,
            forall|k: int|
                0 <= k <= body@.len() ==> #[trigger] offsets@[k] == byte_offset(body@, k),
            r@.len() == i,
            forall|k: int| 0 <= k < i ==> (#[trigger] r@[k])@ == links_of(body@, marks)[k],
        decreases findings.marks.len() - i,
    {
        let mark = &findings.marks[i];
        assert(marks[i as int] == mark@);
        r.push(
            AttachmentLink {
                path: mark.path.clone(),
                display_name: mark.name.clone(),
                range: std::ops::Range { start: offsets[mark.start], end: offsets[mark.end] },
            },
        );
        i += 1;
    }
    assert(link_models(r@) =~= links_of(body@, marks));
    r
}

/// The links of a body to attachments. See [`links_with_prefix`].
pub fn links(body: &str, task_path: &str) -> (r: Vec<AttachmentLink>)
    ensures
        link_models(r@) == links_of(body@, markdown::found_in(body@, task_path@, ""@).marks),
{
    links_with_prefix(body, task_path, "")
}

/// The body from `from` on, without the links from the `i`-th on that lead to the attachment.
pub open spec fn without_links(
    body: Seq<char>,
    marks: Seq<MarkModel>,
    i: int,
    from: int,
    selector: Seq<char>,
) -> Seq<char>
    decreases marks.len() - i,
{
    if i >= marks.len() {
        body.subrange(from, body.len() as int)
    } else if marks[i].path == selector {
        body.subrange(from, marks[i].start) + without_links(
            body,
            marks,
            i + 1,
            marks[i].end,
            selector,
        )
    } else {
        without_links(body, marks, i + 1, from, selector)
    }
}

/// The body without its links to the attachment.
pub fn unlink_with_prefix(
    body: &str,
    task_path: &str,
    selector: &str,
    store_prefix: &str,
) -> (r: String)
    ensures
        r@ == without_links(
            body@,
            markdown::found_in(body@, task_path@, store_prefix@).marks,
            0,
            0,
            selector@,
        ),
{
    let s = text::chars(body);
    let findings = markdown::parse_links(body, task_path, store_prefix);
    let ghost marks = findings@.marks;
    proof {
        markdown::links_do_not_overlap(body@, task_path@, store_prefix@);
    }
    let mut r = String::new();
    let mut from: usize = 0;
    let mut i: usize = 0;
    assert(r@ + without_links(body@, marks, 0, 0, selector@) =~= without_links(
        body@,
        marks,
        0,
        0,
        selector@,
    ));
    while i < findings.marks.len()
        invariant
            i <= findings.marks@.len(),
            s@ == body@,
            marks == markdown::mark_models(findings.marks@),
            markdown::in_sequence(marks, body@.len() as int),
            from <= body@.len(),
            forall|k: int| i <= k < marks.len() ==> from <= (#[trigger] marks[k]).start,
            without_links(body@, marks, 0, 0, selector@) == r@ + without_links(
                body@,
                marks,
                i as int,
                from as int,
                selector@,
            ),
        decreases findings.marks.len() - i,
    {
        let mark = &findings.marks[i];
        assert(marks[i as int] == mark@);
        if text::same(mark.path.as_str(), selector) {
            let ghost had = r@;
            let piece = text::string(&text::cut(&s, from, mark.start));
            r.append(piece.as_str());
            assert(had + (piece@ + without_links(
                body@,
                marks,
                i + 1,
                mark.end as int,
                selector@,
            )) =~= r@ + without_links(body@, marks, i + 1, mark.end as int, selector@));
            from = mark.end;
        }
        i += 1;
    }
    let piece = text::string(&text::cut(&s, from, s.len()));
    r.append(piece.as_str());
    r
}

/// The body without its links to the attachment.
pub fn unlink(body: &str, task_path: &str, selector: &str) -> (r: String)
    ensures
        r@ == without_links(
            body@,
            markdown::found_in(body@, task_path@, ""@).marks,
            0,
            0,
            selector@,
        ),
{
    unlink_with_prefix(body, task_path, selector, "")
}

/// A body without links to an attachment stays as it is.
pub proof fn unlinking_nothing_changes_nothing(
    body: Seq<char>,
    marks: Seq<MarkModel>,
    selector: Seq<char>,
)
    requires
        forall|i: int| 0 <= i < marks.len() ==> (#[trigger] marks[i]).path != selector,
    ensures
        without_links(body, marks, 0, 0, selector) == body,
{
    lemma_without_none(body, marks, 0, selector);
    assert(body.subrange(0, body.len() as int) =~= body);
}

proof fn lemma_without_none(
    body: Seq<char>,
    marks: Seq<MarkModel>,
    i: int,
    selector: Seq<char>,
)
    requires
        0 <= i,
        forall|i: int| 0 <= i < marks.len() ==> (#[trigger] marks[i]).path != selector,
    ensures
        without_links(body, marks, i, 0, selector) == body.subrange(0, body.len() as int),
    decreases marks.len() - i,
{
    if i < marks.len() {
        lemma_without_none(body, marks, i + 1, selector);
    }
}

/// What the file system has at a path, without following a symlink.
#[derive(Debug)]
pub enum Entry {
    Missing,
    Directory,
    File(u64),
    Symlink,
    Other,
    /// The path could not be looked at, for the reason given.
    Failed { path: String, reason: String },
}

/// What the file system has at a path.
#[verifier::ext_equal]
pub enum EntryModel {
    Missing,
    Directory,
    File(u64),
    Symlink,
    Other,
    Failed(Seq<char>, Seq<char>),
}

impl View for Entry {
    type V = EntryModel;

    open spec fn view(&self) -> EntryModel {
        match *self {
            Entry::Missing => EntryModel::Missing,
            Entry::Directory => EntryModel::Directory,
            Entry::File(size) => EntryModel::File(size),
            Entry::Symlink => EntryModel::Symlink,
            Entry::Other => EntryModel::Other,
            Entry::Failed { path, reason } => EntryModel::Failed(path@, reason@),
        }
    }
}

/// What the file system has at paths.
pub open spec fn entry_models(entries: Seq<Entry>) -> Seq<EntryModel> {
    entries.map_values(|entry: Entry| entry@)
}

/// What the file system has along several paths.
pub open spec fn all_entry_models(entries: Seq<Vec<Entry>>) -> Seq<Seq<EntryModel>> {
    entries.map_values(|list: Vec<Entry>| entry_models(list@))
}

/// The error for an attachment path with a message of its own.
pub open spec fn unsafe_path(message: Seq<char>, relative: Seq<char>) -> ErrorModel {
    ErrorModel::validation("unsafe_attachment_path"@, message).with_path(relative)
}

/// The size of the file at the end of the components from the `i`-th on, by what stands at each
/// of them: all but the last are directories, the last is a regular file. Where the list ends,
/// nothing is there.
pub open spec fn size_at(
    relative: Seq<char>,
    parts: Seq<(int, Seq<char>)>,
    entries: Seq<EntryModel>,
    i: int,
) -> Result<Option<u64>, ErrorModel>
    decreases parts.len() - i,
{
    if i >= parts.len() {
        Ok(None)
    } else if parts[i].0 != 3 {
        Err(unsafe_path("Attachment path is not normalized"@, relative))
    } else if i >= entries.len() {
        Ok(None)
    } else {
        match entries[i] {
            EntryModel::Missing => Ok(None),
            EntryModel::Failed(path, reason) => Err(
                ErrorModel::io("inspect attachment"@, path, reason),
            ),
            EntryModel::Directory if i + 1 < parts.len() => size_at(
                relative,
                parts,
                entries,
                i + 1,
            ),
            EntryModel::File(size) if i + 1 == parts.len() => Ok(Some(size)),
            _ => Err(
                unsafe_path(
                    "Attachment paths must be regular files without symlinks"@,
                    relative,
                ),
            ),
        }
    }
}

/// The size of the file at a path, by what stands at each of its components. See [`size_at`].
pub fn safe_metadata(relative: &str, entries: &Vec<Entry>) -> (r: Result<Option<u64>, Error>)
    ensures
        error::outcome(r) == size_at(
            relative@,
            paths::parts(relative@),
            entry_models(entries@),
            0,
        ),
{
    let parts = paths::components(relative);
    let ghost all = paths::parts(relative@);
    let ghost models = entry_models(entries@);
    let mut i: usize = 0;
    while i < parts.len()
        invariant
            i <= parts@.len(),
            all == paths::named(parts@),
            all == paths::parts(relative@),
            models == entry_models(entries@),
            size_at(relative@, all, models, 0) == size_at(relative@, all, models, i as int),
        decreases parts.len() - i,
    {
        assert(all[i as int] == (parts@[i as int].kind as int, parts@[i as int].name@));
        if parts[i].kind != 3 {
            return Err(
                Error::validation(
                    "unsafe_attachment_path",
                    "Attachment path is not normalized",
                ).with_path(relative),
            );
        }
        if i >= entries.len() {
            return Ok(None);
        }
        assert(models[i as int] == entries@[i as int]@);
        let last = i + 1 == parts.len();
        match &entries[i] {
            Entry::Missing => {
                return Ok(None);
            },
            Entry::Failed { path, reason } => {
                return Err(Error::io("inspect attachment", path.as_str(), reason.as_str()));
            },
            Entry::Directory if !last => {},
            Entry::File(size) if last => {
                return Ok(Some(*size));
            },
            _ => {
                return Err(
                    Error::validation(
                        "unsafe_attachment_path",
                        "Attachment paths must be regular files without symlinks",
                    ).with_path(relative),
                );
            },
        }
        i += 1;
    }
    Ok(None)
}

/// An attachment as it is shown.
#[derive(Debug)]
pub struct AttachmentView {
    pub path: String,
    pub display_name: String,
    pub byte_size: Option<u64>,
    pub availability: &'static str,
}

/// What is shown of an attachment.
#[verifier::ext_equal]
pub struct ViewModel {
    pub path: Seq<char>,
    pub display_name: Seq<char>,
    pub byte_size: Option<u64>,
    pub availability: Seq<char>,
}

impl View for AttachmentView {
    type V = ViewModel;

    open spec fn view(&self) -> ViewModel {
        ViewModel {
            path: self.path@,
            display_name: self.display_name@,
            byte_size: self.byte_size,
            availability: self.availability@,
        }
    }
}

/// What attachments show.
pub open spec fn view_models(views: Seq<AttachmentView>) -> Seq<ViewModel> {
    views.map_values(|view: AttachmentView| view@)
}

/// What is shown of an attachment whose file has a size, or is missing.
pub open spec fn shown(path: Seq<char>, display_name: Seq<char>, byte_size: Option<u64>) -> ViewModel {
    ViewModel {
        path,
        display_name,
        byte_size,
        availability: if byte_size is Some {
            "available"@
        } else {
            "missing"@
        },
    }
}

/// What is shown of an attachment, by what stands at each component of its path.
pub open spec fn inspected(
    value: Seq<char>,
    display_name: Seq<char>,
    entries: Seq<EntryModel>,
) -> Result<ViewModel, ErrorModel> {
    if !selector(value) {
        Err(selector_error(value))
    } else {
        match size_at(value, paths::parts(value), entries, 0) {
            Ok(size) => Ok(shown(value, display_name, size)),
            Err(e) => Err(e),
        }
    }
}

impl AttachmentView {
    /// What is shown of an attachment whose file has a size, or is missing.
    pub fn new(path: &str, display_name: &str, byte_size: Option<u64>) -> (r: Self)
        ensures
            r@ == shown(path@, display_name@, byte_size),
    {
        AttachmentView {
            path: path.to_owned(),
            display_name: display_name.to_owned(),
            byte_size,
            availability: if byte_size.is_some() {
                "available"
            } else {
                "missing"
            },
        }
    }
}

/// What is shown of an attachment, by what stands at each component of its path.
pub fn inspect(selector: &str, display_name: &str, entries: &Vec<Entry>) -> (r: Result<
    AttachmentView,
    Error,
>)
    ensures
        error::viewed(r) == inspected(selector@, display_name@, entry_models(entries@)),
{
    if let Err(e) = validate_selector(selector) {
        return Err(e);
    }
    match safe_metadata(selector, entries) {
        Ok(size) => Ok(AttachmentView::new(selector, display_name, size)),
        Err(e) => Err(e),
    }
}

/// Whether one of the links leads to the attachment.
pub open spec fn leads_to(marks: Seq<MarkModel>, path: Seq<char>) -> bool {
    exists|i: int| 0 <= i < marks.len() && (#[trigger] marks[i]).path == path
}

/// The first link to each attachment, among the first `n`.
pub open spec fn distinct(marks: Seq<MarkModel>, n: int) -> Seq<MarkModel>
    decreases n,
{
    if n <= 0 {
        seq![]
    } else {
        let before = distinct(marks, n - 1);
        if leads_to(before, marks[n - 1].path) {
            before
        } else {
            before.push(marks[n - 1])
        }
    }
}

/// The first link of a body to each attachment.
pub open spec fn distinct_in(
    body: Seq<char>,
    task_path: Seq<char>,
    store_prefix: Seq<char>,
) -> Seq<MarkModel> {
    let marks = markdown::found_in(body, task_path, store_prefix).marks;
    distinct(marks, marks.len() as int)
}

fn is_led_to(marks: &Vec<Mark>, path: &str) -> (r: bool)
    ensures
        r == leads_to(markdown::mark_models(marks@), path@),
{
    let ghost models = markdown::mark_models(marks@);
    let mut i: usize = 0;
    while i < marks.len()
        invariant
            i <= marks@.len(),
            models == markdown::mark_models(marks@),
            forall|k: int| 0 <= k < i ==> (#[trigger] models[k]).path != path@,
        decreases marks.len() - i,
    {
        assert(models[i as int] == marks@[i as int]@);
        if text::same(marks[i].path.as_str(), path) {
            return true;
        }
        i += 1;
    }
    false
}

fn distinct_of(marks: &Vec<Mark>) -> (r: Vec<Mark>)
    ensures
        markdown::mark_models(r@) == distinct(
            markdown::mark_models(marks@),
            marks@.len() as int,
        ),
{
    let ghost models = markdown::mark_models(marks@);
    let mut r: Vec<Mark> = Vec::new();
    let mut i: usize = 0;
    assert(markdown::mark_models(r@) =~= distinct(models, 0));
    while i < marks.len()
        invariant
            i <= marks@.len(),
            models == markdown::mark_models(marks@),
            markdown::mark_models(r@) == distinct(models, i as int),
        decreases marks.len() - i,
    {
        let mark = &marks[i];
        assert(models[i as int] == mark@);
        if !is_led_to(&r, mark.path.as_str()) {
            let ghost had = markdown::mark_models(r@);
            let next = Mark {
                path: mark.path.clone(),
                name: mark.name.clone(),
                start: mark.start,
                end: mark.end,
            };
            r.push(next);
            assert(markdown::mark_models(r@) =~= had.push(mark@));
        }
        i += 1;
    }
    r
}

/// The first link of a body to each attachment: the paths to look at, in order.
pub fn distinct_links(body: &str, task_path: &str, store_prefix: &str) -> (r: Vec<Mark>)
    ensures
        markdown::mark_models(r@) == distinct_in(body@, task_path@, store_prefix@),
{
    let findings = markdown::parse_links(body, task_path, store_prefix);
    assert(findings@.marks.len() == findings.marks@.len());
    distinct_of(&findings.marks)
}

/// Whether a body has a link to the attachment.
pub fn is_linked(body: &str, task_path: &str, store_prefix: &str, selector: &str) -> (r: bool)
    ensures
        r == leads_to(
            markdown::found_in(body@, task_path@, store_prefix@).marks,
            selector@,
        ),
{
    is_led_to(&markdown::parse_links(body, task_path, store_prefix).marks, selector)
}

/// What is shown of the attachments from the `i`-th on, after those shown.
pub open spec fn listed(
    marks: Seq<MarkModel>,
    entries: Seq<Seq<EntryModel>>,
    i: int,
    views: Seq<ViewModel>,
) -> Result<Seq<ViewModel>, ErrorModel>
    decreases marks.len() - i,
{
    if i >= marks.len() {
        Ok(views)
    } else {
        match inspected(marks[i].path, marks[i].name, entries[i]) {
            Ok(view) => listed(marks, entries, i + 1, views.push(view)),
            Err(e) => Err(e),
        }
    }
}

/// The result of listing, as values.
pub open spec fn views_outcome(r: Result<Vec<AttachmentView>, Error>) -> Result<
    Seq<ViewModel>,
    ErrorModel,
> {
    match r {
        Ok(views) => Ok(view_models(views@)),
        Err(e) => Err(e@),
    }
}

/// The attachments that a body links to, by what stands at each component of their paths, which
/// [`distinct_links`] gives.
pub fn list_with_prefix(
    task_path: &str,
    body: &str,
    store_prefix: &str,
    entries: &Vec<Vec<Entry>>,
) -> (r: Result<Vec<AttachmentView>, Error>)
    requires
        entries@.len() == distinct_in(body@, task_path@, store_prefix@).len(),
    ensures
        views_outcome(r) == listed(
            distinct_in(body@, task_path@, store_prefix@),
            all_entry_models(entries@),
            0,
            seq![],
        ),
{
    let marks = distinct_links(body, task_path, store_prefix);
    let ghost models = markdown::mark_models(marks@);
    let ghost all = all_entry_models(entries@);
    let mut views: Vec<AttachmentView> = Vec::new();
    assert(view_models(views@) =~= Seq::<ViewModel>::empty());
    let mut i: usize = 0;
    while i < marks.len()
        invariant
            i <= marks@.len(),
            entries@.len() == marks@.len(),
            models == markdown::mark_models(marks@),
            models == distinct_in(body@, task_path@, store_prefix@),
            all == all_entry_models(entries@),
            listed(models, all, 0, seq![]) == listed(
                models,
                all,
                i as int,
                view_models(views@),
            ),
        decreases marks.len() - i,
    {
        assert(models[i as int] == marks@[i as int]@);
        assert(all[i as int] == entry_models(entries@[i as int]@));
        match inspect(marks[i].path.as_str(), marks[i].name.as_str(), &entries[i]) {
            Ok(view) => {
                let ghost had = view_models(views@);
                views.push(view);
                assert(view_models(views@) =~= had.push(view@));
            },
            Err(e) => {
                return Err(e);
            },
        }
        i += 1;
    }
    Ok(views)
}

/// The attachments that a body links to. See [`list_with_prefix`].
pub fn list(task_path: &str, body: &str, entries: &Vec<Vec<Entry>>) -> (r: Result<
    Vec<AttachmentView>,
    Error,
>)
    requires
        entries@.len() == distinct_in(body@, task_path@, ""@).len(),
    ensures
        views_outcome(r) == listed(
            distinct_in(body@, task_path@, ""@),
            all_entry_models(entries@),
            0,
            seq![],
        ),
{
    list_with_prefix(task_path, body, "", entries)
}

/// The issue for a target that looks like an attachment and leads to none.
pub open spec fn odd_issue(target: Seq<char>, task_path: Seq<char>) -> IssueModel {
    IssueModel::warning(
        "attachment_link_unsupported"@,
        "Attachment link "@ + text::debug_text(target)
            + " is unsafe, shortened, or unsupported; use an explicit path into Attachments/"@,
    ).at_path(task_path)
}

/// The issues for targets that look like attachments and lead to none.
pub open spec fn odd_issues(odd: Seq<Seq<char>>, task_path: Seq<char>) -> Seq<IssueModel> {
    odd.map_values(|target: Seq<char>| odd_issue(target, task_path))
}

/// The issue for an attachment, where there is one: it is missing, too large, or cannot be
/// looked at.
pub open spec fn link_issue(
    mark: MarkModel,
    entries: Seq<EntryModel>,
    task_path: Seq<char>,
) -> Option<IssueModel> {
    match inspected(mark.path, mark.name, entries) {
        Ok(view) => match view.byte_size {
            None => Some(
                IssueModel::warning(
                    "attachment_missing"@,
                    "Attachment "@ + mark.path + " is missing"@,
                ).at_path(task_path).with_suggestion(
                    "Restore the file or remove its link; ordinary task editing remains available"@,
                ),
            ),
            Some(size) => if size > MAX_ATTACHMENT_BYTES {
                Some(
                    IssueModel::warning(
                        "attachment_too_large"@,
                        "Attachment "@ + mark.path
                            + " exceeds the 20 MiB import/download limit"@,
                    ).at_path(task_path),
                )
            } else {
                None
            },
        },
        Err(e) => Some(IssueModel::warning(e.code, e.message).at_path(task_path)),
    }
}

/// What stands at the components of the path of an attachment.
pub type Row = (String, Vec<Entry>);

/// What rows say.
pub open spec fn row_models(rows: Seq<Row>) -> Seq<(Seq<char>, Seq<EntryModel>)> {
    rows.map_values(|row: Row| (row.0@, entry_models(row.1@)))
}

/// What the first row, from the `i`-th on, for the path says. Where there is none, nothing is
/// there.
pub open spec fn looked_up(
    rows: Seq<(Seq<char>, Seq<EntryModel>)>,
    path: Seq<char>,
    i: int,
) -> Seq<EntryModel>
    decreases rows.len() - i,
{
    if i >= rows.len() {
        seq![]
    } else if rows[i].0 == path {
        rows[i].1
    } else {
        looked_up(rows, path, i + 1)
    }
}

fn row_place(rows: &Vec<Row>, path: &str) -> (r: Option<usize>)
    ensures
        match r {
            Some(i) => i < rows@.len() && looked_up(row_models(rows@), path@, 0) == entry_models(
                rows@[i as int].1@,
            ),
            None => looked_up(row_models(rows@), path@, 0) == Seq::<EntryModel>::empty(),
        },
{
    let ghost models = row_models(rows@);
    let mut i: usize = 0;
    while i < rows.len()
        invariant
            i <= rows@.len(),
            models == row_models(rows@),
            looked_up(models, path@, 0) == looked_up(models, path@, i as int),
        decreases rows.len() - i,
    {
        assert(models[i as int] == (rows@[i as int].0@, entry_models(rows@[i as int].1@)));
        if text::same(rows[i].0.as_str(), path) {
            return Some(i);
        }
        i += 1;
    }
    None
}

/// The issues for the first `n` attachments.
pub open spec fn link_issues(
    marks: Seq<MarkModel>,
    rows: Seq<(Seq<char>, Seq<EntryModel>)>,
    task_path: Seq<char>,
    n: int,
) -> Seq<IssueModel>
    decreases n,
{
    if n <= 0 {
        seq![]
    } else {
        let before = link_issues(marks, rows, task_path, n - 1);
        match link_issue(marks[n - 1], looked_up(rows, marks[n - 1].path, 0), task_path) {
            Some(issue) => before.push(issue),
            None => before,
        }
    }
}

/// The issue for an attachment, where there is one. See [`link_issue`].
fn issue_for(mark: &Mark, entries: &Vec<Entry>, task_path: &str) -> (r: Option<ValidationIssue>)
    ensures
        match r {
            Some(issue) => link_issue(mark@, entry_models(entries@), task_path@) == Some(issue@),
            None => link_issue(mark@, entry_models(entries@), task_path@) is None,
        },
{
    match inspect(mark.path.as_str(), mark.name.as_str(), entries) {
        Ok(view) => match view.byte_size {
            None => Some(
                ValidationIssue::warning(
                    "attachment_missing",
                    text::join3("Attachment ", mark.path.as_str(), " is missing").as_str(),
                ).at_path(task_path).with_suggestion(
                    "Restore the file or remove its link; ordinary task editing remains available",
                ),
            ),
            Some(size) => if size > MAX_ATTACHMENT_BYTES {
                Some(
                    ValidationIssue::warning(
                        "attachment_too_large",
                        text::join3(
                            "Attachment ",
                            mark.path.as_str(),
                            " exceeds the 20 MiB import/download limit",
                        ).as_str(),
                    ).at_path(task_path),
                )
            } else {
                None
            },
        },
        Err(e) => Some(ValidationIssue::warning(e.code(), e.message()).at_path(task_path)),
    }
}

/// The issues with the attachments of a body: first those for the targets that lead to no
/// attachment, then those for the attachments, by what rows say of their paths.
pub open spec fn body_issues(
    task_path: Seq<char>,
    body: Seq<char>,
    store_prefix: Seq<char>,
    rows: Seq<(Seq<char>, Seq<EntryModel>)>,
) -> Seq<IssueModel> {
    let marks = distinct_in(body, task_path, store_prefix);
    odd_issues(markdown::found_in(body, task_path, store_prefix).odd, task_path) + link_issues(
        marks,
        rows,
        task_path,
        marks.len() as int,
    )
}

/// The issues with the attachments of a body, by what stands at each component of their paths,
/// which [`distinct_links`] gives. See [`body_issues`].
pub fn diagnostics(task_path: &str, body: &str, store_prefix: &str, rows: &Vec<Row>) -> (r: Vec<
    ValidationIssue,
>)
    ensures
        error::issue_models(r@) == body_issues(
            task_path@,
            body@,
            store_prefix@,
            row_models(rows@),
        ),
{
    let findings = markdown::parse_links(body, task_path, store_prefix);
    assert(findings@.marks.len() == findings.marks@.len());
    let ghost odd = findings@.odd;
    let mut issues: Vec<ValidationIssue> = Vec::new();
    let mut i: usize = 0;
    while i < findings.odd.len()
        invariant
            i <= findings.odd@.len(),
            odd == text::strings(findings.odd@),
            issues@.len() == i,
            forall|k: int|
                0 <= k < i ==> (#[trigger] issues@[k])@ == odd_issue(odd[k], task_path@),
        decreases findings.odd.len() - i,
    {
        assert(odd[i as int] == findings.odd@[i as int]@);
        issues.push(
            ValidationIssue::warning(
                "attachment_link_unsupported",
                text::join3(
                    "Attachment link ",
                    text::debug(findings.odd[i].as_str()).as_str(),
                    " is unsafe, shortened, or unsupported; use an explicit path into Attachments/",
                ).as_str(),
            ).at_path(task_path),
        );
        i += 1;
    }
    let ghost first = error::issue_models(issues@);
    assert(first =~= odd_issues(odd, task_path@));
    let marks = distinct_of(&findings.marks);
    let ghost models = markdown::mark_models(marks@);
    let ghost all = row_models(rows@);
    let none: Vec<Entry> = Vec::new();
    assert(entry_models(none@) =~= Seq::<EntryModel>::empty());
    let mut k: usize = 0;
    assert(first =~= first + link_issues(models, all, task_path@, 0));
    while k < marks.len()
        invariant
            k <= marks@.len(),
            models == markdown::mark_models(marks@),
            all == row_models(rows@),
            entry_models(none@) == Seq::<EntryModel>::empty(),
            error::issue_models(issues@) == first + link_issues(
                models,
                all,
                task_path@,
                k as int,
            ),
        decreases marks.len() - k,
    {
        assert(models[k as int] == marks@[k as int]@);
        let entries = match row_place(rows, marks[k].path.as_str()) {
            Some(i) => &rows[i].1,
            None => &none,
        };
        if let Some(issue) = issue_for(&marks[k], entries, task_path) {
            let ghost had = error::issue_models(issues@);
            issues.push(issue);
            assert(error::issue_models(issues@) =~= had.push(issue@));
            assert(had.push(issue@) =~= first + link_issues(models, all, task_path@, k + 1));
        }
        k += 1;
    }
    issues
}

/// A file that has been read and waits to be stored.
#[derive(Debug)]
pub struct StagedAttachment {
    pub path: String,
    pub bytes: Vec<u8>,
}

/// The path at which an imported file is stored.
pub open spec fn staged_path(id: Seq<char>, name: Seq<char>) -> Seq<char> {
    "Attachments/"@ + id + "/"@ + file_name(name)
}

/// The error for a source that cannot be imported.
pub open spec fn source_error(message: Seq<char>, source: Seq<char>) -> ErrorModel {
    ErrorModel::validation("attachment_source_invalid"@, message).with_path(source)
}

/// The error for a source that is too large.
pub open spec fn size_error(source: Seq<char>) -> ErrorModel {
    ErrorModel::validation(
        "attachment_too_large"@,
        "Attachment exceeds the 20 MiB (20971520 byte) limit"@,
    ).with_path(source)
}

fn too_large(source: &str) -> (r: Error)
    ensures
        r@ == size_error(source@),
{
    Error::validation(
        "attachment_too_large",
        "Attachment exceeds the 20 MiB (20971520 byte) limit",
    ).with_path(source)
}

/// The error for a source that cannot be imported.
pub fn invalid_source(message: &str, source: &str) -> (r: Error)
    ensures
        r@ == source_error(message@, source@),
{
    Error::validation("attachment_source_invalid", message).with_path(source)
}

/// Whether what stands at each component of a source's path lets it be imported.
pub open spec fn check_components(source: Seq<char>, entries: Seq<EntryModel>, i: int) -> Result<
    (),
    ErrorModel,
>
    decreases entries.len() - i,
{
    if i >= entries.len() {
        Ok(())
    } else {
        match entries[i] {
            EntryModel::Missing | EntryModel::Failed(_, _) => Err(
                source_error("Attachment source is missing or unreadable"@, source),
            ),
            EntryModel::Symlink => Err(
                source_error("Attachment source must not traverse symlinks"@, source),
            ),
            _ => check_components(source, entries, i + 1),
        }
    }
}

/// Fail where a component of a source's path is missing or a symlink.
pub fn validate_components(source: &str, entries: &Vec<Entry>) -> (r: Result<(), Error>)
    ensures
        error::outcome(r) == check_components(source@, entry_models(entries@), 0),
{
    let ghost models = entry_models(entries@);
    let mut i: usize = 0;
    while i < entries.len()
        invariant
            i <= entries@.len(),
            models == entry_models(entries@),
            check_components(source@, models, 0) == check_components(source@, models, i as int),
        decreases entries.len() - i,
    {
        assert(models[i as int] == entries@[i as int]@);
        match &entries[i] {
            Entry::Missing | Entry::Failed { .. } => {
                return Err(
                    invalid_source("Attachment source is missing or unreadable", source),
                );
            },
            Entry::Symlink => {
                return Err(
                    invalid_source("Attachment source must not traverse symlinks", source),
                );
            },
            _ => {},
        }
        i += 1;
    }
    Ok(())
}

/// Whether an opened source can be imported.
pub open spec fn check_opened(source: Seq<char>, entry: EntryModel) -> Result<(), ErrorModel> {
    match entry {
        EntryModel::File(size) => if size > MAX_ATTACHMENT_BYTES {
            Err(size_error(source))
        } else {
            Ok(())
        },
        _ => Err(source_error("Attachment source must be a regular file"@, source)),
    }
}

/// Fail where an opened source is no regular file, or is too large.
pub fn validate_opened(source: &str, entry: &Entry) -> (r: Result<(), Error>)
    ensures
        error::outcome(r) == check_opened(source@, entry@),
{
    match entry {
        Entry::File(size) => if *size > MAX_ATTACHMENT_BYTES {
            Err(too_large(source))
        } else {
            Ok(())
        },
        _ => Err(invalid_source("Attachment source must be a regular file", source)),
    }
}

/// The result of staging, as values: the path and the bytes.
pub open spec fn staged_outcome(r: Result<StagedAttachment, Error>) -> Result<
    (Seq<char>, Seq<u8>),
    ErrorModel,
> {
    match r {
        Ok(staged) => Ok((staged.path@, staged.bytes@)),
        Err(e) => Err(e@),
    }
}

/// The file that waits to be stored, once it has been read: too many bytes, or a name that is no
/// text, are errors.
pub open spec fn staged(
    source: Seq<char>,
    name: Option<Seq<char>>,
    id: Seq<char>,
    bytes: Seq<u8>,
) -> Result<(Seq<char>, Seq<u8>), ErrorModel> {
    if bytes.len() > MAX_ATTACHMENT_BYTES {
        Err(size_error(source))
    } else {
        match name {
            None => Err(source_error("Attachment filename must be UTF-8"@, source)),
            Some(name) => Ok((staged_path(id, name), bytes)),
        }
    }
}

/// The file that waits to be stored, once it has been read, under the given fresh ID.
pub fn stage(source: &str, name: Option<String>, id: &str, bytes: Vec<u8>) -> (r: Result<
    StagedAttachment,
    Error,
>)
    ensures
        staged_outcome(r) == staged(source@, text::opt(name), id@, bytes@),
{
    if bytes.len() as u64 > MAX_ATTACHMENT_BYTES {
        return Err(too_large(source));
    }
    match name {
        None => Err(invalid_source("Attachment filename must be UTF-8", source)),
        Some(name) => Ok(
            StagedAttachment {
                path: text::join4(
                    "Attachments/",
                    id,
                    "/",
                    sanitize_filename(name.as_str()).as_str(),
                ),
                bytes,
            },
        ),
    }
}

} // verus!
