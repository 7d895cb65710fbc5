//! What holds of paths: those of attachments and of managed directories, and where links lead.
use crate::attachment_laws;
use crate::attachments::{self, EntryModel};
use crate::config_laws;
use crate::error::{self, ErrorKind, IssueModel};
use crate::markdown::{self, MarkModel};
use crate::paths;
use crate::store;
use crate::text;
use vstd::prelude::*;

verus! {

/// A text is the path of an attachment where it is names with slashes between them, at least two
/// and the first `Attachments`, and has no backslash and no control character.
pub proof fn attachments_lie_below_their_directory(value: Seq<char>)
    ensures
        attachments::selector(value) <==> {
            &&& exists|names: Seq<Seq<char>>| #[trigger]
                config_laws::spells(value, names) && names.len() >= 2 && names[0]
                    == "Attachments"@
            &&& forall|i: int|
                0 <= i < value.len() ==> (#[trigger] value[i]) != '\\' && !text::is_control(
                    value[i],
                )
        },
{
    reveal_strlit("Attachments");
    reveal_strlit("Attachments/");
    assert("Attachments/"@ =~= "Attachments"@.push('/'));
    let pieces = text::split(value, '/');
    config_laws::lemma_pieces(value, '/', 0);
    assert(value.subrange(0, value.len() as int) =~= value);
    if attachments::selector(value) {
        assert forall|i: int| 0 <= i < pieces.len() implies (#[trigger] pieces[i]).len() > 0
            && !pieces[i].contains('/') && pieces[i] != seq!['.'] && pieces[i] != seq!['.', '.'] by {
            assert(!attachments::odd_piece(text::split(value, '/')[i]));
        }
        assert(config_laws::spells(value, pieces));
        let rest = value.subrange(12, value.len() as int);
        assert(value.subrange(0, 12) == "Attachments/"@);
        assert(value =~= "Attachments"@ + seq!['/'] + rest) by {
            assert(value =~= value.subrange(0, 12) + rest);
        }
        text::lemma_split_first("Attachments"@, '/', rest);
        config_laws::lemma_pieces(rest, '/', 0);
        assert(pieces[0] == "Attachments"@);
    }
    if exists|names: Seq<Seq<char>>| #[trigger]
        config_laws::spells(value, names) && names.len() >= 2 && names[0] == "Attachments"@ {
        let names = choose|names: Seq<Seq<char>>| #[trigger]
            config_laws::spells(value, names) && names.len() >= 2 && names[0] == "Attachments"@;
        config_laws::lemma_spelled_ends(value, names);
        text::lemma_joined_first(names, seq!['/']);
        assert(value.subrange(0, 12) =~= "Attachments/"@);
        assert forall|i: int| 0 <= i < pieces.len() implies !attachments::odd_piece(
            #[trigger] pieces[i],
        ) by {
            assert(pieces[i] == names[i]);
        }
    }
}

/// Wherever a link leads, it is the path of an attachment. A fragment and a query do not matter,
/// and neither does the path of the store before a wikilink.
pub proof fn links_lead_to_attachments(
    task_path: Seq<char>,
    target: Seq<char>,
    more: Seq<char>,
    prefix: Seq<char>,
    wiki: bool,
)
    requires
        !target.contains('#'),
        !target.contains('?'),
    ensures
        markdown::resolved(task_path, target, wiki, prefix) matches Some(path)
            ==> attachments::selector(path),
        markdown::resolved(task_path, target + seq!['#'] + more, wiki, prefix)
            == markdown::resolved(task_path, target, wiki, prefix),
        markdown::resolved(task_path, target + seq!['?'] + more, wiki, prefix)
            == markdown::resolved(task_path, target, wiki, prefix),
        prefix.len() > 0 ==> markdown::without_prefix(prefix + "/"@ + target, prefix) == target,
{
    reveal_strlit("/");
    lemma_address(target);
    let fragment = target + seq!['#'] + more;
    let query = target + seq!['?'] + more;
    lemma_cut(target, '#', more);
    text::lemma_find_from(target, '?', 0);
    lemma_absent(target, '?');
    assert(fragment.subrange(0, target.len() as int) =~= target);
    assert(target.subrange(0, target.len() as int) =~= target);
    assert(markdown::address(fragment) == target);
    let cut = query.subrange(0, text::find_from(query, '#', 0));
    text::lemma_find_from(query, '#', 0);
    assert forall|i: int| 0 <= i < target.len() implies query[i] != '#' by {
        assert(query[i] == target[i]);
        assert(target.contains(target[i]));
    }
    assert(query[target.len() as int] == '?');
    assert(text::find_from(query, '#', 0) > target.len());
    let behind = cut.subrange(target.len() as int + 1, cut.len() as int);
    assert(cut =~= target + seq!['?'] + behind);
    lemma_cut(target, '?', behind);
    assert(cut.subrange(0, target.len() as int) =~= target);
    assert(markdown::address(query) == target);
    if prefix.len() > 0 {
        let long = prefix + "/"@ + target;
        assert(long.subrange(0, prefix.len() as int + 1) =~= prefix + "/"@);
        assert(long.subrange(prefix.len() as int + 1, long.len() as int) =~= target);
    }
}

proof fn lemma_absent(s: Seq<char>, c: char)
    requires
        !s.contains(c),
    ensures
        text::find_from(s, c, 0) == s.len(),
{
    text::lemma_find_from(s, c, 0);
    let at = text::find_from(s, c, 0);
    if at < s.len() {
        assert(s.contains(s[at]));
    }
}

proof fn lemma_cut(s: Seq<char>, c: char, more: Seq<char>)
    requires
        !s.contains(c),
    ensures
        text::find_from(s + seq![c] + more, c, 0) == s.len(),
{
    let whole = s + seq![c] + more;
    text::lemma_find_from(whole, c, 0);
    let at = text::find_from(whole, c, 0);
    assert(whole[s.len() as int] == c);
    if at < s.len() {
        assert(whole[at] == s[at]);
        assert(s.contains(s[at]));
    }
}

proof fn lemma_address(target: Seq<char>)
    requires
        !target.contains('#'),
        !target.contains('?'),
    ensures
        markdown::address(target) == target,
{
    lemma_absent(target, '#');
    lemma_absent(target, '?');
    assert(target.subrange(0, target.len() as int) =~= target);
}

/// Two hexadecimal digits behind a per cent sign write a byte, the first the higher half of it;
/// letters stand for ten to fifteen, small or capital.
pub proof fn escapes_write_bytes(high: u8, low: u8)
    requires
        high < 16,
        low < 16,
    ensures
        high < 10 && low < 10 ==> markdown::percent((48 + high) as u8, (48 + low) as u8) == Some(
            (16 * high + low) as u8,
        ),
        high < 10 && low >= 10 ==> markdown::percent((48 + high) as u8, (55 + low) as u8) == Some(
            (16 * high + low) as u8,
        ) && markdown::percent((48 + high) as u8, (87 + low) as u8) == Some(
            (16 * high + low) as u8,
        ),
        high >= 10 && low < 10 ==> markdown::percent((55 + high) as u8, (48 + low) as u8) == Some(
            (16 * high + low) as u8,
        ) && markdown::percent((87 + high) as u8, (48 + low) as u8) == Some(
            (16 * high + low) as u8,
        ),
        high >= 10 && low >= 10 ==> markdown::percent((55 + high) as u8, (55 + low) as u8) == Some(
            (16 * high + low) as u8,
        ),
{
}

/// Nothing is said of an attachment just where its file is there and is no larger than twenty
/// mebibytes.
pub proof fn attachments_are_sound_where_nothing_is_said(
    mark: MarkModel,
    entries: Seq<EntryModel>,
    task_path: Seq<char>,
)
    ensures
        attachments::link_issue(mark, entries, task_path) is None <==> {
            &&& attachments::selector(mark.path)
            &&& attachments::size_at(mark.path, paths::parts(mark.path), entries, 0) is Ok
            &&& attachments::size_at(mark.path, paths::parts(mark.path), entries, 0)->Ok_0 is Some
            &&& attachments::size_at(mark.path, paths::parts(mark.path), entries, 0)->Ok_0->0 <= 20
                * 1024 * 1024
        },
{
}

/// A file can be imported where nothing on its path is missing, unreadable or a link, and it is a
/// regular file of at most twenty mebibytes.
pub proof fn sources_are_files_behind_no_links(
    source: Seq<char>,
    entries: Seq<EntryModel>,
    entry: EntryModel,
)
    ensures
        attachments::check_components(source, entries, 0) is Ok <==> forall|i: int|
            0 <= i < entries.len() ==> !((#[trigger] entries[i]) is Missing)
                && !(entries[i] is Failed) && !(entries[i] is Symlink),
        attachments::check_opened(source, entry) is Ok <==> entry is File && entry->File_0 <= 20
            * 1024 * 1024,
{
    lemma_components(source, entries, 0);
}

proof fn lemma_components(source: Seq<char>, entries: Seq<EntryModel>, i: int)
    requires
        0 <= i,
    ensures
        attachments::check_components(source, entries, i) is Ok <==> forall|k: int|
            i <= k < entries.len() ==> !((#[trigger] entries[k]) is Missing)
                && !(entries[k] is Failed) && !(entries[k] is Symlink),
    decreases entries.len() - i,
{
    if i < entries.len() {
        lemma_components(source, entries, i + 1);
    }
}

/// A managed directory can be used where each component of its path is a name at which a real
/// directory stands.
pub proof fn managed_directories_are_real(
    relative: Seq<char>,
    parts: Seq<(int, Seq<char>)>,
    entries: Seq<EntryModel>,
)
    ensures
        store::check_directory(relative, parts, entries, 0) is Ok <==> (parts.len() == 0
            || entries.len() >= parts.len()) && forall|i: int|
            0 <= i < parts.len() ==> (#[trigger] parts[i]).0 == 3 && entries[i] is Directory,
{
    lemma_directory(relative, parts, entries, 0);
}

proof fn lemma_directory(
    relative: Seq<char>,
    parts: Seq<(int, Seq<char>)>,
    entries: Seq<EntryModel>,
    i: int,
)
    requires
        0 <= i <= parts.len(),
    ensures
        store::check_directory(relative, parts, entries, i) is Ok <==> (i == parts.len()
            || entries.len() >= parts.len()) && forall|k: int|
            i <= k < parts.len() ==> (#[trigger] parts[k]).0 == 3 && entries[k] is Directory,
    decreases parts.len() - i,
{
    if i < parts.len() {
        lemma_directory(relative, parts, entries, i + 1);
    }
}

/// Between a directory and a path below it stands one slash, whether or not the directory is
/// written with one.
pub proof fn one_slash_stands_before_a_path(directory: Seq<char>, path: Seq<char>)
    requires
        directory.len() > 0,
        directory.last() != '/',
    ensures
        store::below(directory, path) == directory + seq!['/'] + path,
        store::below(directory + seq!['/'], path) == directory + seq!['/'] + path,
{
    reveal_strlit("/");
    assert("/"@ =~= seq!['/']);
}

/// Of the kinds that an error made of issues can have, what this version does not handle comes
/// before a conflict, and a conflict before any broken rule. The order of the issues does not
/// matter to it.
pub proof fn issues_amount_to_the_gravest(issues: Seq<IssueModel>, i: int)
    requires
        0 <= i < issues.len(),
    ensures
        issues[i].code == "unsupported_schema"@ || issues[i].code == "schema_version_mismatch"@
            ==> error::issues_error(issues).kind == ErrorKind::Unsupported,
        issues[i].code == "unresolved_conflict"@ ==> error::issues_error(issues).kind
            != ErrorKind::Validation,
        error::issues_error(issues).issues == issues,
        error::issues_error(issues.reverse()).kind == error::issues_error(issues).kind,
        error::issues_error(issues).kind == ErrorKind::Unsupported ==> exists|k: int|
            0 <= k < issues.len() && ((#[trigger] issues[k]).code == "unsupported_schema"@
                || issues[k].code == "schema_version_mismatch"@),
        error::issues_error(issues).kind == ErrorKind::Concurrent ==> exists|k: int|
            0 <= k < issues.len() && (#[trigger] issues[k]).code == "unresolved_conflict"@,
{
    lemma_reversed(issues, "unsupported_schema"@);
    lemma_reversed(issues, "schema_version_mismatch"@);
    lemma_reversed(issues, "unresolved_conflict"@);
}

proof fn lemma_reversed(issues: Seq<IssueModel>, code: Seq<char>)
    ensures
        error::has_code(issues.reverse(), code) == error::has_code(issues, code),
{
    let back = issues.reverse();
    let n = issues.len() as int;
    if error::has_code(issues, code) {
        let i = choose|i: int| 0 <= i < n && (#[trigger] issues[i]).code == code;
        assert(back[n - 1 - i] == issues[i]);
    }
    if error::has_code(back, code) {
        let i = choose|i: int| 0 <= i < n && (#[trigger] back[i]).code == code;
        assert(issues[n - 1 - i] == back[i]);
    }
}

/// The name that a file is stored under has none of the characters that mean something in a path
/// or that some file systems do not take, whatever the file was named.
pub proof fn stored_names_mean_nothing_in_a_path(name: Seq<char>, i: int)
    requires
        0 <= i < attachments::file_name(name).len(),
    ensures
        ({
            let c = attachments::file_name(name)[i];
            c != '/' && c != '\\' && c != ':' && c != '*' && c != '?' && c != '"' && c != '<' && c
                != '>' && c != '|' && c != '\n'
        }),
        attachments::file_name(name)[0] != '.' && attachments::file_name(name)[0] != ' ',
{
    attachment_laws::file_names_can_be_stored(name);
    let c = attachments::file_name(name)[i];
    assert(!attachments::unsafe_char(c));
    reveal_strlit("/\\:*?\"<>|");
    let odd = "/\\:*?\"<>|"@;
    assert(odd[0] == '/' && odd[1] == '\\' && odd[2] == ':' && odd[3] == '*' && odd[4] == '?');
    assert(odd[5] == '"' && odd[6] == '<' && odd[7] == '>' && odd[8] == '|');
}

} // verus!
