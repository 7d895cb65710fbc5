//! What importing, linking, listing and unlinking attachments does.
use vstd::prelude::*;

use crate::attachments::{self, EntryModel, ViewModel};
use crate::commands::attachment;
use crate::config::ConfigModel;
use crate::error::ErrorModel;
use crate::markdown::{self, MarkModel};
use crate::model::TaskModel;
use crate::text;

verus! {

/// Whether a place of a body is in a link to the attachment.
pub open spec fn in_link(marks: Seq<MarkModel>, selector: Seq<char>, at: int) -> bool {
    exists|k: int|
        0 <= k < marks.len() && (#[trigger] marks[k]).path == selector && marks[k].start <= at
            < marks[k].end
}

/// The characters of a body from `from` to `to` that are in no link to the attachment.
pub open spec fn outside(
    body: Seq<char>,
    marks: Seq<MarkModel>,
    selector: Seq<char>,
    from: int,
    to: int,
) -> Seq<char>
    decreases to - from,
{
    if to <= from {
        seq![]
    } else if in_link(marks, selector, to - 1) {
        outside(body, marks, selector, from, to - 1)
    } else {
        outside(body, marks, selector, from, to - 1).push(body[to - 1])
    }
}

/// Unlinking an attachment takes the links to it out of a body, all of them, and nothing else.
pub proof fn unlinking_takes_out_the_links(
    body: Seq<char>,
    task_path: Seq<char>,
    store_prefix: Seq<char>,
    selector: Seq<char>,
)
    ensures
        ({
            let marks = markdown::found_in(body, task_path, store_prefix).marks;
            attachments::without_links(body, marks, 0, 0, selector) == outside(
                body,
                marks,
                selector,
                0,
                body.len() as int,
            )
        }),
{
    let marks = markdown::found_in(body, task_path, store_prefix).marks;
    markdown::links_do_not_overlap(body, task_path, store_prefix);
    lemma_without(body, marks, 0, 0, selector);
}

proof fn lemma_outside_add(
    body: Seq<char>,
    marks: Seq<MarkModel>,
    selector: Seq<char>,
    from: int,
    mid: int,
    to: int,
)
    requires
        from <= mid <= to,
    ensures
        outside(body, marks, selector, from, to) == outside(body, marks, selector, from, mid)
            + outside(body, marks, selector, mid, to),
    decreases to - mid,
{
    if mid < to {
        lemma_outside_add(body, marks, selector, from, mid, to - 1);
        let a = outside(body, marks, selector, from, mid);
        let b = outside(body, marks, selector, mid, to - 1);
        assert((a + b).push(body[to - 1]) =~= a + b.push(body[to - 1]));
    } else {
        assert(outside(body, marks, selector, from, mid) + Seq::<char>::empty() =~= outside(
            body,
            marks,
            selector,
            from,
            mid,
        ));
    }
}

proof fn lemma_all_outside(
    body: Seq<char>,
    marks: Seq<MarkModel>,
    selector: Seq<char>,
    from: int,
    to: int,
)
    requires
        0 <= from <= to <= body.len(),
        forall|at: int| from <= at < to ==> !#[trigger] in_link(marks, selector, at),
    ensures
        outside(body, marks, selector, from, to) == body.subrange(from, to),
    decreases to - from,
{
    if from < to {
        lemma_all_outside(body, marks, selector, from, to - 1);
        assert(!in_link(marks, selector, to - 1));
        assert(body.subrange(from, to - 1).push(body[to - 1]) =~= body.subrange(from, to));
    } else {
        assert(body.subrange(from, to) =~= Seq::<char>::empty());
    }
}

proof fn lemma_none_outside(
    body: Seq<char>,
    marks: Seq<MarkModel>,
    selector: Seq<char>,
    from: int,
    to: int,
)
    requires
        forall|at: int| from <= at < to ==> #[trigger] in_link(marks, selector, at),
    ensures
        outside(body, marks, selector, from, to) == Seq::<char>::empty(),
    decreases to - from,
{
    if from < to {
        assert(in_link(marks, selector, to - 1));
        lemma_none_outside(body, marks, selector, from, to - 1);
    }
}

/// The place where the next link to the attachment begins, among those from the `i`-th on.
proof fn lemma_without(
    body: Seq<char>,
    marks: Seq<MarkModel>,
    i: int,
    from: int,
    selector: Seq<char>,
)
    requires
        markdown::in_sequence(marks, body.len() as int),
        0 <= i <= marks.len(),
        0 <= from <= body.len(),
        forall|k: int| i <= k < marks.len() ==> from <= (#[trigger] marks[k]).start,
        forall|k: int|
            0 <= k < i && (#[trigger] marks[k]).path == selector ==> marks[k].end <= from,
    ensures
        attachments::without_links(body, marks, i, from, selector) == outside(
            body,
            marks,
            selector,
            from,
            body.len() as int,
        ),
    decreases marks.len() - i,
{
    let n = body.len() as int;
    if i >= marks.len() {
        assert forall|at: int| from <= at < n implies !#[trigger] in_link(marks, selector, at) by {}
        lemma_all_outside(body, marks, selector, from, n);
    } else if marks[i].path == selector {
        let (start, end) = (marks[i].start, marks[i].end);
        assert forall|at: int| from <= at < start implies !#[trigger] in_link(
            marks,
            selector,
            at,
        ) by {
            if in_link(marks, selector, at) {
                let k = choose|k: int|
                    0 <= k < marks.len() && (#[trigger] marks[k]).path == selector
                        && marks[k].start <= at < marks[k].end;
                if k > i {
                    assert(marks[i].end <= marks[k].start);
                }
            }
        }
        assert forall|at: int| start <= at < end implies #[trigger] in_link(
            marks,
            selector,
            at,
        ) by {
            assert(marks[i].path == selector);
        }
        lemma_all_outside(body, marks, selector, from, start);
        lemma_none_outside(body, marks, selector, start, end);
        assert forall|k: int| i + 1 <= k < marks.len() implies end <= (#[trigger] marks[k]).start by {
            assert(marks[i].end <= marks[k].start);
        }
        assert forall|k: int|
            0 <= k < i + 1 && (#[trigger] marks[k]).path == selector implies marks[k].end <= end by {}
        lemma_without(body, marks, i + 1, end, selector);
        lemma_outside_add(body, marks, selector, from, start, n);
        lemma_outside_add(body, marks, selector, start, end, n);
        let rest = outside(body, marks, selector, end, n);
        assert(Seq::<char>::empty() + rest =~= rest);
    } else {
        lemma_without(body, marks, i + 1, from, selector);
    }
}

/// The links that are listed are, for each attachment that a body links to, the first one; in the
/// order of the body, and one each.
pub proof fn attachments_are_listed_once(marks: Seq<MarkModel>, path: Seq<char>)
    ensures
        ({
            let listed = attachments::distinct(marks, marks.len() as int);
            &&& attachments::leads_to(listed, path) <==> attachments::leads_to(marks, path)
            &&& forall|a: int, b: int|
                0 <= a < b < listed.len() ==> (#[trigger] listed[a]).path != (
                #[trigger] listed[b]).path
            &&& forall|a: int|
                0 <= a < listed.len() ==> exists|k: int|
                    0 <= k < marks.len() && #[trigger] marks[k] == #[trigger] listed[a] && forall|
                        j: int,
                    |
                        0 <= j < k ==> (#[trigger] marks[j]).path != marks[k].path
        }),
{
    lemma_distinct(marks, marks.len() as int, path);
}

proof fn lemma_distinct(marks: Seq<MarkModel>, n: int, path: Seq<char>)
    requires
        0 <= n <= marks.len(),
    ensures
        ({
            let listed = attachments::distinct(marks, n);
            &&& attachments::leads_to(listed, path) <==> exists|k: int|
                0 <= k < n && (#[trigger] marks[k]).path == path
            &&& forall|a: int, b: int|
                0 <= a < b < listed.len() ==> (#[trigger] listed[a]).path != (
                #[trigger] listed[b]).path
            &&& forall|a: int|
                0 <= a < listed.len() ==> exists|k: int|
                    0 <= k < n && #[trigger] marks[k] == #[trigger] listed[a] && forall|j: int|
                        0 <= j < k ==> (#[trigger] marks[j]).path != marks[k].path
        }),
    decreases n,
{
    if n > 0 {
        let last = marks[n - 1];
        lemma_distinct(marks, n - 1, path);
        lemma_distinct(marks, n - 1, last.path);
        let before = attachments::distinct(marks, n - 1);
        let listed = attachments::distinct(marks, n);
        if !attachments::leads_to(before, last.path) {
            assert(listed[before.len() as int] == last);
            if attachments::leads_to(before, path) {
                let i = choose|i: int| 0 <= i < before.len() && (#[trigger] before[i]).path == path;
                assert(listed[i] == before[i]);
            }
            if attachments::leads_to(listed, path) && path != last.path {
                let i = choose|i: int| 0 <= i < listed.len() && (#[trigger] listed[i]).path == path;
                assert(before[i].path == path);
            }
            assert forall|a: int| 0 <= a < listed.len() implies exists|k: int|
                0 <= k < n && #[trigger] marks[k] == #[trigger] listed[a] && forall|j: int|
                    0 <= j < k ==> (#[trigger] marks[j]).path != marks[k].path by {
                if a < before.len() {
                    assert(listed[a] == before[a]);
                } else {
                    assert(marks[n - 1] == listed[a]);
                }
            }
            assert forall|a: int, b: int| 0 <= a < b < listed.len() implies (
            #[trigger] listed[a]).path != (#[trigger] listed[b]).path by {
                assert(listed[a] == before[a]);
                if b < before.len() {
                    assert(listed[b] == before[b]);
                } else {
                    assert(before[a].path != last.path);
                }
            }
        }
    }
}

/// What is listed says of each link where it leads, its name, and whether the file is there, with its
/// size if it is.
pub proof fn listings_show_each_attachment(
    marks: Seq<MarkModel>,
    entries: Seq<Seq<EntryModel>>,
    views: Seq<ViewModel>,
    k: int,
)
    requires
        attachments::listed(marks, entries, 0, seq![]) == Ok::<Seq<ViewModel>, ErrorModel>(views),
        0 <= k < marks.len(),
    ensures
        views.len() == marks.len(),
        views[k].path == marks[k].path,
        views[k].display_name == marks[k].name,
        views[k].byte_size is Some <==> views[k].availability == "available"@,
        views[k].byte_size is None <==> views[k].availability == "missing"@,
        attachments::inspected(marks[k].path, marks[k].name, entries[k]) == Ok::<
            ViewModel,
            ErrorModel,
        >(views[k]),
{
    reveal_strlit("available");
    reveal_strlit("missing");
    assert("available"@.len() == 9 && "missing"@.len() == 7);
    lemma_listed(marks, entries, 0, seq![], k);
}

proof fn lemma_listed(
    marks: Seq<MarkModel>,
    entries: Seq<Seq<EntryModel>>,
    i: int,
    had: Seq<ViewModel>,
    k: int,
)
    requires
        0 <= i <= marks.len(),
        had.len() == i,
        0 <= k < marks.len(),
    ensures
        attachments::listed(marks, entries, i, had) matches Ok(views) ==> {
            &&& views.len() == marks.len()
            &&& k < i ==> views[k] == had[k]
            &&& k >= i ==> attachments::inspected(marks[k].path, marks[k].name, entries[k]) == Ok::<
                ViewModel,
                ErrorModel,
            >(views[k])
        },
    decreases marks.len() - i,
{
    if i < marks.len() {
        if let Ok(view) = attachments::inspected(marks[i].path, marks[i].name, entries[i]) {
            lemma_listed(marks, entries, i + 1, had.push(view), k);
            if k < i {
                assert(had.push(view)[k] == had[k]);
            } else if k == i {
                assert(had.push(view)[k] == view);
            }
        }
    }
}

/// A file is there, with its size, where every directory of its path is a real one and it is a
/// regular file; it is missing where the path ends before; all else is an error.
pub proof fn files_are_there_behind_real_directories(
    relative: Seq<char>,
    parts: Seq<(int, Seq<char>)>,
    entries: Seq<EntryModel>,
    size: u64,
)
    requires
        parts.len() > 0,
        forall|i: int| 0 <= i < parts.len() ==> (#[trigger] parts[i]).0 == 3,
    ensures
        attachments::size_at(relative, parts, entries, 0) == Ok::<Option<u64>, ErrorModel>(
            Some(size),
        ) <==> {
            &&& entries.len() >= parts.len()
            &&& forall|i: int| 0 <= i < parts.len() - 1 ==> #[trigger] entries[i] is Directory
            &&& entries[parts.len() - 1] == EntryModel::File(size)
        },
        (exists|i: int|
            0 <= i < parts.len() && i < entries.len() && (#[trigger] entries[i]) is Symlink && forall|
                j: int,
            |
                0 <= j < i ==> #[trigger] entries[j] is Directory) ==> attachments::size_at(
            relative,
            parts,
            entries,
            0,
        ) is Err,
{
    lemma_size(relative, parts, entries, 0, size);
    if exists|i: int|
        0 <= i < parts.len() && i < entries.len() && (#[trigger] entries[i]) is Symlink && forall|
            j: int,
        |
            0 <= j < i ==> #[trigger] entries[j] is Directory {
        let i = choose|i: int|
            0 <= i < parts.len() && i < entries.len() && (#[trigger] entries[i]) is Symlink && forall|
                j: int,
            |
                0 <= j < i ==> #[trigger] entries[j] is Directory;
        lemma_symlink(relative, parts, entries, 0, i);
    }
}

proof fn lemma_size(
    relative: Seq<char>,
    parts: Seq<(int, Seq<char>)>,
    entries: Seq<EntryModel>,
    i: int,
    size: u64,
)
    requires
        0 <= i < parts.len(),
        forall|i: int| 0 <= i < parts.len() ==> (#[trigger] parts[i]).0 == 3,
    ensures
        attachments::size_at(relative, parts, entries, i) == Ok::<Option<u64>, ErrorModel>(
            Some(size),
        ) <==> {
            &&& entries.len() >= parts.len()
            &&& forall|k: int| i <= k < parts.len() - 1 ==> #[trigger] entries[k] is Directory
            &&& entries[parts.len() - 1] == EntryModel::File(size)
        },
    decreases parts.len() - i,
{
    assert(parts[i].0 == 3);
    if i + 1 < parts.len() {
        lemma_size(relative, parts, entries, i + 1, size);
    }
}

proof fn lemma_symlink(
    relative: Seq<char>,
    parts: Seq<(int, Seq<char>)>,
    entries: Seq<EntryModel>,
    i: int,
    at: int,
)
    requires
        0 <= i <= at < parts.len(),
        at < entries.len(),
        forall|i: int| 0 <= i < parts.len() ==> (#[trigger] parts[i]).0 == 3,
        forall|j: int| 0 <= j < at ==> #[trigger] entries[j] is Directory,
        entries[at] is Symlink,
    ensures
        attachments::size_at(relative, parts, entries, i) is Err,
    decreases at - i,
{
    assert(parts[i].0 == 3);
    if i < at {
        assert(entries[i] is Directory);
        lemma_symlink(relative, parts, entries, i + 1, at);
    }
}

/// Linking to an attachment needs the file to be there. A task that links to it already stays as it
/// is; the record of any other is that of the task with one link appended to its body.
pub proof fn linking_appends_one_link_at_most(
    task: TaskModel,
    selector: Seq<char>,
    entries: Seq<EntryModel>,
    config: ConfigModel,
    view: ViewModel,
    record: Option<Seq<u8>>,
)
    requires
        attachment::link_outcome(task, selector, entries, config) == Ok::<
            (ViewModel, Option<Seq<u8>>),
            ErrorModel,
        >((view, record)),
    ensures
        attachments::enabled(config),
        view.path == selector,
        view.byte_size is Some,
        record is None <==> attachments::leads_to(task.marks(config), selector),
        record matches Some(bytes) ==> (attachments::appended(
            task.body,
            task.path,
            seq![selector],
        ) matches Ok(body) && (TaskModel { body, ..task }).serialized(config) == Ok::<
            Seq<u8>,
            ErrorModel,
        >(bytes)),
{
}

/// Unlinking an attachment needs a link to it. The record is that of the task without those links,
/// and otherwise as it was, whether the file is there or not.
pub proof fn unlinking_keeps_the_rest(
    task: TaskModel,
    selector: Seq<char>,
    entries: Seq<EntryModel>,
    config: ConfigModel,
    view: ViewModel,
    bytes: Seq<u8>,
)
    requires
        attachment::unlink_outcome(task, selector, entries, config) == Ok::<
            (ViewModel, Seq<u8>),
            ErrorModel,
        >((view, bytes)),
    ensures
        attachments::enabled(config),
        view.path == selector,
        attachments::leads_to(task.marks(config), selector),
        (TaskModel {
            body: outside(
                task.body,
                task.marks(config),
                selector,
                0,
                task.body.len() as int,
            ),
            ..task
        }).serialized(config) == Ok::<Seq<u8>, ErrorModel>(bytes),
{
    unlinking_takes_out_the_links(task.body, task.path, config.obsidian_link_prefix, selector);
    lemma_first_mark(task.marks(config), selector, 0);
}

proof fn lemma_first_mark(marks: Seq<MarkModel>, path: Seq<char>, i: int)
    requires
        0 <= i <= marks.len(),
    ensures
        match attachment::first_mark(marks, path, i) {
            Some(k) => i <= k < marks.len() && marks[k].path == path && forall|j: int|
                i <= j < k ==> (#[trigger] marks[j]).path != path,
            None => forall|j: int| i <= j < marks.len() ==> (#[trigger] marks[j]).path != path,
        },
    decreases marks.len() - i,
{
    if i < marks.len() && marks[i].path != path {
        lemma_first_mark(marks, path, i + 1);
    }
}

/// A file is imported as it is, where it has at most 20 MiB: its bytes are kept, and it is stored
/// below the attachments under its ID and a name that is made of its own.
pub proof fn imported_files_are_kept_as_they_are(
    source: Seq<char>,
    name: Option<Seq<char>>,
    id: Seq<char>,
    bytes: Seq<u8>,
)
    ensures
        attachments::staged(source, name, id, bytes) is Ok <==> bytes.len() <= 20 * 1024 * 1024
            && name is Some,
        attachments::staged(source, name, id, bytes) matches Ok((path, kept)) ==> kept == bytes
            && path == "Attachments/"@ + id + "/"@ + attachments::file_name(name->0),
{
}

/// The name that a file is stored under has no character that cannot stand in one, neither begins nor
/// ends its name with whitespace or a dot but where it was cut off, has at most 200 bytes, and is
/// never empty. A name that is fine already stays as it is.
pub proof fn file_names_can_be_stored(name: Seq<char>)
    ensures
        attachments::file_name(name).len() > 0,
        forall|i: int|
            0 <= i < attachments::file_name(name).len() ==> !attachments::unsafe_char(
                #[trigger] attachments::file_name(name)[i],
            ),
        text::byte_len(attachments::file_name(name)) <= 200,
        !attachments::edge(attachments::file_name(name)[0]),
        name.len() > 0 && (forall|i: int|
            0 <= i < name.len() ==> !attachments::unsafe_char(#[trigger] name[i]))
            && !attachments::edge(name[0]) && !attachments::edge(name.last()) && text::byte_len(name)
            <= 200 ==> attachments::file_name(name) == name,
{
    let safe = attachments::safe_chars(name);
    let bare = attachments::bare(safe);
    let fit = attachments::fitted(bare);
    reveal_strlit("/\\:*?\"<>|");
    reveal_strlit("attachment");
    lemma_edge_end(safe, 0);
    let from = attachments::edge_end(safe, 0);
    lemma_edge_start(safe, from, safe.len() as int);
    let to = attachments::edge_start(safe, from, safe.len() as int);
    lemma_fits(bare);
    assert forall|i: int| 0 <= i < safe.len() implies !attachments::unsafe_char(
        #[trigger] safe[i],
    ) by {
        assert(!attachments::unsafe_char('_')) by {
            lemma_safe_letter('_');
        }
    }
    assert forall|i: int| 0 <= i < fit.len() implies !attachments::unsafe_char(
        #[trigger] fit[i],
    ) by {
        assert(fit[i] == bare[i]);
        assert(bare[i] == safe[from + i]);
    }
    if fit.len() > 0 {
        assert(fit[0] == bare[0]);
        assert(bare[0] == safe[from]);
        assert(!attachments::edge(safe[from]));
    } else {
        let word = "attachment"@;
        assert(word.len() == 10);
        assert forall|i: int| 0 <= i < word.len() implies !attachments::unsafe_char(
            #[trigger] word[i],
        ) by {
            lemma_safe_letter(word[i]);
        }
        lemma_short(word);
    }
    if name.len() > 0 && (forall|i: int|
        0 <= i < name.len() ==> !attachments::unsafe_char(#[trigger] name[i])) && !attachments::edge(
        name[0],
    ) && !attachments::edge(name.last()) && text::byte_len(name) <= 200 {
        assert(safe =~= name);
        assert(from == 0);
        assert(to == name.len());
        assert(bare =~= name);
    }
}

proof fn lemma_safe_letter(c: char)
    requires
        'a' <= c <= 'z' || c == '_',
    ensures
        !attachments::unsafe_char(c),
{
    reveal_strlit("/\\:*?\"<>|");
    let list = "/\\:*?\"<>|"@;
    assert(list =~= seq!['/', '\\', ':', '*', '?', '"', '<', '>', '|']);
}

/// A text of small letters has as many bytes as characters.
proof fn lemma_short(s: Seq<char>)
    requires
        forall|i: int| 0 <= i < s.len() ==> 'a' <= #[trigger] s[i] <= 'z',
    ensures
        text::byte_len(s) == s.len(),
    decreases s.len(),
{
    if s.len() > 0 {
        let before = s.drop_last();
        assert forall|i: int| 0 <= i < before.len() implies 'a' <= #[trigger] before[i] <= 'z' by {
            assert(before[i] == s[i]);
        }
        lemma_short(before);
        let c = s[s.len() - 1];
        assert('a' <= c <= 'z');
        assert((c as u32) < 0x80);
    }
}

proof fn lemma_edge_end(s: Seq<char>, from: int)
    requires
        0 <= from <= s.len(),
    ensures
        from <= attachments::edge_end(s, from) <= s.len(),
        attachments::edge_end(s, from) < s.len() ==> !attachments::edge(
            s[attachments::edge_end(s, from)],
        ),
        from < s.len() && !attachments::edge(s[from]) ==> attachments::edge_end(s, from) == from,
    decreases s.len() - from,
{
    if from < s.len() && attachments::edge(s[from]) {
        lemma_edge_end(s, from + 1);
    }
}

proof fn lemma_edge_start(s: Seq<char>, from: int, to: int)
    requires
        0 <= from <= to <= s.len(),
    ensures
        from <= attachments::edge_start(s, from, to) <= to,
        from < to && !attachments::edge(s[to - 1]) ==> attachments::edge_start(s, from, to) == to,
        attachments::edge_start(s, from, to) > from ==> !attachments::edge(
            s[attachments::edge_start(s, from, to) - 1],
        ),
    decreases to,
{
    if to > from && to > 0 && attachments::edge(s[to - 1]) {
        lemma_edge_start(s, from, to - 1);
    }
}

/// What fits is a beginning, with at most 200 bytes.
proof fn lemma_fits(s: Seq<char>)
    ensures
        attachments::fitted(s).len() <= s.len(),
        forall|i: int|
            0 <= i < attachments::fitted(s).len() ==> #[trigger] attachments::fitted(s)[i] == s[i],
        text::byte_len(attachments::fitted(s)) <= 200,
        text::byte_len(s) <= 200 ==> attachments::fitted(s) == s,
    decreases s.len(),
{
    if s.len() > 0 && text::byte_len(s) > 200 {
        lemma_fits(s.drop_last());
    }
}

} // verus!
