//! Commands on the attachments of a task.
use vstd::prelude::*;

use crate::attachments::{self, AttachmentView, Entry, StagedAttachment, ViewModel};
use crate::config::{Config, ConfigModel};
use crate::error::{self, Error, ErrorModel};
use crate::frontmatter;
use crate::markdown;
use crate::model::{Task, TaskModel};
use crate::text;

verus! {

/// The error for an attachment whose file is missing.
pub open spec fn missing_error(selector: Seq<char>) -> ErrorModel {
    ErrorModel::not_found("attachment_not_found"@, "Attachment file is missing"@).with_path(
        selector,
    )
}

/// The error for an attachment that the task does not link to.
pub open spec fn unlinked_error(selector: Seq<char>) -> ErrorModel {
    ErrorModel::not_found(
        "attachment_not_linked"@,
        "No recognized link to this attachment; shortened or unsupported links need an explicit Attachments/... path"@,
    ).with_path(selector)
}

fn missing(selector: &str) -> (r: Error)
    ensures
        r@ == missing_error(selector@),
{
    Error::not_found("attachment_not_found", "Attachment file is missing").with_path(selector)
}

fn not_linked(selector: &str) -> (r: Error)
    ensures
        r@ == unlinked_error(selector@),
{
    Error::not_found(
        "attachment_not_linked",
        "No recognized link to this attachment; shortened or unsupported links need an explicit Attachments/... path",
    ).with_path(selector)
}

impl TaskModel {
    /// The links of the task to attachments.
    pub open spec fn marks(self, config: ConfigModel) -> Seq<markdown::MarkModel> {
        markdown::found_in(self.body, self.path, config.obsidian_link_prefix).marks
    }
}

/// List the attachments of a task, by what stands at each component of their paths, which
/// [`attachments::distinct_links`] gives.
pub fn list(config: &Config, task: &Task, entries: &Vec<Vec<Entry>>) -> (r: Result<
    Vec<AttachmentView>,
    Error,
>)
    requires
        entries@.len() == attachments::distinct_in(
            task@.body,
            task@.path,
            config@.obsidian_link_prefix,
        ).len(),
    ensures
        attachments::views_outcome(r) == (if !attachments::enabled(config@) {
            Err(attachments::disabled_error())
        } else {
            attachments::listed(
                attachments::distinct_in(
                    task@.body,
                    task@.path,
                    config@.obsidian_link_prefix,
                ),
                attachments::all_entry_models(entries@),
                0,
                seq![],
            )
        }),
{
    if let Err(e) = attachments::ensure_enabled(config) {
        return Err(e);
    }
    attachments::list_with_prefix(
        task.path.as_str(),
        task.body.as_str(),
        config.obsidian_link_prefix.as_str(),
        entries,
    )
}

/// The paths of files that wait to be stored.
pub open spec fn staged_paths(staged: Seq<StagedAttachment>) -> Seq<Seq<char>> {
    staged.map_values(|file: StagedAttachment| file.path@)
}

/// What is shown of files that wait to be stored.
pub open spec fn staged_views(staged: Seq<StagedAttachment>) -> Seq<ViewModel> {
    staged.map_values(
        |file: StagedAttachment|
            attachments::shown(
                file.path@,
                markdown::last_name(file.path@),
                Some(file.bytes@.len() as u64),
            ),
    )
}

/// The paths of files that wait to be stored.
pub fn selectors_of(staged: &Vec<StagedAttachment>) -> (r: Vec<String>)
    ensures
        text::strings(r@) == staged_paths(staged@),
{
    let mut r: Vec<String> = Vec::new();
    let mut i: usize = 0;
    while i < staged.len()
        invariant
            i <= staged@.len(),
            r@.len() == i,
            forall|k: int| 0 <= k < i ==> (#[trigger] r@[k])@ == staged@[k].path@,
        decreases staged.len() - i,
    {
        r.push(staged[i].path.clone());
        i += 1;
    }
    assert(text::strings(r@) =~= staged_paths(staged@));
    r
}

fn views_of(staged: &Vec<StagedAttachment>) -> (r: Vec<AttachmentView>)
    ensures
        attachments::view_models(r@) == staged_views(staged@),
{
    let mut r: Vec<AttachmentView> = Vec::new();
    let mut i: usize = 0;
    while i < staged.len()
        invariant
            i <= staged@.len(),
            r@.len() == i,
            forall|k: int|
                0 <= k < i ==> (#[trigger] r@[k])@ == attachments::shown(
                    staged@[k].path@,
                    markdown::last_name(staged@[k].path@),
                    Some(staged@[k].bytes@.len() as u64),
                ),
        decreases staged.len() - i,
    {
        let path = staged[i].path.as_str();
        r.push(
            AttachmentView::new(
                path,
                markdown::last_name_of(path).as_str(),
                Some(staged[i].bytes.len() as u64),
            ),
        );
        i += 1;
    }
    assert(attachments::view_models(r@) =~= staged_views(staged@));
    r
}

/// The record of a task with links to files that wait to be stored.
pub open spec fn with_links(
    task: TaskModel,
    selectors: Seq<Seq<char>>,
    config: ConfigModel,
) -> Result<Seq<u8>, ErrorModel> {
    match attachments::appended(task.body, task.path, selectors) {
        Err(e) => Err(e),
        Ok(body) => (TaskModel { body, ..task }).serialized(config),
    }
}

fn record_with_links(task: Task, selectors: &Vec<String>, config: &Config) -> (r: Result<
    Vec<u8>,
    Error,
>)
    ensures
        error::viewed(r) == with_links(task@, text::strings(selectors@), config@),
{
    let mut task = task;
    match attachments::append_links(
        task.body.as_str(),
        task.path.as_str(),
        selectors.as_slice(),
    ) {
        Ok(body) => {
            task.body = body;
            frontmatter::serialize_task(&task, config)
        },
        Err(e) => Err(e),
    }
}

/// The error where no file is given to import.
pub open spec fn no_source() -> ErrorModel {
    ErrorModel::usage(
        "attachment_source_invalid"@,
        "At least one attachment source is required"@,
    )
}

/// Fail where attachments are disabled, or no file is given to import.
pub fn validate_import(config: &Config, sources: usize) -> (r: Result<(), Error>)
    ensures
        error::outcome(r) == (if !attachments::enabled(config@) {
            Err(attachments::disabled_error())
        } else if sources == 0 {
            Err(no_source())
        } else {
            Ok(())
        }),
{
    if let Err(e) = attachments::ensure_enabled(config) {
        return Err(e);
    }
    if sources == 0 {
        return Err(
            Error::usage(
                "attachment_source_invalid",
                "At least one attachment source is required",
            ),
        );
    }
    Ok(())
}

/// The result of importing, as values: what is shown of the files, and the task's record.
pub open spec fn add_outcome(r: Result<(Vec<AttachmentView>, Vec<u8>), Error>) -> Result<
    (Seq<ViewModel>, Seq<u8>),
    ErrorModel,
> {
    match r {
        Ok((views, bytes)) => Ok((attachments::view_models(views@), bytes@)),
        Err(e) => Err(e@),
    }
}

/// Import files that wait to be stored: what is shown of them, and the task's new record, which
/// links to them. What is shown speaks of the bytes that were read.
pub fn add(config: &Config, task: Task, staged: &Vec<StagedAttachment>) -> (r: Result<
    (Vec<AttachmentView>, Vec<u8>),
    Error,
>)
    ensures
        add_outcome(r) == (if !attachments::enabled(config@) {
            Err(attachments::disabled_error())
        } else if staged@.len() == 0 {
            Err(no_source())
        } else {
            match with_links(task@, staged_paths(staged@), config@) {
                Err(e) => Err(e),
                Ok(bytes) => Ok((staged_views(staged@), bytes)),
            }
        }),
{
    if let Err(e) = validate_import(config, staged.len()) {
        return Err(e);
    }
    match record_with_links(task, &selectors_of(staged), config) {
        Ok(bytes) => Ok((views_of(staged), bytes)),
        Err(e) => Err(e),
    }
}

/// What linking an attachment gives: what is shown of it, and the task's new record, where it
/// did not have such a link already.
pub open spec fn link_outcome(
    task: TaskModel,
    selector: Seq<char>,
    entries: Seq<attachments::EntryModel>,
    config: ConfigModel,
) -> Result<(ViewModel, Option<Seq<u8>>), ErrorModel> {
    if !attachments::enabled(config) {
        Err(attachments::disabled_error())
    } else {
        match attachments::inspected(selector, markdown::last_name(selector), entries) {
            Err(e) => Err(e),
            Ok(view) => if view.byte_size is None {
                Err(missing_error(selector))
            } else if attachments::leads_to(task.marks(config), selector) {
                Ok((view, None))
            } else {
                match with_links(task, seq![selector], config) {
                    Err(e) => Err(e),
                    Ok(bytes) => Ok((view, Some(bytes))),
                }
            },
        }
    }
}

/// The result of linking, as values.
pub open spec fn linked(r: Result<(AttachmentView, Option<Vec<u8>>), Error>) -> Result<
    (ViewModel, Option<Seq<u8>>),
    ErrorModel,
> {
    match r {
        Ok((view, Some(bytes))) => Ok((view@, Some(bytes@))),
        Ok((view, None)) => Ok((view@, None)),
        Err(e) => Err(e@),
    }
}

/// Link a task to an attachment that is there. See [`link_outcome`].
pub fn link(config: &Config, task: Task, selector: &str, entries: &Vec<Entry>) -> (r: Result<
    (AttachmentView, Option<Vec<u8>>),
    Error,
>)
    ensures
        linked(r) == link_outcome(
            task@,
            selector@,
            attachments::entry_models(entries@),
            config@,
        ),
{
    if let Err(e) = attachments::ensure_enabled(config) {
        return Err(e);
    }
    let name = markdown::last_name_of(selector);
    let view = match attachments::inspect(selector, name.as_str(), entries) {
        Ok(view) => view,
        Err(e) => {
            return Err(e);
        },
    };
    if view.byte_size.is_none() {
        return Err(missing(selector));
    }
    if attachments::is_linked(
        task.body.as_str(),
        task.path.as_str(),
        config.obsidian_link_prefix.as_str(),
        selector,
    ) {
        return Ok((view, None));
    }
    let selectors: Vec<String> = vec![selector.to_owned()];
    assert(text::strings(selectors@) =~= seq![selector@]);
    match record_with_links(task, &selectors, config) {
        Ok(bytes) => Ok((view, Some(bytes))),
        Err(e) => Err(e),
    }
}

/// The place of the first link, from the `i`-th on, that leads to the attachment.
pub open spec fn first_mark(marks: Seq<markdown::MarkModel>, path: Seq<char>, i: int) -> Option<
    int,
>
    decreases marks.len() - i,
{
    if i >= marks.len() {
        None
    } else if marks[i].path == path {
        Some(i)
    } else {
        first_mark(marks, path, i + 1)
    }
}

/// What unlinking an attachment gives: what is shown of it, and the task's new record, which has
/// no recognized link to it.
pub open spec fn unlink_outcome(
    task: TaskModel,
    selector: Seq<char>,
    entries: Seq<attachments::EntryModel>,
    config: ConfigModel,
) -> Result<(ViewModel, Seq<u8>), ErrorModel> {
    let marks = task.marks(config);
    if !attachments::enabled(config) {
        Err(attachments::disabled_error())
    } else if !attachments::selector(selector) {
        Err(attachments::selector_error(selector))
    } else {
        match first_mark(marks, selector, 0) {
            None => Err(unlinked_error(selector)),
            Some(i) => match attachments::inspected(selector, marks[i].name, entries) {
                Err(e) => Err(e),
                Ok(view) => match (TaskModel {
                    body: attachments::without_links(task.body, marks, 0, 0, selector),
                    ..task
                }).serialized(config) {
                    Err(e) => Err(e),
                    Ok(bytes) => Ok((view, bytes)),
                },
            },
        }
    }
}

/// The result of unlinking, as values.
pub open spec fn unlinked(r: Result<(AttachmentView, Vec<u8>), Error>) -> Result<
    (ViewModel, Seq<u8>),
    ErrorModel,
> {
    match r {
        Ok((view, bytes)) => Ok((view@, bytes@)),
        Err(e) => Err(e@),
    }
}

/// The name of the first link of a task to the attachment.
fn linked_name(config: &Config, task: &Task, selector: &str) -> (r: Option<String>)
    ensures
        text::opt(r) == (match first_mark(task@.marks(config@), selector@, 0) {
            Some(i) => Some(task@.marks(config@)[i].name),
            None => None,
        }),
{
    let findings = markdown::parse_links(
        task.body.as_str(),
        task.path.as_str(),
        config.obsidian_link_prefix.as_str(),
    );
    let ghost marks = task@.marks(config@);
    let mut i: usize = 0;
    while i < findings.marks.len()
        invariant
            i <= findings.marks@.len(),
            marks == task@.marks(config@),
            marks == markdown::mark_models(findings.marks@),
            first_mark(marks, selector@, 0) == first_mark(marks, selector@, i as int),
        decreases findings.marks.len() - i,
    {
        assert(marks[i as int] == findings.marks@[i as int]@);
        if text::same(findings.marks[i].path.as_str(), selector) {
            return Some(findings.marks[i].name.clone());
        }
        i += 1;
    }
    None
}

/// Take out a task's links to an attachment; the file stays. See [`unlink_outcome`].
pub fn unlink(config: &Config, task: Task, selector: &str, entries: &Vec<Entry>) -> (r: Result<
    (AttachmentView, Vec<u8>),
    Error,
>)
    ensures
        unlinked(r) == unlink_outcome(
            task@,
            selector@,
            attachments::entry_models(entries@),
            config@,
        ),
{
    if let Err(e) = attachments::ensure_enabled(config) {
        return Err(e);
    }
    if let Err(e) = attachments::validate_selector(selector) {
        return Err(e);
    }
    let name = match linked_name(config, &task, selector) {
        Some(name) => name,
        None => {
            return Err(not_linked(selector));
        },
    };
    let view = match attachments::inspect(selector, name.as_str(), entries) {
        Ok(view) => view,
        Err(e) => {
            return Err(e);
        },
    };
    let mut task = task;
    let body = attachments::unlink_with_prefix(
        task.body.as_str(),
        task.path.as_str(),
        selector,
        config.obsidian_link_prefix.as_str(),
    );
    task.body = body;
    match frontmatter::serialize_task(&task, config) {
        Ok(bytes) => Ok((view, bytes)),
        Err(e) => Err(e),
    }
}

/// The path of an attachment that a task links to and that is there.
pub fn path(config: &Config, task: &Task, selector: &str, entries: &Vec<Entry>) -> (r: Result<
    String,
    Error,
>)
    ensures
        error::viewed(r) == (if !attachments::enabled(config@) {
            Err(attachments::disabled_error())
        } else if !attachments::selector(selector@) {
            Err(attachments::selector_error(selector@))
        } else if !attachments::leads_to(task@.marks(config@), selector@) {
            Err(unlinked_error(selector@))
        } else {
            match attachments::inspected(
                selector@,
                selector@,
                attachments::entry_models(entries@),
            ) {
                Err(e) => Err(e),
                Ok(view) => if view.byte_size is None {
                    Err(missing_error(selector@))
                } else {
                    Ok(selector@)
                },
            }
        }),
{
    if let Err(e) = attachments::ensure_enabled(config) {
        return Err(e);
    }
    if let Err(e) = attachments::validate_selector(selector) {
        return Err(e);
    }
    if !attachments::is_linked(
        task.body.as_str(),
        task.path.as_str(),
        config.obsidian_link_prefix.as_str(),
        selector,
    ) {
        return Err(not_linked(selector));
    }
    match attachments::inspect(selector, selector, entries) {
        Ok(view) => if view.byte_size.is_none() {
            Err(missing(selector))
        } else {
            Ok(selector.to_owned())
        },
        Err(e) => Err(e),
    }
}

} // verus!
