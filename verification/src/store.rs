//! The store: which files are records, which of them is meant, and what has changed.
//!
//! The file system is read and written elsewhere; here stands what is made of what was read.
use vstd::prelude::*;

use crate::attachments::{self, Entry, EntryModel};
use crate::config::{self, Config, ConfigModel};
use crate::error::{self, Error, ErrorKind, ErrorModel};
use crate::frontmatter;
use crate::markdown;
use crate::model::{self, Project, Task};
use crate::order::{self, Ranked};
use crate::paths;
use crate::text;

verus! {

/// How many bytes the configuration and the schema may have.
pub const MAX_CONFIG_BYTES: u64 = 1048576;

/// A store: where it is, and its configuration.
#[derive(Debug)]
pub struct Store {
    root: String,
    config: Config,
}

/// Where the parts of a store are.
#[derive(Debug, PartialEq, Eq)]
pub struct StorePaths {
    pub root: String,
    pub config: String,
    pub schema: String,
    pub tasks: String,
    pub projects: String,
}

impl Store {
    /// Where the store is.
    pub closed spec fn at(self) -> Seq<char> {
        self.root@
    }

    /// The configuration of the store.
    pub closed spec fn settings(self) -> ConfigModel {
        self.config@
    }

    /// A store whose parts have been checked.
    pub fn new(root: String, config: Config) -> (r: Self)
        ensures
            r.at() == root@,
            r.settings() == config@,
    {
        Store { root, config }
    }

    /// Where the store is.
    #[must_use]
    pub fn root(&self) -> (r: &str)
        ensures
            r@ == self.at(),
    {
        self.root.as_str()
    }

    /// The configuration of the store.
    #[must_use]
    pub fn config(&self) -> (r: &Config)
        ensures
            r@ == self.settings(),
    {
        &self.config
    }

    /// Where the parts of the store are.
    #[must_use]
    pub fn paths(&self) -> (r: StorePaths)
        ensures
            r.root@ == self.at(),
            r.config@ == below(self.at(), ".todo/config.toml"@),
            r.schema@ == below(self.at(), ".todo/schema.json"@),
            r.tasks@ == below(self.at(), self.settings().tasks_directory),
            r.projects@ == below(self.at(), self.settings().projects_directory),
    {
        let root = self.root.as_str();
        StorePaths {
            root: self.root.clone(),
            config: join(root, config::CONFIG_PATH),
            schema: join(root, config::SCHEMA_PATH),
            tasks: join(root, self.config.tasks_directory.as_str()),
            projects: join(root, self.config.projects_directory.as_str()),
        }
    }
}

/// A path below a directory.
pub open spec fn below(directory: Seq<char>, path: Seq<char>) -> Seq<char> {
    if directory.len() == 0 || directory.last() == '/' {
        directory + path
    } else {
        directory + "/"@ + path
    }
}

/// See [`below`].
pub fn join(directory: &str, path: &str) -> (r: String)
    ensures
        r@ == below(directory@, path@),
{
    let chars = text::chars(directory);
    let n: usize = chars.len();
    if n == 0 || chars[n - 1] == '/' {
        text::join2(directory, path)
    } else {
        text::join3(directory, "/", path)
    }
}

/// The error, said of a path unless it is said of one already.
pub open spec fn placed(e: ErrorModel, path: Seq<char>) -> ErrorModel {
    if e.path is Some {
        e
    } else {
        e.with_path(path)
    }
}

/// See [`placed`].
pub fn error_with_path(e: Error, path: &str) -> (r: Error)
    ensures
        r@ == placed(e@, path@),
{
    if e.path().is_some() {
        e
    } else {
        e.with_path(path)
    }
}

/// What the root of a store has to be: a directory, and no symlink.
pub fn validate_root(root: &str, entry: &Entry) -> (r: Result<(), Error>)
    ensures
        error::outcome(r) == (match entry@ {
            EntryModel::Directory => Ok(()),
            EntryModel::Failed(path, reason) => Err(
                ErrorModel::io("inspect the todo store root"@, path, reason),
            ),
            _ => Err(
                ErrorModel::validation(
                    "invalid_store_root"@,
                    "Todo store root must be a real directory"@,
                ).with_path(root@),
            ),
        }),
{
    match entry {
        Entry::Directory => Ok(()),
        Entry::Failed { path, reason } => Err(
            Error::io("inspect the todo store root", path.as_str(), reason.as_str()),
        ),
        _ => Err(
            Error::validation(
                "invalid_store_root",
                "Todo store root must be a real directory",
            ).with_path(root),
        ),
    }
}

/// The error for a managed directory, said of its path.
pub open spec fn directory_error(code: Seq<char>, message: Seq<char>, path: Seq<char>) -> ErrorModel {
    ErrorModel::validation(code, message).with_path(path)
}

/// Whether all components of a path, from the `i`-th on, are directories, by what stands at each
/// of them. Where the list ends, nothing is there.
pub open spec fn check_directory(
    relative: Seq<char>,
    parts: Seq<(int, Seq<char>)>,
    entries: Seq<EntryModel>,
    i: int,
) -> Result<(), ErrorModel>
    decreases parts.len() - i,
{
    if i >= parts.len() {
        Ok(())
    } else if parts[i].0 != 3 {
        Err(
            directory_error(
                "invalid_managed_path"@,
                "Managed directory path must be normalized"@,
                relative,
            ),
        )
    } else if i >= entries.len() {
        Err(
            directory_error(
                "managed_directory_missing"@,
                "Configured managed directory does not exist"@,
                relative,
            ),
        )
    } else {
        match entries[i] {
            EntryModel::Missing => Err(
                directory_error(
                    "managed_directory_missing"@,
                    "Configured managed directory does not exist"@,
                    relative,
                ),
            ),
            EntryModel::Failed(path, reason) => Err(
                ErrorModel::io("inspect a managed directory"@, path, reason),
            ),
            EntryModel::Symlink => Err(
                directory_error(
                    "managed_path_symlink"@,
                    "Managed directory paths must not contain symlinks"@,
                    relative,
                ),
            ),
            EntryModel::Directory => check_directory(relative, parts, entries, i + 1),
            _ => Err(
                directory_error(
                    "managed_path_not_directory"@,
                    "Configured managed path is not a directory"@,
                    relative,
                ),
            ),
        }
    }
}

/// Fail where a component of a path is not a directory, by what stands at each of them. See
/// [`check_directory`].
pub fn ensure_real_directory(relative: &str, entries: &Vec<Entry>) -> (r: Result<(), Error>)
    ensures
        error::outcome(r) == check_directory(
            relative@,
            paths::parts(relative@),
            attachments::entry_models(entries@),
            0,
        ),
{
    let parts = paths::components(relative);
    let ghost all = paths::parts(relative@);
    let ghost models = attachments::entry_models(entries@);
    let mut i: usize = 0;
    while i < parts.len()
        invariant
            i <= parts@.len(),
            all == paths::named(parts@),
            all == paths::parts(relative@),
            models == attachments::entry_models(entries@),
            check_directory(relative@, all, models, 0) == check_directory(
                relative@,
                all,
                models,
                i as int,
            ),
        decreases parts.len() - i,
    {
        assert(all[i as int] == (parts@[i as int].kind as int, parts@[i as int].name@));
        if parts[i].kind != 3 {
            return Err(
                Error::validation(
                    "invalid_managed_path",
                    "Managed directory path must be normalized",
                ).with_path(relative),
            );
        }
        if i >= entries.len() {
            return Err(directory_missing(relative));
        }
        assert(models[i as int] == entries@[i as int]@);
        match &entries[i] {
            Entry::Missing => {
                return Err(directory_missing(relative));
            },
            Entry::Failed { path, reason } => {
                return Err(
                    Error::io("inspect a managed directory", path.as_str(), reason.as_str()),
                );
            },
            Entry::Symlink => {
                return Err(
                    Error::validation(
                        "managed_path_symlink",
                        "Managed directory paths must not contain symlinks",
                    ).with_path(relative),
                );
            },
            Entry::Directory => {},
            _ => {
                return Err(
                    Error::validation(
                        "managed_path_not_directory",
                        "Configured managed path is not a directory",
                    ).with_path(relative),
                );
            },
        }
        i += 1;
    }
    Ok(())
}

fn directory_missing(relative: &str) -> (r: Error)
    ensures
        r@ == directory_error(
            "managed_directory_missing"@,
            "Configured managed directory does not exist"@,
            relative@,
        ),
{
    Error::validation(
        "managed_directory_missing",
        "Configured managed directory does not exist",
    ).with_path(relative)
}

/// What a file of the store's metadata has to be: a regular file.
pub fn ensure_regular_file(display_path: &str, entry: &Entry) -> (r: Result<(), Error>)
    ensures
        error::outcome(r) == (match entry@ {
            EntryModel::File(_) => Ok(()),
            EntryModel::Missing => Err(
                ErrorModel::not_found(
                    "store_not_found"@,
                    "Todo store configuration is missing"@,
                ).with_path(display_path@),
            ),
            EntryModel::Failed(path, reason) => Err(
                ErrorModel::io("inspect a store file"@, path, reason),
            ),
            _ => Err(
                ErrorModel::validation(
                    "invalid_store_file"@,
                    "Store metadata files must be regular files, not symlinks"@,
                ).with_path(display_path@),
            ),
        }),
{
    match entry {
        Entry::File(_) => Ok(()),
        Entry::Missing => Err(
            Error::not_found(
                "store_not_found",
                "Todo store configuration is missing",
            ).with_path(display_path),
        ),
        Entry::Failed { path, reason } => Err(
            Error::io("inspect a store file", path.as_str(), reason.as_str()),
        ),
        _ => Err(
            Error::validation(
                "invalid_store_file",
                "Store metadata files must be regular files, not symlinks",
            ).with_path(display_path),
        ),
    }
}

/// The error for a file that has more bytes than the limit.
pub open spec fn size_error(
    code: Seq<char>,
    description: Seq<char>,
    limit: u64,
    path: Seq<char>,
) -> ErrorModel {
    ErrorModel::validation(
        code,
        "The "@ + description + " exceeds the "@ + text::decimal(limit as nat) + "-byte limit"@,
    ).with_path(path)
}

/// Fail where a file of the store's metadata, or a record, has more bytes than the limit.
pub fn validate_size(
    record: bool,
    length: u64,
    limit: u64,
    description: &str,
    path: &str,
) -> (r: Result<(), Error>)
    ensures
        error::outcome(r) == (if length > limit {
            Err(
                size_error(
                    if record {
                        "record_too_large"@
                    } else {
                        "file_too_large"@
                    },
                    description@,
                    limit,
                    path@,
                ),
            )
        } else {
            Ok(())
        }),
{
    if length > limit {
        let message = text::join5(
            "The ",
            description,
            " exceeds the ",
            text::format_number(limit).as_str(),
            "-byte limit",
        );
        let code = if record {
            "record_too_large"
        } else {
            "file_too_large"
        };
        return Err(Error::validation(code, message.as_str()).with_path(path));
    }
    Ok(())
}

/// The text of the configuration.
pub open spec fn config_source(bytes: Seq<u8>) -> Result<Seq<char>, ErrorModel> {
    if vstd::utf8::valid_utf8(bytes) {
        Ok(vstd::utf8::decode_utf8(bytes))
    } else {
        Err(
            ErrorModel::validation(
                "invalid_config_utf8"@,
                "Configuration must be UTF-8"@,
            ).with_path(".todo/config.toml"@),
        )
    }
}

/// The text of the configuration.
pub fn read_config_source(bytes: &[u8]) -> (r: Result<String, Error>)
    ensures
        error::viewed(r) == config_source(bytes@),
{
    match text::decode(bytes) {
        Ok(source) => Ok(source.to_owned()),
        Err(_) => Err(
            Error::validation(
                "invalid_config_utf8",
                "Configuration must be UTF-8",
            ).with_path(config::CONFIG_PATH),
        ),
    }
}

/// Whether the resolved directories of a store are apart.
pub fn ensure_distinct(tasks: &str, projects: &str, metadata: &str) -> (r: Result<(), Error>)
    ensures
        error::outcome(r) == (if config::overlap(tasks@, projects@) || config::overlap(
            tasks@,
            metadata@,
        ) || config::overlap(projects@, metadata@) {
            Err(
                ErrorModel::validation(
                    "managed_paths_not_distinct"@,
                    "Managed directories must be distinct from .todo and from one another"@,
                ),
            )
        } else {
            Ok(())
        }),
{
    if config::managed_paths_overlap(tasks, projects) || config::managed_paths_overlap(
        tasks,
        metadata,
    ) || config::managed_paths_overlap(projects, metadata) {
        return Err(
            Error::validation(
                "managed_paths_not_distinct",
                "Managed directories must be distinct from .todo and from one another",
            ),
        );
    }
    Ok(())
}

/// Whether a name is hidden.
#[must_use]
pub fn is_hidden_name(name: &str) -> (r: bool)
    ensures
        r == text::begins(name@, "."@),
{
    text::is_at(&text::chars(name), ".", 0)
}

/// What stands at a place below the directory of tasks or projects.
#[derive(Debug, Clone, Copy, PartialEq, Eq, Structural)]
pub enum WalkKind {
    File,
    Directory,
    Symlink,
    Other,
}

/// A place below the directory of tasks or projects: its path below the store, what stands
/// there, how deep it is, and whether its name is UTF-8.
#[derive(Debug)]
pub struct WalkEntry {
    pub path: String,
    pub kind: WalkKind,
    pub depth: usize,
    pub utf8: bool,
}

/// What a place is.
#[verifier::ext_equal]
pub struct WalkModel {
    pub path: Seq<char>,
    pub kind: WalkKind,
    pub depth: usize,
    pub utf8: bool,
}

impl View for WalkEntry {
    type V = WalkModel;

    open spec fn view(&self) -> WalkModel {
        WalkModel { path: self.path@, kind: self.kind, depth: self.depth, utf8: self.utf8 }
    }
}

/// What places are.
pub open spec fn walk_models(entries: Seq<WalkEntry>) -> Seq<WalkModel> {
    entries.map_values(|entry: WalkEntry| entry@)
}

/// Where the name of a file is divided: its last dot, unless it begins with it.
pub open spec fn stem_end(name: Seq<char>) -> Option<int> {
    let at = text::find_back(name, '.', name.len() as int);
    if at > 0 {
        Some(at)
    } else {
        None
    }
}

/// Whether a path is that of a Markdown file.
pub open spec fn markdown_file(path: Seq<char>) -> bool {
    let name = markdown::last_name(path);
    match stem_end(name) {
        Some(at) => name.subrange(at + 1, name.len() as int) == "md"@,
        None => false,
    }
}

/// The name of a file without its extension.
pub open spec fn stem(path: Seq<char>) -> Seq<char> {
    let name = markdown::last_name(path);
    match stem_end(name) {
        Some(at) => name.subrange(0, at),
        None => name,
    }
}

/// Whether a path is that of a Markdown file.
pub fn is_markdown_file(path: &str) -> (r: bool)
    ensures
        r == markdown_file(path@),
{
    let name = text::chars(markdown::last_name_of(path).as_str());
    let n: usize = name.len();
    match text::find_last(&name, '.') {
        Some(at) => at > 0 && text::spells(&text::cut(&name, at + 1, n), "md"),
        None => false,
    }
}

/// The name of a file without its extension.
pub fn stem_of(path: &str) -> (r: String)
    ensures
        r@ == stem(path@),
{
    let whole = markdown::last_name_of(path);
    let name = text::chars(whole.as_str());
    match text::find_last(&name, '.') {
        Some(at) => if at > 0 {
            text::string(&text::cut(&name, 0, at))
        } else {
            whole
        },
        None => whole,
    }
}

/// A record: what it is called, and its path below the store.
#[derive(Debug, PartialEq, Eq)]
pub struct Candidate {
    pub id: String,
    pub path: String,
}

/// What a record is called, and its path.
#[verifier::ext_equal]
pub struct CandidateModel {
    pub id: Seq<char>,
    pub path: Seq<char>,
}

impl View for Candidate {
    type V = CandidateModel;

    open spec fn view(&self) -> CandidateModel {
        CandidateModel { id: self.id@, path: self.path@ }
    }
}

/// What records are called, and their paths.
pub open spec fn candidate_models(candidates: Seq<Candidate>) -> Seq<CandidateModel> {
    candidates.map_values(|candidate: Candidate| candidate@)
}

impl Ranked for Candidate {
    open spec fn before(a: Self, b: Self) -> bool {
        paths::path_less(a.path@, b.path@)
    }

    proof fn one_way(a: Self, b: Self) {
        paths::lemma_parts_less_one_way(paths::parts(a.path@), paths::parts(b.path@), 0);
    }

    proof fn no_gap(a: Self, b: Self, c: Self) {
        paths::lemma_parts_less_no_gap(
            paths::parts(a.path@),
            paths::parts(b.path@),
            paths::parts(c.path@),
            0,
        );
    }

    fn is_before(&self, other: &Self) -> (r: bool) {
        paths::is_path_less(self.path.as_str(), other.path.as_str())
    }
}

/// The record at a place, where there is one. A Markdown file may not be a symlink, its name has
/// to be UTF-8, and without its extension it has to be an ID, or a slug. Projects may not be
/// nested.
pub open spec fn record_at(entry: WalkModel, project: bool) -> Result<
    Option<CandidateModel>,
    ErrorModel,
> {
    let name = stem(entry.path);
    if entry.depth == 0 {
        Ok(None)
    } else if entry.kind == WalkKind::Symlink {
        if markdown_file(entry.path) {
            Err(
                ErrorModel::validation(
                    "record_symlink"@,
                    if project {
                        "Project records must not be symlinks"@
                    } else {
                        "Task records must not be symlinks"@
                    },
                ).with_path(entry.path),
            )
        } else {
            Ok(None)
        }
    } else if entry.kind != WalkKind::File || !markdown_file(entry.path) {
        Ok(None)
    } else if project && entry.depth != 1 {
        Err(
            ErrorModel::validation(
                "nested_project"@,
                "Project records must be directly inside the projects directory"@,
            ).with_path(entry.path),
        )
    } else if !entry.utf8 {
        Err(
            if project {
                ErrorModel::validation(
                    "invalid_project_path"@,
                    "Project filename must be valid UTF-8"@,
                )
            } else {
                ErrorModel::validation(
                    "invalid_task_path"@,
                    "Task filename must be valid UTF-8"@,
                )
            }.with_path(entry.path),
        )
    } else if project {
        if model::slug(name) {
            Ok(Some(CandidateModel { id: name, path: entry.path }))
        } else {
            Err(placed(model::slug_error(name), entry.path))
        }
    } else if model::task_id(name) {
        Ok(Some(CandidateModel { id: text::upper(name), path: entry.path }))
    } else {
        Err(placed(model::task_id_error(name), entry.path))
    }
}

/// What an optional record is.
pub open spec fn opt_candidate(candidate: Option<Candidate>) -> Option<CandidateModel> {
    match candidate {
        Some(candidate) => Some(candidate@),
        None => None,
    }
}

/// The result of looking at a place, as values.
pub open spec fn place_outcome(r: Result<Option<Candidate>, Error>) -> Result<
    Option<CandidateModel>,
    ErrorModel,
> {
    match r {
        Ok(candidate) => Ok(opt_candidate(candidate)),
        Err(e) => Err(e@),
    }
}

fn record_of(entry: &WalkEntry, project: bool) -> (r: Result<Option<Candidate>, Error>)
    ensures
        place_outcome(r) == record_at(entry@, project),
{
    if entry.depth == 0 {
        return Ok(None);
    }
    let path = entry.path.as_str();
    if entry.kind == WalkKind::Symlink {
        if is_markdown_file(path) {
            let message = if project {
                "Project records must not be symlinks"
            } else {
                "Task records must not be symlinks"
            };
            return Err(Error::validation("record_symlink", message).with_path(path));
        }
        return Ok(None);
    }
    if entry.kind != WalkKind::File || !is_markdown_file(path) {
        return Ok(None);
    }
    if project && entry.depth != 1 {
        return Err(
            Error::validation(
                "nested_project",
                "Project records must be directly inside the projects directory",
            ).with_path(path),
        );
    }
    if !entry.utf8 {
        let error = if project {
            Error::validation("invalid_project_path", "Project filename must be valid UTF-8")
        } else {
            Error::validation("invalid_task_path", "Task filename must be valid UTF-8")
        };
        return Err(error.with_path(path));
    }
    let name = stem_of(path);
    if project {
        match model::validate_project_slug(name.as_str()) {
            Ok(_) => Ok(Some(Candidate { id: name, path: entry.path.clone() })),
            Err(e) => Err(error_with_path(e, path)),
        }
    } else {
        match model::validate_task_id(name.as_str()) {
            Ok(_) => Ok(
                Some(
                    Candidate {
                        id: text::upper_string(name.as_str()),
                        path: entry.path.clone(),
                    },
                ),
            ),
            Err(e) => Err(error_with_path(e, path)),
        }
    }
}

/// The records found so far, with those among the places from the `i`-th on.
pub open spec fn records_from(
    entries: Seq<WalkModel>,
    project: bool,
    i: int,
    found: Seq<CandidateModel>,
) -> Result<Seq<CandidateModel>, ErrorModel>
    decreases entries.len() - i,
{
    if i >= entries.len() {
        Ok(found)
    } else {
        match record_at(entries[i], project) {
            Err(e) => Err(e),
            Ok(None) => records_from(entries, project, i + 1, found),
            Ok(Some(candidate)) => records_from(
                entries,
                project,
                i + 1,
                found.push(candidate),
            ),
        }
    }
}

/// The records below the directory of tasks or projects, by path.
pub fn candidates(entries: &Vec<WalkEntry>, project: bool) -> (r: Result<Vec<Candidate>, Error>)
    ensures
        match records_from(walk_models(entries@), project, 0, seq![]) {
            Err(error) => r matches Err(e) && e@ == error,
            Ok(records) => r matches Ok(listed) && exists|found: Seq<Candidate>|
                #![trigger candidate_models(found)]
                candidate_models(found) == records && order::arranged(found, listed@),
        },
{
    let ghost models = walk_models(entries@);
    let mut found: Vec<Candidate> = Vec::new();
    assert(candidate_models(found@) =~= Seq::<CandidateModel>::empty());
    let mut i: usize = 0;
    while i < entries.len()
        invariant
            i <= entries@.len(),
            models == walk_models(entries@),
            records_from(models, project, 0, seq![]) == records_from(
                models,
                project,
                i as int,
                candidate_models(found@),
            ),
        decreases entries.len() - i,
    {
        assert(models[i as int] == entries@[i as int]@);
        match record_of(&entries[i], project) {
            Err(e) => {
                return Err(e);
            },
            Ok(None) => {},
            Ok(Some(candidate)) => {
                let ghost had = candidate_models(found@);
                found.push(candidate);
                assert(candidate_models(found@) =~= had.push(candidate@));
            },
        }
        i += 1;
    }
    let ghost all = found@;
    assert(candidate_models(all) == candidate_models(found@));
    Ok(order::sort(found))
}

/// The place of the first record, from the `i`-th on, whose ID an earlier one has.
pub open spec fn repeated_from(candidates: Seq<CandidateModel>, i: int) -> Option<int>
    decreases candidates.len() - i,
{
    if i >= candidates.len() {
        None
    } else if first_with(candidates, candidates[i].id, 0) < i {
        Some(i)
    } else {
        repeated_from(candidates, i + 1)
    }
}

/// The place of the first record, from the `i`-th on, that has the ID.
pub open spec fn first_with(candidates: Seq<CandidateModel>, id: Seq<char>, i: int) -> int
    decreases candidates.len() - i,
{
    if i >= candidates.len() || candidates[i].id == id {
        i
    } else {
        first_with(candidates, id, i + 1)
    }
}

/// Whether no two records have one ID.
pub open spec fn check_distinct(candidates: Seq<CandidateModel>) -> Result<(), ErrorModel> {
    match repeated_from(candidates, 0) {
        None => Ok(()),
        Some(i) => {
            let id = candidates[i].id;
            Err(
                ErrorModel::validation(
                    "duplicate_task_id"@,
                    "Task ID "@ + id + " appears at "@ + candidates[first_with(
                        candidates,
                        id,
                        0,
                    )].path + " and "@ + candidates[i].path,
                ),
            )
        },
    }
}

fn find_first(candidates: &Vec<Candidate>, id: &str) -> (r: usize)
    ensures
        r == first_with(candidate_models(candidates@), id@, 0),
        r <= candidates@.len(),
{
    let ghost models = candidate_models(candidates@);
    let mut i: usize = 0;
    while i < candidates.len() && !text::same(candidates[i].id.as_str(), id)
        invariant
            i <= candidates@.len(),
            models == candidate_models(candidates@),
            first_with(models, id@, 0) == first_with(models, id@, i as int),
        decreases candidates.len() - i,
    {
        assert(models[i as int] == candidates@[i as int]@);
        i += 1;
    }
    if i < candidates.len() {
        assert(models[i as int] == candidates@[i as int]@);
    }
    i
}

/// Fail where two records have one ID.
pub fn ensure_distinct_ids(candidates: &Vec<Candidate>) -> (r: Result<(), Error>)
    ensures
        error::outcome(r) == check_distinct(candidate_models(candidates@)),
{
    let ghost models = candidate_models(candidates@);
    let mut i: usize = 0;
    while i < candidates.len()
        invariant
            i <= candidates@.len(),
            models == candidate_models(candidates@),
            repeated_from(models, 0) == repeated_from(models, i as int),
        decreases candidates.len() - i,
    {
        assert(models[i as int] == candidates@[i as int]@);
        let id = candidates[i].id.as_str();
        let first: usize = find_first(candidates, id);
        if first < i {
            assert(models[first as int] == candidates@[first as int]@);
            let mut message = text::join4(
                "Task ID ",
                id,
                " appears at ",
                candidates[first].path.as_str(),
            );
            message.append(" and ");
            message.append(candidates[i].path.as_str());
            return Err(Error::validation("duplicate_task_id", message.as_str()));
        }
        i += 1;
    }
    Ok(())
}

/// The records among the first `n` whose ID begins with the text.
pub open spec fn matching(candidates: Seq<CandidateModel>, prefix: Seq<char>, n: int) -> Seq<
    CandidateModel,
>
    decreases n,
{
    if n <= 0 {
        seq![]
    } else if text::begins(candidates[n - 1].id, prefix) {
        matching(candidates, prefix, n - 1).push(candidates[n - 1])
    } else {
        matching(candidates, prefix, n - 1)
    }
}

/// The IDs of records.
pub open spec fn ids(candidates: Seq<CandidateModel>) -> Seq<Seq<char>> {
    candidates.map_values(|candidate: CandidateModel| candidate.id)
}

/// The record that an ID, or the beginning of one, means: the only one whose ID begins so.
pub open spec fn meant(candidates: Seq<CandidateModel>, id_or_prefix: Seq<char>) -> Result<
    CandidateModel,
    ErrorModel,
> {
    match model::check_id_prefix(id_or_prefix) {
        Err(e) => Err(e),
        Ok(prefix) => match check_distinct(candidates) {
            Err(e) => Err(e),
            Ok(_) => {
                let found = matching(candidates, prefix, candidates.len() as int);
                if found.len() == 0 {
                    Err(
                        ErrorModel::not_found(
                            "task_not_found"@,
                            "No task matches ID prefix "@ + prefix,
                        ),
                    )
                } else if found.len() == 1 {
                    Ok(found[0])
                } else {
                    Err(
                        ErrorModel::new(
                            ErrorKind::Ambiguous,
                            "ambiguous_task_id"@,
                            "ID prefix "@ + prefix + " matches: "@ + text::joined(
                                text::sorted(ids(found)),
                                ", "@,
                            ),
                        ),
                    )
                }
            },
        },
    }
}

fn matching_of(candidates: &Vec<Candidate>, prefix: &str) -> (r: Vec<Candidate>)
    ensures
        candidate_models(r@) == matching(
            candidate_models(candidates@),
            prefix@,
            candidates@.len() as int,
        ),
{
    let ghost models = candidate_models(candidates@);
    let mut r: Vec<Candidate> = Vec::new();
    let mut i: usize = 0;
    assert(candidate_models(r@) =~= matching(models, prefix@, 0));
    while i < candidates.len()
        invariant
            i <= candidates@.len(),
            models == candidate_models(candidates@),
            candidate_models(r@) == matching(models, prefix@, i as int),
        decreases candidates.len() - i,
    {
        assert(models[i as int] == candidates@[i as int]@);
        if text::is_at(&text::chars(candidates[i].id.as_str()), prefix, 0) {
            let ghost had = candidate_models(r@);
            let next = Candidate {
                id: candidates[i].id.clone(),
                path: candidates[i].path.clone(),
            };
            r.push(next);
            assert(candidate_models(r@) =~= had.push(models[i as int]));
        }
        i += 1;
    }
    r
}

fn ids_of(candidates: &Vec<Candidate>) -> (r: Vec<String>)
    ensures
        text::strings(r@) == ids(candidate_models(candidates@)),
{
    let mut r: Vec<String> = Vec::new();
    let mut i: usize = 0;
    while i < candidates.len()
        invariant
            i <= candidates@.len(),
            r@.len() == i,
            forall|k: int| 0 <= k < i ==> (#[trigger] r@[k])@ == candidates@[k]@.id,
        decreases candidates.len() - i,
    {
        r.push(candidates[i].id.clone());
        i += 1;
    }
    assert(text::strings(r@) =~= ids(candidate_models(candidates@)));
    r
}

/// The record that an ID, or the beginning of one, means. See [`meant`].
pub fn resolve(candidates: &Vec<Candidate>, id_or_prefix: &str) -> (r: Result<Candidate, Error>)
    ensures
        error::viewed(r) == meant(candidate_models(candidates@), id_or_prefix@),
{
    let prefix = match model::validate_id_prefix(id_or_prefix) {
        Ok(prefix) => prefix,
        Err(e) => {
            return Err(e);
        },
    };
    if let Err(e) = ensure_distinct_ids(candidates) {
        return Err(e);
    }
    let mut found = matching_of(candidates, prefix.as_str());
    let ghost models = candidate_models(found@);
    assert(models.len() == found@.len());
    if found.len() > 1 {
        return Err(
            Error::new(
                ErrorKind::Ambiguous,
                "ambiguous_task_id",
                text::join4(
                    "ID prefix ",
                    prefix.as_str(),
                    " matches: ",
                    text::join(&text::sort_strings(&ids_of(&found)), ", ").as_str(),
                ).as_str(),
            ),
        );
    }
    match found.pop() {
        Some(candidate) => {
            assert(models[0] == candidate@);
            Ok(candidate)
        },
        None => Err(
            Error::not_found(
                "task_not_found",
                text::join2("No task matches ID prefix ", prefix.as_str()).as_str(),
            ),
        ),
    }
}

/// A full ID means its own record, whatever others there are, as long as no two have one ID.
pub proof fn full_ids_are_never_ambiguous(candidates: Seq<CandidateModel>, i: int)
    requires
        0 <= i < candidates.len(),
        check_distinct(candidates) is Ok,
        forall|k: int|
            0 <= k < candidates.len() ==> model::task_id((#[trigger] candidates[k]).id)
                && text::upper(candidates[k].id) == candidates[k].id,
    ensures
        meant(candidates, candidates[i].id) == Ok::<CandidateModel, ErrorModel>(candidates[i]),
{
    let id = candidates[i].id;
    model::whole_ids_are_prefixes(id);
    lemma_distinct(candidates, 0);
    lemma_matching(candidates, i, candidates.len() as int);
}

proof fn lemma_first_with(candidates: Seq<CandidateModel>, id: Seq<char>, i: int)
    requires
        0 <= i <= candidates.len(),
    ensures
        i <= first_with(candidates, id, i) <= candidates.len(),
        forall|k: int|
            i <= k < candidates.len() && (#[trigger] candidates[k]).id == id ==> first_with(
                candidates,
                id,
                i,
            ) <= k,
    decreases candidates.len() - i,
{
    if i < candidates.len() && candidates[i].id != id {
        lemma_first_with(candidates, id, i + 1);
    }
}

proof fn lemma_distinct(candidates: Seq<CandidateModel>, i: int)
    requires
        0 <= i,
        repeated_from(candidates, i) is None,
    ensures
        forall|j: int, k: int|
            0 <= j < k && i <= k < candidates.len() ==> (#[trigger] candidates[j]).id != (
            #[trigger] candidates[k]).id,
    decreases candidates.len() - i,
{
    if i < candidates.len() {
        lemma_first_with(candidates, candidates[i].id, 0);
        lemma_distinct(candidates, i + 1);
    }
}

proof fn lemma_matching(candidates: Seq<CandidateModel>, i: int, n: int)
    requires
        0 <= i < candidates.len(),
        0 <= n <= candidates.len(),
        forall|j: int, k: int|
            0 <= j < k && k < candidates.len() ==> (#[trigger] candidates[j]).id != (
            #[trigger] candidates[k]).id,
        forall|k: int| 0 <= k < candidates.len() ==> model::task_id((#[trigger] candidates[k]).id),
    ensures
        matching(candidates, candidates[i].id, n) == (if i < n {
            seq![candidates[i]]
        } else {
            seq![]
        }),
    decreases n,
{
    if n > 0 {
        lemma_matching(candidates, i, n - 1);
        let id = candidates[i].id;
        let other = candidates[n - 1].id;
        assert(model::task_id(id) && model::task_id(other));
        assert(id.len() == 26 && other.len() == 26);
        if text::begins(other, id) {
            assert(other.subrange(0, 26) =~= other);
        } else if i == n - 1 {
            assert(other.subrange(0, 26) =~= other);
        }
        if i == n - 1 {
            assert(Seq::<CandidateModel>::empty().push(candidates[i]) =~= seq![candidates[i]]);
        }
    }
}

/// The task in a record, with its path said of every error.
pub fn read_task(candidate: &Candidate, bytes: &[u8], config: &Config) -> (r: Result<Task, Error>)
    ensures
        error::viewed(r) == (match frontmatter::task_of(
            candidate@.id,
            candidate@.path,
            bytes@,
            config@,
        ) {
            Ok(task) => Ok(task),
            Err(e) => Err(placed(e, candidate@.path)),
        }),
{
    match frontmatter::parse_task(
        candidate.id.as_str(),
        candidate.path.as_str(),
        bytes,
        config,
    ) {
        Ok(task) => Ok(task),
        Err(e) => Err(error_with_path(e, candidate.path.as_str())),
    }
}

/// The project in a record, with its path said of every error.
pub fn read_project(candidate: &Candidate, bytes: &[u8]) -> (r: Result<Project, Error>)
    ensures
        error::viewed(r) == (match frontmatter::project_of_bytes(
            candidate@.id,
            candidate@.path,
            bytes@,
        ) {
            Ok(project) => Ok(project),
            Err(e) => Err(placed(e, candidate@.path)),
        }),
{
    match frontmatter::parse_project(candidate.id.as_str(), candidate.path.as_str(), bytes) {
        Ok(project) => Ok(project),
        Err(e) => Err(error_with_path(e, candidate.path.as_str())),
    }
}

/// Where the record of a project is.
pub open spec fn project_place(slug: Seq<char>, config: ConfigModel) -> Result<
    CandidateModel,
    ErrorModel,
> {
    if !model::slug(slug) {
        Err(model::slug_error(slug))
    } else {
        match config::managed(config.projects_directory) {
            Err(e) => Err(e),
            Ok(directory) => Ok(
                CandidateModel { id: slug, path: below(directory, slug + ".md"@) },
            ),
        }
    }
}

/// Where the record of a project is.
pub fn project_record(slug: &str, config: &Config) -> (r: Result<Candidate, Error>)
    ensures
        error::viewed(r) == project_place(slug@, config@),
{
    if let Err(e) = model::validate_project_slug(slug) {
        return Err(e);
    }
    match config.projects_path() {
        Ok(directory) => Ok(
            Candidate {
                id: slug.to_owned(),
                path: join(directory.as_str(), text::join2(slug, ".md").as_str()),
            },
        ),
        Err(e) => Err(e),
    }
}

/// What the record of a project has to be: a regular file.
pub fn ensure_project_file(candidate: &Candidate, entry: &Entry) -> (r: Result<(), Error>)
    ensures
        error::outcome(r) == (match entry@ {
            EntryModel::File(_) => Ok(()),
            EntryModel::Missing => Err(
                ErrorModel::not_found(
                    "project_not_found"@,
                    "Project "@ + text::debug_text(candidate@.id) + " does not exist"@,
                ).with_path(candidate@.path),
            ),
            EntryModel::Failed(path, reason) => Err(
                ErrorModel::io("inspect a project record"@, path, reason),
            ),
            EntryModel::Symlink => Err(
                ErrorModel::validation(
                    "record_symlink"@,
                    "Project records must not be symlinks"@,
                ).with_path(candidate@.path),
            ),
            _ => Err(
                ErrorModel::validation(
                    "invalid_record_file"@,
                    "Project record must be a regular file"@,
                ).with_path(candidate@.path),
            ),
        }),
{
    let path = candidate.path.as_str();
    match entry {
        Entry::File(_) => Ok(()),
        Entry::Missing => Err(
            Error::not_found(
                "project_not_found",
                text::join3(
                    "Project ",
                    text::debug(candidate.id.as_str()).as_str(),
                    " does not exist",
                ).as_str(),
            ).with_path(path),
        ),
        Entry::Failed { path, reason } => Err(
            Error::io("inspect a project record", path.as_str(), reason.as_str()),
        ),
        Entry::Symlink => Err(
            Error::validation(
                "record_symlink",
                "Project records must not be symlinks",
            ).with_path(path),
        ),
        _ => Err(
            Error::validation(
                "invalid_record_file",
                "Project record must be a regular file",
            ).with_path(path),
        ),
    }
}

/// Whether a path is relative and all its components are names.
pub open spec fn plain_path(path: Seq<char>) -> bool {
    forall|i: int| 0 <= i < paths::parts(path).len() ==> (#[trigger] paths::parts(path)[i]).0 == 3
}

/// Fail where the path of a record leads out of the store.
pub fn validate_relative_record_path(path: &str) -> (r: Result<(), Error>)
    ensures
        error::outcome(r) == (if plain_path(path@) {
            Ok(())
        } else {
            Err(
                ErrorModel::validation(
                    "path_escape"@,
                    "Record path must be a normalized path relative to the store"@,
                ).with_path(path@),
            )
        }),
{
    let parts = paths::components(path);
    let ghost all = paths::parts(path@);
    let mut i: usize = 0;
    while i < parts.len()
        invariant
            i <= parts@.len(),
            all == paths::parts(path@),
            all == paths::named(parts@),
            forall|k: int| 0 <= k < i ==> (#[trigger] all[k]).0 == 3,
        decreases parts.len() - i,
    {
        assert(all[i as int] == (parts@[i as int].kind as int, parts@[i as int].name@));
        if parts[i].kind != 3 {
            return Err(
                Error::validation(
                    "path_escape",
                    "Record path must be a normalized path relative to the store",
                ).with_path(path),
            );
        }
        i += 1;
    }
    Ok(())
}

/// Fail where the bytes of a new or changed record are not UTF-8.
pub fn validate_record_bytes(new: bool, bytes: &[u8], path: &str) -> (r: Result<(), Error>)
    ensures
        error::outcome(r) == (if vstd::utf8::valid_utf8(bytes@) {
            Ok(())
        } else {
            Err(
                ErrorModel::validation(
                    "invalid_utf8"@,
                    if new {
                        "New record must be UTF-8"@
                    } else {
                        "Replacement record must be UTF-8"@
                    },
                ).with_path(path@),
            )
        }),
{
    match text::decode(bytes) {
        Ok(_) => Ok(()),
        Err(_) => {
            let message = if new {
                "New record must be UTF-8"
            } else {
                "Replacement record must be UTF-8"
            };
            Err(Error::validation("invalid_utf8", message).with_path(path))
        },
    }
}

/// The SHA-256 digest of bytes.
pub uninterp spec fn sha256(bytes: Seq<u8>) -> Seq<u8>;

/// `Sha256::digest`: the digest of the bytes. How it is computed is not stated.
#[verifier::external_body]
fn content_hash(bytes: &[u8]) -> (r: Vec<u8>)
    ensures
        r@ == sha256(bytes@),
{
    <sha2::Sha256 as sha2::Digest>::digest(bytes).to_vec()
}

/// What a record held when it was read.
#[derive(Debug)]
pub struct FileSnapshot {
    path: String,
    hash: Vec<u8>,
}

impl FileSnapshot {
    /// The path of the record below the store.
    pub closed spec fn at(self) -> Seq<char> {
        self.path@
    }

    /// The digest of what the record held.
    pub closed spec fn digest(self) -> Seq<u8> {
        self.hash@
    }

    /// What a record holds as it is read.
    pub fn new(path: &str, bytes: &[u8]) -> (r: Self)
        ensures
            r.at() == path@,
            r.digest() == sha256(bytes@),
    {
        FileSnapshot { path: path.to_owned(), hash: content_hash(bytes) }
    }

    /// The path of the record below the store.
    pub fn path(&self) -> (r: &str)
        ensures
            r@ == self.at(),
    {
        self.path.as_str()
    }

    /// Fail where a record no longer holds what it held when it was read.
    pub fn ensure_unchanged(&self, current: &[u8]) -> (r: Result<(), Error>)
        ensures
            error::outcome(r) == (if current@.len() > frontmatter::MAX_RECORD_BYTES || sha256(
                current@,
            ) != self.digest() {
                Err(changed(self.at()))
            } else {
                Ok(())
            }),
    {
        if current.len() > frontmatter::MAX_RECORD_BYTES || !same_bytes(
            &content_hash(current),
            &self.hash,
        ) {
            return Err(
                Error::new(
                    ErrorKind::Concurrent,
                    "concurrent_modification",
                    "Record changed after it was read; external content was left untouched",
                ).with_path(self.path.as_str()),
            );
        }
        Ok(())
    }
}

/// The error for a record that no longer holds what it held.
pub open spec fn changed(path: Seq<char>) -> ErrorModel {
    ErrorModel::new(
        ErrorKind::Concurrent,
        "concurrent_modification"@,
        "Record changed after it was read; external content was left untouched"@,
    ).with_path(path)
}

fn same_bytes(a: &Vec<u8>, b: &Vec<u8>) -> (r: bool)
    ensures
        r == (a@ == b@),
{
    if a.len() != b.len() {
        return false;
    }
    let mut i: usize = 0;
    while i < a.len()
        invariant
            i <= a@.len() == b@.len(),
            forall|k: int| 0 <= k < i ==> a@[k] == b@[k],
        decreases a.len() - i,
    {
        if a[i] != b[i] {
            return false;
        }
        i += 1;
    }
    assert(a@ =~= b@);
    true
}

} // verus!
