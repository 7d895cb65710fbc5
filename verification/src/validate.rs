//! Everything that is wrong with a store, found in one pass.
//!
//! The file system is read elsewhere; here stands what is made of what was found.
use vstd::prelude::*;

use crate::attachments::{self, EntryModel, Row};
use crate::config::{self, Config, ConfigModel};
use crate::error::{self, Error, ErrorModel, IssueModel, ValidationIssue};
use crate::frontmatter;
use crate::markdown::{self, Mark, MarkModel};
use crate::model;
use crate::order;
use crate::parents::{self, ParentRecord, RecordModel};
use crate::paths;
use crate::schema::{self, JsonFault};
use crate::store::{self, Candidate, CandidateModel, WalkEntry, WalkKind, WalkModel};
use crate::text;

verus! {

/// What is wrong with a store, in order, and how much of it there is.
#[derive(Debug)]
pub struct ValidationReport {
    pub valid: bool,
    pub errors: usize,
    pub warnings: usize,
    pub tasks: usize,
    pub projects: usize,
    pub issues: Vec<ValidationIssue>,
}

impl ValidationReport {
    /// Whether the report is about the issues: it lists them in order, and counts them.
    pub open spec fn about(
        self,
        issues: Seq<ValidationIssue>,
        tasks: usize,
        projects: usize,
    ) -> bool {
        &&& order::arranged(issues, self.issues@)
        &&& self.errors == error::error_count(error::issue_models(self.issues@))
        &&& self.errors + self.warnings == issues.len()
        &&& self.valid == (self.errors == 0)
        &&& self.tasks == tasks
        &&& self.projects == projects
    }

    /// The report about the issues.
    #[must_use]
    pub fn from_issues(issues: Vec<ValidationIssue>, tasks: usize, projects: usize) -> (r: Self)
        ensures
            r.about(issues@, tasks, projects),
    {
        let sorted = order::sort(issues);
        let errors: usize = error::count_errors(&sorted);
        let warnings: usize = sorted.len() - errors;
        ValidationReport { valid: errors == 0, errors, warnings, tasks, projects, issues: sorted }
    }

    /// The report, where the store is valid; otherwise the error that its issues amount to.
    pub fn into_result(self) -> (r: Result<Self, Error>)
        ensures
            r is Ok <==> self.valid,
            r matches Ok(report) ==> report == self,
            r matches Err(e) ==> exists|sorted: Seq<ValidationIssue>|
                #![trigger error::issue_models(sorted)]
                order::arranged(self.issues@, sorted) && e@ == error::issues_error(
                    error::issue_models(sorted),
                ),
    {
        if self.valid {
            Ok(self)
        } else {
            Err(Error::from_issues(self.issues))
        }
    }
}

/// The slug that a project is read under whose own is none.
pub const VALIDATION_PROJECT_SLUG: &'static str = "validation-record";

/// The ID that a task is read under whose own is none.
pub const VALIDATION_TASK_ID: &'static str = "01K4B0ZSBZZV25T1K0D3TA8JHR";

/// An error as an issue with a file.
pub open spec fn as_issue(e: ErrorModel, fallback: Seq<char>) -> IssueModel {
    let issue = IssueModel::error(e.code, e.message).at_path(
        match e.path {
            Some(path) => path,
            None => fallback,
        },
    );
    let issue = match e.field {
        Some(field) => issue.at_field(field),
        None => issue,
    };
    match (e.line, e.column) {
        (Some(line), Some(column)) => issue.at_location(line, column),
        _ => issue,
    }
}

/// An error as an issue with a file: the one that it names, or else the one given.
pub(crate) fn issue_from_error(e: &Error, fallback: &str) -> (r: ValidationIssue)
    ensures
        r@ == as_issue(e@, fallback@),
{
    let issue = ValidationIssue::error(e.code(), e.message());
    let issue = match e.path() {
        Some(path) => issue.at_path(path),
        None => issue.at_path(fallback),
    };
    let issue = match e.field() {
        Some(field) => issue.at_field(field),
        None => issue,
    };
    match (e.line(), e.column()) {
        (Some(line), Some(column)) => issue.at_location(line, column),
        _ => issue,
    }
}

/// What came of reading a file of the store.
#[derive(Debug)]
pub enum FileState {
    /// It could not be read: what was tried, and why it failed.
    Unreadable { action: String, reason: String },
    /// It is no regular file.
    Irregular,
    /// It has more bytes than are read.
    Large,
    /// Its bytes.
    Bytes(Vec<u8>),
}

/// What came of reading a file.
pub enum FileModel {
    Unreadable(Seq<char>, Seq<char>),
    Irregular,
    Large,
    Bytes(Seq<u8>),
}

impl View for FileState {
    type V = FileModel;

    open spec fn view(&self) -> FileModel {
        match *self {
            FileState::Unreadable { action, reason } => FileModel::Unreadable(action@, reason@),
            FileState::Irregular => FileModel::Irregular,
            FileState::Large => FileModel::Large,
            FileState::Bytes(bytes) => FileModel::Bytes(bytes@),
        }
    }
}

/// Whether a length is over a limit.
pub fn exceeds_limit(length: usize, limit: u64) -> (r: bool)
    ensures
        r == (length > limit),
{
    length as u64 > limit
}

/// The issue for a file with too many bytes.
pub open spec fn large_issue(relative: Seq<char>, limit: u64) -> IssueModel {
    IssueModel::error(
        "file_too_large"@,
        "File exceeds the "@ + text::decimal(limit as nat) + "-byte limit"@,
    ).at_path(relative)
}

/// The bytes of a file, where it could be read and is no larger than the limit.
pub open spec fn file_bytes(file: FileModel, relative: Seq<char>, limit: u64) -> Result<
    Seq<u8>,
    IssueModel,
> {
    match file {
        FileModel::Unreadable(action, reason) => Err(
            IssueModel::error(
                "file_unreadable"@,
                "Could not "@ + action + ": "@ + reason,
            ).at_path(relative),
        ),
        FileModel::Irregular => Err(
            IssueModel::error("invalid_store_file"@, "Expected a regular file"@).at_path(relative),
        ),
        FileModel::Large => Err(large_issue(relative, limit)),
        FileModel::Bytes(bytes) => if bytes.len() > limit {
            Err(large_issue(relative, limit))
        } else {
            Ok(bytes)
        },
    }
}

/// The result of reading a file, as values.
pub open spec fn bytes_outcome(r: Result<&Vec<u8>, ValidationIssue>) -> Result<
    Seq<u8>,
    IssueModel,
> {
    match r {
        Ok(bytes) => Ok(bytes@),
        Err(issue) => Err(issue@),
    }
}

/// The bytes of a file. See [`file_bytes`].
pub fn read_regular_file<'a>(file: &'a FileState, relative: &str, limit: u64) -> (r: Result<
    &'a Vec<u8>,
    ValidationIssue,
>)
    ensures
        bytes_outcome(r) == file_bytes(file@, relative@, limit),
{
    match file {
        FileState::Unreadable { action, reason } => Err(
            ValidationIssue::error(
                "file_unreadable",
                text::join4("Could not ", action.as_str(), ": ", reason.as_str()).as_str(),
            ).at_path(relative),
        ),
        FileState::Irregular => Err(
            ValidationIssue::error("invalid_store_file", "Expected a regular file").at_path(
                relative,
            ),
        ),
        FileState::Large => Err(too_large(relative, limit)),
        FileState::Bytes(bytes) => if exceeds_limit(bytes.len(), limit) {
            Err(too_large(relative, limit))
        } else {
            Ok(bytes)
        },
    }
}

fn too_large(relative: &str, limit: u64) -> (r: ValidationIssue)
    ensures
        r@ == large_issue(relative@, limit),
{
    ValidationIssue::error(
        "file_too_large",
        text::join3(
            "File exceeds the ",
            text::format_number(limit).as_str(),
            "-byte limit",
        ).as_str(),
    ).at_path(relative)
}

/// The configuration of a store, as far as it can be told, and all that is wrong with it.
pub open spec fn config_found(file: FileModel) -> (Option<ConfigModel>, Seq<IssueModel>) {
    match file_bytes(file, ".todo/config.toml"@, store::MAX_CONFIG_BYTES) {
        Err(issue) => (None, seq![issue]),
        Ok(bytes) => if vstd::utf8::valid_utf8(bytes) {
            let source = vstd::utf8::decode_utf8(bytes);
            config::inspected(source, crate::documents::toml_outcome(source))
        } else {
            (
                None,
                seq![
                    IssueModel::error("invalid_config_utf8"@, "Configuration must be UTF-8"@).at_path(
                        ".todo/config.toml"@,
                    ),
                ],
            )
        },
    }
}

/// The configuration of a store, as far as it can be told, and all that is wrong with it. See
/// [`config_found`].
pub fn load_config_for_validation(file: &FileState) -> (r: (Option<Config>, Vec<ValidationIssue>))
    ensures
        (config::opt_config(r.0), error::issue_models(r.1@)) == config_found(file@),
{
    let mut issues: Vec<ValidationIssue> = Vec::new();
    assert(error::issue_models(issues@) =~= Seq::<IssueModel>::empty());
    let bytes = match read_regular_file(file, config::CONFIG_PATH, store::MAX_CONFIG_BYTES) {
        Ok(bytes) => bytes,
        Err(issue) => {
            error::add_issue(&mut issues, issue);
            return (None, issues);
        },
    };
    match text::decode(bytes.as_slice()) {
        Ok(source) => {
            proof {
                text::lemma_decoded_fits(bytes@);
            }
            Config::inspect(source)
        },
        Err(_) => {
            error::add_issue(
                &mut issues,
                ValidationIssue::error("invalid_config_utf8", "Configuration must be UTF-8").at_path(
                    config::CONFIG_PATH,
                ),
            );
            (None, issues)
        },
    }
}

/// The issues with a schema that was read, by the version of the configuration, where that is
/// known: it has to be the one expected.
pub open spec fn schema_issues(
    found: Result<Seq<char>, (Seq<char>, usize, usize)>,
    expected: Result<Seq<char>, (Seq<char>, usize, usize)>,
    version: Option<u32>,
) -> Seq<IssueModel> {
    match expected {
        Err((message, _, _)) => seq![
            IssueModel::error(
                "invalid_embedded_schema"@,
                "The schema embedded in this build is invalid JSON: "@ + message,
            ),
        ],
        Ok(expected) => match found {
            Err((message, line, column)) => seq![
                IssueModel::error(
                    "invalid_schema_file"@,
                    "schema.json is invalid JSON: "@ + message,
                ).at_path(".todo/schema.json"@).at_location(line, column),
            ],
            Ok(found) => match version {
                Some(version) if !schema::json_equal(found, expected) => seq![
                    IssueModel::error(
                        "schema_version_mismatch"@,
                        "schema.json is not compatible with schema version "@ + text::decimal(
                            version as nat,
                        ),
                    ).at_path(".todo/schema.json"@),
                ],
                _ => seq![],
            },
        },
    }
}

/// The issues with a schema that was read. See [`schema_issues`].
pub fn compare_schema(
    found: Result<serde_json::Value, JsonFault>,
    expected: Result<serde_json::Value, JsonFault>,
    version: Option<u32>,
) -> (r: Vec<ValidationIssue>)
    ensures
        error::issue_models(r@) == schema_issues(
            schema::read_outcome(found),
            schema::read_outcome(expected),
            version,
        ),
{
    let mut issues: Vec<ValidationIssue> = Vec::new();
    assert(error::issue_models(issues@) =~= Seq::<IssueModel>::empty());
    let expected = match expected {
        Ok(expected) => expected,
        Err(fault) => {
            error::add_issue(
                &mut issues,
                ValidationIssue::error(
                    "invalid_embedded_schema",
                    text::join2(
                        "The schema embedded in this build is invalid JSON: ",
                        fault.message.as_str(),
                    ).as_str(),
                ),
            );
            return issues;
        },
    };
    match found {
        Err(fault) => {
            error::add_issue(
                &mut issues,
                ValidationIssue::error(
                    "invalid_schema_file",
                    text::join2("schema.json is invalid JSON: ", fault.message.as_str()).as_str(),
                ).at_path(config::SCHEMA_PATH).at_location(fault.line, fault.column),
            );
        },
        Ok(found) => {
            if let Some(version) = version {
                if !schema::are_equal(&found, &expected) {
                    error::add_issue(
                        &mut issues,
                        ValidationIssue::error(
                            "schema_version_mismatch",
                            text::join2(
                                "schema.json is not compatible with schema version ",
                                text::format_number(version as u64).as_str(),
                            ).as_str(),
                        ).at_path(config::SCHEMA_PATH),
                    );
                }
            }
        },
    }
    issues
}

/// The version whose schema a store has to have: that of the configuration, or else the latest.
pub open spec fn meant_version(version: Option<u32>) -> u32 {
    match version {
        Some(version) => version,
        None => 2,
    }
}

/// The issues with the schema file of a store.
pub open spec fn schema_file_issues(
    file: FileModel,
    version: Option<u32>,
    schemas: schema::SchemasModel,
) -> Seq<IssueModel> {
    match file_bytes(file, ".todo/schema.json"@, store::MAX_CONFIG_BYTES) {
        Err(issue) => seq![issue],
        Ok(bytes) => match schemas.of(meant_version(version)) {
            Err(e) => seq![as_issue(e, ".todo/config.toml"@)],
            Ok(expected) => schema_issues(
                schema::json_read(bytes),
                schema::json_read(vstd::utf8::encode_utf8(expected)),
                version,
            ),
        },
    }
}

/// The issues with the schema file of a store. See [`schema_file_issues`].
pub fn validate_schema(file: &FileState, version: Option<u32>, schemas: &schema::Schemas) -> (r: Vec<
    ValidationIssue,
>)
    ensures
        error::issue_models(r@) == schema_file_issues(file@, version, schemas@),
{
    let mut issues: Vec<ValidationIssue> = Vec::new();
    assert(error::issue_models(issues@) =~= Seq::<IssueModel>::empty());
    let bytes = match read_regular_file(file, config::SCHEMA_PATH, store::MAX_CONFIG_BYTES) {
        Ok(bytes) => bytes,
        Err(issue) => {
            error::add_issue(&mut issues, issue);
            return issues;
        },
    };
    let meant: u32 = match version {
        Some(version) => version,
        None => 2,
    };
    match schemas.embedded_schema(meant) {
        Err(e) => {
            error::add_issue(&mut issues, issue_from_error(&e, config::CONFIG_PATH));
            issues
        },
        Ok(expected) => compare_schema(
            schema::read_json(bytes.as_slice()),
            schema::read_json(expected.as_bytes()),
            version,
        ),
    }
}

/// What stands at a place.
#[derive(Debug)]
pub enum Place {
    Directory,
    Symlink,
    Other,
    /// It could not be looked at, for the reason given.
    Failed(String),
}

/// What stands at a place.
pub enum PlaceModel {
    Directory,
    Symlink,
    Other,
    Failed(Seq<char>),
}

impl View for Place {
    type V = PlaceModel;

    open spec fn view(&self) -> PlaceModel {
        match *self {
            Place::Directory => PlaceModel::Directory,
            Place::Symlink => PlaceModel::Symlink,
            Place::Other => PlaceModel::Other,
            Place::Failed(reason) => PlaceModel::Failed(reason@),
        }
    }
}

/// What stands at places.
pub open spec fn place_models(places: Seq<Place>) -> Seq<PlaceModel> {
    places.map_values(|place: Place| place@)
}

/// Where a path leads, or why that could not be told.
pub type Resolved = Result<String, String>;

/// Where a path leads.
pub open spec fn resolved_as(resolved: Resolved) -> Result<Seq<char>, Seq<char>> {
    match resolved {
        Ok(path) => Ok(path@),
        Err(reason) => Err(reason@),
    }
}

/// A configured directory on disk: what stands at each component of its path, and where it
/// leads.
#[derive(Debug)]
pub struct ManagedPlace {
    pub places: Vec<Place>,
    pub resolved: Resolved,
}

/// A configured directory on disk.
pub struct ManagedModel {
    pub places: Seq<PlaceModel>,
    pub resolved: Result<Seq<char>, Seq<char>>,
}

impl View for ManagedPlace {
    type V = ManagedModel;

    open spec fn view(&self) -> ManagedModel {
        ManagedModel {
            places: place_models(self.places@),
            resolved: resolved_as(self.resolved),
        }
    }
}

/// An issue with a configured directory.
pub open spec fn managed_issue(
    code: Seq<char>,
    message: Seq<char>,
    configured: Seq<char>,
    field: Seq<char>,
) -> IssueModel {
    IssueModel::error(code, message).at_path(configured).at_field(field)
}

/// The issue with the first of `n` components, from the `i`-th on, that is no directory. Where
/// the list of places ends, nothing more is there.
pub open spec fn component_issue(
    places: Seq<PlaceModel>,
    n: int,
    i: int,
    configured: Seq<char>,
    field: Seq<char>,
) -> Option<IssueModel>
    decreases n - i,
{
    if i >= n {
        None
    } else if i >= places.len() {
        Some(
            managed_issue(
                "managed_directory_missing"@,
                "Configured managed directory is missing: not looked at"@,
                configured,
                field,
            ),
        )
    } else {
        match places[i] {
            PlaceModel::Symlink => Some(
                managed_issue(
                    "managed_path_symlink"@,
                    "Managed paths must not contain symlinks"@,
                    configured,
                    field,
                ),
            ),
            PlaceModel::Other => Some(
                managed_issue(
                    "managed_path_not_directory"@,
                    "Configured managed path is not a directory"@,
                    configured,
                    field,
                ),
            ),
            PlaceModel::Failed(reason) => Some(
                managed_issue(
                    "managed_directory_missing"@,
                    "Configured managed directory is missing: "@ + reason,
                    configured,
                    field,
                ),
            ),
            PlaceModel::Directory => component_issue(places, n, i + 1, configured, field),
        }
    }
}

/// Where a configured directory is, unless its path is none or leads out of the store, and the
/// issue with it, if any. What is wrong with the path alone is an issue of the configuration.
pub open spec fn managed_found(
    root: Seq<char>,
    configured: Seq<char>,
    field: Seq<char>,
    found: ManagedModel,
) -> (Option<Seq<char>>, Option<IssueModel>) {
    if config::directory_fault(configured) is Some {
        (None, None)
    } else {
        match component_issue(
            found.places,
            paths::parts(configured).len() as int,
            0,
            configured,
            field,
        ) {
            Some(issue) => (None, Some(issue)),
            None => match found.resolved {
                Ok(path) => if paths::path_begins(path, root) {
                    (Some(path), None)
                } else {
                    (
                        None,
                        Some(
                            managed_issue(
                                "managed_path_escape"@,
                                "Managed path resolves outside the store"@,
                                configured,
                                field,
                            ),
                        ),
                    )
                },
                Err(reason) => (
                    None,
                    Some(
                        managed_issue(
                            "managed_path_unreadable"@,
                            "Could not resolve configured managed directory: "@ + reason,
                            configured,
                            field,
                        ),
                    ),
                ),
            },
        }
    }
}

/// What an issue that may be missing says.
pub open spec fn opt_issue(issue: Option<ValidationIssue>) -> Option<IssueModel> {
    match issue {
        Some(issue) => Some(issue@),
        None => None,
    }
}

fn managed_error(code: &str, message: &str, configured: &str, field: &str) -> (r: ValidationIssue)
    ensures
        r@ == managed_issue(code@, message@, configured@, field@),
{
    ValidationIssue::error(code, message).at_path(configured).at_field(field)
}

fn find_component_issue(places: &Vec<Place>, n: usize, configured: &str, field: &str) -> (r: Option<
    ValidationIssue,
>)
    ensures
        opt_issue(r) == component_issue(
            place_models(places@),
            n as int,
            0,
            configured@,
            field@,
        ),
{
    let ghost models = place_models(places@);
    let mut i: usize = 0;
    while i < n
        invariant
            i <= n,
            models == place_models(places@),
            component_issue(models, n as int, 0, configured@, field@) == component_issue(
                models,
                n as int,
                i as int,
                configured@,
                field@,
            ),
        decreases n - i,
    {
        if i >= places.len() {
            return Some(
                managed_error(
                    "managed_directory_missing",
                    "Configured managed directory is missing: not looked at",
                    configured,
                    field,
                ),
            );
        }
        assert(models[i as int] == places@[i as int]@);
        match &places[i] {
            Place::Symlink => {
                return Some(
                    managed_error(
                        "managed_path_symlink",
                        "Managed paths must not contain symlinks",
                        configured,
                        field,
                    ),
                );
            },
            Place::Other => {
                return Some(
                    managed_error(
                        "managed_path_not_directory",
                        "Configured managed path is not a directory",
                        configured,
                        field,
                    ),
                );
            },
            Place::Failed(reason) => {
                return Some(
                    managed_error(
                        "managed_directory_missing",
                        text::join2(
                            "Configured managed directory is missing: ",
                            reason.as_str(),
                        ).as_str(),
                        configured,
                        field,
                    ),
                );
            },
            Place::Directory => {},
        }
        i += 1;
    }
    None
}

/// Where a configured directory is. See [`managed_found`].
pub fn validate_managed_path_on_disk(
    root: &str,
    configured: &str,
    field: &str,
    found: &ManagedPlace,
) -> (r: (Option<String>, Option<ValidationIssue>))
    ensures
        (text::opt(r.0), opt_issue(r.1)) == managed_found(root@, configured@, field@, found@),
{
    if config::validate_managed_directory(configured).is_err() {
        return (None, None);
    }
    let parts = paths::components(configured);
    assert(paths::parts(configured@).len() == parts@.len());
    if let Some(issue) = find_component_issue(&found.places, parts.len(), configured, field) {
        return (None, Some(issue));
    }
    match &found.resolved {
        Ok(path) => if paths::is_path_within(path.as_str(), root) {
            (Some(path.clone()), None)
        } else {
            (
                None,
                Some(
                    managed_error(
                        "managed_path_escape",
                        "Managed path resolves outside the store",
                        configured,
                        field,
                    ),
                ),
            )
        },
        Err(reason) => (
            None,
            Some(
                managed_error(
                    "managed_path_unreadable",
                    text::join2(
                        "Could not resolve configured managed directory: ",
                        reason.as_str(),
                    ).as_str(),
                    configured,
                    field,
                ),
            ),
        ),
    }
}

/// The root of a store on disk.
#[derive(Debug)]
pub enum RootState {
    /// It could not be looked at, for the reason given.
    Failed(String),
    /// It is no real directory.
    NotDirectory,
    /// It is not known where it leads, for the reason given.
    Unresolved(String),
    /// Where it is.
    At(String),
}

/// Where the root of a store is, or the issue with it.
pub open spec fn root_found(root: RootState) -> Result<Seq<char>, IssueModel> {
    match root {
        RootState::Failed(reason) => Err(
            IssueModel::error(
                "store_not_found"@,
                "Could not inspect the store root: "@ + reason@,
            ).at_path("."@),
        ),
        RootState::NotDirectory => Err(
            IssueModel::error(
                "invalid_store_root"@,
                "Store root must be a real directory"@,
            ).at_path("."@),
        ),
        RootState::Unresolved(reason) => Err(
            IssueModel::error(
                "invalid_store_root"@,
                "Could not resolve the store root: "@ + reason@,
            ).at_path("."@),
        ),
        RootState::At(path) => Ok(path@),
    }
}

/// The result of looking for the root, as values.
pub open spec fn root_outcome(r: Result<&String, ValidationIssue>) -> Result<
    Seq<char>,
    IssueModel,
> {
    match r {
        Ok(path) => Ok(path@),
        Err(issue) => Err(issue@),
    }
}

/// Where the root of a store is, or the issue with it.
pub fn validate_root(root: &RootState) -> (r: Result<&String, ValidationIssue>)
    ensures
        root_outcome(r) == root_found(*root),
{
    match root {
        RootState::Failed(reason) => Err(
            ValidationIssue::error(
                "store_not_found",
                text::join2("Could not inspect the store root: ", reason.as_str()).as_str(),
            ).at_path("."),
        ),
        RootState::NotDirectory => Err(
            ValidationIssue::error(
                "invalid_store_root",
                "Store root must be a real directory",
            ).at_path("."),
        ),
        RootState::Unresolved(reason) => Err(
            ValidationIssue::error(
                "invalid_store_root",
                text::join2("Could not resolve the store root: ", reason.as_str()).as_str(),
            ).at_path("."),
        ),
        RootState::At(path) => Ok(path),
    }
}

/// The issue with the metadata directory, if any.
pub open spec fn metadata_issue(place: PlaceModel) -> Option<IssueModel> {
    match place {
        PlaceModel::Directory => None,
        PlaceModel::Failed(reason) => Some(
            IssueModel::error(
                "metadata_directory_missing"@,
                "Could not read .todo: "@ + reason,
            ).at_path(".todo"@),
        ),
        _ => Some(
            IssueModel::error(
                "invalid_metadata_directory"@,
                ".todo must be a real directory"@,
            ).at_path(".todo"@),
        ),
    }
}

/// The issue with the metadata directory, if any.
pub fn validate_metadata_directory(place: &Place) -> (r: Option<ValidationIssue>)
    ensures
        opt_issue(r) == metadata_issue(place@),
{
    match place {
        Place::Directory => None,
        Place::Failed(reason) => Some(
            ValidationIssue::error(
                "metadata_directory_missing",
                text::join2("Could not read .todo: ", reason.as_str()).as_str(),
            ).at_path(".todo"),
        ),
        _ => Some(
            ValidationIssue::error(
                "invalid_metadata_directory",
                ".todo must be a real directory",
            ).at_path(".todo"),
        ),
    }
}

/// What came of taking the shared lock of a store.
#[derive(Debug)]
pub enum LockState {
    /// It was taken, or there is nothing to take.
    Taken,
    /// What is open is no regular file.
    Irregular,
    /// It could not be taken: what was tried, and why it failed.
    Failed { action: String, reason: String },
}

/// The issue with the lock, if any.
pub open spec fn lock_issue(lock: LockState) -> Option<IssueModel> {
    match lock {
        LockState::Taken => None,
        LockState::Irregular => Some(
            IssueModel::error(
                "invalid_store_file"@,
                "Store configuration lock must be a regular file"@,
            ).at_path(".todo/config.toml"@),
        ),
        LockState::Failed { action, reason } => Some(
            IssueModel::error(
                "validation_lock_failed"@,
                "Could not "@ + action@ + ": "@ + reason@,
            ).at_path(".todo/config.toml"@),
        ),
    }
}

/// The issue with the lock, if any.
pub fn validate_lock(lock: &LockState) -> (r: Option<ValidationIssue>)
    ensures
        opt_issue(r) == lock_issue(*lock),
{
    match lock {
        LockState::Taken => None,
        LockState::Irregular => Some(
            ValidationIssue::error(
                "invalid_store_file",
                "Store configuration lock must be a regular file",
            ).at_path(config::CONFIG_PATH),
        ),
        LockState::Failed { action, reason } => Some(
            ValidationIssue::error(
                "validation_lock_failed",
                text::join4("Could not ", action.as_str(), ": ", reason.as_str()).as_str(),
            ).at_path(config::CONFIG_PATH),
        ),
    }
}

/// An entry of the metadata directory.
#[derive(Debug)]
pub enum MetadataEntry {
    /// Its name.
    Named(String),
    /// It could not be looked at, for the reason given.
    Failed(String),
}

/// The issue with an entry of the metadata directory, if any: there are a configuration and a
/// schema, and nothing else.
pub open spec fn metadata_entry_issue(entry: MetadataEntry) -> Option<IssueModel> {
    match entry {
        MetadataEntry::Named(name) => if name@ == "config.toml"@ || name@ == "schema.json"@ {
            None
        } else {
            Some(
                IssueModel::warning(
                    "unexpected_file"@,
                    "Unexpected entry in the metadata directory"@,
                ).at_path(".todo/"@ + name@),
            )
        },
        MetadataEntry::Failed(reason) => Some(
            IssueModel::error(
                "metadata_scan_failed"@,
                "Could not inspect a .todo entry: "@ + reason@,
            ).at_path(".todo"@),
        ),
    }
}

/// The issues with the first `n` entries.
pub open spec fn metadata_entry_issues(entries: Seq<MetadataEntry>, n: int) -> Seq<IssueModel>
    decreases n,
{
    if n <= 0 {
        seq![]
    } else {
        metadata_entry_issues(entries, n - 1) + config::issue_if(
            metadata_entry_issue(entries[n - 1]),
        )
    }
}

/// The entries of the metadata directory, or why they could not be listed.
pub type MetadataEntries = Result<Vec<MetadataEntry>, String>;

/// The issues with the entries of the metadata directory.
pub open spec fn metadata_issues(entries: MetadataEntries) -> Seq<IssueModel> {
    match entries {
        Err(reason) => seq![
            IssueModel::error(
                "metadata_scan_failed"@,
                "Could not inspect .todo contents: "@ + reason@,
            ).at_path(".todo"@),
        ],
        Ok(entries) => metadata_entry_issues(entries@, entries@.len() as int),
    }
}

fn find_entry_issue(entry: &MetadataEntry) -> (r: Option<ValidationIssue>)
    ensures
        opt_issue(r) == metadata_entry_issue(*entry),
{
    match entry {
        MetadataEntry::Named(name) => if text::same(name.as_str(), "config.toml") || text::same(
            name.as_str(),
            "schema.json",
        ) {
            None
        } else {
            Some(
                ValidationIssue::warning(
                    "unexpected_file",
                    "Unexpected entry in the metadata directory",
                ).at_path(text::join2(".todo/", name.as_str()).as_str()),
            )
        },
        MetadataEntry::Failed(reason) => Some(
            ValidationIssue::error(
                "metadata_scan_failed",
                text::join2("Could not inspect a .todo entry: ", reason.as_str()).as_str(),
            ).at_path(".todo"),
        ),
    }
}

fn add_if(issues: &mut Vec<ValidationIssue>, issue: Option<ValidationIssue>)
    ensures
        error::issue_models(final(issues)@) == error::issue_models(old(issues)@)
            + config::issue_if(opt_issue(issue)),
{
    let ghost had = error::issue_models(issues@);
    match issue {
        Some(issue) => {
            error::add_issue(issues, issue);
            assert(had.push(issue@) =~= had + seq![issue@]);
        },
        None => {
            assert(had =~= had + Seq::<IssueModel>::empty());
        },
    }
}

/// The issues with the entries of the metadata directory.
pub fn validate_metadata_entries(entries: &MetadataEntries) -> (r: Vec<ValidationIssue>)
    ensures
        error::issue_models(r@) == metadata_issues(*entries),
{
    let mut issues: Vec<ValidationIssue> = Vec::new();
    assert(error::issue_models(issues@) =~= Seq::<IssueModel>::empty());
    match entries {
        Err(reason) => {
            error::add_issue(
                &mut issues,
                ValidationIssue::error(
                    "metadata_scan_failed",
                    text::join2("Could not inspect .todo contents: ", reason.as_str()).as_str(),
                ).at_path(".todo"),
            );
        },
        Ok(entries) => {
            let mut i: usize = 0;
            while i < entries.len()
                invariant
                    i <= entries@.len(),
                    error::issue_models(issues@) == metadata_entry_issues(
                        entries@,
                        i as int,
                    ),
                decreases entries.len() - i,
            {
                add_if(&mut issues, find_entry_issue(&entries[i]));
                i += 1;
            }
        },
    }
    issues
}

/// A step of a walk through directories, in which what is in a directory comes directly behind
/// it.
#[derive(Debug)]
pub enum Step {
    /// Nothing could be looked at, at the given depth, for the reason given.
    Failed { reason: String, depth: usize },
    /// What stands at a place.
    Met(WalkEntry),
}

/// A step of a walk.
pub enum StepModel {
    Failed(Seq<char>, usize),
    Met(WalkModel),
}

impl View for Step {
    type V = StepModel;

    open spec fn view(&self) -> StepModel {
        match *self {
            Step::Failed { reason, depth } => StepModel::Failed(reason@, depth),
            Step::Met(entry) => StepModel::Met(entry@),
        }
    }
}

/// The steps of a walk.
pub open spec fn step_models(steps: Seq<Step>) -> Seq<StepModel> {
    steps.map_values(|step: Step| step@)
}

impl StepModel {
    /// How deep a step is.
    pub open spec fn depth(self) -> usize {
        match self {
            StepModel::Failed(_, depth) => depth,
            StepModel::Met(entry) => entry.depth,
        }
    }

    /// Whether a step lies in the directory, at the given depth, that is passed over.
    pub open spec fn passed(self, skip: Option<usize>) -> bool {
        skip matches Some(depth) && self.depth() > depth
    }
}

impl Step {
    fn is_passed(&self, skip: Option<usize>) -> (r: bool)
        ensures
            r == self@.passed(skip),
    {
        let depth: usize = match self {
            Step::Failed { depth, .. } => *depth,
            Step::Met(entry) => entry.depth,
        };
        match skip {
            Some(limit) => depth > limit,
            None => false,
        }
    }
}

/// The depth of a directory that is passed over from here on, where the entry is a directory.
pub open spec fn passing(entry: WalkModel) -> Option<usize> {
    if entry.kind == WalkKind::Directory {
        Some(entry.depth)
    } else {
        None
    }
}

fn pass(entry: &WalkEntry) -> (r: Option<usize>)
    ensures
        r == passing(entry@),
{
    if entry.kind == WalkKind::Directory {
        Some(entry.depth)
    } else {
        None
    }
}

/// Whether two paths have the same components.
pub open spec fn same_path(a: Seq<char>, b: Seq<char>) -> bool {
    paths::path_begins(a, b) && paths::path_begins(b, a)
}

fn is_same_path(a: &str, b: &str) -> (r: bool)
    ensures
        r == same_path(a@, b@),
{
    paths::is_path_within(a, b) && paths::is_path_within(b, a)
}

/// Whether an entry below the root is managed, and nothing in it is looked at.
pub open spec fn is_kept(path: Seq<char>, config: ConfigModel) -> bool {
    same_path(path, ".todo"@) || same_path(path, "Attachments"@) || (config::directory_fault(
        config.tasks_directory,
    ) is None && same_path(path, config.tasks_directory)) || (config::directory_fault(
        config.projects_directory,
    ) is None && same_path(path, config.projects_directory))
}

/// Whether an entry below the root holds a configured directory.
pub open spec fn is_above(path: Seq<char>, config: ConfigModel) -> bool {
    (config::directory_fault(config.tasks_directory) is None && paths::path_begins(
        config.tasks_directory,
        path,
    )) || (config::directory_fault(config.projects_directory) is None && paths::path_begins(
        config.projects_directory,
        path,
    ))
}

/// The warning for an entry that is not the store's.
pub open spec fn stray_issue(path: Seq<char>) -> IssueModel {
    IssueModel::warning(
        "unexpected_file"@,
        "Unexpected entry outside the configured store trees"@,
    ).at_path(path)
}

/// The issues with what stands below the root of a store, from the `i`-th step on, after those
/// in `found`. What is in the directory at the depth `skip` is passed over.
pub open spec fn root_issues(
    steps: Seq<StepModel>,
    config: ConfigModel,
    i: int,
    skip: Option<usize>,
    found: Seq<IssueModel>,
) -> Seq<IssueModel>
    decreases steps.len() - i,
{
    if i >= steps.len() {
        found
    } else if steps[i].passed(skip) {
        root_issues(steps, config, i + 1, skip, found)
    } else {
        match steps[i] {
            StepModel::Failed(reason, _) => root_issues(
                steps,
                config,
                i + 1,
                None,
                found.push(
                    IssueModel::error(
                        "store_scan_failed"@,
                        "Could not inspect store contents: "@ + reason,
                    ).at_path("."@),
                ),
            ),
            StepModel::Met(entry) => if same_path(entry.path, "todos.base"@) && entry.kind
                == WalkKind::File {
                root_issues(steps, config, i + 1, None, found)
            } else if is_kept(entry.path, config) {
                root_issues(steps, config, i + 1, passing(entry), found)
            } else if is_above(entry.path, config) {
                root_issues(steps, config, i + 1, None, found)
            } else {
                root_issues(
                    steps,
                    config,
                    i + 1,
                    passing(entry),
                    found.push(stray_issue(entry.path)),
                )
            },
        }
    }
}

fn is_managed(path: &str, config: &Config) -> (r: bool)
    ensures
        r == is_kept(path@, config@),
{
    is_same_path(path, ".todo") || is_same_path(path, "Attachments") || (
    config::validate_managed_directory(config.tasks_directory.as_str()).is_ok() && is_same_path(
        path,
        config.tasks_directory.as_str(),
    )) || (config::validate_managed_directory(config.projects_directory.as_str()).is_ok()
        && is_same_path(path, config.projects_directory.as_str()))
}

fn is_holding(path: &str, config: &Config) -> (r: bool)
    ensures
        r == is_above(path@, config@),
{
    (config::validate_managed_directory(config.tasks_directory.as_str()).is_ok()
        && paths::is_path_within(config.tasks_directory.as_str(), path)) || (
    config::validate_managed_directory(config.projects_directory.as_str()).is_ok()
        && paths::is_path_within(config.projects_directory.as_str(), path))
}

/// The issues with what stands below the root of a store. See [`root_issues`].
pub fn validate_store_root_entries(steps: &Vec<Step>, config: &Config) -> (r: Vec<ValidationIssue>)
    ensures
        error::issue_models(r@) == root_issues(step_models(steps@), config@, 0, None, seq![]),
{
    let ghost models = step_models(steps@);
    let mut issues: Vec<ValidationIssue> = Vec::new();
    assert(error::issue_models(issues@) =~= Seq::<IssueModel>::empty());
    let mut skip: Option<usize> = None;
    let mut i: usize = 0;
    while i < steps.len()
        invariant
            i <= steps@.len(),
            models == step_models(steps@),
            root_issues(models, config@, 0, None, seq![]) == root_issues(
                models,
                config@,
                i as int,
                skip,
                error::issue_models(issues@),
            ),
        decreases steps.len() - i,
    {
        assert(models[i as int] == steps@[i as int]@);
        if !steps[i].is_passed(skip) {
            match &steps[i] {
                Step::Failed { reason, .. } => {
                    skip = None;
                    error::add_issue(
                        &mut issues,
                        ValidationIssue::error(
                            "store_scan_failed",
                            text::join2(
                                "Could not inspect store contents: ",
                                reason.as_str(),
                            ).as_str(),
                        ).at_path("."),
                    );
                },
                Step::Met(entry) => {
                    let path = entry.path.as_str();
                    if is_same_path(path, config::TODOS_BASE_PATH) && entry.kind
                        == WalkKind::File {
                        skip = None;
                    } else if is_managed(path, config) {
                        skip = pass(entry);
                    } else if is_holding(path, config) {
                        skip = None;
                    } else {
                        skip = pass(entry);
                        error::add_issue(
                            &mut issues,
                            ValidationIssue::warning(
                                "unexpected_file",
                                "Unexpected entry outside the configured store trees",
                            ).at_path(path),
                        );
                    }
                },
            }
        }
        i += 1;
    }
    issues
}

/// A step of the walk below a directory of records: what stands there, what came of reading it
/// where it is a record, and what stands at the paths of its attachments.
#[derive(Debug)]
pub struct Visit {
    pub step: Step,
    pub file: FileState,
    pub attachments: Vec<Row>,
}

/// A step of the walk below a directory of records.
pub struct VisitModel {
    pub step: StepModel,
    pub file: FileModel,
    pub attachments: Seq<(Seq<char>, Seq<EntryModel>)>,
}

impl View for Visit {
    type V = VisitModel;

    open spec fn view(&self) -> VisitModel {
        VisitModel {
            step: self.step@,
            file: self.file@,
            attachments: attachments::row_models(self.attachments@),
        }
    }
}

/// The steps of a walk.
pub open spec fn visit_models(visits: Seq<Visit>) -> Seq<VisitModel> {
    visits.map_values(|visit: Visit| visit@)
}

/// A warning about a file that is not expected.
pub open spec fn unexpected(message: Seq<char>, path: Seq<char>) -> IssueModel {
    IssueModel::warning("unexpected_file"@, message).at_path(path)
}

fn unexpected_file(message: &str, path: &str) -> (r: ValidationIssue)
    ensures
        r@ == unexpected(message@, path@),
{
    ValidationIssue::warning("unexpected_file", message).at_path(path)
}

/// The path of the last of the first `n` records with the ID.
pub open spec fn last_with(seen: Seq<CandidateModel>, id: Seq<char>, n: int) -> Option<Seq<char>>
    decreases n,
{
    if n <= 0 {
        None
    } else if seen[n - 1].id == id {
        Some(seen[n - 1].path)
    } else {
        last_with(seen, id, n - 1)
    }
}

fn find_last_with(seen: &Vec<Candidate>, id: &str) -> (r: Option<String>)
    ensures
        text::opt(r) == last_with(store::candidate_models(seen@), id@, seen@.len() as int),
{
    let ghost models = store::candidate_models(seen@);
    let mut n: usize = seen.len();
    while n > 0
        invariant
            n <= seen@.len(),
            models == store::candidate_models(seen@),
            last_with(models, id@, seen@.len() as int) == last_with(models, id@, n as int),
        decreases n,
    {
        assert(models[n - 1] == seen@[n - 1]@);
        if text::same(seen[n - 1].id.as_str(), id) {
            return Some(seen[n - 1].path.clone());
        }
        n -= 1;
    }
    None
}

fn note(seen: &mut Vec<Candidate>, id: &str, path: &str)
    ensures
        store::candidate_models(final(seen)@) == store::candidate_models(old(seen)@).push(
            (CandidateModel { id: id@, path: path@ }),
        ),
{
    let ghost had = store::candidate_models(seen@);
    let candidate = Candidate { id: id.to_owned(), path: path.to_owned() };
    seen.push(candidate);
    assert(store::candidate_models(seen@) =~= had.push(candidate@));
}

/// What is known of the projects that have been seen: the issues, their slugs and paths, the
/// slugs that tasks may refer to, how many there are, and the directory that is passed over.
#[verifier::ext_equal]
pub struct ProjectScan {
    pub issues: Seq<IssueModel>,
    pub seen: Seq<CandidateModel>,
    pub known: Seq<Seq<char>>,
    pub count: int,
    pub skip: Option<usize>,
}

impl ProjectScan {
    /// Nothing has been seen.
    pub open spec fn start() -> ProjectScan {
        ProjectScan { issues: seq![], seen: seq![], known: seq![], count: 0, skip: None }
    }

    /// With one more issue, and nothing passed over.
    pub open spec fn with_issue(self, issue: IssueModel) -> ProjectScan {
        ProjectScan { issues: self.issues.push(issue), skip: None, ..self }
    }
}

/// The slug that the path of a project has, or the issue with it.
pub open spec fn slug_found(entry: WalkModel) -> Result<Seq<char>, IssueModel> {
    if !entry.utf8 {
        Err(
            IssueModel::error(
                "invalid_project_path"@,
                "Project filename must be valid UTF-8"@,
            ).at_path(entry.path),
        )
    } else if model::slug(store::stem(entry.path)) {
        Ok(store::stem(entry.path))
    } else {
        Err(as_issue(model::slug_error(store::stem(entry.path)), entry.path))
    }
}

/// The issue with the contents of a project, if any.
pub open spec fn project_file_issue(slug: Seq<char>, path: Seq<char>, file: FileModel) -> Option<
    IssueModel,
> {
    match file_bytes(file, path, frontmatter::MAX_RECORD_BYTES as u64) {
        Err(issue) => Some(issue),
        Ok(bytes) => match frontmatter::project_of_bytes(slug, path, bytes) {
            Err(e) => Some(as_issue(e, path)),
            Ok(_) => None,
        },
    }
}

/// The issue for a slug that comes again.
pub open spec fn slug_again(slug: Seq<char>, first: Seq<char>, path: Seq<char>) -> IssueModel {
    IssueModel::error(
        "duplicate_project_slug"@,
        "Project slug "@ + text::debug_text(slug) + " also appears at "@ + first,
    ).at_path(path).at_field("slug"@)
}

/// What is known after a project record.
pub open spec fn project_seen(scan: ProjectScan, entry: WalkModel, file: FileModel) -> ProjectScan {
    let nested = if entry.depth != 1 {
        seq![
            IssueModel::error(
                "nested_project"@,
                "Project records must be directly inside the projects directory"@,
            ).at_path(entry.path),
        ]
    } else {
        seq![]
    };
    match slug_found(entry) {
        Err(issue) => ProjectScan {
            issues: (scan.issues + nested).push(issue) + config::issue_if(
                project_file_issue(VALIDATION_PROJECT_SLUG@, entry.path, file),
            ),
            count: scan.count + 1,
            skip: None,
            ..scan
        },
        Ok(slug) => ProjectScan {
            issues: scan.issues + nested + (match last_with(
                scan.seen,
                slug,
                scan.seen.len() as int,
            ) {
                Some(first) => seq![slug_again(slug, first, entry.path)],
                None => seq![],
            }) + config::issue_if(project_file_issue(slug, entry.path, file)),
            seen: scan.seen.push(CandidateModel { id: slug, path: entry.path }),
            known: if entry.depth != 1 {
                scan.known
            } else {
                scan.known.push(slug)
            },
            count: scan.count + 1,
            skip: None,
        },
    }
}

/// What is known after a step of the walk through the projects in `directory`.
pub open spec fn project_step(
    scan: ProjectScan,
    visit: VisitModel,
    directory: Seq<char>,
) -> ProjectScan {
    if visit.step.passed(scan.skip) {
        scan
    } else {
        match visit.step {
            StepModel::Failed(reason, _) => scan.with_issue(
                IssueModel::error(
                    "project_scan_failed"@,
                    "Could not scan projects: "@ + reason,
                ).at_path(directory),
            ),
            StepModel::Met(entry) => if text::begins(markdown::last_name(entry.path), "."@) {
                ProjectScan {
                    skip: passing(entry),
                    ..scan.with_issue(
                        unexpected(
                            "Ignored hidden file or directory in projects directory"@,
                            entry.path,
                        ),
                    )
                }
            } else if entry.kind == WalkKind::Symlink {
                scan.with_issue(
                    IssueModel::error(
                        "record_symlink"@,
                        "Managed records must not be symlinks"@,
                    ).at_path(entry.path),
                )
            } else if entry.kind == WalkKind::Directory {
                scan.with_issue(
                    unexpected(
                        "Unexpected directory in the flat projects directory"@,
                        entry.path,
                    ),
                )
            } else if entry.kind != WalkKind::File {
                scan.with_issue(
                    unexpected("Unexpected non-file entry in projects directory"@, entry.path),
                )
            } else if !store::markdown_file(entry.path) {
                scan.with_issue(
                    unexpected(
                        "Unexpected non-Markdown file in projects directory"@,
                        entry.path,
                    ),
                )
            } else {
                project_seen(scan, entry, visit.file)
            },
        }
    }
}

/// What is known after the first `n` steps.
pub open spec fn project_steps(visits: Seq<VisitModel>, directory: Seq<char>, n: int) -> ProjectScan
    decreases n,
{
    if n <= 0 {
        ProjectScan::start()
    } else {
        project_step(project_steps(visits, directory, n - 1), visits[n - 1], directory)
    }
}

struct Projects {
    issues: Vec<ValidationIssue>,
    seen: Vec<Candidate>,
    known: Vec<String>,
    count: usize,
    skip: Option<usize>,
}

impl View for Projects {
    type V = ProjectScan;

    closed spec fn view(&self) -> ProjectScan {
        ProjectScan {
            issues: error::issue_models(self.issues@),
            seen: store::candidate_models(self.seen@),
            known: text::strings(self.known@),
            count: self.count as int,
            skip: self.skip,
        }
    }
}

fn find_slug(entry: &WalkEntry) -> (r: Result<String, ValidationIssue>)
    ensures
        (match r {
            Ok(slug) => Ok(slug@),
            Err(issue) => Err(issue@),
        }) == slug_found(entry@),
{
    if !entry.utf8 {
        return Err(
            ValidationIssue::error(
                "invalid_project_path",
                "Project filename must be valid UTF-8",
            ).at_path(entry.path.as_str()),
        );
    }
    let slug = store::stem_of(entry.path.as_str());
    match model::validate_project_slug(slug.as_str()) {
        Ok(_) => Ok(slug),
        Err(e) => Err(issue_from_error(&e, entry.path.as_str())),
    }
}

fn find_project_issue(slug: &str, path: &str, file: &FileState) -> (r: Option<ValidationIssue>)
    ensures
        opt_issue(r) == project_file_issue(slug@, path@, file@),
{
    match read_regular_file(file, path, frontmatter::MAX_RECORD_BYTES as u64) {
        Err(issue) => Some(issue),
        Ok(bytes) => match frontmatter::parse_project(slug, path, bytes.as_slice()) {
            Ok(_) => None,
            Err(e) => Some(issue_from_error(&e, path)),
        },
    }
}

impl Projects {
    fn add_record(&mut self, entry: &WalkEntry, file: &FileState)
        requires
            old(self).count < usize::MAX,
        ensures
            final(self)@ == project_seen(old(self)@, entry@, file@),
            final(self).count == old(self).count + 1,
    {
        let ghost had = self@;
        let path = entry.path.as_str();
        let nested = entry.depth != 1;
        self.count += 1;
        self.skip = None;
        if nested {
            add_if(
                &mut self.issues,
                Some(
                    ValidationIssue::error(
                        "nested_project",
                        "Project records must be directly inside the projects directory",
                    ).at_path(path),
                ),
            );
        } else {
            add_if(&mut self.issues, None);
        }
        match find_slug(entry) {
            Err(issue) => {
                error::add_issue(&mut self.issues, issue);
                let found = find_project_issue(VALIDATION_PROJECT_SLUG, path, file);
                add_if(&mut self.issues, found);
            },
            Ok(slug) => {
                let again = match find_last_with(&self.seen, slug.as_str()) {
                    Some(first) => Some(
                        ValidationIssue::error(
                            "duplicate_project_slug",
                            text::join4(
                                "Project slug ",
                                text::debug(slug.as_str()).as_str(),
                                " also appears at ",
                                first.as_str(),
                            ).as_str(),
                        ).at_path(path).at_field("slug"),
                    ),
                    None => None,
                };
                add_if(&mut self.issues, again);
                note(&mut self.seen, slug.as_str(), path);
                let found = find_project_issue(slug.as_str(), path, file);
                add_if(&mut self.issues, found);
                if !nested {
                    let ghost known = text::strings(self.known@);
                    self.known.push(slug);
                    assert(text::strings(self.known@) =~= known.push(slug@));
                }
            },
        }
        assert(self@ =~= project_seen(had, entry@, file@));
    }

    fn add_entry(&mut self, entry: &WalkEntry, file: &FileState, directory: &str)
        requires
            old(self).count < usize::MAX,
        ensures
            forall|visit: VisitModel| #[trigger]
                visit.step == StepModel::Met(entry@) && visit.file == file@
                    && !visit.step.passed(old(self)@.skip) ==> final(self)@ == project_step(
                    old(self)@,
                    visit,
                    directory@,
                ),
            final(self).count <= old(self).count + 1,
    {
        let path = entry.path.as_str();
        if store::is_hidden_name(markdown::last_name_of(path).as_str()) {
            error::add_issue(
                &mut self.issues,
                unexpected_file("Ignored hidden file or directory in projects directory", path),
            );
            self.skip = pass(entry);
            return;
        }
        if entry.kind == WalkKind::File && store::is_markdown_file(path) {
            self.add_record(entry, file);
            return;
        }
        self.skip = None;
        let issue = match entry.kind {
            WalkKind::Symlink => ValidationIssue::error(
                "record_symlink",
                "Managed records must not be symlinks",
            ).at_path(path),
            WalkKind::Directory => unexpected_file(
                "Unexpected directory in the flat projects directory",
                path,
            ),
            WalkKind::Other => unexpected_file(
                "Unexpected non-file entry in projects directory",
                path,
            ),
            WalkKind::File => unexpected_file(
                "Unexpected non-Markdown file in projects directory",
                path,
            ),
        };
        error::add_issue(&mut self.issues, issue);
    }

    fn add_visit(&mut self, visit: &Visit, directory: &str)
        requires
            old(self).count < usize::MAX,
        ensures
            final(self)@ == project_step(old(self)@, visit@, directory@),
            final(self).count <= old(self).count + 1,
    {
        if visit.step.is_passed(self.skip) {
            return;
        }
        match &visit.step {
            Step::Failed { reason, .. } => {
                self.skip = None;
                error::add_issue(
                    &mut self.issues,
                    ValidationIssue::error(
                        "project_scan_failed",
                        text::join2("Could not scan projects: ", reason.as_str()).as_str(),
                    ).at_path(directory),
                );
            },
            Step::Met(entry) => {
                assert(visit@.step == StepModel::Met(entry@));
                self.add_entry(entry, &visit.file, directory);
            },
        }
    }
}

/// What a walk through the projects found: the issues, the slugs that tasks may refer to, and
/// how many projects there are.
#[derive(Debug)]
pub struct ProjectFindings {
    pub issues: Vec<ValidationIssue>,
    pub known: Vec<String>,
    pub count: usize,
}

/// What a walk through the projects in `directory` found. See [`project_steps`].
pub fn validate_projects(visits: &Vec<Visit>, directory: &str) -> (r: ProjectFindings)
    ensures
        ({
            let scan = project_steps(visit_models(visits@), directory@, visits@.len() as int);
            &&& error::issue_models(r.issues@) == scan.issues
            &&& text::strings(r.known@) == scan.known
            &&& r.count == scan.count
            &&& r.count <= visits@.len()
        }),
{
    let ghost models = visit_models(visits@);
    let mut projects = Projects {
        issues: Vec::new(),
        seen: Vec::new(),
        known: Vec::new(),
        count: 0,
        skip: None,
    };
    assert(projects@ =~= ProjectScan::start());
    let mut i: usize = 0;
    while i < visits.len()
        invariant
            i <= visits@.len(),
            models == visit_models(visits@),
            projects@ == project_steps(models, directory@, i as int),
            projects.count <= i,
        decreases visits.len() - i,
    {
        assert(models[i as int] == visits@[i as int]@);
        projects.add_visit(&visits[i], directory);
        i += 1;
    }
    ProjectFindings { issues: projects.issues, known: projects.known, count: projects.count }
}

/// What is known of the tasks that have been seen: the issues, how they relate, their IDs and
/// paths, how many there are, and the directory that is passed over.
#[verifier::ext_equal]
pub struct TaskScan {
    pub issues: Seq<IssueModel>,
    pub records: Seq<RecordModel>,
    pub seen: Seq<CandidateModel>,
    pub count: int,
    pub skip: Option<usize>,
}

impl TaskScan {
    /// Nothing has been seen.
    pub open spec fn start() -> TaskScan {
        TaskScan { issues: seq![], records: seq![], seen: seq![], count: 0, skip: None }
    }

    /// With one more issue, and nothing passed over.
    pub open spec fn with_issue(self, issue: IssueModel) -> TaskScan {
        TaskScan { issues: self.issues.push(issue), skip: None, ..self }
    }
}

/// The ID that the path of a task has, or the issue with it.
pub open spec fn id_found(entry: WalkModel) -> Result<Seq<char>, IssueModel> {
    if !entry.utf8 {
        Err(
            IssueModel::error(
                "invalid_task_path"@,
                "Task filename must be valid UTF-8"@,
            ).at_path(entry.path),
        )
    } else if model::task_id(store::stem(entry.path)) {
        Ok(text::upper(store::stem(entry.path)))
    } else {
        Err(as_issue(model::task_id_error(store::stem(entry.path)), entry.path))
    }
}

/// The issue for a project that a task refers to and that is not there.
pub open spec fn reference_issue(project: Seq<char>, path: Seq<char>) -> IssueModel {
    IssueModel::error(
        "missing_project_reference"@,
        "Referenced project "@ + text::debug_text(project) + " does not exist"@,
    ).at_path(path).at_field("projects"@).with_suggestion(
        "Create project "@ + text::debug_text(project) + " or remove this reference"@,
    )
}

/// The issues for the first `n` projects that a task refers to.
pub open spec fn reference_issues(
    projects: Seq<Seq<char>>,
    known: Seq<Seq<char>>,
    path: Seq<char>,
    n: int,
) -> Seq<IssueModel>
    decreases n,
{
    if n <= 0 {
        seq![]
    } else if known.contains(projects[n - 1]) {
        reference_issues(projects, known, path, n - 1)
    } else {
        reference_issues(projects, known, path, n - 1).push(reference_issue(projects[n - 1], path))
    }
}

/// What the contents of a task say: the issues with them, and the parent, as far as it can be
/// told. Where the task cannot be read, its parent may still be.
pub open spec fn task_contents(
    id: Seq<char>,
    path: Seq<char>,
    visit: VisitModel,
    config: ConfigModel,
    known: Seq<Seq<char>>,
) -> (Seq<IssueModel>, Option<Seq<char>>) {
    match file_bytes(visit.file, path, frontmatter::MAX_RECORD_BYTES as u64) {
        Err(issue) => (seq![issue], None),
        Ok(bytes) => match frontmatter::task_of(id, path, bytes, config) {
            Ok(task) => (
                (if attachments::enabled(config) {
                    attachments::body_issues(
                        path,
                        task.body,
                        config.obsidian_link_prefix,
                        visit.attachments,
                    )
                } else {
                    seq![]
                }) + reference_issues(task.projects, known, path, task.projects.len() as int),
                task.parent,
            ),
            Err(e) => if config.schema_version == 2 {
                match frontmatter::document_of(bytes) {
                    Err(_) => (seq![as_issue(e, path)], None),
                    Ok(document) => match frontmatter::parent_property(document.properties) {
                        Ok(parent) => (seq![as_issue(e, path)], parent),
                        Err(other) => if e.field == Some("parent"@) {
                            (seq![as_issue(e, path)], None)
                        } else {
                            (seq![as_issue(e, path), as_issue(other, path)], None)
                        },
                    },
                }
            } else {
                (seq![as_issue(e, path)], None)
            },
        },
    }
}

/// The issue for an ID that comes again.
pub open spec fn id_again(id: Seq<char>, first: Seq<char>, path: Seq<char>) -> IssueModel {
    IssueModel::error(
        "duplicate_task_id"@,
        "Task ID "@ + id + " also appears at "@ + first,
    ).at_path(path)
}

/// What is known after a task record. With the first schema version IDs that come again are
/// told here, with the second where the tasks' relations are.
pub open spec fn task_seen(
    scan: TaskScan,
    entry: WalkModel,
    visit: VisitModel,
    config: ConfigModel,
    known: Seq<Seq<char>>,
) -> TaskScan {
    let path = entry.path;
    match id_found(entry) {
        Err(issue) => TaskScan {
            issues: scan.issues.push(issue) + task_contents(
                VALIDATION_TASK_ID@,
                path,
                visit,
                config,
                known,
            ).0,
            count: scan.count + 1,
            skip: None,
            ..scan
        },
        Ok(id) => TaskScan {
            issues: scan.issues + (match last_with(scan.seen, id, scan.seen.len() as int) {
                Some(first) if config.schema_version == 1 => seq![id_again(id, first, path)],
                _ => seq![],
            }) + task_contents(id, path, visit, config, known).0,
            records: scan.records.push(
                RecordModel {
                    id,
                    path,
                    parent: task_contents(id, path, visit, config, known).1,
                },
            ),
            seen: if config.schema_version == 1 {
                scan.seen.push(CandidateModel { id, path })
            } else {
                scan.seen
            },
            count: scan.count + 1,
            skip: None,
        },
    }
}

/// Whether a symlink stands in the place of a task.
pub open spec fn stands_for_task(entry: WalkModel, config: ConfigModel) -> bool {
    config.schema_version == 2 && store::markdown_file(entry.path) && entry.utf8 && model::task_id(
        store::stem(entry.path),
    )
}

/// What is known after a step of the walk through the tasks in `directory`.
pub open spec fn task_step(
    scan: TaskScan,
    visit: VisitModel,
    directory: Seq<char>,
    config: ConfigModel,
    known: Seq<Seq<char>>,
) -> TaskScan {
    if visit.step.passed(scan.skip) {
        scan
    } else {
        match visit.step {
            StepModel::Failed(reason, _) => scan.with_issue(
                IssueModel::error("task_scan_failed"@, "Could not scan tasks: "@ + reason).at_path(
                    directory,
                ),
            ),
            StepModel::Met(entry) => if text::begins(markdown::last_name(entry.path), "."@) {
                TaskScan {
                    skip: passing(entry),
                    ..scan.with_issue(
                        unexpected(
                            "Ignored hidden file or directory in tasks directory"@,
                            entry.path,
                        ),
                    )
                }
            } else if entry.kind == WalkKind::Symlink {
                TaskScan {
                    records: if stands_for_task(entry, config) {
                        scan.records.push(
                            RecordModel {
                                id: text::upper(store::stem(entry.path)),
                                path: entry.path,
                                parent: None,
                            },
                        )
                    } else {
                        scan.records
                    },
                    ..scan.with_issue(
                        IssueModel::error(
                            "record_symlink"@,
                            "Managed records must not be symlinks"@,
                        ).at_path(entry.path),
                    )
                }
            } else if entry.kind == WalkKind::Directory {
                TaskScan { skip: None, ..scan }
            } else if entry.kind != WalkKind::File {
                scan.with_issue(
                    unexpected("Unexpected non-file entry in tasks directory"@, entry.path),
                )
            } else if !store::markdown_file(entry.path) {
                scan.with_issue(
                    unexpected("Unexpected non-Markdown file in tasks directory"@, entry.path),
                )
            } else {
                task_seen(scan, entry, visit, config, known)
            },
        }
    }
}

/// What is known after the first `n` steps.
pub open spec fn task_steps(
    visits: Seq<VisitModel>,
    directory: Seq<char>,
    config: ConfigModel,
    known: Seq<Seq<char>>,
    n: int,
) -> TaskScan
    decreases n,
{
    if n <= 0 {
        TaskScan::start()
    } else {
        task_step(
            task_steps(visits, directory, config, known, n - 1),
            visits[n - 1],
            directory,
            config,
            known,
        )
    }
}

struct Tasks {
    issues: Vec<ValidationIssue>,
    records: Vec<ParentRecord>,
    seen: Vec<Candidate>,
    count: usize,
    skip: Option<usize>,
}

impl View for Tasks {
    type V = TaskScan;

    closed spec fn view(&self) -> TaskScan {
        TaskScan {
            issues: error::issue_models(self.issues@),
            records: parents::record_models(self.records@),
            seen: store::candidate_models(self.seen@),
            count: self.count as int,
            skip: self.skip,
        }
    }
}

fn find_id(entry: &WalkEntry) -> (r: Result<String, ValidationIssue>)
    ensures
        (match r {
            Ok(id) => Ok(id@),
            Err(issue) => Err(issue@),
        }) == id_found(entry@),
{
    if !entry.utf8 {
        return Err(
            ValidationIssue::error(
                "invalid_task_path",
                "Task filename must be valid UTF-8",
            ).at_path(entry.path.as_str()),
        );
    }
    let id = store::stem_of(entry.path.as_str());
    match model::validate_task_id(id.as_str()) {
        Ok(_) => Ok(text::upper_string(id.as_str())),
        Err(e) => Err(issue_from_error(&e, entry.path.as_str())),
    }
}

fn find_reference_issues(projects: &Vec<String>, known: &Vec<String>, path: &str) -> (r: Vec<
    ValidationIssue,
>)
    ensures
        error::issue_models(r@) == reference_issues(
            text::strings(projects@),
            text::strings(known@),
            path@,
            projects@.len() as int,
        ),
{
    let ghost all = text::strings(projects@);
    let mut issues: Vec<ValidationIssue> = Vec::new();
    assert(error::issue_models(issues@) =~= Seq::<IssueModel>::empty());
    let mut i: usize = 0;
    while i < projects.len()
        invariant
            i <= projects@.len(),
            all == text::strings(projects@),
            error::issue_models(issues@) == reference_issues(
                all,
                text::strings(known@),
                path@,
                i as int,
            ),
        decreases projects.len() - i,
    {
        let project = projects[i].as_str();
        assert(all[i as int] == project@);
        if !text::is_listed(known.as_slice(), project) {
            let name = text::debug(project);
            error::add_issue(
                &mut issues,
                ValidationIssue::error(
                    "missing_project_reference",
                    text::join3("Referenced project ", name.as_str(), " does not exist").as_str(),
                ).at_path(path).at_field("projects").with_suggestion(
                    text::join3(
                        "Create project ",
                        name.as_str(),
                        " or remove this reference",
                    ).as_str(),
                ),
            );
        }
        i += 1;
    }
    issues
}

fn read_contents(id: &str, path: &str, visit: &Visit, config: &Config, known: &Vec<String>) -> (r: (
    Vec<ValidationIssue>,
    Option<String>,
))
    ensures
        (error::issue_models(r.0@), text::opt(r.1)) == task_contents(
            id@,
            path@,
            visit@,
            config@,
            text::strings(known@),
        ),
{
    let mut issues: Vec<ValidationIssue> = Vec::new();
    assert(error::issue_models(issues@) =~= Seq::<IssueModel>::empty());
    let bytes = match read_regular_file(
        &visit.file,
        path,
        frontmatter::MAX_RECORD_BYTES as u64,
    ) {
        Ok(bytes) => bytes,
        Err(issue) => {
            error::add_issue(&mut issues, issue);
            return (issues, None);
        },
    };
    match frontmatter::parse_task(id, path, bytes.as_slice(), config) {
        Ok(task) => {
            if attachments::ensure_enabled(config).is_ok() {
                issues = attachments::diagnostics(
                    path,
                    task.body.as_str(),
                    config.obsidian_link_prefix.as_str(),
                    &visit.attachments,
                );
            }
            error::add_issues(&mut issues, find_reference_issues(&task.projects, known, path));
            (issues, task.parent)
        },
        Err(e) => {
            let parent_error = match e.field() {
                Some(field) => text::same(field, "parent"),
                None => false,
            };
            error::add_issue(&mut issues, issue_from_error(&e, path));
            let mut parent: Option<String> = None;
            if config.schema_version == 2 {
                if let Ok(document) = frontmatter::parse_document(bytes.as_slice()) {
                    match frontmatter::parent_from_properties(&document.properties) {
                        Ok(found) => {
                            parent = found;
                        },
                        Err(other) => {
                            if !parent_error {
                                error::add_issue(&mut issues, issue_from_error(&other, path));
                            }
                        },
                    }
                }
            }
            (issues, parent)
        },
    }
}

fn relate(records: &mut Vec<ParentRecord>, id: String, path: &str, parent: Option<String>)
    ensures
        parents::record_models(final(records)@) == parents::record_models(old(records)@).push(
            (RecordModel { id: id@, path: path@, parent: text::opt(parent) }),
        ),
{
    let ghost had = parents::record_models(records@);
    let record = ParentRecord { id, path: path.to_owned(), parent };
    records.push(record);
    assert(parents::record_models(records@) =~= had.push(record@));
}

impl Tasks {
    fn add_record(
        &mut self,
        entry: &WalkEntry,
        visit: &Visit,
        config: &Config,
        known: &Vec<String>,
    )
        requires
            old(self).count < usize::MAX,
        ensures
            final(self)@ == task_seen(
                old(self)@,
                entry@,
                visit@,
                config@,
                text::strings(known@),
            ),
            final(self).count == old(self).count + 1,
    {
        let ghost had = self@;
        let path = entry.path.as_str();
        self.count += 1;
        self.skip = None;
        match find_id(entry) {
            Err(issue) => {
                error::add_issue(&mut self.issues, issue);
                let (found, _) = read_contents(VALIDATION_TASK_ID, path, visit, config, known);
                error::add_issues(&mut self.issues, found);
            },
            Ok(id) => {
                let mut again: Option<ValidationIssue> = None;
                if config.schema_version == 1 {
                    if let Some(first) = find_last_with(&self.seen, id.as_str()) {
                        again = Some(
                            ValidationIssue::error(
                                "duplicate_task_id",
                                text::join4(
                                    "Task ID ",
                                    id.as_str(),
                                    " also appears at ",
                                    first.as_str(),
                                ).as_str(),
                            ).at_path(path),
                        );
                    }
                    note(&mut self.seen, id.as_str(), path);
                }
                add_if(&mut self.issues, again);
                let (found, parent) = read_contents(id.as_str(), path, visit, config, known);
                error::add_issues(&mut self.issues, found);
                relate(&mut self.records, id, path, parent);
            },
        }
        assert(self@ =~= task_seen(had, entry@, visit@, config@, text::strings(known@)));
    }

    fn add_visit(&mut self, visit: &Visit, directory: &str, config: &Config, known: &Vec<String>)
        requires
            old(self).count < usize::MAX,
        ensures
            final(self)@ == task_step(
                old(self)@,
                visit@,
                directory@,
                config@,
                text::strings(known@),
            ),
            final(self).count <= old(self).count + 1,
    {
        if visit.step.is_passed(self.skip) {
            return;
        }
        let entry = match &visit.step {
            Step::Failed { reason, .. } => {
                self.skip = None;
                error::add_issue(
                    &mut self.issues,
                    ValidationIssue::error(
                        "task_scan_failed",
                        text::join2("Could not scan tasks: ", reason.as_str()).as_str(),
                    ).at_path(directory),
                );
                return;
            },
            Step::Met(entry) => entry,
        };
        let path = entry.path.as_str();
        if store::is_hidden_name(markdown::last_name_of(path).as_str()) {
            error::add_issue(
                &mut self.issues,
                unexpected_file("Ignored hidden file or directory in tasks directory", path),
            );
            self.skip = pass(entry);
            return;
        }
        match entry.kind {
            WalkKind::Symlink => {
                self.skip = None;
                if config.schema_version == 2 && store::is_markdown_file(path) && entry.utf8 {
                    let id = store::stem_of(path);
                    if model::validate_task_id(id.as_str()).is_ok() {
                        relate(
                            &mut self.records,
                            text::upper_string(id.as_str()),
                            path,
                            None,
                        );
                    }
                }
                error::add_issue(
                    &mut self.issues,
                    ValidationIssue::error(
                        "record_symlink",
                        "Managed records must not be symlinks",
                    ).at_path(path),
                );
            },
            WalkKind::Directory => {
                self.skip = None;
            },
            WalkKind::Other => {
                self.skip = None;
                error::add_issue(
                    &mut self.issues,
                    unexpected_file("Unexpected non-file entry in tasks directory", path),
                );
            },
            WalkKind::File => {
                if store::is_markdown_file(path) {
                    self.add_record(entry, visit, config, known);
                } else {
                    self.skip = None;
                    error::add_issue(
                        &mut self.issues,
                        unexpected_file("Unexpected non-Markdown file in tasks directory", path),
                    );
                }
            },
        }
    }
}

/// Whether the issues are those of a walk through the tasks: those of its steps, and with the
/// second schema version those of how the tasks relate.
pub open spec fn task_issues(scan: TaskScan, config: ConfigModel, issues: Seq<IssueModel>) -> bool {
    if config.schema_version == 2 {
        issues.len() >= scan.issues.len() && issues.take(scan.issues.len() as int) == scan.issues
            && parents::reports(scan.records, issues.skip(scan.issues.len() as int))
    } else {
        issues == scan.issues
    }
}

/// What a walk through the tasks in `directory` found: the issues, and how many tasks there are.
/// See [`task_steps`].
pub fn validate_tasks(visits: &Vec<Visit>, directory: &str, config: &Config, known: &Vec<String>)
    -> (r: (Vec<ValidationIssue>, usize))
    ensures
        ({
            let scan = task_steps(
                visit_models(visits@),
                directory@,
                config@,
                text::strings(known@),
                visits@.len() as int,
            );
            &&& task_issues(scan, config@, error::issue_models(r.0@))
            &&& r.1 == scan.count
        }),
{
    let ghost models = visit_models(visits@);
    let ghost names = text::strings(known@);
    let mut tasks = Tasks {
        issues: Vec::new(),
        records: Vec::new(),
        seen: Vec::new(),
        count: 0,
        skip: None,
    };
    assert(tasks@ =~= TaskScan::start());
    let mut i: usize = 0;
    while i < visits.len()
        invariant
            i <= visits@.len(),
            models == visit_models(visits@),
            names == text::strings(known@),
            tasks@ == task_steps(models, directory@, config@, names, i as int),
            tasks.count <= i,
        decreases visits.len() - i,
    {
        assert(models[i as int] == visits@[i as int]@);
        tasks.add_visit(&visits[i], directory, config, known);
        i += 1;
    }
    let ghost scan = tasks@;
    let mut issues = tasks.issues;
    if config.schema_version == 2 {
        let more = parents::analyze_parents(tasks.records.as_slice());
        let ghost last = error::issue_models(more@);
        error::add_issues(&mut issues, more);
        proof {
            let all = error::issue_models(issues@);
            assert(all.take(scan.issues.len() as int) =~= scan.issues);
            assert(all.skip(scan.issues.len() as int) =~= last);
        }
    }
    (issues, tasks.count)
}

/// What was found of a store on disk. What a part says of a place that an earlier part rules out
/// is not looked at.
#[derive(Debug)]
pub struct StoreFacts {
    pub root: RootState,
    pub metadata: Place,
    pub lock: LockState,
    pub metadata_entries: MetadataEntries,
    pub config: FileState,
    pub schema: FileState,
    pub entries: Vec<Step>,
    pub tasks_place: ManagedPlace,
    pub projects_place: ManagedPlace,
    pub metadata_path: Resolved,
    pub projects: Vec<Visit>,
    pub tasks: Vec<Visit>,
}

/// What is walked through after the directories have been looked at: the tasks, the projects,
/// and by which configuration.
pub struct Opened {
    pub config: ConfigModel,
    pub tasks: bool,
    pub projects: bool,
}

/// The warning that attachments are off, where they are.
pub open spec fn attachments_issue(config: ConfigModel) -> Option<IssueModel> {
    if attachments::enabled(config) {
        None
    } else {
        let e = attachments::disabled_error();
        Some(IssueModel::warning(e.code, e.message).at_path("Attachments"@))
    }
}

/// The issue for a configured directory that leads into the metadata directory, where it does.
pub open spec fn inside_issue(
    place: Option<Seq<char>>,
    metadata: Seq<char>,
    message: Seq<char>,
    field: Seq<char>,
) -> Option<IssueModel> {
    match place {
        Some(path) if config::overlap(path, metadata) => Some(
            IssueModel::error("managed_paths_not_distinct"@, message).at_path(
                ".todo/config.toml"@,
            ).at_field(field),
        ),
        _ => None,
    }
}

/// The issues with the directories of a store, and whether its tasks and its projects are
/// walked through.
pub open spec fn directories_found(facts: StoreFacts, root: Seq<char>, config: ConfigModel) -> (
    Seq<IssueModel>,
    bool,
    bool,
) {
    let (tasks, tasks_issue) = managed_found(
        root,
        config.tasks_directory,
        "tasks_directory"@,
        facts.tasks_place@,
    );
    let (projects, projects_issue) = managed_found(
        root,
        config.projects_directory,
        "projects_directory"@,
        facts.projects_place@,
    );
    let (metadata_issues, tasks, projects) = match facts.metadata_path {
        Err(reason) => (
            seq![
                IssueModel::error(
                    "metadata_scan_failed"@,
                    "Could not resolve the metadata directory: "@ + reason@,
                ).at_path(".todo"@),
            ],
            tasks,
            projects,
        ),
        Ok(metadata) => {
            let inside_tasks = inside_issue(
                tasks,
                metadata@,
                "Tasks directory resolves into the metadata directory"@,
                "tasks_directory"@,
            );
            let inside_projects = inside_issue(
                projects,
                metadata@,
                "Projects directory resolves into the metadata directory"@,
                "projects_directory"@,
            );
            (
                config::issue_if(inside_tasks) + config::issue_if(inside_projects),
                if inside_tasks is Some {
                    None
                } else {
                    tasks
                },
                if inside_projects is Some {
                    None
                } else {
                    projects
                },
            )
        },
    };
    let overlap = tasks is Some && projects is Some && config::overlap(tasks->0, projects->0);
    let overlap_issue = if overlap && !config::overlap(
        config.tasks_directory,
        config.projects_directory,
    ) {
        Some(
            IssueModel::error(
                "managed_paths_not_distinct"@,
                "Tasks and projects directories resolve to overlapping paths"@,
            ).at_path(".todo/config.toml"@),
        )
    } else {
        None
    };
    (
        config::issue_if(tasks_issue) + config::issue_if(projects_issue) + metadata_issues
            + config::issue_if(overlap_issue),
        tasks is Some && !overlap,
        projects is Some && !overlap,
    )
}

/// The issues with a store up to its records, and what is walked through after that.
pub open spec fn opened(facts: StoreFacts, schemas: schema::SchemasModel) -> (
    Seq<IssueModel>,
    Option<Opened>,
) {
    match root_found(facts.root) {
        Err(issue) => (seq![issue], None),
        Ok(root) => match metadata_issue(facts.metadata@) {
            Some(issue) => (seq![issue], None),
            None => {
                let (config, config_issues) = config_found(facts.config@);
                let version = match config {
                    Some(config) => Some(config.schema_version),
                    None => None,
                };
                let first = config::issue_if(lock_issue(facts.lock)) + metadata_issues(
                    facts.metadata_entries,
                ) + config_issues + schema_file_issues(facts.schema@, version, schemas);
                match config {
                    None => (first, None),
                    Some(config) => {
                        let (issues, tasks, projects) = directories_found(facts, root, config);
                        (
                            first + root_issues(
                                step_models(facts.entries@),
                                config,
                                0,
                                None,
                                seq![],
                            ) + config::issue_if(attachments_issue(config)) + issues,
                            Some(Opened { config, tasks, projects }),
                        )
                    },
                }
            },
        },
    }
}

/// What a walk through the projects found, where they are walked through.
pub open spec fn projects_found(facts: StoreFacts, open: Opened) -> ProjectScan {
    if open.projects {
        project_steps(
            visit_models(facts.projects@),
            open.config.projects_directory,
            facts.projects@.len() as int,
        )
    } else {
        ProjectScan::start()
    }
}

/// What a walk through the tasks found, where they are walked through.
pub open spec fn tasks_found(facts: StoreFacts, open: Opened) -> TaskScan {
    task_steps(
        visit_models(facts.tasks@),
        open.config.tasks_directory,
        open.config,
        projects_found(facts, open).known,
        facts.tasks@.len() as int,
    )
}

/// Whether the issues are all those of a store, which has so many tasks and projects.
pub open spec fn is_everything(
    facts: StoreFacts,
    schemas: schema::SchemasModel,
    issues: Seq<IssueModel>,
    tasks: usize,
    projects: usize,
) -> bool {
    match opened(facts, schemas) {
        (first, None) => issues == first && tasks == 0 && projects == 0,
        (first, Some(open)) => {
            let head = first + projects_found(facts, open).issues;
            &&& projects == projects_found(facts, open).count
            &&& if open.tasks {
                &&& tasks == tasks_found(facts, open).count
                &&& issues.len() >= head.len()
                &&& issues.take(head.len() as int) == head
                &&& task_issues(
                    tasks_found(facts, open),
                    open.config,
                    issues.skip(head.len() as int),
                )
            } else {
                tasks == 0 && issues == head
            }
        },
    }
}

fn find_inside(
    place: Option<String>,
    metadata: &str,
    message: &str,
    field: &str,
) -> (r: (Option<String>, Option<ValidationIssue>))
    ensures
        opt_issue(r.1) == inside_issue(text::opt(place), metadata@, message@, field@),
        r.0 == (if r.1 is Some {
            None
        } else {
            place
        }),
{
    match place {
        Some(path) => if config::managed_paths_overlap(path.as_str(), metadata) {
            (
                None,
                Some(
                    ValidationIssue::error("managed_paths_not_distinct", message).at_path(
                        config::CONFIG_PATH,
                    ).at_field(field),
                ),
            )
        } else {
            (Some(path), None)
        },
        None => (None, None),
    }
}

/// The issues with the directories of a store, and whether its tasks and its projects are
/// walked through. See [`directories_found`].
pub fn validate_directories(facts: &StoreFacts, root: &str, config: &Config) -> (r: (
    Vec<ValidationIssue>,
    bool,
    bool,
))
    ensures
        (error::issue_models(r.0@), r.1, r.2) == directories_found(*facts, root@, config@),
{
    let mut issues: Vec<ValidationIssue> = Vec::new();
    assert(error::issue_models(issues@) =~= Seq::<IssueModel>::empty());
    let (tasks, tasks_issue) = validate_managed_path_on_disk(
        root,
        config.tasks_directory.as_str(),
        "tasks_directory",
        &facts.tasks_place,
    );
    let (projects, projects_issue) = validate_managed_path_on_disk(
        root,
        config.projects_directory.as_str(),
        "projects_directory",
        &facts.projects_place,
    );
    let ghost issue1 = config::issue_if(opt_issue(tasks_issue));
    let ghost issue2 = config::issue_if(opt_issue(projects_issue));
    add_if(&mut issues, tasks_issue);
    add_if(&mut issues, projects_issue);
    assert(error::issue_models(issues@) =~= issue1 + issue2);
    let (tasks, projects) = match &facts.metadata_path {
        Err(reason) => {
            add_if(
                &mut issues,
                Some(
                    ValidationIssue::error(
                        "metadata_scan_failed",
                        text::join2(
                            "Could not resolve the metadata directory: ",
                            reason.as_str(),
                        ).as_str(),
                    ).at_path(".todo"),
                ),
            );
            (tasks, projects)
        },
        Ok(metadata) => {
            let (tasks, inside_tasks) = find_inside(
                tasks,
                metadata.as_str(),
                "Tasks directory resolves into the metadata directory",
                "tasks_directory",
            );
            let (projects, inside_projects) = find_inside(
                projects,
                metadata.as_str(),
                "Projects directory resolves into the metadata directory",
                "projects_directory",
            );
            let ghost issue3 = config::issue_if(opt_issue(inside_tasks));
            let ghost issue4 = config::issue_if(opt_issue(inside_projects));
            add_if(&mut issues, inside_tasks);
            add_if(&mut issues, inside_projects);
            assert(error::issue_models(issues@) =~= issue1 + issue2 + (issue3 + issue4));
            (tasks, projects)
        },
    };
    let overlap = match (&tasks, &projects) {
        (Some(tasks), Some(projects)) => config::managed_paths_overlap(
            tasks.as_str(),
            projects.as_str(),
        ),
        _ => false,
    };
    let issue = if overlap && !config::managed_paths_overlap(
        config.tasks_directory.as_str(),
        config.projects_directory.as_str(),
    ) {
        Some(
            ValidationIssue::error(
                "managed_paths_not_distinct",
                "Tasks and projects directories resolve to overlapping paths",
            ).at_path(config::CONFIG_PATH),
        )
    } else {
        None
    };
    add_if(&mut issues, issue);
    (issues, tasks.is_some() && !overlap, projects.is_some() && !overlap)
}

/// What a store is opened with for validation.
struct Opening {
    issues: Vec<ValidationIssue>,
    rest: Option<(Config, bool, bool)>,
}

impl Opening {
    spec fn found(self) -> (Seq<IssueModel>, Option<Opened>) {
        (
            error::issue_models(self.issues@),
            match self.rest {
                Some((config, tasks, projects)) => Some(
                    Opened { config: config@, tasks, projects },
                ),
                None => None,
            },
        )
    }
}

fn open_store(facts: &StoreFacts, schemas: &schema::Schemas) -> (r: Opening)
    ensures
        r.found() == opened(*facts, schemas@),
{
    let mut issues: Vec<ValidationIssue> = Vec::new();
    assert(error::issue_models(issues@) =~= Seq::<IssueModel>::empty());
    let root = match validate_root(&facts.root) {
        Ok(root) => root,
        Err(issue) => {
            error::add_issue(&mut issues, issue);
            return Opening { issues, rest: None };
        },
    };
    if let Some(issue) = validate_metadata_directory(&facts.metadata) {
        error::add_issue(&mut issues, issue);
        return Opening { issues, rest: None };
    }
    add_if(&mut issues, validate_lock(&facts.lock));
    assert(error::issue_models(issues@) =~= config::issue_if(lock_issue(facts.lock)));
    error::add_issues(&mut issues, validate_metadata_entries(&facts.metadata_entries));
    let (config, config_issues) = load_config_for_validation(&facts.config);
    error::add_issues(&mut issues, config_issues);
    let version: Option<u32> = match &config {
        Some(config) => Some(config.schema_version),
        None => None,
    };
    error::add_issues(&mut issues, validate_schema(&facts.schema, version, schemas));
    let config = match config {
        Some(config) => config,
        None => {
            return Opening { issues, rest: None };
        },
    };
    error::add_issues(&mut issues, validate_store_root_entries(&facts.entries, &config));
    let disabled = match attachments::ensure_enabled(&config) {
        Ok(_) => None,
        Err(e) => Some(ValidationIssue::warning(e.code(), e.message()).at_path("Attachments")),
    };
    add_if(&mut issues, disabled);
    let (found, tasks, projects) = validate_directories(facts, root.as_str(), &config);
    error::add_issues(&mut issues, found);
    Opening { issues, rest: Some((config, tasks, projects)) }
}

/// Everything that is wrong with a store, by what was found of it on disk. See
/// [`is_everything`].
pub fn validate_store(facts: &StoreFacts, schemas: &schema::Schemas) -> (r: ValidationReport)
    ensures
        exists|issues: Seq<ValidationIssue>, tasks: usize, projects: usize| #[trigger]
            r.about(issues, tasks, projects) && is_everything(
                *facts,
                schemas@,
                error::issue_models(issues),
                tasks,
                projects,
            ),
{
    let opening = open_store(facts, schemas);
    let mut issues = opening.issues;
    let ghost first = error::issue_models(issues@);
    let (config, walk_tasks, walk_projects) = match opening.rest {
        Some(rest) => rest,
        None => {
            return ValidationReport::from_issues(issues, 0, 0);
        },
    };
    let ghost open = Opened { config: config@, tasks: walk_tasks, projects: walk_projects };
    let mut known: Vec<String> = Vec::new();
    let mut project_count: usize = 0;
    assert(text::strings(known@) =~= Seq::<Seq<char>>::empty());
    if walk_projects {
        let found = validate_projects(&facts.projects, config.projects_directory.as_str());
        error::add_issues(&mut issues, found.issues);
        known = found.known;
        project_count = found.count;
    }
    let ghost head = first + projects_found(*facts, open).issues;
    assert(error::issue_models(issues@) =~= head);
    let mut task_count: usize = 0;
    if walk_tasks {
        let (found, count) = validate_tasks(
            &facts.tasks,
            config.tasks_directory.as_str(),
            &config,
            &known,
        );
        let ghost last = error::issue_models(found@);
        error::add_issues(&mut issues, found);
        task_count = count;
        proof {
            let all = error::issue_models(issues@);
            assert(all.take(head.len() as int) =~= head);
            assert(all.skip(head.len() as int) =~= last);
        }
    }
    assert(is_everything(
        *facts,
        schemas@,
        error::issue_models(issues@),
        task_count,
        project_count,
    ));
    ValidationReport::from_issues(issues, task_count, project_count)
}

/// The paths of the attachments of a task, by its path and bytes, which have to be looked at to
/// validate it.
pub open spec fn selectors_in(path: Seq<char>, bytes: Seq<u8>, config: ConfigModel) -> Seq<
    MarkModel,
> {
    match frontmatter::task_of(VALIDATION_TASK_ID@, path, bytes, config) {
        Ok(task) => attachments::distinct_in(task.body, path, config.obsidian_link_prefix),
        Err(_) => seq![],
    }
}

/// The attachments of a task, by its path and bytes. See [`selectors_in`].
pub fn attachments_of(path: &str, bytes: &[u8], config: &Config) -> (r: Vec<Mark>)
    ensures
        markdown::mark_models(r@) == selectors_in(path@, bytes@, config@),
{
    match frontmatter::parse_task(VALIDATION_TASK_ID, path, bytes, config) {
        Ok(task) => attachments::distinct_links(
            task.body.as_str(),
            path,
            config.obsidian_link_prefix.as_str(),
        ),
        Err(_) => {
            let none: Vec<Mark> = Vec::new();
            assert(markdown::mark_models(none@) =~= Seq::<MarkModel>::empty());
            none
        },
    }
}

} // verus!
