//! Making a new store inside a vault.
//!
//! The file system is read and written elsewhere; here stands what is made of what was found.
use vstd::prelude::*;

use crate::config::{self, Config, ConfigModel};
use crate::discovery::{self, Look};
use crate::documents;
use crate::error::{self, Error, ErrorModel};
use crate::frontmatter;
use crate::order::{self, Ranked};
use crate::paths;
use crate::schema::{self, JsonFault};
use crate::store;
use crate::text;
use crate::yaml;

verus! {

/// What store to make, and how.
#[derive(Debug)]
pub struct InitOptions {
    pub store_path: String,
    pub vault_root: Option<String>,
    pub current_directory: String,
    pub adopt_empty_layout: bool,
    pub dry_run: bool,
}

/// What is made for a store.
#[derive(Debug, PartialEq, Eq)]
pub struct InitPlan {
    pub vault_root: String,
    pub store_root: String,
    pub directories: Vec<String>,
    pub files: Vec<String>,
    pub obsidian_link_prefix: String,
    pub dry_run: bool,
}

/// What is made for a store.
#[verifier::ext_equal]
pub struct PlanModel {
    pub vault_root: Seq<char>,
    pub store_root: Seq<char>,
    pub directories: Seq<Seq<char>>,
    pub files: Seq<Seq<char>>,
    pub obsidian_link_prefix: Seq<char>,
    pub dry_run: bool,
}

impl View for InitPlan {
    type V = PlanModel;

    open spec fn view(&self) -> PlanModel {
        PlanModel {
            vault_root: self.vault_root@,
            store_root: self.store_root@,
            directories: text::strings(self.directories@),
            files: text::strings(self.files@),
            obsidian_link_prefix: self.obsidian_link_prefix@,
            dry_run: self.dry_run,
        }
    }
}

/// Where a path leads, or why that could not be told.
pub type Resolved = Result<String, String>;

/// The directory that is marked as a vault and lies nearest, from the `i`-th on.
pub open spec fn nearest_vault(ancestors: Seq<(String, Look)>, i: int) -> Option<Seq<char>>
    decreases ancestors.len() - i,
{
    if i >= ancestors.len() {
        None
    } else if ancestors[i].1 is Directory {
        Some(ancestors[i].0@)
    } else {
        nearest_vault(ancestors, i + 1)
    }
}

/// What was found of the vault: what stands at the root that was asked for, where that leads, and
/// the current directory and those that it lies in, nearest first, with what stands at their
/// `.obsidian`.
#[derive(Debug)]
pub struct VaultFacts {
    pub look: Look,
    pub resolved: Resolved,
    pub ancestors: Vec<(String, Look)>,
}

/// The root of the vault: the one asked for, or else the nearest directory that is marked as
/// one.
pub open spec fn vault_of(explicit: Option<Seq<char>>, current: Seq<char>, facts: VaultFacts)
    -> Result<Seq<char>, ErrorModel> {
    match explicit {
        Some(path) => {
            let candidate = discovery::from_directory(path, current);
            match facts.look {
                Look::Missing => Err(
                    ErrorModel::io("inspect the vault root"@, candidate, "not found"@),
                ),
                Look::Failed(reason) => Err(
                    ErrorModel::io("inspect the vault root"@, candidate, reason@),
                ),
                Look::Directory => match facts.resolved {
                    Ok(path) => Ok(path@),
                    Err(reason) => Err(
                        ErrorModel::io("resolve the vault root"@, candidate, reason@),
                    ),
                },
                _ => Err(
                    ErrorModel::validation(
                        "invalid_vault_root"@,
                        "Vault root must be a real directory, not a symlink"@,
                    ).with_path(candidate),
                ),
            }
        },
        None => match nearest_vault(facts.ancestors@, 0) {
            Some(path) => Ok(path),
            None => Err(
                ErrorModel::not_found(
                    "vault_not_found"@,
                    "Could not find an ancestor containing .obsidian; pass --vault-root"@,
                ),
            ),
        },
    }
}

/// The root of the vault. See [`vault_of`].
pub fn resolve_vault_root(explicit: &Option<String>, current: &str, facts: &VaultFacts) -> (r: Result<
    String,
    Error,
>)
    ensures
        error::viewed(r) == vault_of(text::opt(*explicit), current@, *facts),
{
    match explicit {
        Some(path) => {
            let candidate = discovery::path_from(path.as_str(), current);
            match &facts.look {
                Look::Missing => Err(
                    Error::io("inspect the vault root", candidate.as_str(), "not found"),
                ),
                Look::Failed(reason) => Err(
                    Error::io("inspect the vault root", candidate.as_str(), reason.as_str()),
                ),
                Look::Directory => match &facts.resolved {
                    Ok(path) => Ok(path.clone()),
                    Err(reason) => Err(
                        Error::io("resolve the vault root", candidate.as_str(), reason.as_str()),
                    ),
                },
                _ => Err(
                    Error::validation(
                        "invalid_vault_root",
                        "Vault root must be a real directory, not a symlink",
                    ).with_path(candidate.as_str()),
                ),
            }
        },
        None => {
            let mut i: usize = 0;
            while i < facts.ancestors.len()
                invariant
                    i <= facts.ancestors@.len(),
                    explicit is None,
                    nearest_vault(facts.ancestors@, 0) == nearest_vault(
                        facts.ancestors@,
                        i as int,
                    ),
                decreases facts.ancestors.len() - i,
            {
                if let Look::Directory = facts.ancestors[i].1 {
                    return Ok(facts.ancestors[i].0.clone());
                }
                i += 1;
            }
            Err(
                Error::not_found(
                    "vault_not_found",
                    "Could not find an ancestor containing .obsidian; pass --vault-root",
                ),
            )
        },
    }
}

/// The names of the components from the `i`-th on, behind those in `names`, with `.` and `..`
/// followed. Nothing lies above the root.
pub open spec fn followed(parts: Seq<(int, Seq<char>)>, i: int, names: Seq<Seq<char>>) -> Result<
    Seq<Seq<char>>,
    ErrorModel,
>
    decreases parts.len() - i,
{
    if i >= parts.len() {
        Ok(names)
    } else if parts[i].0 == 2 {
        if names.len() == 0 {
            Err(
                ErrorModel::validation(
                    "invalid_path"@,
                    "Path traversal escapes the filesystem root"@,
                ),
            )
        } else {
            followed(parts, i + 1, names.drop_last())
        }
    } else if parts[i].0 == 3 {
        followed(parts, i + 1, names.push(parts[i].1))
    } else {
        followed(parts, i + 1, names)
    }
}

/// The names that an absolute path leads through, with `.` and `..` followed.
pub open spec fn names_of(path: Seq<char>) -> Result<Seq<Seq<char>>, ErrorModel> {
    if discovery::absolute(path) {
        followed(paths::parts(path), 0, seq![])
    } else {
        Err(
            ErrorModel::validation(
                "invalid_path"@,
                "Internal path resolution expected an absolute path"@,
            ),
        )
    }
}

/// The path through names from the root of the file system.
pub open spec fn path_through(names: Seq<Seq<char>>) -> Seq<char> {
    "/"@ + text::joined(names, "/"@)
}

/// The result of following a path, as values.
pub open spec fn names_outcome(r: Result<Vec<String>, Error>) -> Result<
    Seq<Seq<char>>,
    ErrorModel,
> {
    match r {
        Ok(names) => Ok(text::strings(names@)),
        Err(e) => Err(e@),
    }
}

/// The names that an absolute path leads through, with `.` and `..` followed.
pub fn normalize_absolute(path: &str) -> (r: Result<Vec<String>, Error>)
    ensures
        names_outcome(r) == names_of(path@),
{
    if !discovery::is_absolute(path) {
        return Err(
            Error::validation(
                "invalid_path",
                "Internal path resolution expected an absolute path",
            ),
        );
    }
    let parts = paths::components(path);
    let ghost all = paths::named(parts@);
    let mut names: Vec<String> = Vec::new();
    assert(text::strings(names@) =~= Seq::<Seq<char>>::empty());
    let mut i: usize = 0;
    while i < parts.len()
        invariant
            i <= parts@.len(),
            all == paths::named(parts@),
            all == paths::parts(path@),
            discovery::absolute(path@),
            followed(all, 0, seq![]) == followed(all, i as int, text::strings(names@)),
        decreases parts.len() - i,
    {
        assert(all[i as int] == (parts@[i as int].kind as int, parts@[i as int].name@));
        let ghost had = text::strings(names@);
        if parts[i].kind == 2 {
            if names.len() == 0 {
                return Err(
                    Error::validation(
                        "invalid_path",
                        "Path traversal escapes the filesystem root",
                    ),
                );
            }
            let _ = names.pop();
            assert(text::strings(names@) =~= had.drop_last());
        } else if parts[i].kind == 3 {
            let name = text::string(&parts[i].name);
            names.push(name);
            assert(text::strings(names@) =~= had.push(name@));
        }
        i += 1;
    }
    Ok(names)
}

/// What was found of the place of a store: whether something is there, what it is, and where it
/// leads; and otherwise whether something is at each directory above it, nearest first, with what
/// stands at the first at which something is, and where that leads.
#[derive(Debug)]
pub struct PlaceFacts {
    pub exists: bool,
    pub look: Look,
    pub resolved: Resolved,
    pub above: Vec<bool>,
}

/// The place of the first of the directories above a store, from the `i`-th on, at which
/// something is.
pub open spec fn first_above(above: Seq<bool>, i: int) -> Option<int>
    decreases above.len() - i,
{
    if i >= above.len() {
        None
    } else if above[i] {
        Some(i)
    } else {
        first_above(above, i + 1)
    }
}

/// The error for a store path with nothing above it.
pub open spec fn groundless(candidate: Seq<char>) -> ErrorModel {
    ErrorModel::validation(
        "invalid_store_path"@,
        "Store path has no existing ancestor"@,
    ).with_path(candidate)
}

/// Where a store that is not there will be: in the directory that the nearest one above it leads
/// to.
pub open spec fn new_place(names: Seq<Seq<char>>, facts: PlaceFacts) -> Result<
    Seq<char>,
    ErrorModel,
> {
    let candidate = path_through(names);
    match first_above(facts.above@, 0) {
        Some(i) if i < names.len() => {
            let ancestor = path_through(names.take(names.len() - i - 1));
            match facts.look {
                Look::Directory => match facts.resolved {
                    Ok(path) => Ok(
                        store::below(
                            path@,
                            text::joined(names.skip(names.len() - i - 1), "/"@),
                        ),
                    ),
                    Err(reason) => Err(
                        ErrorModel::io("resolve a store path ancestor"@, ancestor, reason@),
                    ),
                },
                Look::Failed(reason) => Err(
                    ErrorModel::io("inspect a store path ancestor"@, ancestor, reason@),
                ),
                _ => Err(
                    ErrorModel::validation(
                        "invalid_store_path"@,
                        "Store path traverses a non-directory"@,
                    ).with_path(ancestor),
                ),
            }
        },
        _ => Err(groundless(candidate)),
    }
}

/// Where the store at a path that has been followed is, or will be.
pub open spec fn place_of(names: Seq<Seq<char>>, facts: PlaceFacts) -> Result<
    Seq<char>,
    ErrorModel,
> {
    let candidate = path_through(names);
    if !facts.exists {
        new_place(names, facts)
    } else {
        match facts.look {
            Look::Failed(reason) => Err(
                ErrorModel::io("inspect the store path"@, candidate, reason@),
            ),
            Look::Symlink => Err(
                ErrorModel::validation(
                    "store_path_symlink"@,
                    "Store path must not be a symlink"@,
                ).with_path(candidate),
            ),
            _ => match facts.resolved {
                Ok(path) => Ok(path@),
                Err(reason) => Err(
                    ErrorModel::io("resolve the store path"@, candidate, reason@),
                ),
            },
        }
    }
}

/// Where a store is, or will be: inside the vault.
pub open spec fn store_of(
    path: Seq<char>,
    current: Seq<char>,
    vault: Seq<char>,
    facts: PlaceFacts,
) -> Result<Seq<char>, ErrorModel> {
    match names_of(discovery::from_directory(path, current)) {
        Err(e) => Err(e),
        Ok(names) => match place_of(names, facts) {
            Err(e) => Err(e),
            Ok(place) => if paths::path_begins(place, vault) {
                Ok(place)
            } else {
                Err(
                    ErrorModel::validation(
                        "store_outside_vault"@,
                        "Store path must resolve inside the vault root"@,
                    ).with_path(place),
                )
            },
        },
    }
}

fn path_of(names: &Vec<String>) -> (r: String)
    ensures
        r@ == path_through(text::strings(names@)),
{
    text::join2("/", text::join(names, "/").as_str())
}

fn some_names(names: &Vec<String>, from: usize, to: usize) -> (r: Vec<String>)
    requires
        from <= to <= names@.len(),
    ensures
        text::strings(r@) == text::strings(names@).subrange(from as int, to as int),
{
    let mut r: Vec<String> = Vec::new();
    let mut i: usize = from;
    while i < to
        invariant
            from <= i <= to <= names@.len(),
            r@.len() == i - from,
            forall|k: int| 0 <= k < i - from ==> (#[trigger] r@[k])@ == names@[from + k]@,
        decreases to - i,
    {
        r.push(names[i].clone());
        i += 1;
    }
    assert(text::strings(r@) =~= text::strings(names@).subrange(from as int, to as int));
    r
}

fn find_above(above: &Vec<bool>) -> (r: Option<usize>)
    ensures
        match r {
            Some(i) => first_above(above@, 0) == Some(i as int) && i < above@.len(),
            None => first_above(above@, 0) is None,
        },
{
    let mut i: usize = 0;
    while i < above.len()
        invariant
            i <= above@.len(),
            first_above(above@, 0) == first_above(above@, i as int),
        decreases above.len() - i,
    {
        if above[i] {
            return Some(i);
        }
        i += 1;
    }
    None
}

/// Where a store that is not there will be. See [`new_place`].
pub fn resolve_through_existing_ancestor(names: &Vec<String>, facts: &PlaceFacts) -> (r: Result<
    String,
    Error,
>)
    ensures
        error::viewed(r) == new_place(text::strings(names@), *facts),
{
    let ghost all = text::strings(names@);
    let n: usize = names.len();
    let i: usize = match find_above(&facts.above) {
        Some(i) => if i < n {
            i
        } else {
            return Err(no_ancestor(names));
        },
        None => {
            return Err(no_ancestor(names));
        },
    };
    let kept: usize = n - i - 1;
    let first = some_names(names, 0, kept);
    assert(all.take(kept as int) =~= all.subrange(0, kept as int));
    let ancestor = path_of(&first);
    match &facts.look {
        Look::Directory => match &facts.resolved {
            Ok(path) => {
                let last = some_names(names, kept, n);
                assert(all.skip(kept as int) =~= all.subrange(kept as int, n as int));
                Ok(store::join(path.as_str(), text::join(&last, "/").as_str()))
            },
            Err(reason) => Err(
                Error::io(
                    "resolve a store path ancestor",
                    ancestor.as_str(),
                    reason.as_str(),
                ),
            ),
        },
        Look::Failed(reason) => Err(
            Error::io("inspect a store path ancestor", ancestor.as_str(), reason.as_str()),
        ),
        _ => Err(
            Error::validation(
                "invalid_store_path",
                "Store path traverses a non-directory",
            ).with_path(ancestor.as_str()),
        ),
    }
}

fn no_ancestor(names: &Vec<String>) -> (r: Error)
    ensures
        r@ == groundless(path_through(text::strings(names@))),
{
    Error::validation(
        "invalid_store_path",
        "Store path has no existing ancestor",
    ).with_path(path_of(names).as_str())
}

fn existing_place(names: &Vec<String>, facts: &PlaceFacts) -> (r: Result<String, Error>)
    ensures
        error::viewed(r) == place_of(text::strings(names@), *facts),
{
    if !facts.exists {
        return resolve_through_existing_ancestor(names, facts);
    }
    let candidate = path_of(names);
    match &facts.look {
        Look::Failed(reason) => Err(
            Error::io("inspect the store path", candidate.as_str(), reason.as_str()),
        ),
        Look::Symlink => Err(
            Error::validation(
                "store_path_symlink",
                "Store path must not be a symlink",
            ).with_path(candidate.as_str()),
        ),
        _ => match &facts.resolved {
            Ok(path) => Ok(path.clone()),
            Err(reason) => Err(
                Error::io("resolve the store path", candidate.as_str(), reason.as_str()),
            ),
        },
    }
}

/// Where a store is, or will be. See [`store_of`].
pub fn resolve_store_path(path: &str, current: &str, vault: &str, facts: &PlaceFacts) -> (r: Result<
    String,
    Error,
>)
    ensures
        error::viewed(r) == store_of(path@, current@, vault@, *facts),
{
    let names = match normalize_absolute(discovery::path_from(path, current).as_str()) {
        Ok(names) => names,
        Err(e) => {
            return Err(e);
        },
    };
    match existing_place(&names, facts) {
        Err(e) => Err(e),
        Ok(place) => if paths::is_path_within(place.as_str(), vault) {
            Ok(place)
        } else {
            Err(
                Error::validation(
                    "store_outside_vault",
                    "Store path must resolve inside the vault root",
                ).with_path(place.as_str()),
            )
        },
    }
}

/// An entry of a directory that is to become a store: its name, its path, whether it is a
/// directory (through a symlink or not) or why that could not be told, whether it is a symlink,
/// and whether nothing is in it, or why that could not be told.
#[derive(Debug)]
pub struct LayoutEntry {
    pub name: String,
    pub path: String,
    pub directory: Result<bool, String>,
    pub symlink: bool,
    pub empty: Result<bool, String>,
}

impl Ranked for LayoutEntry {
    open spec fn before(a: Self, b: Self) -> bool {
        text::less(a.name@, b.name@)
    }

    proof fn one_way(a: Self, b: Self) {
        assert(a.name@.take(0) == b.name@.take(0));
        text::lemma_less_total(a.name@, b.name@, 0);
    }

    proof fn no_gap(a: Self, b: Self, c: Self) {
        text::lemma_less_between(a.name@, b.name@, c.name@);
    }

    fn is_before(&self, other: &Self) -> (r: bool) {
        text::is_less(&text::chars(self.name.as_str()), &text::chars(other.name.as_str()))
    }
}

/// What was found of the directory that is to become a store: whether something is at its
/// configuration, whether it is there, and what is in it, or why that could not be told.
#[derive(Debug)]
pub struct LayoutFacts {
    pub configured: bool,
    pub exists: bool,
    pub entries: Result<Vec<LayoutEntry>, String>,
}

/// Whether an entry can be adopted: it is one of the directories of a store, and empty.
pub open spec fn check_entry(entry: LayoutEntry) -> Result<(), ErrorModel> {
    if entry.name@ != ".todo"@ && entry.name@ != "Tasks"@ && entry.name@ != "Projects"@ {
        Err(
            ErrorModel::validation(
                "store_contains_unmanaged_content"@,
                "Only empty .todo, Tasks, and Projects directories can be adopted"@,
            ).with_path(entry.path@),
        )
    } else {
        match entry.directory {
            Err(reason) => Err(
                ErrorModel::io("inspect an existing layout entry"@, entry.path@, reason@),
            ),
            Ok(directory) => if !directory || entry.symlink {
                Err(
                    ErrorModel::validation(
                        "store_contains_unmanaged_content"@,
                        "The adopted layout may contain only real directories"@,
                    ).with_path(entry.path@),
                )
            } else {
                match entry.empty {
                    Err(reason) => Err(
                        ErrorModel::io(
                            "inspect an existing managed directory"@,
                            entry.path@,
                            reason@,
                        ),
                    ),
                    Ok(true) => Ok(()),
                    Ok(false) => Err(
                        ErrorModel::validation(
                            "managed_directory_not_empty"@,
                            "Existing managed directories must be empty when adopted"@,
                        ).with_path(entry.path@),
                    ),
                }
            },
        }
    }
}

/// Whether the entries from the `i`-th on can be adopted.
pub open spec fn check_entries(entries: Seq<LayoutEntry>, i: int) -> Result<(), ErrorModel>
    decreases entries.len() - i,
{
    if i >= entries.len() {
        Ok(())
    } else {
        match check_entry(entries[i]) {
            Err(e) => Err(e),
            Ok(_) => check_entries(entries, i + 1),
        }
    }
}

/// Whether the result says if a directory can become a store: there is none, it is empty, or,
/// where that was asked for, it has nothing but the empty directories of a store. The first
/// entry by name that is in the way is told.
pub open spec fn is_layout_check(
    r: Result<(), ErrorModel>,
    place: Seq<char>,
    facts: LayoutFacts,
    adopt: bool,
) -> bool {
    let config = store::below(place, ".todo/config.toml"@);
    if facts.configured {
        r == Err::<(), ErrorModel>(
            ErrorModel::validation(
                "store_already_initialized"@,
                "A todo store is already initialized at this path"@,
            ).with_path(config),
        )
    } else if !facts.exists {
        r == Ok::<(), ErrorModel>(())
    } else {
        match facts.entries {
            Err(reason) => r == Err::<(), ErrorModel>(
                ErrorModel::io("inspect the target store directory"@, place, reason@),
            ),
            Ok(entries) => if entries@.len() == 0 {
                r == Ok::<(), ErrorModel>(())
            } else if !adopt {
                r == Err::<(), ErrorModel>(
                    ErrorModel::validation(
                        "store_not_empty"@,
                        "Target store directory is not empty; use --adopt-empty-layout only for an empty managed layout"@,
                    ).with_path(place),
                )
            } else {
                exists|sorted: Seq<LayoutEntry>| #[trigger]
                    order::arranged(entries@, sorted) && r == check_entries(sorted, 0)
            },
        }
    }
}

fn adopt_entry(entry: &LayoutEntry) -> (r: Result<(), Error>)
    ensures
        error::outcome(r) == check_entry(*entry),
{
    let name = entry.name.as_str();
    let path = entry.path.as_str();
    if !text::same(name, ".todo") && !text::same(name, "Tasks") && !text::same(name, "Projects") {
        return Err(
            Error::validation(
                "store_contains_unmanaged_content",
                "Only empty .todo, Tasks, and Projects directories can be adopted",
            ).with_path(path),
        );
    }
    match &entry.directory {
        Err(reason) => Err(Error::io("inspect an existing layout entry", path, reason.as_str())),
        Ok(directory) => if !*directory || entry.symlink {
            Err(
                Error::validation(
                    "store_contains_unmanaged_content",
                    "The adopted layout may contain only real directories",
                ).with_path(path),
            )
        } else {
            match &entry.empty {
                Err(reason) => Err(
                    Error::io("inspect an existing managed directory", path, reason.as_str()),
                ),
                Ok(empty) => if *empty {
                    Ok(())
                } else {
                    Err(
                        Error::validation(
                            "managed_directory_not_empty",
                            "Existing managed directories must be empty when adopted",
                        ).with_path(path),
                    )
                },
            }
        },
    }
}

/// Fail where a directory cannot become a store. See [`is_layout_check`].
pub fn inspect_existing_layout(place: &str, facts: LayoutFacts, adopt: bool) -> (r: Result<
    (),
    Error,
>)
    ensures
        is_layout_check(error::outcome(r), place@, facts, adopt),
{
    if facts.configured {
        return Err(
            Error::validation(
                "store_already_initialized",
                "A todo store is already initialized at this path",
            ).with_path(store::join(place, config::CONFIG_PATH).as_str()),
        );
    }
    if !facts.exists {
        return Ok(());
    }
    let entries = match facts.entries {
        Ok(entries) => entries,
        Err(reason) => {
            return Err(
                Error::io("inspect the target store directory", place, reason.as_str()),
            );
        },
    };
    if entries.len() == 0 {
        return Ok(());
    }
    if !adopt {
        return Err(
            Error::validation(
                "store_not_empty",
                "Target store directory is not empty; use --adopt-empty-layout only for an empty managed layout",
            ).with_path(place),
        );
    }
    let ghost given = entries@;
    let sorted = order::sort(entries);
    let mut found: Result<(), Error> = Ok(());
    let mut i: usize = 0;
    while i < sorted.len() && found.is_ok()
        invariant
            i <= sorted@.len(),
            found is Ok ==> check_entries(sorted@, 0) == check_entries(sorted@, i as int),
            found is Err ==> error::outcome(found) == check_entries(sorted@, 0),
        decreases sorted.len() - i,
    {
        found = adopt_entry(&sorted[i]);
        i += 1;
    }
    assert(order::arranged(given, sorted@) && error::outcome(found) == check_entries(sorted@, 0));
    found
}

/// The names of components, where all of them are names.
pub open spec fn plain_names(parts: Seq<(int, Seq<char>)>) -> Result<Seq<Seq<char>>, ErrorModel> {
    if forall|i: int| 0 <= i < parts.len() ==> (#[trigger] parts[i]).0 == 3 {
        Ok(parts.map_values(|part: (int, Seq<char>)| part.1))
    } else {
        Err(ErrorModel::validation("invalid_store_path"@, "Store path must be normalized"@))
    }
}

/// What links into a store begin with: its path in the vault.
pub open spec fn link_prefix(place: Seq<char>, vault: Seq<char>) -> Result<Seq<char>, ErrorModel> {
    if paths::path_begins(place, vault) {
        match plain_names(paths::parts(place).skip(paths::parts(vault).len() as int)) {
            Err(e) => Err(e),
            Ok(names) => Ok(text::joined(names, "/"@)),
        }
    } else {
        Err(
            ErrorModel::validation(
                "store_outside_vault"@,
                "Store path must resolve inside the vault root"@,
            ),
        )
    }
}

/// What links into a store begin with. See [`link_prefix`].
pub fn relative_link_prefix(place: &str, vault: &str) -> (r: Result<String, Error>)
    ensures
        error::viewed(r) == link_prefix(place@, vault@),
{
    if !paths::is_path_within(place, vault) {
        return Err(
            Error::validation(
                "store_outside_vault",
                "Store path must resolve inside the vault root",
            ),
        );
    }
    let parts = paths::components(place);
    let outer = paths::components(vault);
    let n: usize = outer.len();
    let ghost all = paths::parts(place@);
    assert(all.len() == parts@.len() && paths::parts(vault@).len() == n);
    let ghost rest = all.skip(n as int);
    let mut names: Vec<String> = Vec::new();
    let mut i: usize = n;
    while i < parts.len()
        invariant
            n <= i <= parts@.len(),
            all == paths::named(parts@),
            all == paths::parts(place@),
            n == paths::parts(vault@).len(),
            paths::path_begins(place@, vault@),
            rest == all.skip(n as int),
            names@.len() == i - n,
            forall|k: int|
                0 <= k < i - n ==> (#[trigger] rest[k]).0 == 3 && names@[k]@ == rest[k].1,
        decreases parts.len() - i,
    {
        assert(all[i as int] == (parts@[i as int].kind as int, parts@[i as int].name@));
        assert(rest[i - n] == all[i as int]);
        if parts[i].kind != 3 {
            return Err(
                Error::validation("invalid_store_path", "Store path must be normalized"),
            );
        }
        names.push(text::string(&parts[i].name));
        i += 1;
    }
    assert(text::strings(names@) =~= rest.map_values(|part: (int, Seq<char>)| part.1));
    Ok(text::join(&names, "/"))
}

/// What was found on disk of a store that is to be made.
#[derive(Debug)]
pub struct InitFacts {
    pub current: Resolved,
    pub vault: VaultFacts,
    pub place: PlaceFacts,
    pub layout: LayoutFacts,
}

/// What is made for a store at a place in a vault.
pub open spec fn plan_for(
    place: Seq<char>,
    vault: Seq<char>,
    prefix: Seq<char>,
    dry_run: bool,
) -> PlanModel {
    PlanModel {
        vault_root: vault,
        store_root: place,
        directories: seq![
            store::below(place, ".todo"@),
            store::below(place, "Tasks"@),
            store::below(place, "Projects"@),
        ],
        files: seq![
            store::below(place, ".todo/config.toml"@),
            store::below(place, ".todo/schema.json"@),
            store::below(place, "todos.base"@),
        ],
        obsidian_link_prefix: prefix,
        dry_run,
    }
}

/// The plan for a store and its configuration as a document, by where it and the vault are.
pub open spec fn planned(place: Seq<char>, vault: Seq<char>, dry_run: bool) -> Result<
    (PlanModel, Seq<char>),
    ErrorModel,
> {
    match link_prefix(place, vault) {
        Err(e) => Err(e),
        Ok(prefix) => match config::config_text(ConfigModel::default_with(prefix)) {
            Err(e) => Err(e),
            Ok(source) => Ok((plan_for(place, vault, prefix, dry_run), source)),
        },
    }
}

/// Whether the result is the plan for the store that was asked for, with its configuration.
pub open spec fn is_init(
    r: Result<(PlanModel, Seq<char>), ErrorModel>,
    options: InitOptions,
    facts: InitFacts,
) -> bool {
    match facts.current {
        Err(reason) => r == Err::<(PlanModel, Seq<char>), ErrorModel>(
            ErrorModel::io(
                "resolve the current directory"@,
                options.current_directory@,
                reason@,
            ),
        ),
        Ok(current) => match vault_of(text::opt(options.vault_root), current@, facts.vault) {
            Err(e) => r == Err::<(PlanModel, Seq<char>), ErrorModel>(e),
            Ok(vault) => match store_of(options.store_path@, current@, vault, facts.place) {
                Err(e) => r == Err::<(PlanModel, Seq<char>), ErrorModel>(e),
                Ok(place) => exists|checked: Result<(), ErrorModel>| #[trigger]
                    is_layout_check(checked, place, facts.layout, options.adopt_empty_layout)
                        && r == (match checked {
                        Err(e) => Err(e),
                        Ok(_) => planned(place, vault, options.dry_run),
                    }),
            },
        },
    }
}

/// The result of planning, as values.
pub open spec fn plan_outcome(r: Result<(InitPlan, String), Error>) -> Result<
    (PlanModel, Seq<char>),
    ErrorModel,
> {
    match r {
        Ok((plan, source)) => Ok((plan@, source@)),
        Err(e) => Err(e@),
    }
}

/// The plan for a store and its configuration as a document, by where it and the vault are.
pub fn plan(place: String, vault: String, dry_run: bool) -> (r: Result<(InitPlan, String), Error>)
    ensures
        plan_outcome(r) == planned(place@, vault@, dry_run),
{
    let prefix = match relative_link_prefix(place.as_str(), vault.as_str()) {
        Ok(prefix) => prefix,
        Err(e) => {
            return Err(e);
        },
    };
    let config = Config::defaults(prefix.clone());
    let source = match config.to_toml() {
        Ok(source) => source,
        Err(e) => {
            return Err(e);
        },
    };
    let directories = vec![
        store::join(place.as_str(), ".todo"),
        store::join(place.as_str(), config.tasks_directory.as_str()),
        store::join(place.as_str(), config.projects_directory.as_str()),
    ];
    let files = vec![
        store::join(place.as_str(), config::CONFIG_PATH),
        store::join(place.as_str(), config::SCHEMA_PATH),
        store::join(place.as_str(), config::TODOS_BASE_PATH),
    ];
    let plan = InitPlan {
        vault_root: vault,
        store_root: place,
        directories,
        files,
        obsidian_link_prefix: prefix,
        dry_run,
    };
    assert(plan@ =~= plan_for(place@, vault@, prefix@, dry_run));
    Ok((plan, source))
}

/// The plan for the store that was asked for, with its configuration as a document. See
/// [`is_init`].
pub fn initialize(options: &InitOptions, facts: InitFacts) -> (r: Result<
    (InitPlan, String),
    Error,
>)
    ensures
        is_init(plan_outcome(r), *options, facts),
{
    let current = match facts.current {
        Ok(current) => current,
        Err(reason) => {
            return Err(
                Error::io(
                    "resolve the current directory",
                    options.current_directory.as_str(),
                    reason.as_str(),
                ),
            );
        },
    };
    let vault = match resolve_vault_root(&options.vault_root, current.as_str(), &facts.vault) {
        Ok(vault) => vault,
        Err(e) => {
            return Err(e);
        },
    };
    let place = match resolve_store_path(
        options.store_path.as_str(),
        current.as_str(),
        vault.as_str(),
        &facts.place,
    ) {
        Ok(place) => place,
        Err(e) => {
            return Err(e);
        },
    };
    let checked = inspect_existing_layout(
        place.as_str(),
        facts.layout,
        options.adopt_empty_layout,
    );
    assert(is_layout_check(
        error::outcome(checked),
        place@,
        facts.layout,
        options.adopt_empty_layout,
    ));
    match checked {
        Err(e) => Err(e),
        Ok(_) => plan(place, vault, options.dry_run),
    }
}

/// What a table of tasks shows, behind its filter.
pub const BASE_TABLE: &'static str = "\nformulas:\n  todo: \"file.asLink(name)\"\nproperties:\n  formula.todo:\n    displayName: Todo\n  parent:\n    displayName: Parent\n  due_date:\n    displayName: Due\n  recurrence_from:\n    displayName: Recurrence mode\n  last_completed_date:\n    displayName: Last completed\nviews:\n  - type: table\n    name: Todos\n    order:\n      - formula.todo\n      - state\n      - due_date\n      - projects\n      - tags\n      - parent\n      - recurrence\n      - recurrence_from\n      - last_completed_date\n";

/// The path of the table of tasks in the vault, by what links into the store begin with.
pub open spec fn base_path(prefix: Seq<char>) -> Seq<char> {
    if prefix.len() == 0 {
        "todos.base"@
    } else {
        prefix + "/"@ + "todos.base"@
    }
}

/// The table of tasks of a store: it shows the notes that link to it.
pub open spec fn base_text(prefix: Seq<char>) -> Seq<char> {
    "filters: "@ + yaml::json_string(
        "base == link("@ + yaml::json_string(base_path(prefix)) + ")"@,
    ) + BASE_TABLE@
}

/// The table of tasks of a store, by what links into the store begin with. See [`base_text`].
pub fn todos_base(prefix: &str) -> (r: String)
    ensures
        r@ == base_text(prefix@),
{
    let path = if text::chars(prefix).len() == 0 {
        config::TODOS_BASE_PATH.to_owned()
    } else {
        text::join3(prefix, "/", config::TODOS_BASE_PATH)
    };
    let link = frontmatter::quoted(path.as_str());
    let filter = text::join3("base == link(", link.as_str(), ")");
    text::join3("filters: ", frontmatter::quoted(filter.as_str()).as_str(), BASE_TABLE)
}

/// What was found of a store that has been made: what stands at each of its directories, and its
/// configuration and its schema, or why they could not be read.
#[derive(Debug)]
pub struct MadeFacts {
    pub directories: Vec<Look>,
    pub config: Result<String, String>,
    pub schema: Result<Vec<u8>, String>,
}

/// Whether what was made at the directories from the `i`-th on are directories.
pub open spec fn check_directories(directories: Seq<Seq<char>>, looks: Seq<Look>, i: int) -> Result<
    (),
    ErrorModel,
>
    decreases directories.len() - i,
{
    if i >= directories.len() {
        Ok(())
    } else {
        match if i < looks.len() {
            looks[i]
        } else {
            Look::Missing
        } {
            Look::Directory => check_directories(directories, looks, i + 1),
            Look::Failed(reason) => Err(
                ErrorModel::io("validate an initialized directory"@, directories[i], reason@),
            ),
            _ => Err(
                ErrorModel::validation(
                    "invalid_initialized_layout"@,
                    "Initialized managed paths must be real directories"@,
                ).with_path(directories[i]),
            ),
        }
    }
}

/// Whether the schema that was read back has the version of the configuration.
pub open spec fn check_schema(
    found: Result<Seq<char>, (Seq<char>, usize, usize)>,
    version: u32,
) -> Result<(), ErrorModel> {
    match found {
        Err((message, _, _)) => Err(
            ErrorModel::validation(
                "invalid_schema_file"@,
                "Initialized schema is invalid JSON: "@ + message,
            ),
        ),
        Ok(found) => if schema::json_number(found, schema::VERSION_KEY@) == Some(version as u64) {
            Ok(())
        } else {
            Err(
                ErrorModel::validation(
                    "schema_version_mismatch"@,
                    "Initialized schema version does not match configuration"@,
                ),
            )
        },
    }
}

/// Whether a store was made as it was planned: its directories are there, its configuration is
/// read back as it was, and its schema has the version of the configuration.
pub open spec fn check_made(plan: PlanModel, config: ConfigModel, facts: MadeFacts) -> Result<
    (),
    ErrorModel,
> {
    match check_directories(plan.directories, facts.directories@, 0) {
        Err(e) => Err(e),
        Ok(_) => match facts.config {
            Err(reason) => Err(
                ErrorModel::io(
                    "read the initialized configuration"@,
                    store::below(plan.store_root, ".todo/config.toml"@),
                    reason@,
                ),
            ),
            Ok(source) => match config::config_from(source@, documents::toml_outcome(source@)) {
                Err(e) => Err(e),
                Ok(parsed) => if parsed != config {
                    Err(
                        ErrorModel::validation(
                            "initialized_config_mismatch"@,
                            "Initialized configuration did not round-trip"@,
                        ),
                    )
                } else {
                    match facts.schema {
                        Err(reason) => Err(
                            ErrorModel::io(
                                "read the initialized schema"@,
                                store::below(plan.store_root, ".todo/schema.json"@),
                                reason@,
                            ),
                        ),
                        Ok(bytes) => check_schema(
                            schema::json_read(bytes@),
                            config.schema_version,
                        ),
                    }
                },
            },
        },
    }
}

fn made_directories(directories: &Vec<String>, looks: &Vec<Look>) -> (r: Result<(), Error>)
    ensures
        error::outcome(r) == check_directories(text::strings(directories@), looks@, 0),
{
    let ghost all = text::strings(directories@);
    let mut i: usize = 0;
    while i < directories.len()
        invariant
            i <= directories@.len(),
            all == text::strings(directories@),
            check_directories(all, looks@, 0) == check_directories(all, looks@, i as int),
        decreases directories.len() - i,
    {
        let path = directories[i].as_str();
        assert(all[i as int] == path@);
        let mut made = false;
        if i < looks.len() {
            match &looks[i] {
                Look::Directory => {
                    made = true;
                },
                Look::Failed(reason) => {
                    return Err(
                        Error::io("validate an initialized directory", path, reason.as_str()),
                    );
                },
                _ => {},
            }
        }
        if !made {
            return Err(
                Error::validation(
                    "invalid_initialized_layout",
                    "Initialized managed paths must be real directories",
                ).with_path(path),
            );
        }
        i += 1;
    }
    Ok(())
}

/// Fail where the schema that was read back does not have the version of the configuration. See
/// [`check_schema`].
pub fn compare_version(found: Result<serde_json::Value, JsonFault>, version: u32) -> (r: Result<
    (),
    Error,
>)
    ensures
        error::outcome(r) == check_schema(schema::read_outcome(found), version),
{
    match found {
        Err(fault) => Err(
            Error::validation(
                "invalid_schema_file",
                text::join2(
                    "Initialized schema is invalid JSON: ",
                    fault.message.as_str(),
                ).as_str(),
            ),
        ),
        Ok(found) => {
            if let Some(number) = schema::number_at(&found, schema::VERSION_KEY) {
                if number == version as u64 {
                    return Ok(());
                }
            }
            Err(
                Error::validation(
                    "schema_version_mismatch",
                    "Initialized schema version does not match configuration",
                ),
            )
        },
    }
}

/// Fail where a store was not made as it was planned. See [`check_made`].
pub fn validate_initialized_layout(plan: &InitPlan, config: &Config, facts: &MadeFacts) -> (r: Result<
    (),
    Error,
>)
    requires
        facts.config matches Ok(source) ==> source@.len() < usize::MAX,
    ensures
        error::outcome(r) == check_made(plan@, config@, *facts),
{
    if let Err(e) = made_directories(&plan.directories, &facts.directories) {
        return Err(e);
    }
    let parsed = match &facts.config {
        Err(reason) => {
            return Err(
                Error::io(
                    "read the initialized configuration",
                    store::join(plan.store_root.as_str(), config::CONFIG_PATH).as_str(),
                    reason.as_str(),
                ),
            );
        },
        Ok(source) => match Config::parse(source.as_str()) {
            Ok(parsed) => parsed,
            Err(e) => {
                return Err(e);
            },
        },
    };
    if !parsed.is_same(config) {
        return Err(
            Error::validation(
                "initialized_config_mismatch",
                "Initialized configuration did not round-trip",
            ),
        );
    }
    match &facts.schema {
        Err(reason) => Err(
            Error::io(
                "read the initialized schema",
                store::join(plan.store_root.as_str(), config::SCHEMA_PATH).as_str(),
                reason.as_str(),
            ),
        ),
        Ok(bytes) => compare_version(
            schema::read_json(bytes.as_slice()),
            config.schema_version,
        ),
    }
}

} // verus!
