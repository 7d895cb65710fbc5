//! Which store is meant.
//!
//! The file system is looked at elsewhere; here stands what is made of what was found.
use vstd::prelude::*;

use crate::error::{self, Error, ErrorKind, ErrorModel};
use crate::order::{self, Ranked};
use crate::paths;
use crate::store;
use crate::text;

verus! {

/// Where to look for a store: the root that was asked for, the one that the environment names,
/// and the current directory.
#[derive(Debug)]
pub struct DiscoveryOptions {
    pub explicit_root: Option<String>,
    pub environment_root: Option<String>,
    pub current_directory: String,
}

/// What stands at a path, without following a symlink.
#[derive(Debug)]
pub enum Look {
    Missing,
    Directory,
    File,
    Symlink,
    Other,
    /// It could not be looked at, for the reason given.
    Failed(String),
}

/// A directory that may be a store, with what stands at its `.todo` and at its configuration.
#[derive(Debug)]
pub struct StoreMarks {
    pub path: String,
    pub metadata: Look,
    pub config: Look,
}

impl StoreMarks {
    /// Whether the directory is a store: it has a real metadata directory, with a configuration
    /// that is a regular file.
    pub open spec fn store(self) -> bool {
        self.metadata is Directory && self.config is File
    }

    /// Whether the directory is a store.
    #[must_use]
    pub fn is_store(&self) -> (r: bool)
        ensures
            r == self.store(),
    {
        match self.metadata {
            Look::Directory => match self.config {
                Look::File => true,
                _ => false,
            },
            _ => false,
        }
    }
}

impl Ranked for StoreMarks {
    open spec fn before(a: Self, b: Self) -> bool {
        paths::path_less(a.path@, b.path@)
    }

    proof fn one_way(a: Self, b: Self) {
        paths::lemma_parts_less_one_way(paths::parts(a.path@), paths::parts(b.path@), 0);
    }

    proof fn no_gap(a: Self, b: Self, c: Self) {
        paths::lemma_parts_less_no_gap(
            paths::parts(a.path@),
            paths::parts(b.path@),
            paths::parts(c.path@),
            0,
        );
    }

    fn is_before(&self, other: &Self) -> (r: bool) {
        paths::is_path_less(self.path.as_str(), other.path.as_str())
    }
}

/// A root that was named: what stands there, and the directory that it leads to, or why that
/// could not be told.
#[derive(Debug)]
pub struct NamedRoot {
    pub look: Look,
    pub resolved: Result<StoreMarks, String>,
}

/// Why directories could not be looked at: what was tried, where, and why it failed.
#[derive(Debug)]
pub struct LookFault {
    pub action: String,
    pub path: String,
    pub reason: String,
}

/// What surrounds the current directory: it and the directories that it lies in, nearest first,
/// and the directories in it.
#[derive(Debug)]
pub struct Surroundings {
    pub ancestors: Result<Vec<StoreMarks>, String>,
    pub children: Result<Vec<StoreMarks>, LookFault>,
}

/// Whether a path begins at the root of the file system.
pub open spec fn absolute(path: Seq<char>) -> bool {
    text::begins(path, "/"@)
}

/// See [`absolute`].
pub fn is_absolute(path: &str) -> (r: bool)
    ensures
        r == absolute(path@),
{
    text::is_at(&text::chars(path), "/", 0)
}

/// A path as it is meant in a directory.
pub open spec fn from_directory(path: Seq<char>, current: Seq<char>) -> Seq<char> {
    if absolute(path) {
        path
    } else {
        store::below(current, path)
    }
}

/// See [`from_directory`].
pub fn path_from(path: &str, current: &str) -> (r: String)
    ensures
        r@ == from_directory(path@, current@),
{
    if is_absolute(path) {
        path.to_owned()
    } else {
        store::join(current, path)
    }
}

/// The path of the store that was named, or why there is none there.
pub open spec fn store_at(candidate: Seq<char>, source: Seq<char>, found: NamedRoot) -> Result<
    Seq<char>,
    ErrorModel,
> {
    match found.look {
        Look::Missing => Err(
            ErrorModel::not_found(
                "store_not_found"@,
                source + " does not identify an existing todo store"@,
            ).with_path(candidate),
        ),
        Look::Failed(reason) => Err(
            ErrorModel::io("inspect the todo store"@, candidate, reason@),
        ),
        Look::Directory => match found.resolved {
            Err(reason) => Err(ErrorModel::io("resolve the todo store"@, candidate, reason@)),
            Ok(marks) => if marks.store() {
                Ok(marks.path@)
            } else {
                Err(
                    ErrorModel::not_found(
                        "store_not_found"@,
                        source + " does not identify a todo store"@,
                    ).with_path(marks.path@),
                )
            },
        },
        _ => Err(
            ErrorModel::validation(
                "invalid_store_root"@,
                source + " must identify a real directory, not a symlink"@,
            ).with_path(candidate),
        ),
    }
}

/// The path of the store that was named. See [`store_at`].
pub fn require_store(candidate: &str, source_name: &str, found: &NamedRoot) -> (r: Result<
    String,
    Error,
>)
    ensures
        error::viewed(r) == store_at(candidate@, source_name@, *found),
{
    match &found.look {
        Look::Missing => Err(
            Error::not_found(
                "store_not_found",
                text::join2(
                    source_name,
                    " does not identify an existing todo store",
                ).as_str(),
            ).with_path(candidate),
        ),
        Look::Failed(reason) => Err(
            Error::io("inspect the todo store", candidate, reason.as_str()),
        ),
        Look::Directory => match &found.resolved {
            Err(reason) => Err(Error::io("resolve the todo store", candidate, reason.as_str())),
            Ok(marks) => if marks.is_store() {
                Ok(marks.path.clone())
            } else {
                Err(
                    Error::not_found(
                        "store_not_found",
                        text::join2(source_name, " does not identify a todo store").as_str(),
                    ).with_path(marks.path.as_str()),
                )
            },
        },
        _ => Err(
            Error::validation(
                "invalid_store_root",
                text::join2(
                    source_name,
                    " must identify a real directory, not a symlink",
                ).as_str(),
            ).with_path(candidate),
        ),
    }
}

/// The place of the first store, from the `i`-th directory on.
pub open spec fn first_store(marks: Seq<StoreMarks>, i: int) -> Option<int>
    decreases marks.len() - i,
{
    if i >= marks.len() {
        None
    } else if marks[i].store() {
        Some(i)
    } else {
        first_store(marks, i + 1)
    }
}

/// The stores among directories.
pub open spec fn stores(marks: Seq<StoreMarks>) -> Seq<StoreMarks> {
    marks.filter(|mark: StoreMarks| mark.store())
}

/// The paths of directories.
pub open spec fn mark_paths(marks: Seq<StoreMarks>) -> Seq<Seq<char>> {
    marks.map_values(|mark: StoreMarks| mark.path@)
}

/// The error for more than one store, which are in order.
pub open spec fn ambiguous(marks: Seq<StoreMarks>) -> ErrorModel {
    ErrorModel::new(
        ErrorKind::Ambiguous,
        "ambiguous_store"@,
        "Multiple todo stores found: "@ + text::joined(mark_paths(marks), ", "@)
            + "; pass --root"@,
    )
}

/// Whether the result is the one store among the directories in the current one.
pub open spec fn is_only_child(r: Result<Seq<char>, ErrorModel>, children: Seq<StoreMarks>) -> bool {
    let found = stores(children);
    if found.len() == 0 {
        r == Err::<Seq<char>, ErrorModel>(
            ErrorModel::not_found(
                "store_not_found"@,
                "No todo store found; pass --root or set OBSIDIAN_TODO_ROOT"@,
            ),
        )
    } else if found.len() == 1 {
        r == Ok::<Seq<char>, ErrorModel>(found[0].path@)
    } else {
        exists|sorted: Seq<StoreMarks>|
            #![trigger mark_paths(sorted)]
            order::arranged(found, sorted) && r == Err::<Seq<char>, ErrorModel>(ambiguous(sorted))
    }
}

/// Whether the result is the store that is meant: the one asked for, or else the one that the
/// environment names, or else the nearest directory that is one, or else the one store in the
/// current directory.
pub open spec fn is_meant(
    r: Result<Seq<char>, ErrorModel>,
    options: DiscoveryOptions,
    named: NamedRoot,
    around: Surroundings,
) -> bool {
    let current = options.current_directory@;
    match options.explicit_root {
        Some(root) => r == store_at(from_directory(root@, current), "--root"@, named),
        None => match options.environment_root {
            Some(root) => r == (if root@.len() == 0 {
                Err(
                    ErrorModel::usage(
                        "invalid_root"@,
                        "OBSIDIAN_TODO_ROOT cannot be empty"@,
                    ),
                )
            } else {
                store_at(from_directory(root@, current), "OBSIDIAN_TODO_ROOT"@, named)
            }),
            None => match around.ancestors {
                Err(reason) => r == Err::<Seq<char>, ErrorModel>(
                    ErrorModel::io("resolve the current directory"@, current, reason@),
                ),
                Ok(ancestors) => match first_store(ancestors@, 0) {
                    Some(i) => r == Ok::<Seq<char>, ErrorModel>(ancestors@[i].path@),
                    None => match around.children {
                        Err(fault) => r == Err::<Seq<char>, ErrorModel>(
                            ErrorModel::io(fault.action@, fault.path@, fault.reason@),
                        ),
                        Ok(children) => is_only_child(r, children@),
                    },
                },
            },
        },
    }
}

fn find_store(marks: &Vec<StoreMarks>) -> (r: Option<usize>)
    ensures
        match r {
            Some(i) => i < marks@.len() && first_store(marks@, 0) == Some(i as int),
            None => first_store(marks@, 0) is None,
        },
{
    let mut i: usize = 0;
    while i < marks.len()
        invariant
            i <= marks@.len(),
            first_store(marks@, 0) == first_store(marks@, i as int),
        decreases marks.len() - i,
    {
        if marks[i].is_store() {
            return Some(i);
        }
        i += 1;
    }
    None
}

fn keep_stores(marks: Vec<StoreMarks>) -> (r: Vec<StoreMarks>)
    ensures
        r@ == stores(marks@),
{
    let ghost given = marks@;
    let mut marks = marks;
    let mut r: Vec<StoreMarks> = Vec::new();
    assert(given.skip(0) =~= given);
    assert(r@ =~= stores(given.take(0))) by {
        reveal(Seq::filter);
    }
    while marks.len() > 0
        invariant
            marks@.len() <= given.len(),
            marks@ == given.skip(given.len() - marks@.len()),
            r@ == stores(given.take(given.len() - marks@.len())),
        decreases marks.len(),
    {
        let ghost k = (given.len() - marks@.len()) as int;
        let mark = marks.remove(0);
        proof {
            reveal(Seq::filter);
            assert(given.take(k + 1).drop_last() =~= given.take(k));
            assert(given.take(k + 1).last() == mark);
            assert(marks@ =~= given.skip(k + 1));
        }
        if mark.is_store() {
            r.push(mark);
        }
    }
    assert(given.take(given.len() as int) =~= given);
    r
}

fn only_child(children: Vec<StoreMarks>) -> (r: Result<String, Error>)
    ensures
        is_only_child(error::viewed(r), children@),
{
    let found = keep_stores(children);
    if found.len() == 0 {
        return Err(
            Error::not_found(
                "store_not_found",
                "No todo store found; pass --root or set OBSIDIAN_TODO_ROOT",
            ),
        );
    }
    if found.len() == 1 {
        return Ok(found[0].path.clone());
    }
    let sorted = order::sort(found);
    let mut names: Vec<String> = Vec::new();
    let mut i: usize = 0;
    while i < sorted.len()
        invariant
            i <= sorted@.len(),
            names@.len() == i,
            forall|k: int| 0 <= k < i ==> (#[trigger] names@[k])@ == sorted@[k].path@,
        decreases sorted.len() - i,
    {
        names.push(sorted[i].path.clone());
        i += 1;
    }
    assert(text::strings(names@) =~= mark_paths(sorted@));
    Err(
        Error::new(
            ErrorKind::Ambiguous,
            "ambiguous_store",
            text::join3(
                "Multiple todo stores found: ",
                text::join(&names, ", ").as_str(),
                "; pass --root",
            ).as_str(),
        ),
    )
}

/// The path that has to be looked at because it was named, if any.
pub open spec fn named_path(options: DiscoveryOptions) -> Option<Seq<char>> {
    match options.explicit_root {
        Some(root) => Some(from_directory(root@, options.current_directory@)),
        None => match options.environment_root {
            Some(root) => Some(from_directory(root@, options.current_directory@)),
            None => None,
        },
    }
}

/// The path that has to be looked at because it was named, if any.
pub fn path_named(options: &DiscoveryOptions) -> (r: Option<String>)
    ensures
        text::opt(r) == named_path(*options),
{
    match &options.explicit_root {
        Some(root) => Some(path_from(root.as_str(), options.current_directory.as_str())),
        None => match &options.environment_root {
            Some(root) => Some(path_from(root.as_str(), options.current_directory.as_str())),
            None => None,
        },
    }
}

/// The path of the store that is meant. See [`is_meant`].
pub fn discover(options: &DiscoveryOptions, named: &NamedRoot, around: Surroundings) -> (r: Result<
    String,
    Error,
>)
    ensures
        is_meant(error::viewed(r), *options, *named, around),
{
    let current = options.current_directory.as_str();
    if let Some(root) = &options.explicit_root {
        return require_store(path_from(root.as_str(), current).as_str(), "--root", named);
    }
    if let Some(root) = &options.environment_root {
        if text::chars(root.as_str()).len() == 0 {
            return Err(
                Error::usage("invalid_root", "OBSIDIAN_TODO_ROOT cannot be empty"),
            );
        }
        return require_store(
            path_from(root.as_str(), current).as_str(),
            "OBSIDIAN_TODO_ROOT",
            named,
        );
    }
    let ancestors = match around.ancestors {
        Ok(ancestors) => ancestors,
        Err(reason) => {
            return Err(Error::io("resolve the current directory", current, reason.as_str()));
        },
    };
    if let Some(i) = find_store(&ancestors) {
        return Ok(ancestors[i].path.clone());
    }
    match around.children {
        Ok(children) => only_child(children),
        Err(fault) => Err(
            Error::io(fault.action.as_str(), fault.path.as_str(), fault.reason.as_str()),
        ),
    }
}

} // verus!
