//! The dotfile operations: storing a file in the managed root, deploying a
//! stored file by linking its original location to it, and restoring it.
//!
//! Each operation takes what it needs to know of the file system as
//! observations (`Entry` values) and returns the actions to perform, or the
//! reason it refuses. Performing the actions is the caller's part.

use vstd::prelude::*;

use crate::fsmodel::{decision, parent_steps, Action, Entry, Observed, Plan, Schedule, Step};
use crate::paths::{is_under, join_full_paths, mirror_of, unmirror, unmirror_of, FsPath};

verus! {

/// Why an operation refused to act.
#[derive(Clone, Copy, Debug, PartialEq, Eq, Structural)]
pub enum DotError {
    /// No managed root directory has been set.
    NoManagedRootConfigured,
    /// The path does not lie under the managed root.
    NotManaged,
    /// Something other than the expected link occupies the destination.
    DestinationExists,
    /// The path to move is not a regular file.
    NotAFile,
}

/// The mathematical content of the managed root setting.
pub open spec fn root_view(root: Option<FsPath>) -> Option<Seq<Seq<char>>> {
    match root {
        Some(r) => Some(r@),
        None => None,
    }
}

/// What `store` decides for `original`, given the managed root and what lies
/// at `original` and at its mirrored location.
pub open spec fn store_decision(
    root: Option<Seq<Seq<char>>>,
    original: Seq<Seq<char>>,
    at_original: Observed,
    at_mirror: Observed,
) -> Result<Schedule, DotError> {
    match root {
        None => Err(DotError::NoManagedRootConfigured),
        Some(r) => {
            let m = mirror_of(r, original);
            if at_original == Observed::Symlink(m) {
                Ok(Schedule { target: m, steps: Seq::empty() })
            } else if !(at_original is File) {
                Err(DotError::NotAFile)
            } else if !(at_mirror is Missing || at_mirror is File) {
                Err(DotError::DestinationExists)
            } else {
                Ok(Schedule { target: m, steps: parent_steps(m).push(Step::MoveFile(original, m)) })
            }
        },
    }
}

/// What `deploy` decides for a link at `original` to `stored`, given what lies
/// at `original`.
pub open spec fn deploy_decision(
    stored: Seq<Seq<char>>,
    original: Seq<Seq<char>>,
    at_original: Observed,
) -> Result<Schedule, DotError> {
    if at_original == Observed::Symlink(stored) {
        Ok(Schedule { target: original, steps: Seq::empty() })
    } else if at_original is Missing {
        Ok(
            Schedule {
                target: original,
                steps: parent_steps(original).push(Step::Symlink(stored, original)),
            },
        )
    } else {
        Err(DotError::DestinationExists)
    }
}

/// What `restore` is given: a deployed link, or a stored file.
#[derive(Debug)]
pub enum RestoreSource {
    /// A link at `link` whose target is the stored file `stored`.
    Deployed { link: FsPath, stored: FsPath },
    /// The stored file `stored`, whose original location is `original`.
    Stored { stored: FsPath, original: FsPath },
}

/// The mathematical content of a `RestoreSource`: the stored file, its
/// original location, and whether a link was given.
pub struct RestoreView {
    pub stored: Seq<Seq<char>>,
    pub original: Seq<Seq<char>>,
    pub deployed: bool,
}

impl View for RestoreSource {
    type V = RestoreView;

    open spec fn view(&self) -> RestoreView {
        match self {
            RestoreSource::Deployed { link, stored } => RestoreView {
                stored: stored@,
                original: link@,
                deployed: true,
            },
            RestoreSource::Stored { stored, original } => RestoreView {
                stored: stored@,
                original: original@,
                deployed: false,
            },
        }
    }
}

/// How `restore` reads `path`, given the managed root and what lies at `path`:
/// a link is the deployed location and its target the stored file; anything
/// else is taken for the stored file itself. Either way the stored file must
/// lie under the root.
pub open spec fn restore_classification(
    root: Option<Seq<Seq<char>>>,
    path: Seq<Seq<char>>,
    at_path: Observed,
) -> Result<RestoreView, DotError> {
    match root {
        None => Err(DotError::NoManagedRootConfigured),
        Some(r) => match at_path {
            Observed::Symlink(s) => if is_under(r, s) {
                Ok(RestoreView { stored: s, original: path, deployed: true })
            } else {
                Err(DotError::NotManaged)
            },
            _ => match unmirror_of(r, path) {
                Err(_) => Err(DotError::NotManaged),
                Ok(o) => if at_path is File {
                    Ok(RestoreView { stored: path, original: o, deployed: false })
                } else {
                    Err(DotError::NotAFile)
                },
            },
        },
    }
}

/// What `restore` decides for `path`, given the managed root, what lies at
/// `path`, and what lies at the original location that `path` stands for.
pub open spec fn restore_decision(
    root: Option<Seq<Seq<char>>>,
    path: Seq<Seq<char>>,
    at_path: Observed,
    at_original: Observed,
) -> Result<Schedule, DotError> {
    match restore_classification(root, path, at_path) {
        Err(e) => Err(e),
        Ok(v) => {
            let clear = if v.deployed || !(at_original is Missing) {
                seq![Step::Remove(v.original)]
            } else {
                Seq::empty()
            };
            Ok(Schedule { target: v.original, steps: clear.push(Step::MoveFile(v.stored, v.original)) })
        },
    }
}

/// Takes the file at `path` into the managed root: it is moved to its mirrored
/// location, whose directory is created first, and that location is returned.
/// A `path` that is already a link to its mirrored location is left as it is.
///
/// `at_original` is what lies at `path`; `at_mirror` is what lies at the
/// mirrored location, `join_full_paths(root, path)`.
pub fn store_dotfile(root: &Option<FsPath>, path: &FsPath, at_original: &Entry, at_mirror: &Entry) -> (r:
    Result<Plan, DotError>)
    ensures
        decision(r) == store_decision(root_view(*root), path@, at_original@, at_mirror@),
{
    let dots_dir = match root {
        Some(d) => d,
        None => {
            return Err(DotError::NoManagedRootConfigured);
        },
    };
    let dst_path = match join_full_paths(dots_dir, path) {
        Ok(p) => p,
        Err(_) => {
            return Err(DotError::NotManaged);
        },
    };
    if let Entry::Symlink(t) = at_original {
        if t.same_as(&dst_path) {
            return Ok(Plan::nothing(dst_path));
        }
    }
    match at_original {
        Entry::File => {},
        _ => {
            return Err(DotError::NotAFile);
        },
    }
    match at_mirror {
        Entry::Missing | Entry::File => {},
        _ => {
            return Err(DotError::DestinationExists);
        },
    }
    let mut plan = Plan::nothing(dst_path.duplicate());
    plan.push_parent_of(&dst_path);
    plan.push(Action::MoveFile { src: path.duplicate(), dst: dst_path });
    Ok(plan)
}

/// Links `dst` to the stored file `src`, creating the directory that holds
/// `dst` first. Nothing is done when `dst` already is such a link; the
/// operation refuses when anything else lies at `dst`.
///
/// `at_dst` is what lies at `dst`.
pub fn deploy_dotfile(src: &FsPath, dst: &FsPath, at_dst: &Entry) -> (r: Result<Plan, DotError>)
    ensures
        decision(r) == deploy_decision(src@, dst@, at_dst@),
{
    if let Entry::Symlink(t) = at_dst {
        if t.same_as(src) {
            return Ok(Plan::nothing(dst.duplicate()));
        }
    }
    match at_dst {
        Entry::Missing => {},
        _ => {
            return Err(DotError::DestinationExists);
        },
    }
    let mut plan = Plan::nothing(dst.duplicate());
    plan.push_parent_of(dst);
    plan.push(Action::Symlink { target: src.duplicate(), link: dst.duplicate() });
    Ok(plan)
}

/// Reads what `restore` was given: a link at `path` is the deployed location
/// and its target the stored file; anything else is taken for the stored file
/// itself, whose original location is found by unmirroring it.
///
/// `at_path` is what lies at `path`.
pub fn classify_restore(root: &Option<FsPath>, path: &FsPath, at_path: &Entry) -> (r: Result<
    RestoreSource,
    DotError,
>)
    ensures
        (match r {
            Ok(s) => Ok(s@),
            Err(e) => Err(e),
        }) == restore_classification(root_view(*root), path@, at_path@),
{
    let dots_dir = match root {
        Some(d) => d,
        None => {
            return Err(DotError::NoManagedRootConfigured);
        },
    };
    match at_path {
        Entry::Symlink(stored) => {
            if stored.starts_with(dots_dir) {
                Ok(RestoreSource::Deployed { link: path.duplicate(), stored: stored.duplicate() })
            } else {
                Err(DotError::NotManaged)
            }
        },
        _ => {
            let original = match unmirror(dots_dir, path) {
                Ok(o) => o,
                Err(_) => {
                    return Err(DotError::NotManaged);
                },
            };
            match at_path {
                Entry::File => Ok(RestoreSource::Stored { stored: path.duplicate(), original }),
                _ => Err(DotError::NotAFile),
            }
        },
    }
}

impl RestoreSource {
    /// The location that the stored file goes back to.
    pub fn original(&self) -> (r: &FsPath)
        ensures
            r@ == self@.original,
    {
        match self {
            RestoreSource::Deployed { link, .. } => link,
            RestoreSource::Stored { original, .. } => original,
        }
    }
}

/// Moves a stored file back to its original location, which is returned. A
/// link given as `path` is removed first; when the stored file itself is given,
/// whatever lies at the original location is removed first.
///
/// `at_path` is what lies at `path`; `at_original` is what lies at the original
/// location, as `classify_restore` finds it.
pub fn restore_dotfile(root: &Option<FsPath>, path: &FsPath, at_path: &Entry, at_original: &Entry) -> (r:
    Result<Plan, DotError>)
    ensures
        decision(r) == restore_decision(root_view(*root), path@, at_path@, at_original@),
{
    let source = match classify_restore(root, path, at_path) {
        Ok(s) => s,
        Err(e) => {
            return Err(e);
        },
    };
    let (src_path, dst_path, deployed) = match source {
        RestoreSource::Deployed { link, stored } => (stored, link, true),
        RestoreSource::Stored { stored, original } => (stored, original, false),
    };
    let mut plan = Plan::nothing(dst_path.duplicate());
    let occupied = match at_original {
        Entry::Missing => false,
        _ => true,
    };
    if deployed || occupied {
        plan.push(Action::Remove(dst_path.duplicate()));
    }
    plan.push(Action::MoveFile { src: src_path, dst: dst_path });
    proof {
        assert(plan@.steps =~= restore_decision(root_view(*root), path@, at_path@, at_original@)->Ok_0.steps);
    }
    Ok(plan)
}

} // verus!
