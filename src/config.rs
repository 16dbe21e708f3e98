//! The setting that records where the managed root directory is.

use vstd::prelude::*;

use crate::fsmodel::{Action, Entry, Observed, Plan, Schedule, Step};
use crate::paths::FsPath;

verus! {

/// The saved configuration: the location of the dotfiles directory.
#[derive(Debug)]
pub struct Config {
    /// Path of the dotfiles directory.
    pub directory: FsPath,
}

/// Why a configuration could not be made or read.
#[derive(Debug)]
pub enum InputError {
    /// The saved settings could not be parsed; the parser's message.
    InvalidToml { message: String },
    /// The given directory is not usable.
    BadInput,
}

/// What setting the dotfiles directory to `path` decides, given what lies at
/// `path`: a missing directory is created, an existing one is taken as it is,
/// and anything else is refused.
pub open spec fn set_dir_decision(path: Seq<Seq<char>>, at_path: Observed) -> Option<Schedule> {
    match at_path {
        Observed::Missing => Some(Schedule { target: path, steps: seq![Step::CreateDirAll(path)] }),
        Observed::Dir => Some(Schedule { target: path, steps: Seq::empty() }),
        _ => None,
    }
}

impl Config {
    /// A configuration for `directory`, which must be a directory.
    ///
    /// `at_directory` is what lies at `directory`.
    pub fn new(directory: FsPath, at_directory: &Entry) -> (r: Result<Config, InputError>)
        ensures
            r matches Ok(c) ==> at_directory@ is Dir && c.directory@ == directory@,
            r matches Err(e) ==> !(at_directory@ is Dir) && e is BadInput,
    {
        match at_directory {
            Entry::Dir => Ok(Config { directory }),
            _ => Err(InputError::BadInput),
        }
    }

    /// Decides how `path` becomes the dotfiles directory: created first when
    /// missing, taken as it is when it is a directory, refused otherwise. The
    /// plan's target is the directory to record.
    ///
    /// `at_path` is what lies at `path`.
    pub fn set_dots_dir(path: FsPath, at_path: &Entry) -> (r: Result<Plan, InputError>)
        ensures
            r matches Ok(p) ==> set_dir_decision(path@, at_path@) == Some(p@),
            r matches Err(e) ==> set_dir_decision(path@, at_path@) is None && e is BadInput,
    {
        match at_path {
            Entry::Missing => {
                let mut plan = Plan::nothing(path.duplicate());
                plan.push(Action::CreateDirAll(path));
                assert(plan@.steps =~= seq![Step::CreateDirAll(plan@.target)]);
                Ok(plan)
            },
            Entry::Dir => Ok(Plan::nothing(path)),
            _ => Err(InputError::BadInput),
        }
    }

    /// Of the candidate locations of the settings file, in order of preference,
    /// the first where one exists.
    ///
    /// `found[i]` tells whether the settings file exists at the `i`-th
    /// candidate.
    pub fn pick_config_file(found: &Vec<bool>) -> (r: Option<usize>)
        ensures
            r matches Some(i) ==> i < found@.len() && found@[i as int] && forall|j: int|
                0 <= j < i ==> !found@[j],
            r is None ==> forall|j: int| 0 <= j < found@.len() ==> !found@[j],
    {
        let mut i: usize = 0;
        while i < found.len()
            invariant
                i <= found@.len(),
                forall|j: int| 0 <= j < i ==> !found@[j],
            decreases found@.len() - i,
        {
            if found[i] {
                return Some(i);
            }
            i = i + 1;
        }
        None
    }
}

} // verus!
