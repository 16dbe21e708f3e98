//! Storing a single file at a chosen location.

use vstd::prelude::*;

use crate::fsmodel::{Action, Plan, Schedule, Step};
use crate::paths::FsPath;

verus! {

/// Moves files and creates links.
#[derive(Debug)]
pub struct FileHandler;

impl FileHandler {
    /// Stores the file at `src` at `dst`, then links `src` to `dst`: the plan
    /// moves the file and creates the link, and reports `dst`.
    pub fn store_file(src: &FsPath, dst: &FsPath) -> (r: Plan)
        ensures
            r@ == (Schedule {
                target: dst@,
                steps: seq![Step::MoveFile(src@, dst@), Step::Symlink(dst@, src@)],
            }),
    {
        let mut plan = Plan::nothing(dst.duplicate());
        plan.push(Action::MoveFile { src: src.duplicate(), dst: dst.duplicate() });
        plan.push(Action::Symlink { target: dst.duplicate(), link: src.duplicate() });
        assert(plan@.steps =~= seq![Step::MoveFile(src@, dst@), Step::Symlink(dst@, src@)]);
        plan
    }
}

} // verus!
