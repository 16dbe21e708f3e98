//! A model of the part of a file system that dotfile management touches, the
//! observations that the operations make of it, and the actions they request.
//!
//! A tree maps absolute paths (other than `/`, which is always a directory)
//! to what lies there. Paths are taken literally: they are assumed to hold no
//! symbolic link among their ancestors.

use vstd::prelude::*;

use crate::paths::{parent_of, FsPath};

verus! {

/// What a location of the modelled tree holds.
pub enum Node {
    /// A regular file and its bytes.
    File(Seq<u8>),
    /// A directory.
    Dir,
    /// A symbolic link and its recorded target.
    Link(Seq<Seq<char>>),
}

/// The modelled file system: every occupied location below `/` and its node.
pub type Tree = Map<Seq<Seq<char>>, Node>;

/// What an inspection of a location reports, without following a symbolic
/// link found there.
#[derive(Debug)]
pub enum Entry {
    /// Nothing is there.
    Missing,
    /// A regular file.
    File,
    /// A directory.
    Dir,
    /// A symbolic link whose recorded target is this absolute path.
    Symlink(FsPath),
    /// Anything else, such as a link whose target is not an absolute path.
    Other,
}

/// The mathematical content of an `Entry`.
pub enum Observed {
    Missing,
    File,
    Dir,
    Symlink(Seq<Seq<char>>),
    Other,
}

impl View for Entry {
    type V = Observed;

    open spec fn view(&self) -> Observed {
        match self {
            Entry::Missing => Observed::Missing,
            Entry::File => Observed::File,
            Entry::Dir => Observed::Dir,
            Entry::Symlink(t) => Observed::Symlink(t@),
            Entry::Other => Observed::Other,
        }
    }
}

/// What an inspection of `p` in tree `t` reports.
pub open spec fn observe(t: Tree, p: Seq<Seq<char>>) -> Observed {
    if p.len() == 0 {
        Observed::Dir
    } else {
        match t.get(p) {
            None => Observed::Missing,
            Some(Node::File(_)) => Observed::File,
            Some(Node::Dir) => Observed::Dir,
            Some(Node::Link(target)) => Observed::Symlink(target),
        }
    }
}

/// A change to the file system that an operation asks for.
#[derive(Debug)]
pub enum Action {
    /// Create a directory and every missing ancestor of it.
    CreateDirAll(FsPath),
    /// Write the bytes of the regular file `src` to `dst` (created, or
    /// truncated if it is a regular file), then remove `src`.
    MoveFile { src: FsPath, dst: FsPath },
    /// Create a symbolic link at `link` whose recorded target is `target`.
    Symlink { target: FsPath, link: FsPath },
    /// Remove the regular file or symbolic link at a path.
    Remove(FsPath),
}

/// The mathematical content of an `Action`.
pub enum Step {
    CreateDirAll(Seq<Seq<char>>),
    MoveFile(Seq<Seq<char>>, Seq<Seq<char>>),
    Symlink(Seq<Seq<char>>, Seq<Seq<char>>),
    Remove(Seq<Seq<char>>),
}

impl View for Action {
    type V = Step;

    open spec fn view(&self) -> Step {
        match self {
            Action::CreateDirAll(d) => Step::CreateDirAll(d@),
            Action::MoveFile { src, dst } => Step::MoveFile(src@, dst@),
            Action::Symlink { target, link } => Step::Symlink(target@, link@),
            Action::Remove(p) => Step::Remove(p@),
        }
    }
}

/// The steps of a sequence of actions.
pub open spec fn steps_of(v: Seq<Action>) -> Seq<Step> {
    Seq::new(v.len(), |i: int| v[i]@)
}

/// What an operation decided to do: the actions to perform, in order, and the
/// path that the operation reports once they are done.
#[derive(Debug)]
pub struct Plan {
    pub target: FsPath,
    pub actions: Vec<Action>,
}

/// The mathematical content of a `Plan`.
pub struct Schedule {
    pub target: Seq<Seq<char>>,
    pub steps: Seq<Step>,
}

impl View for Plan {
    type V = Schedule;

    open spec fn view(&self) -> Schedule {
        Schedule { target: self.target@, steps: steps_of(self.actions@) }
    }
}

/// The prefix of `d` made of its first `k` components.
pub open spec fn ancestor(d: Seq<Seq<char>>, k: int) -> Seq<Seq<char>> {
    d.subrange(0, k)
}

/// `q` is `d` or one of its ancestors below `/`.
pub open spec fn is_ancestor_or_self(q: Seq<Seq<char>>, d: Seq<Seq<char>>) -> bool {
    1 <= q.len() <= d.len() && q == ancestor(d, q.len() as int)
}

/// Every location on the way down to `d`, `d` included, is free or a
/// directory.
pub open spec fn dirs_ready(t: Tree, d: Seq<Seq<char>>) -> bool {
    forall|q: Seq<Seq<char>>|
        is_ancestor_or_self(q, d) && #[trigger] t.contains_key(q) ==> t[q] is Dir
}

/// `t` with a directory at `d` and at each of its ancestors that was free.
pub open spec fn with_dirs(t: Tree, d: Seq<Seq<char>>) -> Tree {
    Map::new(
        |q: Seq<Seq<char>>| t.contains_key(q) || is_ancestor_or_self(q, d),
        |q: Seq<Seq<char>>|
            if t.contains_key(q) {
                t[q]
            } else {
                Node::Dir
            },
    )
}

/// The directory that would hold `p` exists.
pub open spec fn parent_is_dir(t: Tree, p: Seq<Seq<char>>) -> bool {
    p.len() >= 1 && (p.len() == 1 || t.get(p.drop_last()) == Some(Node::Dir))
}

/// The tree after one step, or `None` when the step fails.
pub open spec fn apply(t: Tree, s: Step) -> Option<Tree> {
    match s {
        Step::CreateDirAll(d) => if dirs_ready(t, d) {
            Some(with_dirs(t, d))
        } else {
            None
        },
        Step::MoveFile(src, dst) => match t.get(src) {
            Some(Node::File(bytes)) => if parent_is_dir(t, dst) && (match t.get(dst) {
                None => true,
                Some(n) => n is File,
            }) {
                Some(t.insert(dst, Node::File(bytes)).remove(src))
            } else {
                None
            },
            _ => None,
        },
        Step::Symlink(target, link) => if !t.contains_key(link) && parent_is_dir(t, link) {
            Some(t.insert(link, Node::Link(target)))
        } else {
            None
        },
        Step::Remove(p) => match t.get(p) {
            Some(Node::File(_)) => Some(t.remove(p)),
            Some(Node::Link(_)) => Some(t.remove(p)),
            _ => None,
        },
    }
}

/// The tree after the steps, performed in order and stopping at the first
/// that fails; `None` when one fails.
pub open spec fn run(t: Tree, steps: Seq<Step>) -> Option<Tree>
    decreases steps.len(),
{
    if steps.len() == 0 {
        Some(t)
    } else {
        match apply(t, steps[0]) {
            Some(t2) => run(t2, steps.drop_first()),
            None => None,
        }
    }
}

/// The tree after an operation that decided `r`: its steps when it planned,
/// the tree unchanged when it refused.
pub open spec fn perform<E>(t: Tree, r: Result<Schedule, E>) -> Option<Tree> {
    match r {
        Ok(s) => run(t, s.steps),
        Err(_) => Some(t),
    }
}

/// The step that makes sure the directory holding `p` exists, if `p` has one.
pub open spec fn parent_steps(p: Seq<Seq<char>>) -> Seq<Step> {
    match parent_of(p) {
        Some(d) => seq![Step::CreateDirAll(d)],
        None => Seq::empty(),
    }
}

/// The mathematical content of an operation's decision.
pub open spec fn decision<E>(r: Result<Plan, E>) -> Result<Schedule, E> {
    match r {
        Ok(p) => Ok(p@),
        Err(e) => Err(e),
    }
}

/// The steps of actions with one more pushed are the steps with its step
/// pushed.
pub proof fn lemma_steps_push(v: Seq<Action>, a: Action)
    ensures
        steps_of(v.push(a)) == steps_of(v).push(a@),
{
    assert(steps_of(v.push(a)) =~= steps_of(v).push(a@));
}

impl Plan {
    /// A plan that reports `target` and changes nothing.
    pub fn nothing(target: FsPath) -> (r: Plan)
        ensures
            r@ == (Schedule { target: target@, steps: Seq::empty() }),
    {
        let r = Plan { target, actions: Vec::new() };
        assert(r@.steps =~= Seq::<Step>::empty());
        r
    }

    /// Appends an action to the plan.
    pub fn push(&mut self, a: Action)
        ensures
            final(self)@ == (Schedule { target: old(self)@.target, steps: old(self)@.steps.push(a@) }),
    {
        proof {
            lemma_steps_push(self.actions@, a);
        }
        self.actions.push(a);
    }

    /// Appends the action that creates the directory holding `p`, if `p` has
    /// one.
    pub fn push_parent_of(&mut self, p: &FsPath)
        ensures
            final(self)@ == (Schedule {
                target: old(self)@.target,
                steps: old(self)@.steps + parent_steps(p@),
            }),
    {
        match p.parent() {
            Some(d) => {
                self.push(Action::CreateDirAll(d));
                assert(self@.steps =~= old(self)@.steps + parent_steps(p@));
            },
            None => {
                assert(self@.steps =~= old(self)@.steps + parent_steps(p@));
            },
        }
    }
}

} // verus!
