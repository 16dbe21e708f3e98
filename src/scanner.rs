//! Collecting the entries of a directory tree, one entry at a time.

use vstd::prelude::*;

use crate::paths::FsPath;

verus! {

/// The name of the version-control directory that a recursive scan skips.
pub open spec fn skipped_dir() -> Seq<char> {
    seq!['.', 'g', 'i', 't']
}

/// Collects the paths met while walking a directory. The walk itself is the
/// caller's part: it hands each entry to `visit`, which says whether to
/// descend into it.
#[derive(Debug)]
pub struct DirScanner {
    entries: Vec<FsPath>,
    recursive: bool,
}

/// The mathematical content of a `DirScanner`.
pub struct ScanState {
    pub entries: Seq<Seq<Seq<char>>>,
    pub recursive: bool,
}

/// The paths of a sequence of paths.
pub open spec fn path_views(v: Seq<FsPath>) -> Seq<Seq<Seq<char>>> {
    Seq::new(v.len(), |i: int| v[i]@)
}

/// `p` names an entry called `name`.
pub open spec fn is_named(p: Seq<Seq<char>>, name: Seq<char>) -> bool {
    p.len() > 0 && p.last() == name
}

impl View for DirScanner {
    type V = ScanState;

    closed spec fn view(&self) -> ScanState {
        ScanState { entries: path_views(self.entries@), recursive: self.recursive }
    }
}

impl FsPath {
    /// The last component of this path is `name`.
    pub fn is_named(&self, name: &str) -> (r: bool)
        ensures
            r == is_named(self@, name@),
    {
        let n = self.depth();
        if n == 0 {
            return false;
        }
        let last = self.last_component();
        let k = name.unicode_len();
        if last.unicode_len() != k {
            return false;
        }
        let mut i: usize = 0;
        while i < k
            invariant
                k == name@.len() == last@.len(),
                self@.len() > 0,
                last@ == self@.last(),
                i <= k,
                last@.subrange(0, i as int) == name@.subrange(0, i as int),
            decreases k - i,
        {
            if last.get_char(i) != name.get_char(i) {
                assert(last@[i as int] != name@[i as int]);
                return false;
            }
            i = i + 1;
            proof {
                assert(last@.subrange(0, i as int) =~= name@.subrange(0, i as int));
            }
        }
        proof {
            assert(last@ =~= last@.subrange(0, i as int));
            assert(name@ =~= name@.subrange(0, i as int));
        }
        true
    }
}

impl DirScanner {
    /// A scanner that has collected nothing and does not descend.
    pub fn new() -> (r: DirScanner)
        ensures
            r@.entries == Seq::<Seq<Seq<char>>>::empty(),
            !r@.recursive,
    {
        let r = DirScanner { entries: Vec::new(), recursive: false };
        assert(r@.entries =~= Seq::<Seq<Seq<char>>>::empty());
        r
    }

    /// The same scanner, set to descend into subdirectories.
    pub fn recursive(self) -> (r: DirScanner)
        ensures
            r@.entries == self@.entries,
            r@.recursive,
    {
        let mut s = self;
        s.recursive = true;
        s
    }

    /// Records one entry met in the walk and tells whether to descend into it.
    /// A directory met by a recursive scan is descended into, unless it is the
    /// version-control directory, and is not recorded; any other entry is
    /// recorded.
    ///
    /// `is_dir` tells whether `path` is a directory.
    pub fn visit(&mut self, path: FsPath, is_dir: bool) -> (descend: bool)
        ensures
            final(self)@.recursive == old(self)@.recursive,
            old(self)@.recursive && is_dir ==> final(self)@.entries == old(self)@.entries && descend
                == !is_named(path@, skipped_dir()),
            !(old(self)@.recursive && is_dir) ==> final(self)@.entries == old(self)@.entries.push(
                path@,
            ) && !descend,
    {
        if is_dir && self.recursive {
            proof {
                reveal_strlit(".git");
                assert(".git"@ =~= skipped_dir());
            }
            !path.is_named(".git")
        } else {
            proof {
                assert(path_views(self.entries@.push(path)) =~= path_views(self.entries@).push(
                    path@,
                ));
            }
            self.entries.push(path);
            false
        }
    }

    /// The entries recorded so far, in the order they were met.
    pub fn into_entries(self) -> (r: Vec<FsPath>)
        ensures
            path_views(r@) == self@.entries,
    {
        self.entries
    }
}

impl Default for DirScanner {
    fn default() -> (r: DirScanner)
        ensures
            r@.entries == Seq::<Seq<Seq<char>>>::empty(),
            !r@.recursive,
    {
        DirScanner::new()
    }
}

} // verus!
