//! What the operations do to a modelled file system over a dotfile's life:
//! stored, deployed, restored.

use vstd::prelude::*;

use crate::commands::{deploy_decision, restore_decision, store_decision, DotError};
use crate::fsmodel::{
    apply, dirs_ready, is_ancestor_or_self, observe, parent_steps, perform, run, with_dirs, Node, Observed,
    Schedule, Step, Tree,
};
use crate::paths::{is_under, lemma_unmirror_mirror, mirror_of};

verus! {

/// Running steps followed by one more is running the steps, then that one.
pub proof fn lemma_run_push(t: Tree, s: Seq<Step>, x: Step)
    ensures
        run(t, s.push(x)) == (match run(t, s) {
            Some(t1) => apply(t1, x),
            None => None,
        }),
    decreases s.len(),
{
    if s.len() == 0 {
        lemma_run_one(t, x);
        assert(s.push(x) =~= seq![x]);
    } else {
        assert(s.push(x)[0] == s[0]);
        assert(s.push(x).drop_first() =~= s.drop_first().push(x));
        match apply(t, s[0]) {
            Some(t2) => lemma_run_push(t2, s.drop_first(), x),
            None => {},
        }
    }
}

/// Running a single step is applying it.
pub proof fn lemma_run_one(t: Tree, x: Step)
    ensures
        run(t, seq![x]) == apply(t, x),
{
    reveal_with_fuel(run, 2);
    assert(seq![x].drop_first() =~= Seq::<Step>::empty());
}

/// Creating the directory that holds `p`, when it succeeds, gives the tree
/// with that directory and its free ancestors added, and the directory that
/// holds `p` is then a directory.
pub proof fn lemma_parent_steps(t: Tree, p: Seq<Seq<char>>)
    requires
        p.len() > 0,
        run(t, parent_steps(p)) is Some,
    ensures
        run(t, parent_steps(p)) == Some(with_dirs(t, p.drop_last())),
        p.len() == 1 || with_dirs(t, p.drop_last()).get(p.drop_last()) == Some(Node::Dir),
{
    let d = p.drop_last();
    lemma_run_one(t, Step::CreateDirAll(d));
    if p.len() > 1 {
        assert(d == d.subrange(0, d.len() as int));
    }
}

/// After a deploy that went through, `original` is a link to `stored`.
pub proof fn lemma_deploy_links(t: Tree, stored: Seq<Seq<char>>, original: Seq<Seq<char>>)
    requires
        deploy_decision(stored, original, observe(t, original)) is Ok,
        perform(t, deploy_decision(stored, original, observe(t, original))) is Some,
    ensures
        original.len() > 0,
        perform(t, deploy_decision(stored, original, observe(t, original)))->Some_0.get(original)
            == Some(Node::Link(stored)),
{
    if observe(t, original) != Observed::Symlink(stored) {
        lemma_run_push(t, parent_steps(original), Step::Symlink(stored, original));
    }
}

/// Deploying twice with the same arguments leaves the file system as the first
/// deploy left it.
pub proof fn lemma_deploy_idempotent(t: Tree, stored: Seq<Seq<char>>, original: Seq<Seq<char>>)
    requires
        perform(t, deploy_decision(stored, original, observe(t, original))) is Some,
    ensures
        ({
            let t1 = perform(t, deploy_decision(stored, original, observe(t, original)))->Some_0;
            perform(t1, deploy_decision(stored, original, observe(t1, original))) == Some(t1)
        }),
{
    let t1 = perform(t, deploy_decision(stored, original, observe(t, original)))->Some_0;
    if deploy_decision(stored, original, observe(t, original)) is Ok {
        lemma_deploy_links(t, stored, original);
        assert(observe(t1, original) == Observed::Symlink(stored));
        assert(run(t1, Seq::<Step>::empty()) == Some(t1));
    } else {
        assert(t1 == t);
    }
}

/// Deploying onto a regular file is refused, and nothing changes.
pub proof fn lemma_deploy_refuses_file(t: Tree, stored: Seq<Seq<char>>, original: Seq<Seq<char>>)
    requires
        observe(t, original) == Observed::File,
    ensures
        deploy_decision(stored, original, observe(t, original)) == Err::<Schedule, DotError>(
            DotError::DestinationExists,
        ),
        perform(t, deploy_decision(stored, original, observe(t, original))) == Some(t),
{
}

/// A store that went through and found no link to the mirrored location at
/// `p` moved a regular file: the tree after it is the tree with the mirrored
/// location's directory created, the file's bytes at the mirrored location,
/// and nothing at `p`.
pub proof fn lemma_store_moves(t: Tree, root: Seq<Seq<char>>, p: Seq<Seq<char>>)
    requires
        observe(t, p) != Observed::Symlink(mirror_of(root, p)),
        store_decision(Some(root), p, observe(t, p), observe(t, mirror_of(root, p))) is Ok,
        perform(t, store_decision(Some(root), p, observe(t, p), observe(t, mirror_of(root, p))))
            is Some,
    ensures
        ({
            let m = mirror_of(root, p);
            let t1 = perform(t, store_decision(Some(root), p, observe(t, p), observe(t, m)))->Some_0;
            &&& p.len() > 0
            &&& t.get(p) is Some
            &&& t.get(p)->Some_0 is File
            &&& t1 == with_dirs(t, m.drop_last()).insert(m, t.get(p)->Some_0).remove(p)
        }),
{
    let m = mirror_of(root, p);
    lemma_run_push(t, parent_steps(m), Step::MoveFile(p, m));
    lemma_parent_steps(t, m);
}

/// After a store goes through, nothing at all is left at the stored path,
/// unless it already was a link to its mirrored location.
pub proof fn lemma_store_removes_source(t: Tree, root: Seq<Seq<char>>, p: Seq<Seq<char>>)
    requires
        observe(t, p) != Observed::Symlink(mirror_of(root, p)),
        perform(t, store_decision(Some(root), p, observe(t, p), observe(t, mirror_of(root, p))))
            is Some,
    ensures
        ({
            let t1 = perform(
                t,
                store_decision(Some(root), p, observe(t, p), observe(t, mirror_of(root, p))),
            )->Some_0;
            store_decision(Some(root), p, observe(t, p), observe(t, mirror_of(root, p))) is Ok
                ==> !t1.contains_key(p)
        }),
{
    if store_decision(Some(root), p, observe(t, p), observe(t, mirror_of(root, p))) is Ok {
        lemma_store_moves(t, root, p);
    }
}

/// Storing a path that is already stored and deployed reports its mirrored
/// location and changes nothing, so a second store reports the same location
/// and changes nothing either.
pub proof fn lemma_store_idempotent(t: Tree, root: Seq<Seq<char>>, p: Seq<Seq<char>>)
    requires
        p.len() > 0,
        t.get(p) == Some(Node::Link(mirror_of(root, p))),
    ensures
        ({
            let d = store_decision(Some(root), p, observe(t, p), observe(t, mirror_of(root, p)));
            &&& d == Ok::<Schedule, DotError>(
                Schedule { target: mirror_of(root, p), steps: Seq::empty() },
            )
            &&& perform(t, d) == Some(t)
        }),
{
    assert(run(t, Seq::<Step>::empty()) == Some(t));
}

/// Store, then deploy what was stored, then store again: the second store
/// reports the location that the first one reported and changes nothing.
pub proof fn lemma_store_deploy_store(t: Tree, root: Seq<Seq<char>>, p: Seq<Seq<char>>)
    requires
        store_decision(Some(root), p, observe(t, p), observe(t, mirror_of(root, p))) is Ok,
        perform(t, store_decision(Some(root), p, observe(t, p), observe(t, mirror_of(root, p))))
            is Some,
        ({
            let m = mirror_of(root, p);
            let t1 = perform(t, store_decision(Some(root), p, observe(t, p), observe(t, m)))->Some_0;
            perform(t1, deploy_decision(m, p, observe(t1, p))) is Some
        }),
    ensures
        ({
            let m = mirror_of(root, p);
            let d1 = store_decision(Some(root), p, observe(t, p), observe(t, m));
            let t1 = perform(t, d1)->Some_0;
            let t2 = perform(t1, deploy_decision(m, p, observe(t1, p)))->Some_0;
            let d3 = store_decision(Some(root), p, observe(t2, p), observe(t2, m));
            &&& d3 is Ok
            &&& d3->Ok_0.target == d1->Ok_0.target
            &&& perform(t2, d3) == Some(t2)
        }),
{
    let m = mirror_of(root, p);
    let d1 = store_decision(Some(root), p, observe(t, p), observe(t, m));
    let t1 = perform(t, d1)->Some_0;
    let t2 = perform(t1, deploy_decision(m, p, observe(t1, p)))->Some_0;
    if deploy_decision(m, p, observe(t1, p)) is Ok {
        lemma_deploy_links(t1, m, p);
        lemma_store_idempotent(t2, root, p);
    } else {
        // A refused deploy means `p` was neither free nor a link to `m`.
        if observe(t, p) == Observed::Symlink(m) {
            assert(t1 == t);
        } else {
            lemma_store_moves(t, root, p);
            assert(observe(t1, p) == Observed::Missing);
        }
    }
}

/// A file stored, deployed, and then restored from its stored location is
/// back where it was, as a regular file with the same bytes, and nothing is
/// left at the stored location.
pub proof fn lemma_store_deploy_restore(t: Tree, root: Seq<Seq<char>>, p: Seq<Seq<char>>, bytes: Seq<u8>)
    requires
        t.get(p) == Some(Node::File(bytes)),
        store_decision(Some(root), p, observe(t, p), observe(t, mirror_of(root, p))) is Ok,
        perform(t, store_decision(Some(root), p, observe(t, p), observe(t, mirror_of(root, p))))
            is Some,
        ({
            let m = mirror_of(root, p);
            let t1 = perform(t, store_decision(Some(root), p, observe(t, p), observe(t, m)))->Some_0;
            &&& deploy_decision(m, p, observe(t1, p)) is Ok
            &&& perform(t1, deploy_decision(m, p, observe(t1, p))) is Some
            &&& {
                let t2 = perform(t1, deploy_decision(m, p, observe(t1, p)))->Some_0;
                perform(t2, restore_decision(Some(root), m, observe(t2, m), observe(t2, p))) is Some
            }
        }),
    ensures
        ({
            let m = mirror_of(root, p);
            let t1 = perform(t, store_decision(Some(root), p, observe(t, p), observe(t, m)))->Some_0;
            let t2 = perform(t1, deploy_decision(m, p, observe(t1, p)))->Some_0;
            let d3 = restore_decision(Some(root), m, observe(t2, m), observe(t2, p));
            let t3 = perform(t2, d3)->Some_0;
            &&& d3 is Ok
            &&& d3->Ok_0.target == p
            &&& t3.get(p) == Some(Node::File(bytes))
            &&& !t3.contains_key(m)
        }),
{
    let m = mirror_of(root, p);
    let t1 = perform(t, store_decision(Some(root), p, observe(t, p), observe(t, m)))->Some_0;
    lemma_store_moves(t, root, p);
    assert(!t1.contains_key(p));
    assert(observe(t1, p) == Observed::Missing);
    let t2 = perform(t1, deploy_decision(m, p, observe(t1, p)))->Some_0;
    lemma_run_push(t1, parent_steps(p), Step::Symlink(m, p));
    lemma_parent_steps(t1, p);
    let ta = with_dirs(t1, p.drop_last());
    assert(t2 == ta.insert(p, Node::Link(m)));
    lemma_unmirror_mirror(root, p);
    let d3 = restore_decision(Some(root), m, observe(t2, m), observe(t2, p));
    if m == p {
        // The root is `/`: the deployed link points at itself and the
        // restore cannot go through.
        assert(observe(t2, m) == Observed::Symlink(m));
        let steps = seq![Step::Remove(p)].push(Step::MoveFile(m, p));
        assert(d3->Ok_0.steps == steps);
        lemma_run_push(t2, seq![Step::Remove(p)], Step::MoveFile(m, p));
        lemma_run_one(t2, Step::Remove(p));
        assert(false);
    } else {
        assert(t1.get(m) == Some(Node::File(bytes)));
        assert(t2.get(m) == Some(Node::File(bytes)));
        assert(observe(t2, m) == Observed::File);
        assert(observe(t2, p) == Observed::Symlink(m));
        let steps = seq![Step::Remove(p)].push(Step::MoveFile(m, p));
        assert(d3->Ok_0.steps == steps);
        lemma_run_push(t2, seq![Step::Remove(p)], Step::MoveFile(m, p));
        lemma_run_one(t2, Step::Remove(p));
    }
}

/// Store, deploy, and restore from the stored location all go through when
/// the root is not `/`, the file is a regular file, the ancestors of the file
/// and of its mirrored location are directories or free, and the mirrored
/// location is free or a regular file.
pub proof fn lemma_store_deploy_restore_succeeds(
    t: Tree,
    root: Seq<Seq<char>>,
    p: Seq<Seq<char>>,
    bytes: Seq<u8>,
)
    requires
        root.len() > 0,
        p.len() > 0,
        t.get(p) == Some(Node::File(bytes)),
        dirs_ready(t, p.drop_last()),
        dirs_ready(t, mirror_of(root, p).drop_last()),
        match t.get(mirror_of(root, p)) {
            None => true,
            Some(n) => n is File,
        },
    ensures
        ({
            let m = mirror_of(root, p);
            let d1 = store_decision(Some(root), p, observe(t, p), observe(t, m));
            &&& d1 is Ok
            &&& perform(t, d1) is Some
            &&& {
                let t1 = perform(t, d1)->Some_0;
                let d2 = deploy_decision(m, p, observe(t1, p));
                &&& d2 is Ok
                &&& perform(t1, d2) is Some
                &&& {
                    let t2 = perform(t1, d2)->Some_0;
                    let d3 = restore_decision(Some(root), m, observe(t2, m), observe(t2, p));
                    &&& d3 is Ok
                    &&& perform(t2, d3) is Some
                }
            }
        }),
{
    let m = mirror_of(root, p);
    let md = m.drop_last();
    let pd = p.drop_last();
    // Store.
    assert(observe(t, p) == Observed::File);
    let d1 = store_decision(Some(root), p, observe(t, p), observe(t, m));
    assert(d1 is Ok);
    lemma_run_one(t, Step::CreateDirAll(md));
    let ta = with_dirs(t, md);
    assert(!is_ancestor_or_self(m, md));
    assert(ta.get(p) == Some(Node::File(bytes)));
    assert(md.subrange(0, md.len() as int) =~= md);
    assert(is_ancestor_or_self(md, md));
    assert(ta.get(md) == Some(Node::Dir));
    assert(apply(ta, Step::MoveFile(p, m)) is Some);
    lemma_run_push(t, parent_steps(m), Step::MoveFile(p, m));
    let t1 = ta.insert(m, Node::File(bytes)).remove(p);
    assert(perform(t, d1) == Some(t1));
    // Deploy.
    assert(p != m);
    assert(observe(t1, p) == Observed::Missing);
    let d2 = deploy_decision(m, p, observe(t1, p));
    assert forall|q: Seq<Seq<char>>| is_ancestor_or_self(q, pd) && #[trigger] t1.contains_key(q) implies t1[q] is Dir by {
        assert(q != p && q != m);
        assert(ta.contains_key(q));
        if t.contains_key(q) {
            assert(t[q] is Dir);
        }
    }
    assert(dirs_ready(t1, pd));
    lemma_run_one(t1, Step::CreateDirAll(pd));
    let tb = with_dirs(t1, pd);
    assert(!is_ancestor_or_self(p, pd));
    assert(!tb.contains_key(p));
    if p.len() > 1 {
        assert(pd.subrange(0, pd.len() as int) =~= pd);
        assert(is_ancestor_or_self(pd, pd));
        assert(tb.get(pd) == Some(Node::Dir));
    }
    assert(apply(tb, Step::Symlink(m, p)) is Some);
    lemma_run_push(t1, parent_steps(p), Step::Symlink(m, p));
    let t2 = tb.insert(p, Node::Link(m));
    assert(perform(t1, d2) == Some(t2));
    // Restore.
    assert(!is_ancestor_or_self(m, pd));
    assert(t2.get(m) == Some(Node::File(bytes)));
    lemma_unmirror_mirror(root, p);
    assert(observe(t2, m) == Observed::File);
    assert(observe(t2, p) == Observed::Symlink(m));
    let d3 = restore_decision(Some(root), m, observe(t2, m), observe(t2, p));
    let steps = seq![Step::Remove(p)].push(Step::MoveFile(m, p));
    assert(d3->Ok_0.steps == steps);
    lemma_run_push(t2, seq![Step::Remove(p)], Step::MoveFile(m, p));
    lemma_run_one(t2, Step::Remove(p));
    let tc = t2.remove(p);
    if p.len() > 1 {
        assert(tc.get(pd) == Some(Node::Dir));
    }
    assert(apply(tc, Step::MoveFile(m, p)) is Some);
}

/// Restoring a path that is neither a link nor under the managed root is
/// refused as not managed, and nothing changes.
pub proof fn lemma_restore_refuses_unmanaged(t: Tree, root: Seq<Seq<char>>, path: Seq<Seq<char>>, at_original: Observed)
    requires
        !is_under(root, path),
        !(observe(t, path) is Symlink),
    ensures
        restore_decision(Some(root), path, observe(t, path), at_original) == Err::<Schedule, DotError>(
            DotError::NotManaged,
        ),
        perform(t, restore_decision(Some(root), path, observe(t, path), at_original)) == Some(t),
{
}

/// A file stored, deployed, and then restored through its link is back where
/// it was, as a regular file with the same bytes, and nothing is left at the
/// stored location.
pub proof fn lemma_store_deploy_restore_link(t: Tree, root: Seq<Seq<char>>, p: Seq<Seq<char>>, bytes: Seq<u8>)
    requires
        t.get(p) == Some(Node::File(bytes)),
        store_decision(Some(root), p, observe(t, p), observe(t, mirror_of(root, p))) is Ok,
        perform(t, store_decision(Some(root), p, observe(t, p), observe(t, mirror_of(root, p))))
            is Some,
        ({
            let m = mirror_of(root, p);
            let t1 = perform(t, store_decision(Some(root), p, observe(t, p), observe(t, m)))->Some_0;
            &&& deploy_decision(m, p, observe(t1, p)) is Ok
            &&& perform(t1, deploy_decision(m, p, observe(t1, p))) is Some
            &&& {
                let t2 = perform(t1, deploy_decision(m, p, observe(t1, p)))->Some_0;
                perform(t2, restore_decision(Some(root), p, observe(t2, p), observe(t2, p))) is Some
            }
        }),
    ensures
        ({
            let m = mirror_of(root, p);
            let t1 = perform(t, store_decision(Some(root), p, observe(t, p), observe(t, m)))->Some_0;
            let t2 = perform(t1, deploy_decision(m, p, observe(t1, p)))->Some_0;
            let d3 = restore_decision(Some(root), p, observe(t2, p), observe(t2, p));
            let t3 = perform(t2, d3)->Some_0;
            &&& d3 is Ok
            &&& d3->Ok_0.target == p
            &&& t3.get(p) == Some(Node::File(bytes))
            &&& !t3.contains_key(m)
        }),
{
    let m = mirror_of(root, p);
    let t1 = perform(t, store_decision(Some(root), p, observe(t, p), observe(t, m)))->Some_0;
    lemma_store_moves(t, root, p);
    assert(!t1.contains_key(p));
    assert(observe(t1, p) == Observed::Missing);
    let t2 = perform(t1, deploy_decision(m, p, observe(t1, p)))->Some_0;
    lemma_run_push(t1, parent_steps(p), Step::Symlink(m, p));
    lemma_parent_steps(t1, p);
    let ta = with_dirs(t1, p.drop_last());
    assert(t2 == ta.insert(p, Node::Link(m)));
    assert(observe(t2, p) == Observed::Symlink(m));
    assert(m.subrange(0, root.len() as int) =~= root);
    assert(is_under(root, m));
    let d3 = restore_decision(Some(root), p, observe(t2, p), observe(t2, p));
    let steps = seq![Step::Remove(p)].push(Step::MoveFile(m, p));
    assert(d3->Ok_0.steps == steps);
    lemma_run_push(t2, seq![Step::Remove(p)], Step::MoveFile(m, p));
    lemma_run_one(t2, Step::Remove(p));
    if m == p {
        // The root is `/`: the link points at itself and the restore cannot
        // go through.
        assert(false);
    } else {
        assert(t1.get(m) == Some(Node::File(bytes)));
        assert(t2.get(m) == Some(Node::File(bytes)));
    }
}

} // verus!
