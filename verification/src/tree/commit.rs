//! The finalization pass: walk the modified nodes bottom-up, recompute
//! their digests, hand each newly clean node to a persistence hook, and
//! clear the modification markers.

use vstd::prelude::*;
use super::node::{Tree, Link, link_digest_exec};
use super::source::PersistError;
use crate::digest::node_digest_exec;

verus! {

/// The persistence side of a commit: a hook invoked once per newly clean
/// node, child before parent.
pub trait Commit {
    /// Whether this committer's hook is known never to fail.
    spec fn infallible() -> bool;

    /// The per-node persistence hook.
    fn on_commit(&mut self, tree: &Tree) -> (r: Result<(), PersistError>)
        ensures
            Self::infallible() ==> r is Ok,
    ;
}

/// The in-memory-only committer: its hook does nothing and never fails.
pub struct NoopCommit {}

impl Commit for NoopCommit {
    open spec fn infallible() -> bool {
        true
    }

    fn on_commit(&mut self, tree: &Tree) -> (r: Result<(), PersistError>) {
        Ok(())
    }
}

/// Two trees with the same keys, values, heights and link structure; they
/// may differ in cached digests and modification markers.
pub open spec fn same_skeleton(a: Tree, b: Tree) -> bool
    decreases a,
{
    &&& a.key@ == b.key@
    &&& a.value@ == b.value@
    &&& a.height == b.height
    &&& link_skel_eq(a.left, b.left)
    &&& link_skel_eq(a.right, b.right)
}

pub open spec fn link_skel_eq(a: Option<Link>, b: Option<Link>) -> bool
    decreases a,
{
    match (a, b) {
        (None, None) => true,
        (Some(Link::Resident(x)), Some(Link::Resident(y))) => same_skeleton(*x, *y),
        (Some(Link::Pruned(p)), Some(Link::Pruned(q))) => p == q,
        _ => false,
    }
}

pub proof fn lemma_skeleton_refl(a: Tree)
    ensures
        same_skeleton(a, a),
    decreases a,
{
    match a.left {
        Some(Link::Resident(x)) => lemma_skeleton_refl(*x),
        _ => {},
    }
    match a.right {
        Some(Link::Resident(x)) => lemma_skeleton_refl(*x),
        _ => {},
    }
}

/// Trees of the same skeleton represent the same map, have the same size,
/// hold the same pruned references, and are equally well-formed and equally
/// resident. In particular a commit, which preserves the skeleton, leaves
/// every pruned reference — and so its recorded digest — exactly as it was.
pub proof fn lemma_skeleton_congruence(a: Tree, b: Tree)
    requires
        same_skeleton(a, b),
    ensures
        a.contents() == b.contents(),
        a.spec_size() == b.spec_size(),
        a.wf() == b.wf(),
        a.resident() == b.resident(),
        forall|p: super::node::PrunedRef|
            super::node::has_pruned_ref(a, p) == super::node::has_pruned_ref(b, p),
    decreases a,
{
    lemma_link_skel_congruence(a.left, b.left);
    lemma_link_skel_congruence(a.right, b.right);
    assert(a.contents() =~= b.contents());
    assert(a.wf() == b.wf());
    assert forall|p: super::node::PrunedRef|
        super::node::has_pruned_ref(a, p) == super::node::has_pruned_ref(b, p) by {
        assert(super::node::link_has_pruned(a.left, p) == super::node::link_has_pruned(
            b.left,
            p,
        ));
        assert(super::node::link_has_pruned(a.right, p) == super::node::link_has_pruned(
            b.right,
            p,
        ));
    }
}

/// As `lemma_skeleton_congruence`, one link at a time.
pub proof fn lemma_link_skel_congruence(a: Option<Link>, b: Option<Link>)
    requires
        link_skel_eq(a, b),
    ensures
        super::node::link_contents(a) == super::node::link_contents(b),
        super::node::link_height(a) == super::node::link_height(b),
        super::node::link_size(a) == super::node::link_size(b),
        super::node::link_wf(a) == super::node::link_wf(b),
        super::node::link_resident(a) == super::node::link_resident(b),
        forall|p: super::node::PrunedRef|
            super::node::link_has_pruned(a, p) == super::node::link_has_pruned(b, p),
    decreases a,
{
    match (a, b) {
        (Some(Link::Resident(x)), Some(Link::Resident(y))) => {
            lemma_skeleton_congruence(*x, *y);
            assert forall|p: super::node::PrunedRef|
                super::node::link_has_pruned(a, p) == super::node::link_has_pruned(b, p) by {
                assert(super::node::has_pruned_ref(*x, p) == super::node::has_pruned_ref(
                    *y,
                    p,
                ));
            }
        },
        _ => {},
    }
}

impl Tree {
    /// Commit this subtree: recompute the digest of every modified node,
    /// children first, hand each to the hook, and clear its marker. Clean
    /// subtrees are skipped whole, so committing twice in a row does no
    /// work the second time and leaves the tree — and its root digest —
    /// unchanged. A hook error aborts the walk; nodes already committed
    /// stay committed.
    pub fn commit<C: Commit>(&mut self, c: &mut C) -> (res: Result<(), PersistError>)
        requires
            old(self).hash_inv(),
        ensures
            final(self).hash_inv(),
            same_skeleton(*final(self), *old(self)),
            res is Ok ==> final(self).clean() && final(self).hash == final(self).computed_digest(),
            old(self).clean() ==> res is Ok && *final(self) == *old(self),
            C::infallible() ==> res is Ok,
        decreases old(self).spec_size(),
    {
        if !self.modified {
            proof {
                lemma_skeleton_refl(*self);
            }
            return Ok(());
        }
        let l = self.left.take();
        match l {
            Some(Link::Resident(mut t)) => {
                let r = (&mut *t).commit(c);
                self.left = Some(Link::Resident(t));
                match r {
                    Err(e) => {
                        proof {
                            match old(self).right {
                                Some(Link::Resident(x)) => lemma_skeleton_refl(*x),
                                _ => {},
                            }
                        }
                        return Err(e);
                    },
                    Ok(()) => {},
                }
            },
            other => {
                self.left = other;
            },
        }
        let rl = self.right.take();
        match rl {
            Some(Link::Resident(mut t)) => {
                let r = (&mut *t).commit(c);
                self.right = Some(Link::Resident(t));
                match r {
                    Err(e) => {
                        proof {
                            match old(self).left {
                                Some(Link::Resident(x)) => lemma_skeleton_refl(*x),
                                _ => {},
                            }
                        }
                        return Err(e);
                    },
                    Ok(()) => {},
                }
            },
            other => {
                self.right = other;
            },
        }
        let lh = link_digest_exec(&self.left);
        let rh = link_digest_exec(&self.right);
        self.hash = node_digest_exec(&self.key, &self.value, lh, rh);
        let hr = c.on_commit(self);
        match hr {
            Err(e) => {
                return Err(e);
            },
            Ok(()) => {},
        }
        self.modified = false;
        Ok(())
    }
}

} // verus!
