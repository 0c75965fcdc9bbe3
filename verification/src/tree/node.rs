//! Node and link representation of the tree, with its mathematical model:
//! contents as a map from keys to values, well-formedness (ordering, height
//! bookkeeping, AVL balance) and the digest invariant.

use vstd::prelude::*;
use crate::bytes::lex_lt;
use crate::digest::node_digest;

verus! {

/// A single operation of a batch: write a value under a key, or remove it.
pub enum Op {
    Put(Vec<u8>),
    Delete,
}

/// One entry of a batch: a key paired with the operation on it.
pub type BatchEntry = (Vec<u8>, Op);

/// An ordered, deduplicated list of operations.
pub type Batch = Vec<BatchEntry>;

/// A reference to a subtree evicted from memory: what is needed to
/// authenticate it (digest), place and rebalance around it (root key,
/// height), and account for it (entry count). The ghost field records the
/// map the evicted subtree represented, so that contracts can still speak
/// of the whole tree.
pub struct PrunedRef {
    pub key: Vec<u8>,
    pub hash: u64,
    pub size: u64,
    pub height: u64,
    pub shadow: Ghost<Map<Seq<u8>, Seq<u8>>>,
}

/// A parent-to-child edge: an owned resident subtree, or a pruned reference
/// that a `Source` must resolve before the subtree can be read or changed.
pub enum Link {
    Resident(Box<Tree>),
    Pruned(PrunedRef),
}

/// A tree node. The cached digest is valid only while `modified` is false.
pub struct Tree {
    pub key: Vec<u8>,
    pub value: Vec<u8>,
    pub hash: u64,
    pub height: u64,
    pub modified: bool,
    pub left: Option<Link>,
    pub right: Option<Link>,
}

/// Height of the subtree behind a link; an absent child has height 0.
pub open spec fn link_height(ol: Option<Link>) -> nat
    decreases ol,
{
    match ol {
        None => 0,
        Some(Link::Resident(t)) => t.height as nat,
        Some(Link::Pruned(p)) => p.height as nat,
    }
}

/// Number of entries in the subtree behind a link.
pub open spec fn link_size(ol: Option<Link>) -> nat
    decreases ol,
{
    match ol {
        None => 0,
        Some(Link::Resident(t)) => t.spec_size(),
        Some(Link::Pruned(p)) => p.size as nat,
    }
}

/// The map represented by the subtree behind a link.
pub open spec fn link_contents(ol: Option<Link>) -> Map<Seq<u8>, Seq<u8>>
    decreases ol,
{
    match ol {
        None => Map::empty(),
        Some(Link::Resident(t)) => t.contents(),
        Some(Link::Pruned(p)) => p.shadow@,
    }
}

/// Whether every subtree behind the link is in memory.
pub open spec fn link_resident(ol: Option<Link>) -> bool
    decreases ol,
{
    match ol {
        None => true,
        Some(Link::Resident(t)) => t.resident(),
        Some(Link::Pruned(p)) => false,
    }
}

/// Well-formedness of the subtree behind a link.
pub open spec fn link_wf(ol: Option<Link>) -> bool
    decreases ol,
{
    match ol {
        None => true,
        Some(Link::Resident(t)) => t.wf(),
        Some(Link::Pruned(p)) => p.shadow@.dom().finite() && p.shadow@.dom().len() == p.size
            && p.height <= p.size && p.shadow@.dom().contains(p.key@),
    }
}

/// The cached digest of the subtree behind a link; the sentinel 0 for an
/// absent child.
pub open spec fn link_digest(ol: Option<Link>) -> u64
    decreases ol,
{
    match ol {
        None => 0,
        Some(Link::Resident(t)) => t.hash,
        Some(Link::Pruned(p)) => p.hash,
    }
}

/// Digest invariant of the subtree behind a link.
pub open spec fn link_hash_inv(ol: Option<Link>) -> bool
    decreases ol,
{
    match ol {
        None => true,
        Some(Link::Resident(t)) => t.hash_inv(),
        Some(Link::Pruned(p)) => true,
    }
}

/// No node behind the link is marked modified.
pub open spec fn link_clean(ol: Option<Link>) -> bool
    decreases ol,
{
    match ol {
        None => true,
        Some(Link::Resident(t)) => t.clean(),
        Some(Link::Pruned(p)) => true,
    }
}

impl Tree {
    /// Number of entries in this subtree.
    pub open spec fn spec_size(self) -> nat
        decreases self,
    {
        1 + link_size(self.left) + link_size(self.right)
    }

    /// The map this subtree represents.
    pub open spec fn contents(self) -> Map<Seq<u8>, Seq<u8>>
        decreases self,
    {
        link_contents(self.left).union_prefer_right(link_contents(self.right)).insert(
            self.key@,
            self.value@,
        )
    }

    /// Whether the whole subtree is in memory.
    pub open spec fn resident(self) -> bool
        decreases self,
    {
        link_resident(self.left) && link_resident(self.right)
    }

    /// Well-formedness: exact height bookkeeping, the AVL balance bound,
    /// and the search-order invariant over the represented maps.
    pub open spec fn wf(self) -> bool
        decreases self,
    {
        &&& self.height == 1 + if link_height(self.left) >= link_height(self.right) {
            link_height(self.left)
        } else {
            link_height(self.right)
        }
        &&& -1 <= link_height(self.right) - link_height(self.left) <= 1
        &&& (forall|k: Seq<u8>|
            link_contents(self.left).dom().contains(k) ==> lex_lt(k, self.key@))
        &&& (forall|k: Seq<u8>|
            link_contents(self.right).dom().contains(k) ==> lex_lt(self.key@, k))
        &&& link_wf(self.left)
        &&& link_wf(self.right)
    }

    /// The digest this node should cache, over its children's cached digests.
    pub open spec fn computed_digest(self) -> u64 {
        node_digest(self.key@, self.value@, link_digest(self.left), link_digest(self.right))
    }

    /// No node of this subtree is marked modified.
    pub open spec fn clean(self) -> bool
        decreases self,
    {
        !self.modified && link_clean(self.left) && link_clean(self.right)
    }

    /// Digest invariant: a node that is not marked modified caches the
    /// digest of its key, value and child digests, and has no modified
    /// descendant.
    pub open spec fn hash_inv(self) -> bool
        decreases self,
    {
        &&& (!self.modified ==> self.clean() && self.hash == self.computed_digest())
        &&& link_hash_inv(self.left)
        &&& link_hash_inv(self.right)
    }

    /// A fresh single-node tree holding one key and value, marked modified.
    pub fn new(key: Vec<u8>, value: Vec<u8>) -> (t: Tree)
        ensures
            t.wf(),
            t.hash_inv(),
            t.resident(),
            t.contents() == Map::<Seq<u8>, Seq<u8>>::empty().insert(key@, value@),
            t.spec_size() == 1,
            t.modified,
            t.key@ == key@,
            t.value@ == value@,
    {
        let t = Tree { key, value, hash: 0, height: 1, modified: true, left: None, right: None };
        proof {
            assert(t.contents() =~= Map::<Seq<u8>, Seq<u8>>::empty().insert(t.key@, t.value@));
        }
        t
    }

    /// The node's key.
    pub fn key(&self) -> (k: &Vec<u8>)
        ensures
            k@ == self.key@,
    {
        &self.key
    }

    /// The node's value.
    pub fn value(&self) -> (v: &Vec<u8>)
        ensures
            v@ == self.value@,
    {
        &self.value
    }

    /// The node's cached digest; valid while the node is not modified.
    pub fn hash(&self) -> (h: u64)
        ensures
            h == self.hash,
    {
        self.hash
    }

    /// The node's height.
    pub fn height(&self) -> (h: u64)
        ensures
            h == self.height,
    {
        self.height
    }

    /// Whether the node changed since the last commit.
    pub fn is_modified(&self) -> (m: bool)
        ensures
            m == self.modified,
    {
        self.modified
    }

    /// The link on one side: `true` for left, `false` for right.
    pub fn link(&self, left: bool) -> (l: Option<&Link>)
        ensures
            l matches Some(link) ==> (if left {
                self.left == Some(*link)
            } else {
                self.right == Some(*link)
            }),
            l is None ==> (if left {
                self.left is None
            } else {
                self.right is None
            }),
    {
        if left {
            match &self.left {
                Some(l) => Some(l),
                None => None,
            }
        } else {
            match &self.right {
                Some(l) => Some(l),
                None => None,
            }
        }
    }

    /// The resident child on one side, if there is one in memory.
    pub fn child(&self, left: bool) -> (c: Option<&Tree>)
        ensures
            c matches Some(t) ==> (if left {
                self.left == Some(Link::Resident(Box::new(*t)))
            } else {
                self.right == Some(Link::Resident(Box::new(*t)))
            }),
    {
        let l = if left {
            &self.left
        } else {
            &self.right
        };
        match l {
            Some(Link::Resident(t)) => Some(t),
            _ => None,
        }
    }

    /// Height of the right subtree minus height of the left subtree.
    pub fn balance_factor(&self) -> (bf: i64)
        requires
            self.wf(),
        ensures
            bf == link_height(self.right) - link_height(self.left),
    {
        let hl = link_height_exec(&self.left);
        let hr = link_height_exec(&self.right);
        if hr >= hl {
            (hr - hl) as i64
        } else {
            -((hl - hr) as i64)
        }
    }
}

/// Height of the subtree behind a link.
pub fn link_height_exec(ol: &Option<Link>) -> (h: u64)
    ensures
        h == link_height(*ol),
{
    match ol {
        None => 0,
        Some(Link::Resident(t)) => t.height,
        Some(Link::Pruned(p)) => p.height,
    }
}

/// Cached digest of the subtree behind a link; 0 for an absent child.
pub fn link_digest_exec(ol: &Option<Link>) -> (h: u64)
    ensures
        h == link_digest(*ol),
{
    match ol {
        None => 0,
        Some(Link::Resident(t)) => t.hash,
        Some(Link::Pruned(p)) => p.hash,
    }
}

impl Link {
    /// The key of the subtree's root node.
    pub fn key(&self) -> (k: &Vec<u8>)
        ensures
            k@ == (match *self {
                Link::Resident(t) => t.key@,
                Link::Pruned(p) => p.key@,
            }),
    {
        match self {
            Link::Resident(t) => &t.key,
            Link::Pruned(p) => &p.key,
        }
    }

    /// Whether the subtree's root node is marked modified. A pruned subtree
    /// is always committed, hence never modified.
    pub fn is_modified(&self) -> (m: bool)
        ensures
            m == (match *self {
                Link::Resident(t) => t.modified,
                Link::Pruned(p) => false,
            }),
    {
        match self {
            Link::Resident(t) => t.modified,
            Link::Pruned(_) => false,
        }
    }

    /// The cached digest of the subtree.
    pub fn hash(&self) -> (h: u64)
        ensures
            h == (match *self {
                Link::Resident(t) => t.hash,
                Link::Pruned(p) => p.hash,
            }),
    {
        match self {
            Link::Resident(t) => t.hash,
            Link::Pruned(p) => p.hash,
        }
    }

    /// Whether the subtree is pruned.
    pub fn is_pruned(&self) -> (b: bool)
        ensures
            b == (self matches Link::Pruned(_)),
    {
        match self {
            Link::Resident(_) => false,
            Link::Pruned(_) => true,
        }
    }
}


/// Whether some link of this subtree is exactly the pruned reference `p`.
pub open spec fn has_pruned_ref(t: Tree, p: PrunedRef) -> bool
    decreases t,
{
    link_has_pruned(t.left, p) || link_has_pruned(t.right, p)
}

pub open spec fn link_has_pruned(ol: Option<Link>, p: PrunedRef) -> bool
    decreases ol,
{
    match ol {
        None => false,
        Some(Link::Resident(t)) => has_pruned_ref(*t, p),
        Some(Link::Pruned(q)) => q == p,
    }
}

/// A fully resident subtree holds no pruned reference.
pub proof fn lemma_resident_no_pruned(ol: Option<Link>)
    requires
        link_resident(ol),
    ensures
        forall|p: PrunedRef| !link_has_pruned(ol, p),
    decreases ol,
{
    match ol {
        Some(Link::Resident(t)) => {
            lemma_resident_no_pruned(t.left);
            lemma_resident_no_pruned(t.right);
            assert forall|p: PrunedRef| !link_has_pruned(ol, p) by {
                assert(!link_has_pruned(t.left, p));
                assert(!link_has_pruned(t.right, p));
            }
        },
        _ => {},
    }
}

/// A well-formed tree is no taller than it has entries.
pub proof fn lemma_height_le_size(t: Tree)
    requires
        t.wf(),
    ensures
        t.height <= t.spec_size(),
    decreases t,
{
    match t.left {
        Some(Link::Resident(l)) => {
            lemma_height_le_size(*l);
        },
        _ => {},
    }
    match t.right {
        Some(Link::Resident(r)) => {
            lemma_height_le_size(*r);
        },
        _ => {},
    }
}

/// Like `lemma_height_le_size`, for the subtree behind a link.
pub proof fn lemma_link_height_le_size(ol: Option<Link>)
    requires
        link_wf(ol),
    ensures
        link_height(ol) <= link_size(ol),
    decreases ol,
{
    match ol {
        Some(Link::Resident(t)) => {
            lemma_height_le_size(*t);
        },
        _ => {},
    }
}

/// The represented map of a well-formed tree is finite, has exactly as many
/// entries as the tree has nodes, and contains the root key.
pub proof fn lemma_contents_size(t: Tree)
    requires
        t.wf(),
    ensures
        t.contents().dom().finite(),
        t.contents().dom().len() == t.spec_size(),
        t.contents().dom().contains(t.key@),
    decreases t,
{
    lemma_link_contents_size(t.left);
    lemma_link_contents_size(t.right);
    let cl = link_contents(t.left);
    let cr = link_contents(t.right);
    crate::bytes::lemma_lex_asym(t.key@, t.key@);
    assert(cl.dom().disjoint(cr.dom())) by {
        assert forall|k: Seq<u8>| cl.dom().contains(k) implies !cr.dom().contains(k) by {
            if cr.dom().contains(k) {
                crate::bytes::lemma_lex_asym(k, t.key@);
            }
        }
    }
    assert(cl.union_prefer_right(cr).dom() =~= cl.dom() + cr.dom());
    vstd::set_lib::lemma_set_disjoint_lens(cl.dom(), cr.dom());
    assert(t.contents().dom() =~= cl.dom() + cr.dom() + set![t.key@]);
    assert(!(cl.dom() + cr.dom()).contains(t.key@));
    assert(t.contents().dom() =~= (cl.dom() + cr.dom()).insert(t.key@));
}

/// As `lemma_contents_size`, for the subtree behind a link.
pub proof fn lemma_link_contents_size(ol: Option<Link>)
    requires
        link_wf(ol),
    ensures
        link_contents(ol).dom().finite(),
        link_contents(ol).dom().len() == link_size(ol),
    decreases ol,
{
    match ol {
        None => {
            assert(link_contents(ol).dom() =~= Set::<Seq<u8>>::empty());
        },
        Some(Link::Resident(t)) => {
            lemma_contents_size(*t);
        },
        Some(Link::Pruned(p)) => {},
    }
}

impl Tree {
    /// Number of entries in this subtree, counting pruned parts by their
    /// recorded size.
    pub fn size(&self) -> (n: u64)
        requires
            self.spec_size() <= u64::MAX,
        ensures
            n == self.spec_size(),
        decreases self.spec_size(),
    {
        let ls: u64 = match &self.left {
            None => 0,
            Some(Link::Resident(t)) => t.size(),
            Some(Link::Pruned(p)) => p.size,
        };
        let rs: u64 = match &self.right {
            None => 0,
            Some(Link::Resident(t)) => t.size(),
            Some(Link::Pruned(p)) => p.size,
        };
        1 + ls + rs
    }

    /// The keys of a resident subtree, in search order.
    pub fn keys_in_order(&self) -> (r: Vec<Vec<u8>>)
        requires
            self.resident(),
            self.spec_size() <= usize::MAX,
        ensures
            r@.len() == self.spec_size(),
            forall|q: int| 0 <= q < r@.len() ==> self.contents().dom().contains(
                (#[trigger] r@[q])@,
            ),
        decreases self.spec_size(),
    {
        let mut r: Vec<Vec<u8>> = match &self.left {
            None => Vec::new(),
            Some(Link::Resident(t)) => t.keys_in_order(),
            Some(Link::Pruned(_)) => vstd::pervasive::unreached(),
        };
        r.push(crate::bytes::copy_bytes(&self.key));
        let mut rr: Vec<Vec<u8>> = match &self.right {
            None => Vec::new(),
            Some(Link::Resident(t)) => t.keys_in_order(),
            Some(Link::Pruned(_)) => vstd::pervasive::unreached(),
        };
        r.append(&mut rr);
        proof {
            assert forall|q: int| 0 <= q < r@.len() implies self.contents().dom().contains(
                (#[trigger] r@[q])@,
            ) by {
                assert(self.contents().dom().contains(self.key@));
            }
        }
        r
    }

    /// Evict the resident, committed subtree on one side to a pruned
    /// reference carrying its root key, digest, size and height. The rest
    /// of the node — in particular its own digest and marker — is untouched.
    pub fn prune(&mut self, left_side: bool)
        requires
            old(self).wf(),
            old(self).hash_inv(),
            old(self).spec_size() <= u64::MAX,
            match (if left_side {
                old(self).left
            } else {
                old(self).right
            }) {
                Some(Link::Resident(c)) => c.clean(),
                _ => false,
            },
        ensures
            final(self).wf(),
            final(self).hash_inv(),
            final(self).contents() == old(self).contents(),
            final(self).spec_size() == old(self).spec_size(),
            final(self).height == old(self).height,
            final(self).key@ == old(self).key@,
            final(self).value@ == old(self).value@,
            final(self).modified == old(self).modified,
            final(self).hash == old(self).hash,
            left_side ==> final(self).right == old(self).right,
            !left_side ==> final(self).left == old(self).left,
            match (if left_side {
                final(self).left
            } else {
                final(self).right
            }) {
                Some(Link::Pruned(p)) => p.hash == link_digest(
                    if left_side {
                        old(self).left
                    } else {
                        old(self).right
                    },
                ) && p.shadow@ == link_contents(
                    if left_side {
                        old(self).left
                    } else {
                        old(self).right
                    },
                ),
                _ => false,
            },
    {
        if left_side {
            let l = self.left.take();
            match l {
                Some(Link::Resident(c)) => {
                    let ct = *c;
                    let ghost c0 = ct;
                    proof {
                        lemma_contents_size(c0);
                        lemma_height_le_size(c0);
                    }
                    let sz = ct.size();
                    let Tree { key, value: _, hash, height, modified: _, left: _, right: _ } =
                        ct;
                    self.left = Some(
                        Link::Pruned(
                            PrunedRef {
                                key,
                                hash,
                                size: sz,
                                height,
                                shadow: Ghost(c0.contents()),
                            },
                        ),
                    );
                },
                _ => {
                    vstd::pervasive::unreached::<()>();
                },
            }
        } else {
            let r = self.right.take();
            match r {
                Some(Link::Resident(c)) => {
                    let ct = *c;
                    let ghost c0 = ct;
                    proof {
                        lemma_contents_size(c0);
                        lemma_height_le_size(c0);
                    }
                    let sz = ct.size();
                    let Tree { key, value: _, hash, height, modified: _, left: _, right: _ } =
                        ct;
                    self.right = Some(
                        Link::Pruned(
                            PrunedRef {
                                key,
                                hash,
                                size: sz,
                                height,
                                shadow: Ghost(c0.contents()),
                            },
                        ),
                    );
                },
                _ => {
                    vstd::pervasive::unreached::<()>();
                },
            }
        }
    }
}

} // verus!
