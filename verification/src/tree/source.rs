//! Errors, and the capability that resolves pruned subtree references.

use vstd::prelude::*;
use super::node::{Tree, PrunedRef};

verus! {

/// Failure of a `Source` to resolve a pruned reference.
#[derive(Debug)]
pub enum FetchError {
    /// The backing store has no entry for the reference.
    NotFound,
    /// The stored bytes did not decode to the expected shape.
    Corrupt,
    /// Resolution was requested where the caller had guaranteed a fully
    /// resident tree: a programming error, fatal to the call.
    Fatal,
}

/// Failure of a batch application.
#[derive(Debug)]
pub enum ApplyError {
    /// One batch held two entries for the same key.
    DuplicateKey,
    /// A Delete targeted a key that is not present.
    DeleteOnEmpty,
    /// A pruned subtree had to be resolved and the `Source` failed.
    Fetch(FetchError),
}

/// Failure of the per-node persistence hook during commit.
#[derive(Debug)]
pub struct PersistError {
    pub code: u64,
}

/// What a successful resolution must hand back: the very subtree the
/// reference stands for — well-formed, committed, and matching the
/// reference's digest, root key, height, size and represented map.
pub open spec fn fetched_ok(p: PrunedRef, t: Tree) -> bool {
    &&& t.wf()
    &&& t.hash_inv()
    &&& t.clean()
    &&& t.resident()
    &&& t.contents() == p.shadow@
    &&& t.height == p.height
    &&& t.spec_size() == p.size
    &&& t.hash == p.hash
    &&& t.key@ == p.key@
}

/// Resolves a pruned reference into an owned resident subtree.
pub trait Source {
    /// Fetch the subtree a pruned reference stands for.
    fn fetch(&mut self, link: &PrunedRef) -> (r: Result<Tree, FetchError>)
        ensures
            r matches Ok(t) ==> fetched_ok(*link, t),
    ;
}

/// The fail-fast resolver: used when the caller guarantees the whole tree
/// is resident, so that any resolution request is a contract violation
/// upstream and is answered with a fatal error.
pub struct PanicSource {}

impl Source for PanicSource {
    fn fetch(&mut self, link: &PrunedRef) -> (r: Result<Tree, FetchError>)
        ensures
            r is Err,
    {
        Err(FetchError::Fatal)
    }
}

} // verus!
