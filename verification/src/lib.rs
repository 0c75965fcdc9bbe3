//! A merkleized, self-balancing binary search tree for a verifiable
//! key-value store: nodes carry a digest derived from their key, value and
//! child digests, batches of Put/Delete operations are applied with AVL
//! rebalancing, and a commit pass recomputes digests bottom-up. Subtrees may
//! be pruned to a reference and resolved on demand through a `Source`.

pub mod bytes;
pub mod digest;
pub mod tree;
pub mod test_utils;
