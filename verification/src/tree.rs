//! The tree-mutation engine: node representation, batch application with
//! AVL rebalancing, the commit pass, and the fetch capability for pruned
//! subtrees.

mod node;
mod source;
mod batch;
mod apply;
mod commit;

pub use node::{Op, BatchEntry, Batch, PrunedRef, Link, Tree};
pub use node::{link_height, link_size, link_contents, link_resident, link_wf, link_digest,
    has_pruned_ref, link_has_pruned, lemma_resident_no_pruned,
    link_hash_inv, link_clean, lemma_height_le_size, lemma_link_height_le_size, lemma_contents_size,
    lemma_link_contents_size};
pub use source::{FetchError, ApplyError, PersistError, Source, PanicSource, fetched_ok};
pub use batch::{entry_key, sorted_batch, uniq_batch, puts_of, dels_of, apply_map, all_puts,
    all_dels, lemma_batch_card, lemma_uniform_batch, lemma_batch_keys, lemma_put_value};
pub use apply::{Walker, walker_contents, walker_resident, walker_size, hmax, bheight,
    lemma_size_law};
pub use commit::{Commit, NoopCommit, same_skeleton, link_skel_eq, lemma_skeleton_refl,
    lemma_skeleton_congruence, lemma_link_skel_congruence};
