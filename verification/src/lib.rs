//! A memory-efficient, self-balancing binary search tree: an ordered map
//! built on a scapegoat tree.
//!
//! All nodes live in a single contiguous arena and are addressed by small
//! integer indices; a caller-chosen capacity bounds what the
//! capacity-checked operations accept. The tree keeps no per-node balance
//! metadata (no colors, heights or parent pointers): when an insertion
//! reaches below the depth limit set by the balance parameter `alpha`, the
//! deepest weight-unbalanced ancestor's subtree is flattened and rebuilt in
//! place, and when removals leave the size far below its high-water mark the
//! whole tree is rebuilt.
//!
//! Every public operation carries a contract over the tree's abstract map
//! (`tree@`), and the laws in [`mod@laws`] tie sequences of such calls
//! together.

use vstd::prelude::*;

mod arena;
mod error;
mod laws;
mod model;
mod node;
mod stack;
mod tree;

pub use error::SGErr;
pub use laws::{lemma_idempotent_insert, lemma_insert_fold_keys, lemma_round_trip, lemma_size_consistency, map_less_keys, map_of_pairs};
pub use tree::SGTree;

verus! {

} // verus!
