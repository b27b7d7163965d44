//! Array-backed binary trees for associative range aggregation.
//!
//! Two structures share one layout idea (a complete binary tree stored in a
//! flat, 1-indexed array over a power-of-two number of leaf slots):
//!
//! - [`SegTree`]: point assignment and range fold in O(log n), driven by a
//!   caller-supplied associative operation with identity ([`SegTreeSpec`]).
//! - [`LazySegTree`]: range apply and range fold in O(log n) with deferred
//!   ("lazy") propagation of pending updates, driven by a data-combine
//!   operation, an update-compose operation, and an apply operation
//!   ([`LazySegTreeSpec`]).
//!
//! Both are generic; the `helpers` module offers ready-made specifications
//! (sum, min, max, range add, range assign) over the primitive integers.

mod utils;
pub use utils::{IndexRange, TreeError, parse_range, validate_range};

mod seg_tree_node;
pub use seg_tree_node::SegTreeNode;

mod seg_tree;
pub use seg_tree::{
    SegTree, SegTreeSpec, fold_op, lemma_empty_range_fold, lemma_fold_concat,
    lemma_fold_singleton, lemma_full_range_fold, lemma_point_update_query,
};

pub mod helpers;
pub use helpers::{LazySegTreeAddMax, LazySegTreeAddMin, LazySegTreeAddSum, LazySegTreeReplaceSum};
pub use helpers::{SegTreeMax, SegTreeMin, SegTreeSum};

mod lazy_seg_tree;
pub use lazy_seg_tree::{
    LazySegTree, LazySegTreeSpec, fold_data, lazy_laws, lemma_empty_range_fold_data,
    lemma_empty_range_update, lemma_fold_data_concat, lemma_fold_data_singleton,
    lemma_full_range_fold_data, lemma_law_assoc, lemma_law_compose, lemma_law_distribute,
    lemma_law_id, lemma_overlapping_updates, map_range,
};
