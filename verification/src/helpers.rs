//! Ready-made tree specifications for common operations over the primitive
//! integers: sum, minimum and maximum queries for [`crate::SegTree`], and
//! range add or range assign updates with sum, minimum or maximum queries
//! for [`crate::LazySegTree`].

mod numeric;
pub use numeric::Numeric;

mod seg_tree_max;
mod seg_tree_min;
mod seg_tree_sum;

mod lazy_seg_tree_add_max;
mod lazy_seg_tree_add_min;
mod lazy_seg_tree_add_sum;
mod lazy_seg_tree_replace_sum;

pub use seg_tree_max::{SegTreeMax, SegTreeMaxSpec};
pub use seg_tree_min::{SegTreeMin, SegTreeMinSpec};
pub use seg_tree_sum::{SegTreeSum, SegTreeSumSpec};

pub use lazy_seg_tree_add_max::{LazySegTreeAddMax, LazySegTreeAddMaxSpec};
pub use lazy_seg_tree_add_min::{LazySegTreeAddMin, LazySegTreeAddMinSpec};
pub use lazy_seg_tree_add_sum::{lemma_add_sum_lawful, LazySegTreeAddSum, LazySegTreeAddSumSpec};
pub use lazy_seg_tree_replace_sum::{
    lemma_replace_sum_lawful, LazySegTreeReplaceSum, LazySegTreeReplaceSumSpec,
};
