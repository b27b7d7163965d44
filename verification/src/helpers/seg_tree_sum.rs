//! Aggregation tree specialization for range sum queries.

use crate::helpers::Numeric;
use crate::seg_tree::{SegTree, SegTreeSpec};
use vstd::prelude::*;

verus! {

/// Sum queries: wrapping addition, with zero as the identity.
pub struct SegTreeSumSpec<T>(core::marker::PhantomData<T>);

impl<T: Numeric> SegTreeSpec for SegTreeSumSpec<T> {
    type T = T;

    open spec fn spec_id() -> T {
        T::spec_zero()
    }

    open spec fn spec_op(a: T, b: T) -> T {
        T::spec_wrapping_add(a, b)
    }

    fn id() -> (r: T) {
        T::zero()
    }

    fn op(a: &mut T, b: &T) {
        *a = T::wrapping_add_val(*a, *b);
    }

    proof fn op_associative(a: T, b: T, c: T) {
        T::lemma_add_laws(a, b, c);
    }

    proof fn id_neutral(a: T) {
        T::lemma_add_laws(a, a, a);
    }
}

/// A [`SegTree`] answering range sums over a primitive integer type.
pub type SegTreeSum<T> = SegTree<SegTreeSumSpec<T>>;

} // verus!
