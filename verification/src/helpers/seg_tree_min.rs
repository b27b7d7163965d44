//! Aggregation tree specialization for range minimum queries.

use crate::helpers::Numeric;
use crate::seg_tree::{SegTree, SegTreeSpec};
use vstd::prelude::*;

verus! {

/// Minimum queries: the smaller value wins, with the type's largest value as
/// the identity.
pub struct SegTreeMinSpec<T>(core::marker::PhantomData<T>);

impl<T: Numeric> SegTreeSpec for SegTreeMinSpec<T> {
    type T = T;

    open spec fn spec_id() -> T {
        T::spec_max_const()
    }

    open spec fn spec_op(a: T, b: T) -> T {
        if T::spec_le(a, b) {
            a
        } else {
            b
        }
    }

    fn id() -> (r: T) {
        T::max_const()
    }

    fn op(a: &mut T, b: &T) {
        if !T::le(*a, *b) {
            *a = *b;
        }
    }

    proof fn op_associative(a: T, b: T, c: T) {
        T::lemma_order_laws(a, b, c);
        T::lemma_order_laws(a, c, b);
        T::lemma_order_laws(b, a, c);
        T::lemma_order_laws(b, c, a);
        T::lemma_order_laws(c, a, b);
        T::lemma_order_laws(c, b, a);
    }

    proof fn id_neutral(a: T) {
        T::lemma_order_laws(a, T::spec_max_const(), a);
        T::lemma_order_laws(T::spec_max_const(), a, a);
    }
}

/// A [`SegTree`] answering range minimums over a primitive integer type.
pub type SegTreeMin<T> = SegTree<SegTreeMinSpec<T>>;

} // verus!
