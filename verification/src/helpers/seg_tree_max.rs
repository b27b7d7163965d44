//! Aggregation tree specialization for range maximum queries.

use crate::helpers::Numeric;
use crate::seg_tree::{SegTree, SegTreeSpec};
use vstd::prelude::*;

verus! {

/// Maximum queries: the larger value wins, with the type's smallest value as
/// the identity.
pub struct SegTreeMaxSpec<T>(core::marker::PhantomData<T>);

impl<T: Numeric> SegTreeSpec for SegTreeMaxSpec<T> {
    type T = T;

    open spec fn spec_id() -> T {
        T::spec_min_const()
    }

    open spec fn spec_op(a: T, b: T) -> T {
        if T::spec_le(b, a) {
            a
        } else {
            b
        }
    }

    fn id() -> (r: T) {
        T::min_const()
    }

    fn op(a: &mut T, b: &T) {
        if !T::le(*b, *a) {
            *a = *b;
        }
    }

    proof fn op_associative(a: T, b: T, c: T) {
        T::lemma_order_laws(a, b, c);
        T::lemma_order_laws(a, c, b);
        T::lemma_order_laws(b, a, c);
        T::lemma_order_laws(b, c, a);
        T::lemma_order_laws(c, a, b);
        T::lemma_order_laws(c, b, a);
    }

    proof fn id_neutral(a: T) {
        T::lemma_order_laws(a, T::spec_min_const(), a);
        T::lemma_order_laws(T::spec_min_const(), a, a);
    }
}

/// A [`SegTree`] answering range maximums over a primitive integer type.
pub type SegTreeMax<T> = SegTree<SegTreeMaxSpec<T>>;

} // verus!
