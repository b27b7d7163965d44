//! Lazy tree specialization for range add updates with range maximum
//! queries.
//!
//! Adding to all elements of a range shifts the range's maximum by the same
//! amount — as long as no addition wraps around. On fixed-width integers the
//! combination therefore does not satisfy [`crate::lazy_laws`] at the
//! extremes (a wrapped sum can fall on the other side of a comparison), so
//! unlike the sum-based specifications this one comes with no lawfulness
//! lemma: the tree runs the same algorithm, and its exact-fold guarantee
//! applies only under the laws it cannot meet at wrap-around.

use crate::helpers::Numeric;
use crate::lazy_seg_tree::{LazySegTree, LazySegTreeSpec};
use vstd::prelude::*;

verus! {

/// Range add with maximum queries: adding `u` to every element of an
/// aggregate shifts its maximum by `u`, with the type's smallest value as
/// the identity. The addition wraps.
pub struct LazySegTreeAddMaxSpec<T>(core::marker::PhantomData<T>);

impl<T: Numeric> LazySegTreeSpec for LazySegTreeAddMaxSpec<T> {
    type T = T;

    type U = T;

    open spec fn spec_id() -> T {
        T::spec_min_const()
    }

    open spec fn spec_op_on_data(d1: T, d2: T) -> T {
        if T::spec_le(d2, d1) {
            d1
        } else {
            d2
        }
    }

    open spec fn spec_op_on_update(u1: T, u2: T) -> T {
        T::spec_wrapping_add(u1, u2)
    }

    open spec fn spec_op_update_on_data(u: T, d: T, n: nat) -> T {
        T::spec_wrapping_add(d, u)
    }

    fn id() -> (r: T) {
        T::min_const()
    }

    fn op_on_data(d1: &mut T, d2: &T) {
        if !T::le(*d2, *d1) {
            *d1 = *d2;
        }
    }

    fn op_on_update(u1: &mut T, u2: &T) {
        *u1 = T::wrapping_add_val(*u1, *u2);
    }

    fn op_update_on_data(u: &T, d: &mut T, size: usize) {
        *d = T::wrapping_add_val(*d, *u);
    }
}

/// A [`LazySegTree`] with range add updates and range maximum queries over a
/// primitive integer type.
pub type LazySegTreeAddMax<T> = LazySegTree<LazySegTreeAddMaxSpec<T>>;

} // verus!
