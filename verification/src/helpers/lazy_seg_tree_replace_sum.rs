//! Lazy tree specialization for range assignment updates with range sum
//! queries.

use crate::helpers::Numeric;
use crate::lazy_seg_tree::{lazy_laws, LazySegTree, LazySegTreeSpec};
use vstd::prelude::*;

verus! {

/// Range assignment with sum queries: replacing every element of an
/// aggregate covering `n` leaves with `u` makes its sum `u * n`; a later
/// assignment supersedes an earlier one. The multiplication wraps.
pub struct LazySegTreeReplaceSumSpec<T>(core::marker::PhantomData<T>);

impl<T: Numeric> LazySegTreeSpec for LazySegTreeReplaceSumSpec<T> {
    type T = T;

    type U = T;

    open spec fn spec_id() -> T {
        T::spec_zero()
    }

    open spec fn spec_op_on_data(d1: T, d2: T) -> T {
        T::spec_wrapping_add(d1, d2)
    }

    open spec fn spec_op_on_update(u1: T, u2: T) -> T {
        u2
    }

    open spec fn spec_op_update_on_data(u: T, d: T, n: nat) -> T {
        T::spec_mul_count(u, n)
    }

    fn id() -> (r: T) {
        T::zero()
    }

    fn op_on_data(d1: &mut T, d2: &T) {
        *d1 = T::wrapping_add_val(*d1, *d2);
    }

    fn op_on_update(u1: &mut T, u2: &T) {
        *u1 = *u2;
    }

    fn op_update_on_data(u: &T, d: &mut T, size: usize) {
        *d = T::mul_count(*u, size);
    }
}

/// A [`LazySegTree`] with range assignment updates and range sum queries
/// over a primitive integer type.
pub type LazySegTreeReplaceSum<T> = LazySegTree<LazySegTreeReplaceSumSpec<T>>;

/// Range assignment with sum queries is a lawful action, so every fold such
/// a tree answers is pinned down exactly.
pub proof fn lemma_replace_sum_lawful<T: Numeric>()
    ensures
        lazy_laws::<LazySegTreeReplaceSumSpec<T>>(),
{
    reveal(lazy_laws);
    assert forall|a: T, b: T, c: T|
        #[trigger] <LazySegTreeReplaceSumSpec<T> as LazySegTreeSpec>::spec_op_on_data(
            <LazySegTreeReplaceSumSpec<T> as LazySegTreeSpec>::spec_op_on_data(a, b),
            c,
        ) == <LazySegTreeReplaceSumSpec<T> as LazySegTreeSpec>::spec_op_on_data(
        a,
        <LazySegTreeReplaceSumSpec<T> as LazySegTreeSpec>::spec_op_on_data(b, c),
    ) by {
        T::lemma_add_laws(a, b, c);
    }
    assert forall|a: T|
        #[trigger] <LazySegTreeReplaceSumSpec<T> as LazySegTreeSpec>::spec_op_on_data(
            <LazySegTreeReplaceSumSpec<T> as LazySegTreeSpec>::spec_id(),
            a,
        ) == a by {
        T::lemma_add_laws(a, a, a);
    }
    assert forall|a: T|
        #[trigger] <LazySegTreeReplaceSumSpec<T> as LazySegTreeSpec>::spec_op_on_data(
            a,
            <LazySegTreeReplaceSumSpec<T> as LazySegTreeSpec>::spec_id(),
        ) == a by {
        T::lemma_add_laws(a, a, a);
    }
    assert forall|u: T, d1: T, d2: T, n1: nat, n2: nat|
        1 <= n1 && 1 <= n2
            ==> <LazySegTreeReplaceSumSpec<T> as LazySegTreeSpec>::spec_op_update_on_data(
            u,
            <LazySegTreeReplaceSumSpec<T> as LazySegTreeSpec>::spec_op_on_data(d1, d2),
            n1 + n2,
        ) == <LazySegTreeReplaceSumSpec<T> as LazySegTreeSpec>::spec_op_on_data(
            #[trigger] <LazySegTreeReplaceSumSpec<T> as LazySegTreeSpec>::spec_op_update_on_data(
                u,
                d1,
                n1,
            ),
            #[trigger] <LazySegTreeReplaceSumSpec<T> as LazySegTreeSpec>::spec_op_update_on_data(
                u,
                d2,
                n2,
            ),
        ) by {
        T::lemma_mul_count_split(u, n1, n2);
    }
}

} // verus!
