//! Lazy tree specialization for range add updates with range sum queries.

use crate::helpers::Numeric;
use crate::lazy_seg_tree::{lazy_laws, LazySegTree, LazySegTreeSpec};
use vstd::prelude::*;

verus! {

/// Range add with sum queries: adding `u` to every element of an aggregate
/// covering `n` leaves adds `u * n` to its sum. All arithmetic wraps.
pub struct LazySegTreeAddSumSpec<T>(core::marker::PhantomData<T>);

impl<T: Numeric> LazySegTreeSpec for LazySegTreeAddSumSpec<T> {
    type T = T;

    type U = T;

    open spec fn spec_id() -> T {
        T::spec_zero()
    }

    open spec fn spec_op_on_data(d1: T, d2: T) -> T {
        T::spec_wrapping_add(d1, d2)
    }

    open spec fn spec_op_on_update(u1: T, u2: T) -> T {
        T::spec_wrapping_add(u1, u2)
    }

    open spec fn spec_op_update_on_data(u: T, d: T, n: nat) -> T {
        T::spec_wrapping_add(d, T::spec_mul_count(u, n))
    }

    fn id() -> (r: T) {
        T::zero()
    }

    fn op_on_data(d1: &mut T, d2: &T) {
        *d1 = T::wrapping_add_val(*d1, *d2);
    }

    fn op_on_update(u1: &mut T, u2: &T) {
        *u1 = T::wrapping_add_val(*u1, *u2);
    }

    fn op_update_on_data(u: &T, d: &mut T, size: usize) {
        *d = T::wrapping_add_val(*d, T::mul_count(*u, size));
    }
}

/// A [`LazySegTree`] with range add updates and range sum queries over a
/// primitive integer type.
pub type LazySegTreeAddSum<T> = LazySegTree<LazySegTreeAddSumSpec<T>>;

/// Range add with sum queries is a lawful action, so every fold such a tree
/// answers is pinned down exactly.
pub proof fn lemma_add_sum_lawful<T: Numeric>()
    ensures
        lazy_laws::<LazySegTreeAddSumSpec<T>>(),
{
    reveal(lazy_laws);
    assert forall|a: T, b: T, c: T|
        #[trigger] <LazySegTreeAddSumSpec<T> as LazySegTreeSpec>::spec_op_on_data(
            <LazySegTreeAddSumSpec<T> as LazySegTreeSpec>::spec_op_on_data(a, b),
            c,
        ) == <LazySegTreeAddSumSpec<T> as LazySegTreeSpec>::spec_op_on_data(
        a,
        <LazySegTreeAddSumSpec<T> as LazySegTreeSpec>::spec_op_on_data(b, c),
    ) by {
        T::lemma_add_laws(a, b, c);
    }
    assert forall|a: T|
        #[trigger] <LazySegTreeAddSumSpec<T> as LazySegTreeSpec>::spec_op_on_data(
            <LazySegTreeAddSumSpec<T> as LazySegTreeSpec>::spec_id(),
            a,
        ) == a by {
        T::lemma_add_laws(a, a, a);
    }
    assert forall|a: T|
        #[trigger] <LazySegTreeAddSumSpec<T> as LazySegTreeSpec>::spec_op_on_data(
            a,
            <LazySegTreeAddSumSpec<T> as LazySegTreeSpec>::spec_id(),
        ) == a by {
        T::lemma_add_laws(a, a, a);
    }
    assert forall|u: T, d1: T, d2: T, n1: nat, n2: nat|
        1 <= n1 && 1 <= n2
            ==> <LazySegTreeAddSumSpec<T> as LazySegTreeSpec>::spec_op_update_on_data(
            u,
            <LazySegTreeAddSumSpec<T> as LazySegTreeSpec>::spec_op_on_data(d1, d2),
            n1 + n2,
        ) == <LazySegTreeAddSumSpec<T> as LazySegTreeSpec>::spec_op_on_data(
            #[trigger] <LazySegTreeAddSumSpec<T> as LazySegTreeSpec>::spec_op_update_on_data(
                u,
                d1,
                n1,
            ),
            #[trigger] <LazySegTreeAddSumSpec<T> as LazySegTreeSpec>::spec_op_update_on_data(
                u,
                d2,
                n2,
            ),
        ) by {
        let m1 = T::spec_mul_count(u, n1);
        let m2 = T::spec_mul_count(u, n2);
        T::lemma_mul_count_split(u, n1, n2);
        T::lemma_add_laws(d1, d2, T::spec_wrapping_add(m1, m2));
        T::lemma_add_laws(d2, m1, m2);
        T::lemma_add_laws(m1, d2, m2);
        T::lemma_add_laws(d1, m1, T::spec_wrapping_add(d2, m2));
    }
    assert forall|u1: T, u2: T, d: T, n: nat|
        1 <= n ==> #[trigger] <LazySegTreeAddSumSpec<T> as LazySegTreeSpec>::spec_op_update_on_data(
            <LazySegTreeAddSumSpec<T> as LazySegTreeSpec>::spec_op_on_update(u1, u2),
            d,
            n,
        ) == <LazySegTreeAddSumSpec<T> as LazySegTreeSpec>::spec_op_update_on_data(
            u2,
            <LazySegTreeAddSumSpec<T> as LazySegTreeSpec>::spec_op_update_on_data(u1, d, n),
            n,
        ) by {
        T::lemma_mul_count_linear(u1, u2, n);
        T::lemma_add_laws(d, T::spec_mul_count(u1, n), T::spec_mul_count(u2, n));
    }
}

} // verus!
