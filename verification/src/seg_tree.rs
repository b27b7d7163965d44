//! Point-update / range-query aggregation tree.
//!
//! A `SegTree<S>` stores a fixed-size logical sequence and answers folds of
//! any sub-interval under the associative operation supplied by `S`, in
//! O(log n) per query, with O(log n) point assignment.
//!
//! The tree is a complete binary tree in a flat, 1-indexed array over
//! `max_size` leaf slots, `max_size` being the least power of two at or
//! above the logical size. Leaf slot `max_size + p` holds logical element
//! `p`; slots past the size hold the identity. Every internal node holds the
//! operation applied to its two children, which is the whole invariant.

use crate::utils::{lemma_parsed_validity, parse_range, validate_range, IndexRange, TreeError};
use vstd::arithmetic::power2::{lemma_pow2_unfold, pow2};
use vstd::prelude::*;

verus! {

/// The operation a [`SegTree`] aggregates with: an associative operation
/// over `T` with an identity element, described by spec functions and
/// implemented by executable ones. Implementations must prove the monoid
/// laws, so every fold the tree reports is pinned down exactly.
pub trait SegTreeSpec: Sized {
    /// Element type stored in the tree.
    type T: Copy;

    /// The identity element.
    spec fn spec_id() -> Self::T;

    /// The associative operation.
    spec fn spec_op(a: Self::T, b: Self::T) -> Self::T;

    /// Produces the identity element.
    fn id() -> (r: Self::T)
        ensures
            r == Self::spec_id(),
    ;

    /// Combines `b` into `a`, in place.
    fn op(a: &mut Self::T, b: &Self::T)
        ensures
            *final(a) == Self::spec_op(*old(a), *b),
    ;

    /// The operation is associative.
    proof fn op_associative(a: Self::T, b: Self::T, c: Self::T)
        ensures
            Self::spec_op(Self::spec_op(a, b), c) == Self::spec_op(a, Self::spec_op(b, c)),
    ;

    /// The identity is neutral on both sides.
    proof fn id_neutral(a: Self::T)
        ensures
            Self::spec_op(Self::spec_id(), a) == a,
            Self::spec_op(a, Self::spec_id()) == a,
    ;
}

/// The operation of `S` folded over a sequence, front to back; the empty
/// sequence folds to the identity.
pub open spec fn fold_op<S: SegTreeSpec>(s: Seq<S::T>) -> S::T
    decreases s.len(),
{
    if s.len() == 0 {
        S::spec_id()
    } else {
        S::spec_op(s[0], fold_op::<S>(s.drop_first()))
    }
}

/// A fold of one element is that element.
pub proof fn lemma_fold_singleton<S: SegTreeSpec>(s: Seq<S::T>)
    requires
        s.len() == 1,
    ensures
        fold_op::<S>(s) == s[0],
{
    assert(s.drop_first() =~= Seq::<S::T>::empty());
    assert(fold_op::<S>(s.drop_first()) == S::spec_id());
    assert(fold_op::<S>(s) == S::spec_op(s[0], S::spec_id()));
    S::id_neutral(s[0]);
}

/// Folds split across concatenation: `fold(s + t) == op(fold(s), fold(t))`.
pub proof fn lemma_fold_concat<S: SegTreeSpec>(s: Seq<S::T>, t: Seq<S::T>)
    ensures
        fold_op::<S>(s + t) == S::spec_op(fold_op::<S>(s), fold_op::<S>(t)),
    decreases s.len(),
{
    if s.len() == 0 {
        assert(s + t =~= t);
        S::id_neutral(fold_op::<S>(t));
    } else {
        assert((s + t).drop_first() =~= s.drop_first() + t);
        lemma_fold_concat::<S>(s.drop_first(), t);
        S::op_associative(s[0], fold_op::<S>(s.drop_first()), fold_op::<S>(t));
    }
}

/// After a point update stores `v` at `index`, the fold over the one-element
/// range `[index, index + 1)` is exactly `v`: together with the contracts of
/// [`SegTree::update`] (the view gains `v` at `index`) and
/// [`SegTree::query`] (the result is the fold of the queried sub-view), a
/// point update is always observed by a point query.
pub proof fn lemma_point_update_query<S: SegTreeSpec>(s: Seq<S::T>, index: int, v: S::T)
    requires
        0 <= index < s.len(),
    ensures
        fold_op::<S>(s.update(index, v).subrange(index, index + 1)) == v,
{
    let t = s.update(index, v).subrange(index, index + 1);
    assert(t.len() == 1 && t[0] == v);
    lemma_fold_singleton::<S>(t);
}

/// An empty range folds to the identity, whatever the sequence holds.
pub proof fn lemma_empty_range_fold<S: SegTreeSpec>(s: Seq<S::T>, i: int)
    requires
        0 <= i <= s.len(),
    ensures
        fold_op::<S>(s.subrange(i, i)) == S::spec_id(),
{
    assert(s.subrange(i, i) =~= Seq::<S::T>::empty());
}

/// The fold over the full range `[0, len)` is the fold over every logical
/// element.
pub proof fn lemma_full_range_fold<S: SegTreeSpec>(s: Seq<S::T>)
    ensures
        fold_op::<S>(s.subrange(0, s.len() as int)) == fold_op::<S>(s),
{
    assert(s.subrange(0, s.len() as int) =~= s);
}

/// A generic point-update / range-query aggregation tree over the operation
/// described by `S`.
pub struct SegTree<S: SegTreeSpec> {
    /// The logical element count, fixed at construction.
    size: usize,
    /// The number of leaf slots: the least power of two at or above `size`.
    max_size: usize,
    /// The flat tree; index 0 is unused, the root is index 1, node `i` has
    /// children `2*i` and `2*i + 1`, and leaves occupy the upper half.
    data: Vec<S::T>,
    /// The exponent with `max_size == pow2(levels)`.
    levels: Ghost<nat>,
    _spec: core::marker::PhantomData<S>,
}

impl<S: SegTreeSpec> View for SegTree<S> {
    type V = Seq<S::T>;

    /// The logical sequence this tree stands for: its leaf slots up to the
    /// logical size.
    closed spec fn view(&self) -> Seq<S::T> {
        self.data@.subrange(self.max_size as int, self.max_size + self.size)
    }
}

impl<S: SegTreeSpec> SegTree<S> {
    /// The logical element count.
    pub closed spec fn spec_size(&self) -> nat {
        self.size as nat
    }

    /// Structural well-formedness: the storage has the right shape and every
    /// internal node holds the operation applied to its two children.
    pub closed spec fn wf(&self) -> bool {
        &&& self.data@.len() == 2 * self.max_size
        &&& self.max_size == pow2(self.levels@)
        &&& self.levels@ < usize::BITS
        &&& 1 <= self.size <= self.max_size
        &&& self.max_size <= usize::MAX / 2
        &&& forall|j: int|
            1 <= j < self.max_size ==> #[trigger] self.data@[j] == S::spec_op(
                self.data@[2 * j],
                self.data@[2 * j + 1],
            )
    }

    /// Creates a tree of `size` logical elements, each the identity.
    /// Fails with `InvalidSize` when `size` is zero.
    pub fn new(size: usize) -> (r: Result<SegTree<S>, TreeError>)
        requires
            size <= usize::MAX / 4,
        ensures
            size == 0 ==> r == Err::<SegTree<S>, TreeError>(TreeError::InvalidSize),
            size >= 1 ==> r is Ok && r->Ok_0.wf() && r->Ok_0.spec_size() == size && r->Ok_0@
                =~= Seq::new(size as nat, |p: int| S::spec_id()),
    {
        if size == 0 {
            return Err(TreeError::InvalidSize);
        }
        let (max_size, depth) = next_pow2_at_least(size);
        let data: Vec<S::T> = vec_filled::<S>(2 * max_size);
        let t = SegTree {
            size,
            max_size,
            data,
            levels: Ghost(depth as nat),
            _spec: core::marker::PhantomData,
        };
        proof {
            assert forall|j: int| 1 <= j < t.max_size implies #[trigger] t.data@[j] == S::spec_op(
                t.data@[2 * j],
                t.data@[2 * j + 1],
            ) by {
                S::id_neutral(S::spec_id());
            }
        }
        Ok(t)
    }

    /// Builds a tree from a slice of initial values, in O(n).
    /// Fails with `InvalidSize` when the slice is empty.
    pub fn from_slice(values: &[S::T]) -> (r: Result<SegTree<S>, TreeError>)
        requires
            values@.len() <= usize::MAX / 4,
        ensures
            values@.len() == 0 ==> r == Err::<SegTree<S>, TreeError>(TreeError::InvalidSize),
            values@.len() >= 1 ==> r is Ok && r->Ok_0.wf() && r->Ok_0.spec_size() == values@.len()
                && r->Ok_0@ =~= values@,
    {
        let size = values.len();
        if size == 0 {
            return Err(TreeError::InvalidSize);
        }
        let (max_size, depth) = next_pow2_at_least(size);
        let mut data: Vec<S::T> = vec_filled::<S>(2 * max_size);

        let mut p: usize = 0;
        while p < size
            invariant
                size == values@.len(),
                1 <= size <= max_size,
                max_size <= usize::MAX / 2,
                data@.len() == 2 * max_size,
                p <= size,
                forall|q: int| 0 <= q < p ==> data@[max_size + q] == values@[q],
                forall|q: int|
                    0 <= q < 2 * max_size && !(max_size <= q < max_size + p) ==> data@[q]
                        == S::spec_id(),
            decreases size - p,
        {
            data[max_size + p] = values[p];
            p = p + 1;
        }

        let mut j: usize = max_size - 1;
        while j >= 1
            invariant
                1 <= size <= max_size,
                max_size <= usize::MAX / 2,
                data@.len() == 2 * max_size,
                j <= max_size - 1,
                forall|jj: int|
                    j < jj < max_size ==> #[trigger] data@[jj] == S::spec_op(
                        data@[2 * jj],
                        data@[2 * jj + 1],
                    ),
                forall|q: int|
                    max_size <= q < max_size + size ==> data@[q] == values@[q - max_size],
                forall|q: int| max_size + size <= q < 2 * max_size ==> data@[q] == S::spec_id(),
            decreases j,
        {
            let mut v = data[2 * j];
            S::op(&mut v, &data[2 * j + 1]);
            data[j] = v;
            j = j - 1;
        }

        let t = SegTree {
            size,
            max_size,
            data,
            levels: Ghost(depth as nat),
            _spec: core::marker::PhantomData,
        };
        Ok(t)
    }

    /// Builds a tree from a vector of initial values, in O(n).
    /// Fails with `InvalidSize` when the vector is empty.
    pub fn from_vec(values: Vec<S::T>) -> (r: Result<SegTree<S>, TreeError>)
        requires
            values@.len() <= usize::MAX / 4,
        ensures
            values@.len() == 0 ==> r == Err::<SegTree<S>, TreeError>(TreeError::InvalidSize),
            values@.len() >= 1 ==> r is Ok && r->Ok_0.wf() && r->Ok_0.spec_size() == values@.len()
                && r->Ok_0@ =~= values@,
    {
        Self::from_slice(values.as_slice())
    }

    /// Folds the operation over the logical elements in `range`. An invalid
    /// range fails with `InvalidRange`; an empty range folds to the
    /// identity. Never mutates the tree.
    pub fn query(&self, range: IndexRange) -> (r: Result<S::T, TreeError>)
        requires
            self.wf(),
        ensures
            range.valid_for(self.spec_size() as int) == (r is Ok),
            !range.valid_for(self.spec_size() as int) ==> r == Err::<S::T, TreeError>(
                TreeError::InvalidRange,
            ),
            range.valid_for(self.spec_size() as int) ==> r == Ok::<S::T, TreeError>(
                fold_op::<S>(
                    self@.subrange(
                        range.start_spec(),
                        range.end_spec(self.spec_size() as int),
                    ),
                ),
            ),
    {
        let (left, right) = parse_range(range, self.size);
        proof {
            lemma_parsed_validity(range, self.size, left, right);
        }
        if !validate_range(left, right, self.size) {
            return Err(TreeError::InvalidRange);
        }
        if left == right {
            proof {
                assert(self@.subrange(left as int, right as int) =~= Seq::<S::T>::empty());
            }
            return Ok(S::id());
        }
        let res = self.query_node(1, self.max_size, Ghost(self.levels@), 0, self.max_size, left, right);
        proof {
            assert(self.data@.subrange(self.max_size + left, self.max_size + right) =~= self@
                .subrange(left as int, right as int));
        }
        Ok(res)
    }

    /// Replaces the logical element at `index` and recomputes the ancestors
    /// on the path to the root. An index at or beyond the size fails with
    /// `IndexOutOfBounds` and leaves the tree untouched.
    pub fn update(&mut self, index: usize, value: S::T) -> (r: Result<(), TreeError>)
        requires
            old(self).wf(),
        ensures
            final(self).wf(),
            final(self).spec_size() == old(self).spec_size(),
            index >= old(self).spec_size() ==> r == Err::<(), TreeError>(
                TreeError::IndexOutOfBounds,
            ) && *final(self) == *old(self),
            index < old(self).spec_size() ==> r == Ok::<(), TreeError>(()) && final(self)@ =~= old(
                self,
            )@.update(index as int, value),
    {
        if index >= self.size {
            return Err(TreeError::IndexOutOfBounds);
        }
        let leaf = self.max_size + index;
        self.data[leaf] = value;

        let ghost m = self.max_size as int;
        let mut cur: usize = leaf;
        while cur > 1
            invariant
                self.wf_except(cur as int),
                1 <= cur < 2 * self.max_size,
                self.size == old(self).size,
                self.max_size == old(self).max_size,
                self.levels == old(self).levels,
                self.data@.len() == old(self).data@.len(),
                forall|q: int|
                    self.max_size <= q < 2 * self.max_size ==> self.data@[q] == old(
                        self,
                    ).data@.update(self.max_size + index, value)[q],
            decreases cur,
        {
            cur = cur / 2;
            let mut v = self.data[2 * cur];
            S::op(&mut v, &self.data[2 * cur + 1]);
            self.data[cur] = v;
        }
        proof {
            assert forall|j: int|
                1 <= j < self.max_size implies #[trigger] self.data@[j] == S::spec_op(
                self.data@[2 * j],
                self.data@[2 * j + 1],
            ) by {
                assert(!strict_ancestor_of(j, 1));
            }
        }
        Ok(())
    }

    /// Well-formedness everywhere except on the strict ancestors of `cur`,
    /// whose stored values are still being recomputed.
    spec fn wf_except(&self, cur: int) -> bool {
        &&& self.data@.len() == 2 * self.max_size
        &&& self.max_size == pow2(self.levels@)
        &&& self.levels@ < usize::BITS
        &&& 1 <= self.size <= self.max_size
        &&& self.max_size <= usize::MAX / 2
        &&& forall|j: int|
            1 <= j < self.max_size && !strict_ancestor_of(j, cur) ==> #[trigger] self.data@[j]
                == S::spec_op(self.data@[2 * j], self.data@[2 * j + 1])
    }

    /// Answers the fold over leaf positions `[l, r)` from the node `i` of
    /// width `w == pow2(wexp)` covering positions `[a, b)`.
    fn query_node(
        &self,
        i: usize,
        w: usize,
        Ghost(wexp): Ghost<nat>,
        a: usize,
        b: usize,
        l: usize,
        r: usize,
    ) -> (res: S::T)
        requires
            self.wf(),
            w == pow2(wexp),
            i >= 1,
            i * w >= self.max_size,
            (i + 1) * w <= 2 * self.max_size,
            a == i * w - self.max_size,
            b == a + w,
            a <= l < r <= b,
        ensures
            res == fold_op::<S>(self.data@.subrange(self.max_size + l, self.max_size + r)),
        decreases w,
    {
        let m = self.max_size;
        if l == a && r == b {
            proof {
                assert(i + 1 <= (i + 1) * w) by (nonlinear_arith)
                    requires
                        w >= 1,
                        i >= 1,
                ;
                lemma_node_fold::<S>(self.data@, m as nat, i as nat, wexp);
            }
            return self.data[i];
        }
        proof {
            assert(w >= 2) by {
                if w < 2 {
                    assert(a <= l < r <= a + 1);
                }
            }
            assert(wexp >= 1) by {
                if wexp == 0 {
                    assert(pow2(0) == 1) by {
                        vstd::arithmetic::power2::lemma2_to64();
                    }
                }
            }
            lemma_pow2_unfold(wexp);
            lemma_child_node_range(i as nat, w as nat, self.max_size as nat);
            assert((i + 1) * 2 <= (i + 1) * w) by (nonlinear_arith)
                requires
                    w >= 2,
                    i >= 1,
            ;
        }
        let half = w / 2;
        let mid = a + half;
        if r <= mid {
            self.query_node(2 * i, half, Ghost((wexp - 1) as nat), a, mid, l, r)
        } else if mid <= l {
            self.query_node(2 * i + 1, half, Ghost((wexp - 1) as nat), mid, b, l, r)
        } else {
            let mut left_res = self.query_node(2 * i, half, Ghost((wexp - 1) as nat), a, mid, l, mid);
            let right_res = self.query_node(
                2 * i + 1,
                half,
                Ghost((wexp - 1) as nat),
                mid,
                b,
                mid,
                r,
            );
            proof {
                assert(self.data@.subrange(m + l, m + mid) + self.data@.subrange(m + mid, m + r)
                    =~= self.data@.subrange(m + l, m + r));
                lemma_fold_concat::<S>(
                    self.data@.subrange(m + l, m + mid),
                    self.data@.subrange(m + mid, m + r),
                );
            }
            S::op(&mut left_res, &right_res);
            left_res
        }
    }
}

/// `j` is a strict ancestor of `c` in the 1-based layout.
spec fn strict_ancestor_of(j: int, c: int) -> bool
    decreases c,
{
    if c <= 1 {
        false
    } else {
        j == c / 2 || strict_ancestor_of(j, c / 2)
    }
}

/// Every node of an array satisfying the child invariant holds the fold of
/// the leaf slots it covers: node `i` of width `w == pow2(wexp)` covers
/// array slots `[i*w, i*w + w)`.
proof fn lemma_node_fold<S: SegTreeSpec>(d: Seq<S::T>, m: nat, i: nat, wexp: nat)
    requires
        d.len() == 2 * m,
        forall|j: int| 1 <= j < m ==> #[trigger] d[j] == S::spec_op(d[2 * j], d[2 * j + 1]),
        i >= 1,
        i * pow2(wexp) >= m,
        (i + 1) * pow2(wexp) <= 2 * m,
    ensures
        d[i as int] == fold_op::<S>(
            d.subrange(i * pow2(wexp) as int, (i * pow2(wexp) + pow2(wexp)) as int),
        ),
    decreases wexp,
{
    let ii = i as int;
    let w = pow2(wexp) as int;
    vstd::arithmetic::power2::lemma_pow2_pos(wexp);
    if wexp == 0 {
        assert(pow2(0) == 1) by {
            vstd::arithmetic::power2::lemma2_to64();
        }
        assert(m <= i < 2 * m);
        let s = d.subrange(ii, ii + 1);
        assert(s.len() == 1 && s[0] == d[ii]);
        lemma_fold_singleton::<S>(s);
    } else {
        lemma_pow2_unfold(wexp);
        let half = pow2((wexp - 1) as nat) as int;
        lemma_child_node_range(i, pow2(wexp), m);
        assert(i < m) by {
            assert((ii + 1) * 2 <= (ii + 1) * w) by {
                vstd::arithmetic::mul::lemma_mul_inequality(2, w, ii + 1);
                vstd::arithmetic::mul::lemma_mul_is_commutative(2, ii + 1);
                vstd::arithmetic::mul::lemma_mul_is_commutative(w, ii + 1);
            }
        }
        lemma_node_fold::<S>(d, m, 2 * i, (wexp - 1) as nat);
        lemma_node_fold::<S>(d, m, 2 * i + 1, (wexp - 1) as nat);
        assert(2 * ii * half == ii * w && (2 * ii + 1) * half == ii * w + half && (2 * ii + 2)
            * half == ii * w + w) by (nonlinear_arith)
            requires
                w == 2 * half,
        ;
        assert(d.subrange(ii * w, ii * w + half) + d.subrange(ii * w + half, ii * w + w) =~= d
            .subrange(ii * w, ii * w + w));
        lemma_fold_concat::<S>(
            d.subrange(ii * w, ii * w + half),
            d.subrange(ii * w + half, ii * w + w),
        );
    }
}

/// Relates the positions of a node of even width `w` to those of its two
/// children of width `w / 2`.
pub(crate) proof fn lemma_child_node_range(i: nat, w: nat, m: nat)
    requires
        i >= 1,
        w >= 2,
        w % 2 == 0,
        i * w >= m,
        (i + 1) * w <= 2 * m,
    ensures
        2 * i * (w / 2) == i * w,
        (2 * i + 1) * (w / 2) == i * w + w / 2,
        (2 * i + 2) * (w / 2) == i * w + w,
        2 * i * (w / 2) >= m,
        (2 * i + 2) * (w / 2) <= 2 * m,
{
    assert(2 * i * (w / 2) == i * w && (2 * i + 1) * (w / 2) == i * w + w / 2 && (2 * i + 2) * (w
        / 2) == i * w + w && (i + 1) * w == i * w + w) by (nonlinear_arith)
        requires
            w % 2 == 0,
            w >= 2nat,
    ;
}

/// Computes the least power of two at or above `size`, with its exponent.
pub(crate) fn next_pow2_at_least(size: usize) -> (r: (usize, u32))
    requires
        1 <= size <= usize::MAX / 4,
    ensures
        r.0 == pow2(r.1 as nat),
        size <= r.0,
        r.0 < 2 * size,
        r.1 < usize::BITS,
{
    let mut m: usize = 1;
    let mut e: u32 = 0;
    proof {
        vstd::arithmetic::power2::lemma2_to64();
    }
    while m < size
        invariant
            1 <= size <= usize::MAX / 4,
            m == pow2(e as nat),
            1 <= m,
            m < 2 * size,
            e < usize::BITS,
        decreases usize::BITS - e,
    {
        proof {
            lemma_pow2_unfold(e as nat + 1);
            assert(e as nat + 1 < usize::BITS) by {
                vstd::arithmetic::power2::lemma2_to64();
                vstd::arithmetic::power2::lemma2_to64_rest();
                if e as nat + 1 >= usize::BITS {
                    if e as nat > usize::BITS - 1 {
                        vstd::arithmetic::power2::lemma_pow2_strictly_increases(
                            (usize::BITS - 1) as nat,
                            e as nat,
                        );
                    }
                    assert(pow2(e as nat) >= pow2((usize::BITS - 1) as nat));
                }
            }
        }
        m = m * 2;
        e = e + 1;
    }
    (m, e)
}

/// Allocates `n` slots, each holding the identity of `S`.
fn vec_filled<S: SegTreeSpec>(n: usize) -> (r: Vec<S::T>)
    ensures
        r@.len() == n,
        forall|q: int| 0 <= q < n ==> r@[q] == S::spec_id(),
{
    let mut v: Vec<S::T> = Vec::new();
    let id = S::id();
    let mut k: usize = 0;
    while k < n
        invariant
            v@.len() == k,
            k <= n,
            id == S::spec_id(),
            forall|q: int| 0 <= q < k ==> v@[q] == S::spec_id(),
        decreases n - k,
    {
        v.push(id);
        k = k + 1;
    }
    v
}

} // verus!
