//! Range-update / range-query aggregation tree with deferred ("lazy")
//! propagation.
//!
//! A `LazySegTree<S>` stores a fixed-size logical sequence, answers folds of
//! any sub-interval under the data-combine operation of `S`, and applies an
//! update to every element of a sub-interval, each in O(log n). An update on
//! a range is recorded as a pending *tag* on the O(log n) nodes whose leaf
//! intervals tile the range, instead of being applied to every leaf; tags
//! are pushed one level down whenever an operation must look beneath a
//! tagged node.
//!
//! # The model and the invariant
//!
//! The meaning of a tree state is the sequence of *true* leaf values
//! ([`View`]): the value a leaf slot holds once every pending tag on the
//! leaf and its ancestors is applied, innermost first. The invariant
//! (`wf`) is that every internal node's stored aggregate equals the combine
//! of its children's *effective* values (stored value with the child's own
//! tag applied), so a node's stored value is current except for its own
//! pending tag — which is exactly what the push protocol maintains.
//!
//! # The laws
//!
//! The functional guarantees hold whenever the three operations of `S` form
//! a lawful monoid action, [`lazy_laws`]: the combine is associative with
//! the identity neutral, applying an update distributes over combine, and
//! composing updates agrees with applying them in order. The laws are a
//! hypothesis rather than a trait obligation because useful instances over
//! fixed-width integers (range-add with min or max) satisfy them everywhere
//! except at wrap-around, where no exact guarantee is possible; instances
//! that do satisfy them come with proved law lemmas.

use crate::utils::{lemma_parsed_validity, parse_range, validate_range, IndexRange, TreeError};
use vstd::arithmetic::power2::{
    lemma2_to64, lemma_pow2_pos, lemma_pow2_strictly_increases, lemma_pow2_unfold, pow2,
};
use vstd::prelude::*;

verus! {

/// The operations a [`LazySegTree`] runs on: a data-combine over `T` with an
/// identity, an update-compose over `U`, and the application of an update to
/// a stored aggregate, parameterized by the number of leaves the aggregate
/// covers. Each executable operation is pinned to its spec function; the
/// algebraic laws the tree's guarantees rest on are stated separately as
/// [`lazy_laws`].
pub trait LazySegTreeSpec: Sized {
    /// Element type stored in the tree.
    type T: Copy;

    /// Update type recorded by range updates.
    type U: Copy;

    /// The identity element of the data-combine.
    spec fn spec_id() -> Self::T;

    /// The data-combine operation.
    spec fn spec_op_on_data(d1: Self::T, d2: Self::T) -> Self::T;

    /// Composition of updates: applying `u1` and then `u2` must equal
    /// applying their composition once.
    spec fn spec_op_on_update(u1: Self::U, u2: Self::U) -> Self::U;

    /// Application of an update to an aggregate covering `n` leaves.
    spec fn spec_op_update_on_data(u: Self::U, d: Self::T, n: nat) -> Self::T;

    /// Produces the identity element.
    fn id() -> (r: Self::T)
        ensures
            r == Self::spec_id(),
    ;

    /// Combines `d2` into `d1`, in place.
    fn op_on_data(d1: &mut Self::T, d2: &Self::T)
        ensures
            *final(d1) == Self::spec_op_on_data(*old(d1), *d2),
    ;

    /// Composes `u2` onto `u1` (`u1` first, then `u2`), in place.
    fn op_on_update(u1: &mut Self::U, u2: &Self::U)
        ensures
            *final(u1) == Self::spec_op_on_update(*old(u1), *u2),
    ;

    /// Applies `u` to the aggregate `d` covering `size` leaves, in place.
    fn op_update_on_data(u: &Self::U, d: &mut Self::T, size: usize)
        ensures
            *final(d) == Self::spec_op_update_on_data(*u, *old(d), size as nat),
    ;
}

/// The algebraic laws under which a [`LazySegTree`] computes exact folds:
/// the combine is associative, the identity is neutral, applying an update
/// distributes over the combine of two aggregates, and composed updates act
/// as the two updates applied in order.
#[verifier::opaque]
pub open spec fn lazy_laws<S: LazySegTreeSpec>() -> bool {
    &&& forall|a: S::T, b: S::T, c: S::T|
        #[trigger] S::spec_op_on_data(S::spec_op_on_data(a, b), c) == S::spec_op_on_data(
            a,
            S::spec_op_on_data(b, c),
        )
    &&& forall|a: S::T| #[trigger] S::spec_op_on_data(S::spec_id(), a) == a
    &&& forall|a: S::T| #[trigger] S::spec_op_on_data(a, S::spec_id()) == a
    &&& forall|u: S::U, d1: S::T, d2: S::T, n1: nat, n2: nat|
        1 <= n1 && 1 <= n2 ==> S::spec_op_update_on_data(u, S::spec_op_on_data(d1, d2), n1 + n2)
            == S::spec_op_on_data(
            #[trigger] S::spec_op_update_on_data(u, d1, n1),
            #[trigger] S::spec_op_update_on_data(u, d2, n2),
        )
    &&& forall|u1: S::U, u2: S::U, d: S::T, n: nat|
        1 <= n ==> #[trigger] S::spec_op_update_on_data(S::spec_op_on_update(u1, u2), d, n)
            == S::spec_op_update_on_data(u2, S::spec_op_update_on_data(u1, d, n), n)
}

/// The combine is associative.
pub proof fn lemma_law_assoc<S: LazySegTreeSpec>(a: S::T, b: S::T, c: S::T)
    requires
        lazy_laws::<S>(),
    ensures
        S::spec_op_on_data(S::spec_op_on_data(a, b), c) == S::spec_op_on_data(
            a,
            S::spec_op_on_data(b, c),
        ),
{
    reveal(lazy_laws);
}

/// The identity is neutral on both sides of the combine.
pub proof fn lemma_law_id<S: LazySegTreeSpec>(a: S::T)
    requires
        lazy_laws::<S>(),
    ensures
        S::spec_op_on_data(S::spec_id(), a) == a,
        S::spec_op_on_data(a, S::spec_id()) == a,
{
    reveal(lazy_laws);
}

/// Applying an update distributes over the combine of two aggregates.
pub proof fn lemma_law_distribute<S: LazySegTreeSpec>(
    u: S::U,
    d1: S::T,
    d2: S::T,
    n1: nat,
    n2: nat,
)
    requires
        lazy_laws::<S>(),
        n1 >= 1,
        n2 >= 1,
    ensures
        S::spec_op_update_on_data(u, S::spec_op_on_data(d1, d2), n1 + n2) == S::spec_op_on_data(
            S::spec_op_update_on_data(u, d1, n1),
            S::spec_op_update_on_data(u, d2, n2),
        ),
{
    reveal(lazy_laws);
}

/// A composed update acts as its two parts applied in order.
pub proof fn lemma_law_compose<S: LazySegTreeSpec>(u1: S::U, u2: S::U, d: S::T, n: nat)
    requires
        lazy_laws::<S>(),
        n >= 1,
    ensures
        S::spec_op_update_on_data(S::spec_op_on_update(u1, u2), d, n) == S::spec_op_update_on_data(
            u2,
            S::spec_op_update_on_data(u1, d, n),
            n,
        ),
{
    reveal(lazy_laws);
}

/// The data-combine of `S` folded over a sequence, front to back; the empty
/// sequence folds to the identity.
pub open spec fn fold_data<S: LazySegTreeSpec>(s: Seq<S::T>) -> S::T
    decreases s.len(),
{
    if s.len() == 0 {
        S::spec_id()
    } else {
        S::spec_op_on_data(s[0], fold_data::<S>(s.drop_first()))
    }
}

/// An update applied pointwise to the positions `[lo, hi)` of a sequence:
/// the reference semantics of a range update.
pub open spec fn map_range<S: LazySegTreeSpec>(u: S::U, s: Seq<S::T>, lo: int, hi: int) -> Seq<
    S::T,
> {
    Seq::new(s.len(), |p: int| if lo <= p < hi {
        S::spec_op_update_on_data(u, s[p], 1)
    } else {
        s[p]
    })
}

/// A fold of one element is that element.
pub proof fn lemma_fold_data_singleton<S: LazySegTreeSpec>(s: Seq<S::T>)
    requires
        lazy_laws::<S>(),
        s.len() == 1,
    ensures
        fold_data::<S>(s) == s[0],
{
    assert(s.drop_first() =~= Seq::<S::T>::empty());
    assert(fold_data::<S>(s.drop_first()) == S::spec_id());
    assert(fold_data::<S>(s) == S::spec_op_on_data(s[0], S::spec_id()));
    lemma_law_id::<S>(s[0]);
}

/// Folds split across concatenation:
/// `fold(s + t) == op_on_data(fold(s), fold(t))`.
pub proof fn lemma_fold_data_concat<S: LazySegTreeSpec>(s: Seq<S::T>, t: Seq<S::T>)
    requires
        lazy_laws::<S>(),
    ensures
        fold_data::<S>(s + t) == S::spec_op_on_data(fold_data::<S>(s), fold_data::<S>(t)),
    decreases s.len(),
{
    if s.len() == 0 {
        assert(s + t =~= t);
        lemma_law_id::<S>(fold_data::<S>(t));
    } else {
        assert((s + t).drop_first() =~= s.drop_first() + t);
        lemma_fold_data_concat::<S>(s.drop_first(), t);
        lemma_law_assoc::<S>(s[0], fold_data::<S>(s.drop_first()), fold_data::<S>(t));
    }
}

/// An empty range folds to the identity, whatever the sequence holds.
pub proof fn lemma_empty_range_fold_data<S: LazySegTreeSpec>(s: Seq<S::T>, i: int)
    requires
        0 <= i <= s.len(),
    ensures
        fold_data::<S>(s.subrange(i, i)) == S::spec_id(),
{
    assert(s.subrange(i, i) =~= Seq::<S::T>::empty());
}

/// An update over an empty range changes nothing, whatever the update.
pub proof fn lemma_empty_range_update<S: LazySegTreeSpec>(u: S::U, s: Seq<S::T>, i: int)
    ensures
        map_range::<S>(u, s, i, i) == s,
{
    assert(map_range::<S>(u, s, i, i) =~= s);
}

/// The fold over the full range `[0, len)` is the fold over every logical
/// element.
pub proof fn lemma_full_range_fold_data<S: LazySegTreeSpec>(s: Seq<S::T>)
    ensures
        fold_data::<S>(s.subrange(0, s.len() as int)) == fold_data::<S>(s),
{
    assert(s.subrange(0, s.len() as int) =~= s);
}

/// Overlapping range updates applied one after the other act exactly as the
/// pointwise deltas applied to a reference sequence: at every position, the
/// updates that cover it apply in submission order and the others do not
/// touch it — however the covering ranges overlap or are grouped.
pub proof fn lemma_overlapping_updates<S: LazySegTreeSpec>(
    s: Seq<S::T>,
    u1: S::U,
    l1: int,
    r1: int,
    u2: S::U,
    l2: int,
    r2: int,
    p: int,
)
    requires
        0 <= p < s.len(),
    ensures
        map_range::<S>(u2, map_range::<S>(u1, s, l1, r1), l2, r2)[p] == {
            let once = if l1 <= p < r1 {
                S::spec_op_update_on_data(u1, s[p], 1)
            } else {
                s[p]
            };
            if l2 <= p < r2 {
                S::spec_op_update_on_data(u2, once, 1)
            } else {
                once
            }
        },
{
}

/// The stored value of a node with its own pending tag applied, if present:
/// the node's aggregate as the rest of the tree must see it.
spec fn apply_opt<S: LazySegTreeSpec>(t: Option<S::U>, x: S::T, n: nat) -> S::T {
    match t {
        Option::Some(u) => S::spec_op_update_on_data(u, x, n),
        Option::None => x,
    }
}

/// A pending tag applied pointwise to a sequence of single leaves.
spec fn tag_seq<S: LazySegTreeSpec>(t: Option<S::U>, s: Seq<S::T>) -> Seq<S::T> {
    Seq::new(s.len(), |p: int| apply_opt::<S>(t, s[p], 1))
}

/// An update applied pointwise to a whole sequence of single leaves.
spec fn map_all<S: LazySegTreeSpec>(u: S::U, s: Seq<S::T>) -> Seq<S::T> {
    Seq::new(s.len(), |p: int| S::spec_op_update_on_data(u, s[p], 1))
}

/// The tag composed onto an optional existing tag: the existing update
/// first, the new one after.
spec fn composed_tag<S: LazySegTreeSpec>(t: Option<S::U>, u: S::U) -> S::U {
    match t {
        Option::Some(e) => S::spec_op_on_update(e, u),
        Option::None => u,
    }
}

/// The effective value of node `i` at height `k` (covering `pow2(k)`
/// leaves): its stored value with its own tag applied.
spec fn node_eval<S: LazySegTreeSpec>(d: Seq<S::T>, g: Seq<Option<S::U>>, i: int, k: nat) -> S::T {
    apply_opt::<S>(g[i], d[i], pow2(k))
}

/// The sequence of true leaf values below node `i` at height `k`, taking
/// every tag at `i` or below into account: the tags of the subtree applied
/// outermost-last to the concatenation of the children's true values.
spec fn stree<S: LazySegTreeSpec>(d: Seq<S::T>, g: Seq<Option<S::U>>, i: int, k: nat) -> Seq<S::T>
    decreases k,
{
    if k == 0 {
        seq![apply_opt::<S>(g[i], d[i], 1)]
    } else {
        tag_seq::<S>(
            g[i],
            stree::<S>(d, g, 2 * i, (k - 1) as nat) + stree::<S>(d, g, 2 * i + 1, (k - 1) as nat),
        )
    }
}

/// The lazy-propagation invariant below node `i` at height `k`: every
/// internal node of the subtree stores the combine of its children's
/// effective values.
spec fn swf<S: LazySegTreeSpec>(d: Seq<S::T>, g: Seq<Option<S::U>>, i: int, k: nat) -> bool
    decreases k,
{
    if k == 0 {
        true
    } else {
        &&& d[i] == S::spec_op_on_data(
            node_eval::<S>(d, g, 2 * i, (k - 1) as nat),
            node_eval::<S>(d, g, 2 * i + 1, (k - 1) as nat),
        )
        &&& swf::<S>(d, g, 2 * i, (k - 1) as nat)
        &&& swf::<S>(d, g, 2 * i + 1, (k - 1) as nat)
    }
}

/// `j` is an array slot of the subtree rooted at node `i` of height `k`.
spec fn in_sub(i: int, k: nat, j: int) -> bool {
    exists|e: nat| e <= k && i * #[trigger] pow2(e) <= j < (i + 1) * pow2(e)
}

/// A node belongs to its own subtree.
proof fn lemma_in_sub_self(i: int, k: nat)
    ensures
        in_sub(i, k, i),
{
    assert(pow2(0) == 1) by {
        lemma2_to64();
    }
    assert(0 <= k && i * pow2(0) <= i < (i + 1) * pow2(0));
}

/// A slot of a child's subtree is a slot of the parent's subtree.
proof fn lemma_in_sub_child(i: int, k: nat, j: int)
    requires
        k >= 1,
        in_sub(2 * i, (k - 1) as nat, j) || in_sub(2 * i + 1, (k - 1) as nat, j),
    ensures
        in_sub(i, k, j),
{
    if in_sub(2 * i, (k - 1) as nat, j) {
        let e = choose|e: nat| e <= k - 1 && 2 * i * #[trigger] pow2(e) <= j < (2 * i + 1) * pow2(e);
        lemma_pow2_unfold(e + 1);
        assert(i * pow2(e + 1) == 2 * i * pow2(e) && (i + 1) * pow2(e + 1) == (2 * i + 2) * pow2(
            e,
        ) && (2 * i + 1) * pow2(e) <= (2 * i + 2) * pow2(e)) by (nonlinear_arith)
            requires
                pow2(e + 1) == 2 * pow2(e),
                pow2(e) >= 0,
        ;
        assert(e + 1 <= k && i * pow2(e + 1) <= j < (i + 1) * pow2(e + 1));
    } else {
        let e = choose|e: nat| e <= k - 1 && (2 * i + 1) * #[trigger] pow2(e) <= j < (2 * i + 2) * pow2(e);
        lemma_pow2_unfold(e + 1);
        assert(i * pow2(e + 1) <= (2 * i + 1) * pow2(e) && (i + 1) * pow2(e + 1) == (2 * i + 2)
            * pow2(e)) by (nonlinear_arith)
            requires
                pow2(e + 1) == 2 * pow2(e),
                pow2(e) >= 0,
        ;
        assert(e + 1 <= k && i * pow2(e + 1) <= j < (i + 1) * pow2(e + 1));
    }
}

/// Every slot of a subtree lies between the root index and the end of the
/// leaf level.
proof fn lemma_in_sub_bounds(i: int, k: nat, j: int)
    requires
        i >= 1,
        in_sub(i, k, j),
    ensures
        i <= j < (i + 1) * pow2(k),
{
    let e = choose|e: nat| e <= k && i * #[trigger] pow2(e) <= j < (i + 1) * pow2(e);
    lemma_pow2_pos(e);
    assert(pow2(e) <= pow2(k)) by {
        if e < k {
            lemma_pow2_strictly_increases(e, k);
        }
    }
    assert(i * 1 <= i * pow2(e) && (i + 1) * pow2(e) <= (i + 1) * pow2(k)) by (nonlinear_arith)
        requires
            i >= 1,
            1 <= pow2(e) <= pow2(k),
    ;
}

/// Any slot below a node lies in exactly one of its two children's
/// subtrees; in particular the two subtrees are disjoint.
proof fn lemma_sibling_disjoint(i: int, k: nat, j: int)
    requires
        i >= 1,
    ensures
        !(in_sub(2 * i, k, j) && in_sub(2 * i + 1, k, j)),
{
    if in_sub(2 * i, k, j) && in_sub(2 * i + 1, k, j) {
        let e1 = choose|e: nat| e <= k && 2 * i * #[trigger] pow2(e) <= j < (2 * i + 1) * pow2(e);
        let e2 = choose|e: nat| e <= k && (2 * i + 1) * #[trigger] pow2(e) <= j < (2 * i + 2) * pow2(e);
        lemma_pow2_pos(e1);
        lemma_pow2_pos(e2);
        lemma_div_identity(j, 2 * i, e1);
        lemma_div_identity(j, 2 * i + 1, e2);
        if e1 <= e2 {
            lemma_div_stack(j, e1, e2);
            // j / pow2(e2) descends from j / pow2(e1) == 2 * i, so it is at
            // most i < 2 * i + 1 when any levels remain, or exactly 2 * i.
            lemma_quot_shrinks(2 * i, (e2 - e1) as nat);
        } else {
            lemma_div_stack(j, e2, e1);
            lemma_quot_shrinks(2 * i + 1, (e1 - e2) as nat);
        }
    }
}

/// If `q * pow2(e) <= j < (q + 1) * pow2(e)` then `j / pow2(e) == q`.
proof fn lemma_div_identity(j: int, q: int, e: nat)
    requires
        q * pow2(e) <= j < (q + 1) * pow2(e),
    ensures
        j / pow2(e) as int == q,
{
    lemma_pow2_pos(e);
    let p = pow2(e) as int;
    let r = j - q * p;
    assert((q + 1) * p == q * p + p) by (nonlinear_arith);
    vstd::arithmetic::div_mod::lemma_fundamental_div_mod_converse(j, p, q, r);
}

/// Dividing by `pow2(e2)` is dividing by `pow2(e1)` and then by the rest.
proof fn lemma_div_stack(j: int, e1: nat, e2: nat)
    requires
        e1 <= e2,
        j >= 0,
    ensures
        j / pow2(e2) as int == (j / pow2(e1) as int) / pow2((e2 - e1) as nat) as int,
{
    lemma_pow2_pos(e1);
    lemma_pow2_pos(e2);
    lemma_pow2_pos((e2 - e1) as nat);
    vstd::arithmetic::power2::lemma_pow2_adds(e1, (e2 - e1) as nat);
    vstd::arithmetic::div_mod::lemma_div_denominator(
        j,
        pow2(e1) as int,
        pow2((e2 - e1) as nat) as int,
    );
}

/// The subtree sequence below a node at height `k` has `pow2(k)` entries.
proof fn lemma_stree_len<S: LazySegTreeSpec>(d: Seq<S::T>, g: Seq<Option<S::U>>, i: int, k: nat)
    ensures
        stree::<S>(d, g, i, k).len() == pow2(k),
    decreases k,
{
    if k == 0 {
        assert(pow2(0) == 1) by {
            lemma2_to64();
        }
    } else {
        lemma_stree_len::<S>(d, g, 2 * i, (k - 1) as nat);
        lemma_stree_len::<S>(d, g, 2 * i + 1, (k - 1) as nat);
        lemma_pow2_unfold(k);
    }
}

/// The subtree sequence, the invariant and the effective value of a node
/// depend only on the slots of its subtree.
proof fn lemma_subtree_frame<S: LazySegTreeSpec>(
    d1: Seq<S::T>,
    g1: Seq<Option<S::U>>,
    d2: Seq<S::T>,
    g2: Seq<Option<S::U>>,
    i: int,
    k: nat,
)
    requires
        i >= 1,
        forall|j: int| in_sub(i, k, j) ==> d1[j] == d2[j] && g1[j] == g2[j],
    ensures
        stree::<S>(d1, g1, i, k) == stree::<S>(d2, g2, i, k),
        swf::<S>(d1, g1, i, k) == swf::<S>(d2, g2, i, k),
        node_eval::<S>(d1, g1, i, k) == node_eval::<S>(d2, g2, i, k),
    decreases k,
{
    lemma_in_sub_self(i, k);
    if k == 0 {
        assert(stree::<S>(d1, g1, i, k) =~= stree::<S>(d2, g2, i, k));
    } else {
        assert forall|j: int|
            in_sub(2 * i, (k - 1) as nat, j) || in_sub(2 * i + 1, (k - 1) as nat, j) implies d1[j]
            == d2[j] && g1[j] == g2[j] by {
            lemma_in_sub_child(i, k, j);
        }
        lemma_subtree_frame::<S>(d1, g1, d2, g2, 2 * i, (k - 1) as nat);
        lemma_subtree_frame::<S>(d1, g1, d2, g2, 2 * i + 1, (k - 1) as nat);
    }
}

/// Composing an update onto the root tag of a subtree applies that update to
/// every entry of the subtree sequence.
#[verifier::rlimit(50)]
proof fn lemma_stree_retag<S: LazySegTreeSpec>(
    d: Seq<S::T>,
    g: Seq<Option<S::U>>,
    i: int,
    k: nat,
    u: S::U,
)
    requires
        lazy_laws::<S>(),
        i >= 1,
        (i + 1) * pow2(k) <= g.len(),
    ensures
        stree::<S>(d, g.update(i, Option::Some(composed_tag::<S>(g[i], u))), i, k) == map_all::<S>(
            u,
            stree::<S>(d, g, i, k),
        ),
{
    let km = (k - 1) as nat;
    let g2 = g.update(i, Option::Some(composed_tag::<S>(g[i], u)));
    lemma_pow2_pos(k);
    assert(i < g.len()) by {
        assert(i + 1 <= (i + 1) * pow2(k)) by (nonlinear_arith)
            requires
                i >= 1,
                pow2(k) >= 1,
        ;
    }
    if k == 0 {
        assert(apply_opt::<S>(g2[i], d[i], 1) == S::spec_op_update_on_data(
            u,
            apply_opt::<S>(g[i], d[i], 1),
            1,
        )) by {
            match g[i] {
                Option::Some(e) => {
                    lemma_law_compose::<S>(e, u, d[i], 1);
                },
                Option::None => {},
            }
        }
        assert(stree::<S>(d, g2, i, k) =~= map_all::<S>(u, stree::<S>(d, g, i, k)));
    } else {
        lemma_pow2_unfold(k);
        lemma_pow2_pos(km);
        assert((2 * i + 2) * pow2(km) == (i + 1) * pow2(k)) by (nonlinear_arith)
            requires
                pow2(k) == 2 * pow2(km),
        ;
        assert forall|j: int|
            in_sub(2 * i, km, j) || in_sub(2 * i + 1, km, j) implies d[j] == d[j] && g2[j]
            == g[j] by {
            if in_sub(2 * i, km, j) {
                lemma_in_sub_bounds(2 * i, km, j);
                assert((2 * i + 1) * pow2(km) <= (2 * i + 2) * pow2(km)) by (nonlinear_arith)
                    requires
                        pow2(km) >= 1,
                ;
            } else {
                lemma_in_sub_bounds(2 * i + 1, km, j);
            }
        }
        lemma_subtree_frame::<S>(d, g2, d, g, 2 * i, km);
        lemma_subtree_frame::<S>(d, g2, d, g, 2 * i + 1, km);
        let inner = stree::<S>(d, g, 2 * i, km) + stree::<S>(d, g, 2 * i + 1, km);
        assert forall|p: int| 0 <= p < inner.len() implies apply_opt::<S>(g2[i], inner[p], 1)
            == S::spec_op_update_on_data(u, apply_opt::<S>(g[i], inner[p], 1), 1) by {
            match g[i] {
                Option::Some(e) => {
                    lemma_law_compose::<S>(e, u, inner[p], 1);
                },
                Option::None => {},
            }
        }
        assert(stree::<S>(d, g2, i, k) =~= map_all::<S>(u, stree::<S>(d, g, i, k)));
    }
}

/// Overwriting the stored value at an internal node leaves its subtree
/// sequence unchanged: the sequence reads stored values at leaves only.
proof fn lemma_stree_pull<S: LazySegTreeSpec>(
    d: Seq<S::T>,
    g: Seq<Option<S::U>>,
    i: int,
    k: nat,
    x: S::T,
)
    requires
        i >= 1,
        k >= 1,
        (i + 1) * pow2(k) <= d.len(),
    ensures
        stree::<S>(d.update(i, x), g, i, k) == stree::<S>(d, g, i, k),
{
    let km = (k - 1) as nat;
    let d2 = d.update(i, x);
    lemma_pow2_pos(k);
    lemma_pow2_pos(km);
    lemma_pow2_unfold(k);
    assert(i < d.len() && (2 * i + 2) * pow2(km) == (i + 1) * pow2(k)) by (nonlinear_arith)
        requires
            i >= 1,
            pow2(k) >= 1,
            pow2(k) == 2 * pow2(km),
            (i + 1) * pow2(k) <= d.len(),
    ;
    assert forall|j: int|
        in_sub(2 * i, km, j) || in_sub(2 * i + 1, km, j) implies d2[j] == d[j] && g[j] == g[j] by {
        if in_sub(2 * i, km, j) {
            lemma_in_sub_bounds(2 * i, km, j);
            assert((2 * i + 1) * pow2(km) <= (2 * i + 2) * pow2(km)) by (nonlinear_arith)
                requires
                    pow2(km) >= 1,
            ;
        } else {
            lemma_in_sub_bounds(2 * i + 1, km, j);
        }
    }
    lemma_subtree_frame::<S>(d2, g, d, g, 2 * i, km);
    lemma_subtree_frame::<S>(d2, g, d, g, 2 * i + 1, km);
}

/// The subtree invariant never reads the tag at its own root, so it is
/// insensitive to that one slot.
proof fn lemma_swf_frame<S: LazySegTreeSpec>(
    d1: Seq<S::T>,
    g1: Seq<Option<S::U>>,
    d2: Seq<S::T>,
    g2: Seq<Option<S::U>>,
    i: int,
    k: nat,
)
    requires
        i >= 1,
        forall|j: int| in_sub(i, k, j) ==> d1[j] == d2[j],
        forall|j: int| in_sub(i, k, j) && j != i ==> g1[j] == g2[j],
    ensures
        swf::<S>(d1, g1, i, k) == swf::<S>(d2, g2, i, k),
    decreases k,
{
    lemma_in_sub_self(i, k);
    if k != 0 {
        let km = (k - 1) as nat;
        assert forall|j: int| in_sub(2 * i, km, j) || in_sub(2 * i + 1, km, j) implies in_sub(
            i,
            k,
            j,
        ) && j > i by {
            lemma_in_sub_child(i, k, j);
            if in_sub(2 * i, km, j) {
                lemma_in_sub_bounds(2 * i, km, j);
            } else {
                lemma_in_sub_bounds(2 * i + 1, km, j);
            }
        }
        lemma_in_sub_self(2 * i, km);
        lemma_in_sub_self(2 * i + 1, km);
        lemma_swf_frame::<S>(d1, g1, d2, g2, 2 * i, km);
        lemma_swf_frame::<S>(d1, g1, d2, g2, 2 * i + 1, km);
    }
}

/// An empty tag applied over a sequence is that sequence.
proof fn lemma_tag_seq_none<S: LazySegTreeSpec>(s: Seq<S::T>)
    ensures
        tag_seq::<S>(Option::None, s) == s,
{
    assert(tag_seq::<S>(Option::None, s) =~= s);
}

/// The stored data after pushing the tag of node `i` covering `pow2(k)`
/// leaves: the node's own slot absorbs its pending tag.
spec fn push_d<S: LazySegTreeSpec>(d: Seq<S::T>, g: Seq<Option<S::U>>, i: int, k: nat) -> Seq<
    S::T,
> {
    d.update(i, apply_opt::<S>(g[i], d[i], pow2(k)))
}

/// The tags after pushing the tag of internal node `i`: the node's slot is
/// cleared and the tag is composed onto both children's slots.
spec fn push_g<S: LazySegTreeSpec>(g: Seq<Option<S::U>>, i: int) -> Seq<Option<S::U>> {
    match g[i] {
        Option::Some(u) => g.update(i, Option::None).update(
            2 * i,
            Option::Some(composed_tag::<S>(g[2 * i], u)),
        ).update(2 * i + 1, Option::Some(composed_tag::<S>(g[2 * i + 1], u))),
        Option::None => g,
    }
}

/// Pushing a node's tag one level down preserves the subtree invariant, the
/// subtree sequence, and the node's effective value, and leaves the node
/// untagged.
#[verifier::rlimit(100)]
proof fn lemma_push_effect<S: LazySegTreeSpec>(
    d: Seq<S::T>,
    g: Seq<Option<S::U>>,
    i: int,
    k: nat,
)
    requires
        lazy_laws::<S>(),
        i >= 1,
        k >= 1,
        d.len() == g.len(),
        (i + 1) * pow2(k) <= d.len(),
        swf::<S>(d, g, i, k),
    ensures
        swf::<S>(push_d::<S>(d, g, i, k), push_g::<S>(g, i), i, k),
        stree::<S>(push_d::<S>(d, g, i, k), push_g::<S>(g, i), i, k) == stree::<S>(d, g, i, k),
        node_eval::<S>(push_d::<S>(d, g, i, k), push_g::<S>(g, i), i, k) == node_eval::<S>(
            d,
            g,
            i,
            k,
        ),
        push_g::<S>(g, i)[i] is None || g[i] is None,
        push_d::<S>(d, g, i, k).len() == d.len(),
        push_g::<S>(g, i).len() == g.len(),
        forall|j: int|
            0 <= j < d.len() && j != i ==> push_d::<S>(d, g, i, k)[j] == d[j],
        forall|j: int|
            0 <= j < g.len() && j != i && j != 2 * i && j != 2 * i + 1 ==> push_g::<S>(g, i)[j]
                == g[j],
{
    let km = (k - 1) as nat;
    let h = pow2(km);
    lemma_pow2_unfold(k);
    lemma_pow2_pos(km);
    assert(2 * i + 2 <= d.len() && i < d.len()) by (nonlinear_arith)
        requires
            i >= 1,
            pow2(k) == 2 * pow2(km),
            pow2(km) >= 1,
            (i + 1) * pow2(k) <= d.len(),
    ;
    let d2 = push_d::<S>(d, g, i, k);
    let g2 = push_g::<S>(g, i);
    match g[i] {
        Option::None => {
            assert(d2 =~= d);
            assert(g2 =~= g);
        },
        Option::Some(u) => {
            assert((2 * i + 1) * pow2(km) <= d.len() && (2 * i + 2) * pow2(km)
                <= d.len()) by (nonlinear_arith)
                requires
                    pow2(k) == 2 * pow2(km),
                    pow2(km) >= 1,
                    (i + 1) * pow2(k) <= d.len(),
                    i >= 1,
            ;
            let el = node_eval::<S>(d, g, 2 * i, km);
            let er = node_eval::<S>(d, g, 2 * i + 1, km);
            // The children's effective values absorb the pushed tag.
            assert(node_eval::<S>(d2, g2, 2 * i, km) == S::spec_op_update_on_data(u, el, h)) by {
                match g[2 * i] {
                    Option::Some(e) => {
                        lemma_law_compose::<S>(e, u, d[2 * i], h);
                    },
                    Option::None => {},
                }
            }
            assert(node_eval::<S>(d2, g2, 2 * i + 1, km) == S::spec_op_update_on_data(u, er, h))
                by {
                match g[2 * i + 1] {
                    Option::Some(e) => {
                        lemma_law_compose::<S>(e, u, d[2 * i + 1], h);
                    },
                    Option::None => {},
                }
            }
            // The node's new stored value combines them.
            lemma_law_distribute::<S>(u, el, er, h, h);
            assert(d2[i] == S::spec_op_on_data(
                node_eval::<S>(d2, g2, 2 * i, km),
                node_eval::<S>(d2, g2, 2 * i + 1, km),
            ));
            // The children's subtree invariants are untouched.
            assert forall|j: int| in_sub(2 * i, km, j) implies d2[j] == d[j] && (j != 2 * i
                ==> g2[j] == g[j]) by {
                lemma_in_sub_bounds(2 * i, km, j);
                lemma_sibling_disjoint(i, km, j);
                lemma_in_sub_self(2 * i + 1, km);
            }
            assert forall|j: int| in_sub(2 * i + 1, km, j) implies d2[j] == d[j] && (j != 2 * i
                + 1 ==> g2[j] == g[j]) by {
                lemma_in_sub_bounds(2 * i + 1, km, j);
                lemma_sibling_disjoint(i, km, j);
                lemma_in_sub_self(2 * i, km);
            }
            lemma_swf_frame::<S>(d2, g2, d, g, 2 * i, km);
            lemma_swf_frame::<S>(d2, g2, d, g, 2 * i + 1, km);
            // The subtree sequence is preserved: each child subtree absorbs
            // the tag pointwise, which is exactly what the old root tag did.
            let gl = g.update(2 * i, Option::Some(composed_tag::<S>(g[2 * i], u)));
            assert forall|j: int| in_sub(2 * i, km, j) implies d2[j] == d[j] && g2[j]
                == gl[j] by {
                lemma_in_sub_bounds(2 * i, km, j);
                lemma_sibling_disjoint(i, km, j);
                lemma_in_sub_self(2 * i + 1, km);
            }
            lemma_subtree_frame::<S>(d2, g2, d, gl, 2 * i, km);
            assert((2 * i + 1) * pow2(km) <= g.len()) by (nonlinear_arith)
                requires
                    pow2(k) == 2 * pow2(km),
                    pow2(km) >= 1,
                    (i + 1) * pow2(k) <= g.len(),
                    i >= 1,
            ;
            lemma_stree_retag::<S>(d, g, 2 * i, km, u);
            let gr = g.update(2 * i + 1, Option::Some(composed_tag::<S>(g[2 * i + 1], u)));
            assert forall|j: int| in_sub(2 * i + 1, km, j) implies d2[j] == d[j] && g2[j]
                == gr[j] by {
                lemma_in_sub_bounds(2 * i + 1, km, j);
                lemma_sibling_disjoint(i, km, j);
                lemma_in_sub_self(2 * i, km);
            }
            lemma_subtree_frame::<S>(d2, g2, d, gr, 2 * i + 1, km);
            lemma_stree_retag::<S>(d, g, 2 * i + 1, km, u);
            let sl = stree::<S>(d, g, 2 * i, km);
            let sr = stree::<S>(d, g, 2 * i + 1, km);
            lemma_stree_len::<S>(d, g, 2 * i, km);
            lemma_stree_len::<S>(d, g, 2 * i + 1, km);
            lemma_tag_seq_none::<S>(
                stree::<S>(d2, g2, 2 * i, km) + stree::<S>(d2, g2, 2 * i + 1, km),
            );
            assert(map_all::<S>(u, sl) + map_all::<S>(u, sr) =~= tag_seq::<S>(g[i], sl + sr));
        },
    }
}

/// Applying an update to the fold of a sequence equals folding the
/// pointwise-updated sequence: the aggregate-level action agrees with the
/// per-element one.
#[verifier::rlimit(50)]
proof fn lemma_apply_fold<S: LazySegTreeSpec>(u: S::U, s: Seq<S::T>)
    requires
        lazy_laws::<S>(),
        s.len() >= 1,
    ensures
        S::spec_op_update_on_data(u, fold_data::<S>(s), s.len()) == fold_data::<S>(
            map_all::<S>(u, s),
        ),
    decreases s.len(),
{
    if s.len() == 1 {
        lemma_fold_data_singleton::<S>(s);
        lemma_fold_data_singleton::<S>(map_all::<S>(u, s));
    } else {
        let df = s.drop_first();
        lemma_apply_fold::<S>(u, df);
        assert(S::spec_op_update_on_data(u, fold_data::<S>(s), s.len())
            == S::spec_op_on_data(
            S::spec_op_update_on_data(u, s[0], 1),
            S::spec_op_update_on_data(u, fold_data::<S>(df), df.len()),
        )) by {
            assert(fold_data::<S>(s) == S::spec_op_on_data(s[0], fold_data::<S>(df)));
            assert(s.len() == 1 + df.len());
            lemma_law_distribute::<S>(u, s[0], fold_data::<S>(df), 1, df.len());
        }
        assert(map_all::<S>(u, s).drop_first() =~= map_all::<S>(u, df));
        assert(fold_data::<S>(map_all::<S>(u, s)) == S::spec_op_on_data(
            map_all::<S>(u, s)[0],
            fold_data::<S>(map_all::<S>(u, df)),
        ));
    }
}

/// The effective value of a well-formed node is the fold of its subtree
/// sequence: the heart of why lazy evaluation answers exact folds.
#[verifier::rlimit(80)]
proof fn lemma_eval_fold<S: LazySegTreeSpec>(d: Seq<S::T>, g: Seq<Option<S::U>>, i: int, k: nat)
    requires
        lazy_laws::<S>(),
        i >= 1,
        swf::<S>(d, g, i, k),
    ensures
        node_eval::<S>(d, g, i, k) == fold_data::<S>(stree::<S>(d, g, i, k)),
    decreases k,
{
    if k == 0 {
        assert(pow2(0) == 1) by {
            lemma2_to64();
        }
        lemma_fold_data_singleton::<S>(stree::<S>(d, g, i, k));
    } else {
        let km = (k - 1) as nat;
        let h = pow2(km);
        let t = g[i];
        let el = node_eval::<S>(d, g, 2 * i, km);
        let er = node_eval::<S>(d, g, 2 * i + 1, km);
        let sl = stree::<S>(d, g, 2 * i, km);
        let sr = stree::<S>(d, g, 2 * i + 1, km);
        lemma_eval_fold::<S>(d, g, 2 * i, km);
        lemma_eval_fold::<S>(d, g, 2 * i + 1, km);
        lemma_stree_len::<S>(d, g, 2 * i, km);
        lemma_stree_len::<S>(d, g, 2 * i + 1, km);
        lemma_pow2_unfold(k);
        lemma_pow2_pos(km);
        lemma_pow2_pos(k);
        match t {
            Option::Some(u) => {
                assert(node_eval::<S>(d, g, i, k) == S::spec_op_update_on_data(
                    u,
                    S::spec_op_on_data(el, er),
                    h + h,
                ));
                lemma_law_distribute::<S>(u, el, er, h, h);
                lemma_apply_fold::<S>(u, sl);
                lemma_apply_fold::<S>(u, sr);
                lemma_fold_data_concat::<S>(map_all::<S>(u, sl), map_all::<S>(u, sr));
                assert(tag_seq::<S>(t, sl + sr) =~= map_all::<S>(u, sl) + map_all::<S>(u, sr));
            },
            Option::None => {
                lemma_fold_data_concat::<S>(sl, sr);
                assert(tag_seq::<S>(t, sl + sr) =~= sl + sr);
            },
        }
    }
}

/// In a freshly built tree — every internal node the combine of its two
/// children, every tag empty — each subtree is well formed and its subtree
/// sequence is exactly its slice of the leaf level: node `i` at height `k`
/// covers array slots `[i*pow2(k), i*pow2(k) + pow2(k))`.
proof fn lemma_build_subtree<S: LazySegTreeSpec>(
    d: Seq<S::T>,
    g: Seq<Option<S::U>>,
    m: nat,
    i: nat,
    k: nat,
)
    requires
        d.len() == 2 * m,
        forall|j: int|
            1 <= j < m ==> #[trigger] d[j] == S::spec_op_on_data(d[2 * j], d[2 * j + 1]),
        forall|j: int| 0 <= j < 2 * m ==> g[j] is None,
        i >= 1,
        i * pow2(k) >= m,
        (i + 1) * pow2(k) <= 2 * m,
    ensures
        swf::<S>(d, g, i as int, k),
        stree::<S>(d, g, i as int, k) == d.subrange(
            i * pow2(k) as int,
            (i * pow2(k) + pow2(k)) as int,
        ),
    decreases k,
{
    let ii = i as int;
    let w = pow2(k) as int;
    lemma_pow2_pos(k);
    if k == 0 {
        assert(pow2(0) == 1) by {
            lemma2_to64();
        }
        assert(m <= i < 2 * m);
        assert(stree::<S>(d, g, ii, k) =~= d.subrange(ii, ii + 1));
    } else {
        let km = (k - 1) as nat;
        let half = pow2(km) as int;
        lemma_pow2_unfold(k);
        crate::seg_tree::lemma_child_node_range(i, pow2(k), m);
        assert(i < m) by {
            assert((ii + 1) * 2 <= (ii + 1) * w) by (nonlinear_arith)
                requires
                    w >= 2,
                    ii >= 1,
            ;
        }
        lemma_build_subtree::<S>(d, g, m, 2 * i, km);
        lemma_build_subtree::<S>(d, g, m, 2 * i + 1, km);
        lemma_pow2_pos(km);
        assert(2 * ii * half == ii * w && (2 * ii + 1) * half == ii * w + half && (2 * ii + 2)
            * half == ii * w + w) by (nonlinear_arith)
            requires
                w == 2 * half,
        ;
        assert(node_eval::<S>(d, g, 2 * ii, km) == d[2 * ii]);
        assert(node_eval::<S>(d, g, 2 * ii + 1, km) == d[2 * ii + 1]);
        assert(stree::<S>(d, g, ii, k) =~= d.subrange(ii * w, ii * w + w));
    }
}

/// After a step that touched only the left child's subtree, the node's own
/// slots, the right child's whole subtree, and everything outside the node's
/// subtree are unchanged.
proof fn lemma_step_left<S: LazySegTreeSpec>(
    d1: Seq<S::T>,
    g1: Seq<Option<S::U>>,
    d2: Seq<S::T>,
    g2: Seq<Option<S::U>>,
    i: int,
    k: nat,
)
    requires
        i >= 1,
        k >= 1,
        d1.len() == g1.len() && d2.len() == d1.len() && g2.len() == g1.len(),
        (i + 1) * pow2(k) <= d1.len(),
        forall|j: int|
            0 <= j < d1.len() && !in_sub(2 * i, (k - 1) as nat, j) ==> d2[j] == d1[j] && g2[j]
                == g1[j],
    ensures
        g2[i] == g1[i] && d2[i] == d1[i],
        stree::<S>(d2, g2, 2 * i + 1, (k - 1) as nat) == stree::<S>(d1, g1, 2 * i + 1, (k - 1) as nat),
        swf::<S>(d2, g2, 2 * i + 1, (k - 1) as nat) == swf::<S>(d1, g1, 2 * i + 1, (k - 1) as nat),
        node_eval::<S>(d2, g2, 2 * i + 1, (k - 1) as nat) == node_eval::<S>(
            d1,
            g1,
            2 * i + 1,
            (k - 1) as nat,
        ),
        forall|j: int|
            0 <= j < d1.len() && !in_sub(i, k, j) ==> d2[j] == d1[j] && g2[j] == g1[j],
{
    let km = (k - 1) as nat;
    lemma_pow2_unfold(k);
    lemma_pow2_pos(km);
    assert(0 <= i < d1.len() && (2 * i + 2) * pow2(km) <= d1.len()) by (nonlinear_arith)
        requires
            i >= 1,
            pow2(k) == 2 * pow2(km),
            pow2(km) >= 1,
            (i + 1) * pow2(k) <= d1.len(),
    ;
    assert(!in_sub(2 * i, km, i)) by {
        if in_sub(2 * i, km, i) {
            lemma_in_sub_bounds(2 * i, km, i);
        }
    }
    assert forall|j: int| in_sub(2 * i + 1, km, j) implies d2[j] == d1[j] && g2[j] == g1[j] by {
        lemma_in_sub_bounds(2 * i + 1, km, j);
        lemma_sibling_disjoint(i, km, j);
    }
    lemma_subtree_frame::<S>(d2, g2, d1, g1, 2 * i + 1, km);
    assert forall|j: int| 0 <= j < d1.len() && !in_sub(i, k, j) implies d2[j] == d1[j] && g2[j]
        == g1[j] by {
        if in_sub(2 * i, km, j) {
            lemma_in_sub_child(i, k, j);
        }
    }
}

/// After a step that touched only the right child's subtree, the node's own
/// slots, the left child's whole subtree, and everything outside the node's
/// subtree are unchanged.
proof fn lemma_step_right<S: LazySegTreeSpec>(
    d1: Seq<S::T>,
    g1: Seq<Option<S::U>>,
    d2: Seq<S::T>,
    g2: Seq<Option<S::U>>,
    i: int,
    k: nat,
)
    requires
        i >= 1,
        k >= 1,
        d1.len() == g1.len() && d2.len() == d1.len() && g2.len() == g1.len(),
        (i + 1) * pow2(k) <= d1.len(),
        forall|j: int|
            0 <= j < d1.len() && !in_sub(2 * i + 1, (k - 1) as nat, j) ==> d2[j] == d1[j] && g2[j]
                == g1[j],
    ensures
        g2[i] == g1[i] && d2[i] == d1[i],
        stree::<S>(d2, g2, 2 * i, (k - 1) as nat) == stree::<S>(d1, g1, 2 * i, (k - 1) as nat),
        swf::<S>(d2, g2, 2 * i, (k - 1) as nat) == swf::<S>(d1, g1, 2 * i, (k - 1) as nat),
        node_eval::<S>(d2, g2, 2 * i, (k - 1) as nat) == node_eval::<S>(d1, g1, 2 * i, (k - 1) as nat),
        forall|j: int|
            0 <= j < d1.len() && !in_sub(i, k, j) ==> d2[j] == d1[j] && g2[j] == g1[j],
{
    let km = (k - 1) as nat;
    lemma_pow2_unfold(k);
    lemma_pow2_pos(km);
    assert(0 <= i < d1.len() && (2 * i + 2) * pow2(km) <= d1.len() && (2 * i + 1) * pow2(km)
        <= d1.len()) by (nonlinear_arith)
        requires
            i >= 1,
            pow2(k) == 2 * pow2(km),
            pow2(km) >= 1,
            (i + 1) * pow2(k) <= d1.len(),
    ;
    assert(!in_sub(2 * i + 1, km, i)) by {
        if in_sub(2 * i + 1, km, i) {
            lemma_in_sub_bounds(2 * i + 1, km, i);
        }
    }
    assert forall|j: int| in_sub(2 * i, km, j) implies d2[j] == d1[j] && g2[j] == g1[j] by {
        lemma_in_sub_bounds(2 * i, km, j);
        lemma_sibling_disjoint(i, km, j);
    }
    lemma_subtree_frame::<S>(d2, g2, d1, g1, 2 * i, km);
    assert forall|j: int| 0 <= j < d1.len() && !in_sub(i, k, j) implies d2[j] == d1[j] && g2[j]
        == g1[j] by {
        if in_sub(2 * i + 1, km, j) {
            lemma_in_sub_child(i, k, j);
        }
    }
}

/// Walking a node up by any number of levels never yields a sibling at the
/// same position: `q / pow2(c)` is `q` when `c == 0` and at most `q / 2`
/// otherwise.
proof fn lemma_quot_shrinks(q: int, c: nat)
    requires
        q >= 2,
    ensures
        c == 0 ==> q / pow2(c) as int == q,
        c >= 1 ==> q / pow2(c) as int <= q / 2,
{
    if c == 0 {
        assert(pow2(0) == 1) by {
            lemma2_to64();
        }
    } else {
        lemma_pow2_pos(c);
        assert(pow2(1) == 2) by {
            lemma2_to64();
        }
        assert(pow2(c) >= 2) by {
            if c > 1 {
                lemma_pow2_strictly_increases(1, c);
            }
        }
        vstd::arithmetic::div_mod::lemma_div_is_ordered_by_denominator(q, 2, pow2(c) as int);
    }
}

/// Allocates `n` slots, each holding the identity of `S`.
fn filled_with_id<S: LazySegTreeSpec>(n: usize) -> (r: Vec<S::T>)
    ensures
        r@.len() == n,
        forall|q: int| 0 <= q < n ==> r@[q] == S::spec_id(),
{
    let mut v: Vec<S::T> = Vec::new();
    let id = S::id();
    let mut p: usize = 0;
    while p < n
        invariant
            v@.len() == p,
            p <= n,
            id == S::spec_id(),
            forall|q: int| 0 <= q < p ==> v@[q] == S::spec_id(),
        decreases n - p,
    {
        v.push(id);
        p = p + 1;
    }
    v
}

/// Allocates `n` empty tag slots.
fn no_tags<S: LazySegTreeSpec>(n: usize) -> (r: Vec<Option<S::U>>)
    ensures
        r@.len() == n,
        forall|q: int| 0 <= q < n ==> r@[q] is None,
{
    let mut v: Vec<Option<S::U>> = Vec::new();
    let mut p: usize = 0;
    while p < n
        invariant
            v@.len() == p,
            p <= n,
            forall|q: int| 0 <= q < p ==> v@[q] is None,
        decreases n - p,
    {
        v.push(Option::None);
        p = p + 1;
    }
    v
}

/// Reassembles a node whose children were visited without changing their
/// content: with the node's own tag clear and both children's subtree
/// sequences, invariants and effective values preserved, the node's own
/// subtree sequence, invariant and effective value are preserved too.
proof fn lemma_reassemble_query<S: LazySegTreeSpec>(
    d1: Seq<S::T>,
    g1: Seq<Option<S::U>>,
    df: Seq<S::T>,
    gf: Seq<Option<S::U>>,
    i: int,
    k: nat,
)
    requires
        lazy_laws::<S>(),
        i >= 1,
        k >= 1,
        g1[i] is None,
        gf[i] == g1[i],
        df[i] == d1[i],
        swf::<S>(d1, g1, i, k),
        stree::<S>(df, gf, 2 * i, (k - 1) as nat) == stree::<S>(d1, g1, 2 * i, (k - 1) as nat),
        stree::<S>(df, gf, 2 * i + 1, (k - 1) as nat) == stree::<S>(
            d1,
            g1,
            2 * i + 1,
            (k - 1) as nat,
        ),
        swf::<S>(df, gf, 2 * i, (k - 1) as nat),
        swf::<S>(df, gf, 2 * i + 1, (k - 1) as nat),
        node_eval::<S>(df, gf, 2 * i, (k - 1) as nat) == node_eval::<S>(
            d1,
            g1,
            2 * i,
            (k - 1) as nat,
        ),
        node_eval::<S>(df, gf, 2 * i + 1, (k - 1) as nat) == node_eval::<S>(
            d1,
            g1,
            2 * i + 1,
            (k - 1) as nat,
        ),
    ensures
        swf::<S>(df, gf, i, k),
        stree::<S>(df, gf, i, k) == stree::<S>(d1, g1, i, k),
        node_eval::<S>(df, gf, i, k) == node_eval::<S>(d1, g1, i, k),
        stree::<S>(d1, g1, i, k) == stree::<S>(d1, g1, 2 * i, (k - 1) as nat) + stree::<S>(
            d1,
            g1,
            2 * i + 1,
            (k - 1) as nat,
        ),
{
    let km = (k - 1) as nat;
    lemma_tag_seq_none::<S>(stree::<S>(d1, g1, 2 * i, km) + stree::<S>(d1, g1, 2 * i + 1, km));
    lemma_tag_seq_none::<S>(stree::<S>(df, gf, 2 * i, km) + stree::<S>(df, gf, 2 * i + 1, km));
}

/// Reassembles a node after a range update ran through it: the node's tag is
/// clear, its stored value was recomputed from the children's effective
/// values, and each child's subtree sequence carries the pointwise update on
/// its share `[lo, hi)` of the node's positions (clipping is implicit in
/// `map_range`). The node's subtree sequence then carries the update on
/// `[lo, hi)` and the invariant holds again.
#[verifier::rlimit(50)]
proof fn lemma_reassemble_update<S: LazySegTreeSpec>(
    d1: Seq<S::T>,
    g1: Seq<Option<S::U>>,
    df: Seq<S::T>,
    gf: Seq<Option<S::U>>,
    i: int,
    k: nat,
    u: S::U,
    lo: int,
    hi: int,
)
    requires
        lazy_laws::<S>(),
        i >= 1,
        k >= 1,
        gf[i] is None,
        df[i] == S::spec_op_on_data(
            node_eval::<S>(df, gf, 2 * i, (k - 1) as nat),
            node_eval::<S>(df, gf, 2 * i + 1, (k - 1) as nat),
        ),
        g1[i] is None,
        stree::<S>(df, gf, 2 * i, (k - 1) as nat) == map_range::<S>(
            u,
            stree::<S>(d1, g1, 2 * i, (k - 1) as nat),
            lo,
            hi,
        ),
        stree::<S>(df, gf, 2 * i + 1, (k - 1) as nat) == map_range::<S>(
            u,
            stree::<S>(d1, g1, 2 * i + 1, (k - 1) as nat),
            lo - pow2((k - 1) as nat),
            hi - pow2((k - 1) as nat),
        ),
        swf::<S>(df, gf, 2 * i, (k - 1) as nat),
        swf::<S>(df, gf, 2 * i + 1, (k - 1) as nat),
    ensures
        swf::<S>(df, gf, i, k),
        stree::<S>(df, gf, i, k) == map_range::<S>(u, stree::<S>(d1, g1, i, k), lo, hi),
{
    let km = (k - 1) as nat;
    let h = pow2(km) as int;
    let sl = stree::<S>(d1, g1, 2 * i, km);
    let sr = stree::<S>(d1, g1, 2 * i + 1, km);
    lemma_stree_len::<S>(d1, g1, 2 * i, km);
    lemma_stree_len::<S>(d1, g1, 2 * i + 1, km);
    lemma_tag_seq_none::<S>(sl + sr);
    lemma_tag_seq_none::<S>(
        stree::<S>(df, gf, 2 * i, km) + stree::<S>(df, gf, 2 * i + 1, km),
    );
    assert(map_range::<S>(u, sl, lo, hi) + map_range::<S>(u, sr, lo - h, hi - h) =~= map_range::<
        S,
    >(u, sl + sr, lo, hi));
}

/// A generic range-update / range-query aggregation tree with lazy
/// propagation, over the operations described by `S`.
pub struct LazySegTree<S: LazySegTreeSpec> {
    /// The logical element count, fixed at construction.
    size: usize,
    /// The number of leaf slots: the least power of two at or above `size`.
    max_size: usize,
    /// The depth of the leaf level: `max_size == pow2(max_depth)`.
    max_depth: u32,
    /// Stored aggregates; index 0 unused, root at 1, node `i` has children
    /// `2*i` and `2*i + 1`, leaves in the upper half.
    data: Vec<S::T>,
    /// Pending tags, one optional slot per node, laid out like `data`.
    tags: Vec<Option<S::U>>,
    _spec: core::marker::PhantomData<S>,
}

impl<S: LazySegTreeSpec> View for LazySegTree<S> {
    type V = Seq<S::T>;

    /// The logical sequence this tree stands for: the true values of its
    /// leaf slots — every pending tag applied — up to the logical size.
    closed spec fn view(&self) -> Seq<S::T> {
        stree::<S>(self.data@, self.tags@, 1, self.max_depth as nat).take(self.size as int)
    }
}

impl<S: LazySegTreeSpec> LazySegTree<S> {
    /// The logical element count.
    pub closed spec fn spec_size(&self) -> nat {
        self.size as nat
    }

    /// The shape of the storage: two arrays of `2 * max_size` slots over a
    /// power-of-two number of leaves that accommodates the logical size.
    spec fn dims(&self) -> bool {
        &&& self.data@.len() == 2 * self.max_size
        &&& self.tags@.len() == 2 * self.max_size
        &&& self.max_size == pow2(self.max_depth as nat)
        &&& self.max_depth < usize::BITS
        &&& 1 <= self.size <= self.max_size
        &&& self.max_size <= usize::MAX / 2
    }

    /// Well-formedness: the storage has the right shape, and — whenever the
    /// operations are lawful — the lazy-propagation invariant holds of the
    /// whole tree.
    pub closed spec fn wf(&self) -> bool {
        &&& self.dims()
        &&& (lazy_laws::<S>() ==> swf::<S>(self.data@, self.tags@, 1, self.max_depth as nat))
    }

    /// The number of leaf slots and the leaf depth for a logical size.
    fn size_to_max_size_and_depth(size: usize) -> (r: (usize, u32))
        requires
            1 <= size <= usize::MAX / 4,
        ensures
            r.0 == pow2(r.1 as nat),
            size <= r.0,
            r.0 < 2 * size,
            r.1 < usize::BITS,
    {
        crate::seg_tree::next_pow2_at_least(size)
    }

    /// Creates a tree of `size` logical elements, each the identity.
    /// Fails with `InvalidSize` when `size` is zero.
    pub fn new(size: usize) -> (r: Result<LazySegTree<S>, TreeError>)
        requires
            size <= usize::MAX / 4,
        ensures
            size == 0 ==> r == Err::<LazySegTree<S>, TreeError>(TreeError::InvalidSize),
            size >= 1 ==> r is Ok && r->Ok_0.wf() && r->Ok_0.spec_size() == size && r->Ok_0@
                =~= Seq::new(size as nat, |p: int| S::spec_id()),
    {
        if size == 0 {
            return Err(TreeError::InvalidSize);
        }
        let values: Vec<S::T> = filled_with_id::<S>(size);
        Self::from_slice(values.as_slice())
    }

    /// Builds a tree from a slice of initial values, in O(n).
    /// Fails with `InvalidSize` when the slice is empty.
    pub fn from_slice(values: &[S::T]) -> (r: Result<LazySegTree<S>, TreeError>)
        requires
            values@.len() <= usize::MAX / 4,
        ensures
            values@.len() == 0 ==> r == Err::<LazySegTree<S>, TreeError>(TreeError::InvalidSize),
            values@.len() >= 1 ==> r is Ok && r->Ok_0.wf() && r->Ok_0.spec_size() == values@.len()
                && r->Ok_0@ =~= values@,
    {
        let size = values.len();
        if size == 0 {
            return Err(TreeError::InvalidSize);
        }
        let (max_size, max_depth) = Self::size_to_max_size_and_depth(size);
        let mut data: Vec<S::T> = filled_with_id::<S>(2 * max_size);
        let tags: Vec<Option<S::U>> = no_tags::<S>(2 * max_size);

        let mut p: usize = 0;
        while p < size
            invariant
                size == values@.len(),
                1 <= size <= max_size,
                max_size <= usize::MAX / 2,
                data@.len() == 2 * max_size,
                p <= size,
                forall|q: int| 0 <= q < p ==> data@[max_size + q] == values@[q],
                forall|q: int|
                    0 <= q < 2 * max_size && !(max_size <= q < max_size + p) ==> data@[q]
                        == S::spec_id(),
            decreases size - p,
        {
            data[max_size + p] = values[p];
            p = p + 1;
        }

        let mut j: usize = max_size - 1;
        while j >= 1
            invariant
                1 <= size <= max_size,
                max_size <= usize::MAX / 2,
                data@.len() == 2 * max_size,
                j <= max_size - 1,
                forall|jj: int|
                    j < jj < max_size ==> #[trigger] data@[jj] == S::spec_op_on_data(
                        data@[2 * jj],
                        data@[2 * jj + 1],
                    ),
                forall|q: int|
                    max_size <= q < max_size + size ==> data@[q] == values@[q - max_size],
                forall|q: int| max_size + size <= q < 2 * max_size ==> data@[q] == S::spec_id(),
            decreases j,
        {
            let mut v = data[2 * j];
            S::op_on_data(&mut v, &data[2 * j + 1]);
            data[j] = v;
            j = j - 1;
        }

        let t = LazySegTree {
            size,
            max_size,
            max_depth,
            data,
            tags,
            _spec: core::marker::PhantomData,
        };
        proof {
            lemma_build_subtree::<S>(
                t.data@,
                t.tags@,
                max_size as nat,
                1,
                max_depth as nat,
            );
            assert(t@ =~= values@);
        }
        Ok(t)
    }

    /// Builds a tree from a vector of initial values, in O(n).
    /// Fails with `InvalidSize` when the vector is empty.
    pub fn from_vec(values: Vec<S::T>) -> (r: Result<LazySegTree<S>, TreeError>)
        requires
            values@.len() <= usize::MAX / 4,
        ensures
            values@.len() == 0 ==> r == Err::<LazySegTree<S>, TreeError>(TreeError::InvalidSize),
            values@.len() >= 1 ==> r is Ok && r->Ok_0.wf() && r->Ok_0.spec_size() == values@.len()
                && r->Ok_0@ =~= values@,
    {
        Self::from_slice(values.as_slice())
    }

    /// The effective value of node `i` covering `w` leaves: its stored
    /// aggregate with its own pending tag applied. Reads only; never clears
    /// the tag.
    fn eval_node(&self, i: usize, w: usize, Ghost(k): Ghost<nat>) -> (res: S::T)
        requires
            self.dims(),
            w == pow2(k),
            1 <= i < 2 * self.max_size,
        ensures
            res == node_eval::<S>(self.data@, self.tags@, i as int, k),
    {
        let mut dv = self.data[i];
        let t = self.tags[i];
        if let Option::Some(u) = t {
            S::op_update_on_data(&u, &mut dv, w);
        }
        dv
    }

    /// Composes a new update onto a possibly empty pending tag, in place.
    fn combine_tag_option(existing_tag: &mut Option<S::U>, new_tag: &S::U)
        ensures
            *final(existing_tag) == Option::Some(
                composed_tag::<S>(*old(existing_tag), *new_tag),
            ),
    {
        let cur = *existing_tag;
        match cur {
            Option::Some(e) => {
                let mut x = e;
                S::op_on_update(&mut x, new_tag);
                *existing_tag = Option::Some(x);
            },
            Option::None => {
                *existing_tag = Option::Some(*new_tag);
            },
        }
    }

    /// Pushes the pending tag of the internal node `i` covering `w` leaves
    /// one level down: resolves it into the node's own aggregate, composes
    /// it onto both children's tags, and clears it.
    fn push_node(&mut self, i: usize, w: usize, Ghost(k): Ghost<nat>)
        requires
            old(self).dims(),
            w == pow2(k),
            k >= 1,
            1 <= i,
            (i + 1) * w <= 2 * old(self).max_size,
            lazy_laws::<S>() ==> swf::<S>(old(self).data@, old(self).tags@, i as int, k),
        ensures
            final(self).dims(),
            final(self).size == old(self).size,
            final(self).max_size == old(self).max_size,
            final(self).max_depth == old(self).max_depth,
            final(self).tags@[i as int] is None,
            forall|j: int|
                0 <= j < 2 * old(self).max_size && j != i ==> final(self).data@[j]
                    == old(self).data@[j],
            forall|j: int|
                0 <= j < 2 * old(self).max_size && j != i && j != 2 * i && j != 2 * i + 1
                    ==> final(self).tags@[j] == old(self).tags@[j],
            lazy_laws::<S>() ==> swf::<S>(final(self).data@, final(self).tags@, i as int, k),
            lazy_laws::<S>() ==> stree::<S>(final(self).data@, final(self).tags@, i as int, k)
                == stree::<S>(old(self).data@, old(self).tags@, i as int, k),
            lazy_laws::<S>() ==> node_eval::<S>(
                final(self).data@,
                final(self).tags@,
                i as int,
                k,
            ) == node_eval::<S>(old(self).data@, old(self).tags@, i as int, k),
    {
        proof {
            lemma_pow2_unfold(k);
            lemma_pow2_pos((k - 1) as nat);
            assert(2 * i + 2 <= 2 * self.max_size && i < 2 * self.max_size) by (nonlinear_arith)
                requires
                    i >= 1,
                    w == 2 * pow2((k - 1) as nat),
                    pow2((k - 1) as nat) >= 1,
                    (i + 1) * w <= 2 * self.max_size,
            ;
        }
        let t = self.tags[i];
        if let Option::Some(tag) = t {
            let mut dv = self.data[i];
            S::op_update_on_data(&tag, &mut dv, w);
            self.data[i] = dv;
            self.tags[i] = Option::None;
            let mut lt = self.tags[2 * i];
            Self::combine_tag_option(&mut lt, &tag);
            self.tags[2 * i] = lt;
            let mut rt = self.tags[2 * i + 1];
            Self::combine_tag_option(&mut rt, &tag);
            self.tags[2 * i + 1] = rt;
            proof {
                assert(self.data@ =~= push_d::<S>(old(self).data@, old(self).tags@, i as int, k));
                assert(self.tags@ =~= push_g::<S>(old(self).tags@, i as int));
                if lazy_laws::<S>() {
                    lemma_push_effect::<S>(old(self).data@, old(self).tags@, i as int, k);
                }
            }
        }
    }

    /// Answers the fold over leaf positions `[l, r)` from the node `i`
    /// covering positions `[a, b)` with `w == pow2(k)` leaves, pushing
    /// pending tags down the access path; the logical content is unchanged.
    #[verifier::rlimit(100)]
    fn query_node(
        &mut self,
        i: usize,
        w: usize,
        Ghost(k): Ghost<nat>,
        a: usize,
        b: usize,
        l: usize,
        r: usize,
    ) -> (res: S::T)
        requires
            old(self).dims(),
            w == pow2(k),
            i >= 1,
            i * w >= old(self).max_size,
            (i + 1) * w <= 2 * old(self).max_size,
            a == i * w - old(self).max_size,
            b == a + w,
            a <= l < r <= b,
            lazy_laws::<S>() ==> swf::<S>(old(self).data@, old(self).tags@, i as int, k),
        ensures
            final(self).dims(),
            final(self).size == old(self).size,
            final(self).max_size == old(self).max_size,
            final(self).max_depth == old(self).max_depth,
            forall|j: int|
                0 <= j < 2 * old(self).max_size && !in_sub(i as int, k, j)
                    ==> final(self).data@[j] == old(self).data@[j] && final(self).tags@[j]
                    == old(self).tags@[j],
            lazy_laws::<S>() ==> {
                &&& swf::<S>(final(self).data@, final(self).tags@, i as int, k)
                &&& stree::<S>(final(self).data@, final(self).tags@, i as int, k) == stree::<S>(
                    old(self).data@,
                    old(self).tags@,
                    i as int,
                    k,
                )
                &&& node_eval::<S>(final(self).data@, final(self).tags@, i as int, k)
                    == node_eval::<S>(old(self).data@, old(self).tags@, i as int, k)
                &&& res == fold_data::<S>(
                    stree::<S>(old(self).data@, old(self).tags@, i as int, k).subrange(
                        l - a,
                        r - a,
                    ),
                )
            },
        decreases w,
    {
        proof {
            lemma_pow2_pos(k);
        }
        if l == a && r == b {
            proof {
                assert(i + 1 <= (i + 1) * w) by (nonlinear_arith)
                    requires
                        i >= 1,
                        w >= 1,
                ;
            }
            let res = self.eval_node(i, w, Ghost(k));
            proof {
                if lazy_laws::<S>() {
                    lemma_eval_fold::<S>(self.data@, self.tags@, i as int, k);
                    lemma_stree_len::<S>(self.data@, self.tags@, i as int, k);
                    assert(stree::<S>(self.data@, self.tags@, i as int, k).subrange(
                        0,
                        pow2(k) as int,
                    ) =~= stree::<S>(self.data@, self.tags@, i as int, k));
                }
            }
            return res;
        }
        proof {
            assert(w >= 2) by {
                if w < 2 {
                    assert(a <= l < r <= a + 1);
                }
            }
            assert(k >= 1) by {
                if k == 0 {
                    assert(pow2(0) == 1) by {
                        lemma2_to64();
                    }
                }
            }
            lemma_pow2_unfold(k);
            crate::seg_tree::lemma_child_node_range(i as nat, w as nat, self.max_size as nat);
            assert((i + 1) * 2 <= (i + 1) * w) by (nonlinear_arith)
                requires
                    w >= 2,
                    i >= 1,
            ;
        }
        let ghost km = (k - 1) as nat;
        let ghost d0 = self.data@;
        let ghost g0 = self.tags@;
        let half = w / 2;
        let mid = a + half;
        self.push_node(i, w, Ghost(k));
        let ghost d1 = self.data@;
        let ghost g1 = self.tags@;
        let res: S::T;
        if r <= mid {
            res = self.query_node(2 * i, half, Ghost(km), a, mid, l, r);
            proof {
                lemma_step_left::<S>(d1, g1, self.data@, self.tags@, i as int, k);
                if lazy_laws::<S>() {
                    lemma_reassemble_query::<S>(d1, g1, self.data@, self.tags@, i as int, k);
                    lemma_stree_len::<S>(d1, g1, 2 * i, km);
                    lemma_stree_len::<S>(d1, g1, 2 * i + 1, km);
                    assert((stree::<S>(d1, g1, 2 * i, km) + stree::<S>(d1, g1, 2 * i + 1, km))
                        .subrange(l - a, r - a) =~= stree::<S>(d1, g1, 2 * i, km).subrange(
                        l - a,
                        r - a,
                    ));
                }
            }
        } else if mid <= l {
            res = self.query_node(2 * i + 1, half, Ghost(km), mid, b, l, r);
            proof {
                lemma_step_right::<S>(d1, g1, self.data@, self.tags@, i as int, k);
                if lazy_laws::<S>() {
                    lemma_reassemble_query::<S>(d1, g1, self.data@, self.tags@, i as int, k);
                    lemma_stree_len::<S>(d1, g1, 2 * i, km);
                    lemma_stree_len::<S>(d1, g1, 2 * i + 1, km);
                    assert((stree::<S>(d1, g1, 2 * i, km) + stree::<S>(d1, g1, 2 * i + 1, km))
                        .subrange(l - a, r - a) =~= stree::<S>(d1, g1, 2 * i + 1, km).subrange(
                        l - mid,
                        r - mid,
                    ));
                }
            }
        } else {
            let mut x = self.query_node(2 * i, half, Ghost(km), a, mid, l, mid);
            let ghost d2 = self.data@;
            let ghost g2 = self.tags@;
            proof {
                lemma_step_left::<S>(d1, g1, d2, g2, i as int, k);
            }
            let y = self.query_node(2 * i + 1, half, Ghost(km), mid, b, mid, r);
            proof {
                lemma_step_right::<S>(d2, g2, self.data@, self.tags@, i as int, k);
                if lazy_laws::<S>() {
                    lemma_reassemble_query::<S>(d2, g2, self.data@, self.tags@, i as int, k);
                    lemma_reassemble_query::<S>(d1, g1, d2, g2, i as int, k);
                    lemma_reassemble_query::<S>(d1, g1, self.data@, self.tags@, i as int, k);
                    lemma_stree_len::<S>(d1, g1, 2 * i, km);
                    lemma_stree_len::<S>(d1, g1, 2 * i + 1, km);
                    let sl = stree::<S>(d1, g1, 2 * i, km);
                    let sr = stree::<S>(d1, g1, 2 * i + 1, km);
                    assert(sl.subrange(l - a, half as int) + sr.subrange(0, r - mid) =~= (sl
                        + sr).subrange(l - a, r - a));
                    lemma_fold_data_concat::<S>(
                        sl.subrange(l - a, half as int),
                        sr.subrange(0, r - mid),
                    );
                }
            }
            S::op_on_data(&mut x, &y);
            res = x;
        }
        proof {
            assert forall|j: int|
                0 <= j < 2 * old(self).max_size && !in_sub(i as int, k, j) implies self.data@[j]
                == d0[j] && self.tags@[j] == g0[j] by {
                lemma_in_sub_self(i as int, k);
                lemma_in_sub_self(2 * i as int, km);
                lemma_in_sub_self(2 * i + 1 as int, km);
                lemma_in_sub_child(i as int, k, 2 * i as int);
                lemma_in_sub_child(i as int, k, 2 * i + 1 as int);
            }
        }
        res
    }

    /// Applies `u` to every leaf position in `[l, r)` from the node `i`
    /// covering positions `[a, b)` with `w == pow2(k)` leaves: tags the
    /// O(log n) fully covered nodes and recomputes the aggregates on the
    /// access path.
    #[verifier::rlimit(100)]
    fn update_node(
        &mut self,
        i: usize,
        w: usize,
        Ghost(k): Ghost<nat>,
        a: usize,
        b: usize,
        l: usize,
        r: usize,
        u: &S::U,
    )
        requires
            old(self).dims(),
            w == pow2(k),
            i >= 1,
            i * w >= old(self).max_size,
            (i + 1) * w <= 2 * old(self).max_size,
            a == i * w - old(self).max_size,
            b == a + w,
            a <= l < r <= b,
            lazy_laws::<S>() ==> swf::<S>(old(self).data@, old(self).tags@, i as int, k),
        ensures
            final(self).dims(),
            final(self).size == old(self).size,
            final(self).max_size == old(self).max_size,
            final(self).max_depth == old(self).max_depth,
            forall|j: int|
                0 <= j < 2 * old(self).max_size && !in_sub(i as int, k, j)
                    ==> final(self).data@[j] == old(self).data@[j] && final(self).tags@[j]
                    == old(self).tags@[j],
            lazy_laws::<S>() ==> {
                &&& swf::<S>(final(self).data@, final(self).tags@, i as int, k)
                &&& stree::<S>(final(self).data@, final(self).tags@, i as int, k)
                    == map_range::<S>(
                    *u,
                    stree::<S>(old(self).data@, old(self).tags@, i as int, k),
                    l - a,
                    r - a,
                )
            },
        decreases w,
    {
        proof {
            lemma_pow2_pos(k);
        }
        if l == a && r == b {
            proof {
                assert(i + 1 <= (i + 1) * w) by (nonlinear_arith)
                    requires
                        i >= 1,
                        w >= 1,
                ;
            }
            let mut ct = self.tags[i];
            Self::combine_tag_option(&mut ct, u);
            self.tags[i] = ct;
            proof {
                assert(self.tags@ =~= old(self).tags@.update(
                    i as int,
                    Option::Some(composed_tag::<S>(old(self).tags@[i as int], *u)),
                ));
                if lazy_laws::<S>() {
                    lemma_stree_retag::<S>(old(self).data@, old(self).tags@, i as int, k, *u);
                    lemma_stree_len::<S>(old(self).data@, old(self).tags@, i as int, k);
                    assert(map_all::<S>(
                        *u,
                        stree::<S>(old(self).data@, old(self).tags@, i as int, k),
                    ) =~= map_range::<S>(
                        *u,
                        stree::<S>(old(self).data@, old(self).tags@, i as int, k),
                        l - a,
                        r - a,
                    ));
                    assert forall|j: int| in_sub(i as int, k, j) && j != i implies self.tags@[j]
                        == old(self).tags@[j] by {
                        lemma_in_sub_bounds(i as int, k, j);
                    }
                    lemma_swf_frame::<S>(
                        self.data@,
                        self.tags@,
                        old(self).data@,
                        old(self).tags@,
                        i as int,
                        k,
                    );
                }
                lemma_in_sub_self(i as int, k);
            }
            return ;
        }
        proof {
            assert(w >= 2) by {
                if w < 2 {
                    assert(a <= l < r <= a + 1);
                }
            }
            assert(k >= 1) by {
                if k == 0 {
                    assert(pow2(0) == 1) by {
                        lemma2_to64();
                    }
                }
            }
            lemma_pow2_unfold(k);
            crate::seg_tree::lemma_child_node_range(i as nat, w as nat, self.max_size as nat);
            assert((i + 1) * 2 <= (i + 1) * w) by (nonlinear_arith)
                requires
                    w >= 2,
                    i >= 1,
            ;
        }
        let ghost km = (k - 1) as nat;
        let ghost d0 = self.data@;
        let ghost g0 = self.tags@;
        let half = w / 2;
        let mid = a + half;
        self.push_node(i, w, Ghost(k));
        let ghost d1 = self.data@;
        let ghost g1 = self.tags@;
        if r <= mid {
            self.update_node(2 * i, half, Ghost(km), a, mid, l, r, u);
            proof {
                lemma_step_left::<S>(d1, g1, self.data@, self.tags@, i as int, k);
                if lazy_laws::<S>() {
                    lemma_stree_len::<S>(d1, g1, 2 * i + 1, km);
                    assert(stree::<S>(self.data@, self.tags@, 2 * i + 1, km) =~= map_range::<S>(
                        *u,
                        stree::<S>(d1, g1, 2 * i + 1, km),
                        l - mid,
                        r - mid,
                    ));
                }
            }
        } else if mid <= l {
            self.update_node(2 * i + 1, half, Ghost(km), mid, b, l, r, u);
            proof {
                lemma_step_right::<S>(d1, g1, self.data@, self.tags@, i as int, k);
                if lazy_laws::<S>() {
                    lemma_stree_len::<S>(d1, g1, 2 * i, km);
                    assert(stree::<S>(self.data@, self.tags@, 2 * i, km) =~= map_range::<S>(
                        *u,
                        stree::<S>(d1, g1, 2 * i, km),
                        l - a,
                        r - a,
                    ));
                    assert(map_range::<S>(
                        *u,
                        stree::<S>(d1, g1, 2 * i + 1, km),
                        l - mid,
                        r - mid,
                    ) == stree::<S>(self.data@, self.tags@, 2 * i + 1, km));
                }
            }
        } else {
            self.update_node(2 * i, half, Ghost(km), a, mid, l, mid, u);
            let ghost d2 = self.data@;
            let ghost g2 = self.tags@;
            proof {
                lemma_step_left::<S>(d1, g1, d2, g2, i as int, k);
            }
            self.update_node(2 * i + 1, half, Ghost(km), mid, b, mid, r, u);
            proof {
                lemma_step_right::<S>(d2, g2, self.data@, self.tags@, i as int, k);
                if lazy_laws::<S>() {
                    lemma_stree_len::<S>(d1, g1, 2 * i, km);
                    lemma_stree_len::<S>(d1, g1, 2 * i + 1, km);
                    assert(stree::<S>(self.data@, self.tags@, 2 * i, km) =~= map_range::<S>(
                        *u,
                        stree::<S>(d1, g1, 2 * i, km),
                        l - a,
                        r - a,
                    ));
                    assert(stree::<S>(self.data@, self.tags@, 2 * i + 1, km) =~= map_range::<S>(
                        *u,
                        stree::<S>(d1, g1, 2 * i + 1, km),
                        l - mid,
                        r - mid,
                    ));
                }
            }
        }
        let ghost d3 = self.data@;
        let ghost g3 = self.tags@;
        let lv = self.eval_node(2 * i, half, Ghost(km));
        let rv = self.eval_node(2 * i + 1, half, Ghost(km));
        let mut nv = lv;
        S::op_on_data(&mut nv, &rv);
        self.data[i] = nv;
        proof {
            assert(self.data@ =~= d3.update(i as int, nv));
            lemma_stree_pull::<S>(d3, g3, i as int, k, nv);
            assert forall|j: int| in_sub(2 * i, km, j) || in_sub(2 * i + 1, km, j) implies self
                .data@[j] == d3[j] && self.tags@[j] == g3[j] by {
                if in_sub(2 * i, km, j) {
                    lemma_in_sub_bounds(2 * i, km, j);
                } else {
                    lemma_in_sub_bounds(2 * i + 1, km, j);
                }
            }
            lemma_subtree_frame::<S>(self.data@, self.tags@, d3, g3, 2 * i, km);
            lemma_subtree_frame::<S>(self.data@, self.tags@, d3, g3, 2 * i + 1, km);
            if lazy_laws::<S>() {
                lemma_reassemble_update::<S>(
                    d1,
                    g1,
                    self.data@,
                    self.tags@,
                    i as int,
                    k,
                    *u,
                    l - a,
                    r - a,
                );
            }
            assert forall|j: int|
                0 <= j < 2 * old(self).max_size && !in_sub(i as int, k, j) implies self.data@[j]
                == d0[j] && self.tags@[j] == g0[j] by {
                lemma_in_sub_self(i as int, k);
                lemma_in_sub_self(2 * i as int, km);
                lemma_in_sub_self(2 * i + 1 as int, km);
                lemma_in_sub_child(i as int, k, 2 * i as int);
                lemma_in_sub_child(i as int, k, 2 * i + 1 as int);
            }
        }
    }

    /// Folds the data-combine over the logical elements in `range`, pushing
    /// pending tags down the two access paths as needed. An invalid range
    /// fails with `InvalidRange` and leaves the tree untouched; an empty
    /// range folds to the identity. The logical content never changes.
    pub fn query(&mut self, range: IndexRange) -> (r: Result<S::T, TreeError>)
        requires
            old(self).wf(),
        ensures
            final(self).wf(),
            final(self).spec_size() == old(self).spec_size(),
            range.valid_for(old(self).spec_size() as int) == (r is Ok),
            !range.valid_for(old(self).spec_size() as int) ==> r == Err::<S::T, TreeError>(
                TreeError::InvalidRange,
            ) && *final(self) == *old(self),
            range.valid_for(old(self).spec_size() as int) && range.start_spec()
                == range.end_spec(old(self).spec_size() as int) ==> r == Ok::<S::T, TreeError>(
                S::spec_id(),
            ) && *final(self) == *old(self),
            lazy_laws::<S>() && range.valid_for(old(self).spec_size() as int) ==> {
                &&& final(self)@ == old(self)@
                &&& r == Ok::<S::T, TreeError>(
                    fold_data::<S>(
                        old(self)@.subrange(
                            range.start_spec(),
                            range.end_spec(old(self).spec_size() as int),
                        ),
                    ),
                )
            },
    {
        let (left, right) = parse_range(range, self.size);
        proof {
            lemma_parsed_validity(range, self.size, left, right);
        }
        if !validate_range(left, right, self.size) {
            return Err(TreeError::InvalidRange);
        }
        if left == right {
            proof {
                lemma_stree_len::<S>(self.data@, self.tags@, 1, self.max_depth as nat);
                assert(old(self)@.subrange(left as int, right as int) =~= Seq::<S::T>::empty());
            }
            return Ok(S::id());
        }
        let ghost bigk = self.max_depth as nat;
        let res = self.query_node(
            1,
            self.max_size,
            Ghost(bigk),
            0,
            self.max_size,
            left,
            right,
        );
        proof {
            if lazy_laws::<S>() {
                lemma_stree_len::<S>(old(self).data@, old(self).tags@, 1, bigk);
                assert(self@ =~= old(self)@);
                assert(stree::<S>(old(self).data@, old(self).tags@, 1, bigk).subrange(
                    left as int,
                    right as int,
                ) =~= old(self)@.subrange(left as int, right as int));
            }
        }
        Ok(res)
    }

    /// Applies `value` to every logical element in `range`, deferring the
    /// work to pending tags on the O(log n) covered nodes. An invalid range
    /// fails with `InvalidRange` and leaves the tree untouched; an empty
    /// range is a no-op.
    pub fn update(&mut self, range: IndexRange, value: S::U) -> (r: Result<(), TreeError>)
        requires
            old(self).wf(),
        ensures
            final(self).wf(),
            final(self).spec_size() == old(self).spec_size(),
            range.valid_for(old(self).spec_size() as int) == (r is Ok),
            !range.valid_for(old(self).spec_size() as int) ==> r == Err::<(), TreeError>(
                TreeError::InvalidRange,
            ) && *final(self) == *old(self),
            range.valid_for(old(self).spec_size() as int) && range.start_spec()
                == range.end_spec(old(self).spec_size() as int) ==> r == Ok::<(), TreeError>(())
                && *final(self) == *old(self),
            lazy_laws::<S>() && range.valid_for(old(self).spec_size() as int) ==> r == Ok::<
                (),
                TreeError,
            >(()) && final(self)@ == map_range::<S>(
                value,
                old(self)@,
                range.start_spec(),
                range.end_spec(old(self).spec_size() as int),
            ),
    {
        let (left, right) = parse_range(range, self.size);
        proof {
            lemma_parsed_validity(range, self.size, left, right);
        }
        if !validate_range(left, right, self.size) {
            return Err(TreeError::InvalidRange);
        }
        if left == right {
            proof {
                lemma_stree_len::<S>(self.data@, self.tags@, 1, self.max_depth as nat);
                assert(map_range::<S>(value, old(self)@, left as int, right as int) =~= old(
                    self,
                )@);
            }
            return Ok(());
        }
        let ghost bigk = self.max_depth as nat;
        self.update_node(
            1,
            self.max_size,
            Ghost(bigk),
            0,
            self.max_size,
            left,
            right,
            &value,
        );
        proof {
            if lazy_laws::<S>() {
                lemma_stree_len::<S>(old(self).data@, old(self).tags@, 1, bigk);
                lemma_stree_len::<S>(self.data@, self.tags@, 1, bigk);
                assert(self@ =~= map_range::<S>(
                    value,
                    old(self)@,
                    left as int,
                    right as int,
                ));
            }
        }
        Ok(())
    }
}

} // verus!
