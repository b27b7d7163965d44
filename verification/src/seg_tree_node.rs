//! Node arithmetic for power-of-two layout segment trees.
//!
//! The layout stores a complete binary tree in a flat array with 1-based
//! indexing: the root is node 1, and node `i` has children `2*i` and
//! `2*i + 1` and parent `i / 2`. A tree with `max_depth` levels below the
//! root has its leaves at depth `max_depth`; the node at index `i` and depth
//! `d` covers `pow2(max_depth - d)` consecutive leaves.

use vstd::arithmetic::div_mod::lemma_div_denominator;
use vstd::arithmetic::mul::lemma_mul_inequality;
use vstd::arithmetic::power2::{
    lemma2_to64, lemma2_to64_rest, lemma_pow2_adds, lemma_pow2_pos, lemma_pow2_strictly_increases,
    lemma_pow2_unfold, pow2,
};
use vstd::bits::{lemma_usize_pow2_no_overflow, lemma_usize_shl_is_mul};
use vstd::prelude::*;

verus! {

/// `usize::MAX` is exactly `pow2(usize::BITS) - 1`.
proof fn lemma_usize_max_pow2()
    ensures
        usize::MAX as int + 1 == pow2(usize::BITS as nat),
{
    lemma2_to64();
    lemma2_to64_rest();
}

/// A node index fits in a machine word, so its depth is below the word width.
proof fn lemma_depth_below_bits(i: nat)
    requires
        1 <= i <= usize::MAX,
    ensures
        depth_of(i) < usize::BITS,
{
    lemma_depth_bounds(i);
    lemma_usize_max_pow2();
    if depth_of(i) >= usize::BITS {
        if depth_of(i) > usize::BITS {
            lemma_pow2_strictly_increases(usize::BITS as nat, depth_of(i));
        }
        assert(pow2(depth_of(i)) >= pow2(usize::BITS as nat));
    }
}

/// The depth of node `i` in the 1-based layout: node 1 is at depth 0 and
/// node `i` is one level below node `i / 2`. Equivalently, the floor of the
/// base-2 logarithm of `i`.
pub open spec fn depth_of(i: nat) -> nat
    decreases i,
{
    if i <= 1 {
        0
    } else {
        1 + depth_of(i / 2)
    }
}

/// The node at index `i >= 1` and depth `d` satisfies `pow2(d) <= i < pow2(d + 1)`.
pub proof fn lemma_depth_bounds(i: nat)
    requires
        i >= 1,
    ensures
        pow2(depth_of(i)) <= i < pow2(depth_of(i) + 1),
    decreases i,
{
    if i == 1 {
        assert(pow2(0) == 1 && pow2(1) == 2) by {
            lemma2_to64();
        }
    } else {
        lemma_depth_bounds(i / 2);
        let d = depth_of(i);
        lemma_pow2_unfold(d);
        lemma_pow2_unfold(d + 1);
    }
}

/// Walking `k` levels up from node `i` (dividing by `pow2(k)`) lands at
/// depth `depth_of(i) - k`.
pub proof fn lemma_depth_div(i: nat, k: nat)
    requires
        k <= depth_of(i),
    ensures
        depth_of(i / pow2(k)) == depth_of(i) - k,
    decreases k,
{
    if k == 0 {
        assert(pow2(0) == 1) by {
            lemma2_to64();
        }
        assert(i / 1 == i);
    } else {
        assert(i >= 2) by {
            if i <= 1 {
                assert(depth_of(i) == 0);
            }
        }
        assert(depth_of(i / 2) == depth_of(i) - 1);
        lemma_depth_div(i / 2, (k - 1) as nat);
        assert(pow2(k) == 2 * pow2((k - 1) as nat)) by {
            lemma_pow2_unfold(k);
        }
        assert(i / pow2(k) == (i / 2) / pow2((k - 1) as nat)) by {
            lemma_pow2_pos((k - 1) as nat);
            lemma_div_denominator(i as int, 2, pow2((k - 1) as nat) as int);
        }
    }
}

/// The lowest common ancestor of two nodes at the same depth: walk both up
/// until they meet.
pub open spec fn lca_same_spec(a: nat, b: nat) -> nat
    decreases a + b,
{
    if a == b {
        a
    } else if a == 0 || b == 0 {
        0
    } else {
        lca_same_spec(a / 2, b / 2)
    }
}

/// The node left after stripping every trailing zero bit of `i`: walk up
/// while the node is a left child.
pub open spec fn odd_core_spec(i: nat) -> nat
    decreases i,
{
    if i == 0 {
        0
    } else if i % 2 == 1 {
        i
    } else {
        odd_core_spec(i / 2)
    }
}

/// The node left after stripping every trailing one bit of `i`: walk up
/// while the node is a right child.
pub open spec fn even_core_spec(i: nat) -> nat
    decreases i,
{
    if i % 2 == 0 {
        i
    } else {
        even_core_spec(i / 2)
    }
}

/// A node in a power-of-two layout segment tree, wrapping its index.
#[derive(Clone, Copy, PartialEq, Eq, Structural)]
pub struct SegTreeNode(pub usize);

impl SegTreeNode {
    /// The left child of this node, at index `2 * i`.
    #[inline]
    pub fn left_child(&self) -> (r: SegTreeNode)
        requires
            2 * self.0 <= usize::MAX,
        ensures
            r.0 == 2 * self.0,
    {
        SegTreeNode(self.0 * 2)
    }

    /// The right child of this node, at index `2 * i + 1`.
    #[inline]
    pub fn right_child(&self) -> (r: SegTreeNode)
        requires
            2 * self.0 + 1 <= usize::MAX,
        ensures
            r.0 == 2 * self.0 + 1,
    {
        SegTreeNode(self.0 * 2 + 1)
    }

    /// The parent of this node, at index `i / 2`. The root has no parent.
    #[inline]
    pub fn parent(&self) -> (r: SegTreeNode)
        requires
            self.0 >= 2,
        ensures
            r.0 == self.0 / 2,
    {
        SegTreeNode(self.0 / 2)
    }

    /// The sibling of a non-root node: the other child of its parent.
    #[inline]
    pub fn sibling(&self) -> (r: SegTreeNode)
        requires
            self.0 >= 2,
        ensures
            r.0 == if self.0 % 2 == 0 {
                self.0 + 1
            } else {
                self.0 - 1
            },
            r.0 / 2 == self.0 / 2,
            r.0 != self.0,
    {
        if self.0 % 2 == 0 {
            SegTreeNode(self.0 + 1)
        } else {
            SegTreeNode(self.0 - 1)
        }
    }

    /// The sibling of this node; the root is excluded because it has none.
    #[inline]
    pub fn sibling_safe(&self) -> (r: SegTreeNode)
        requires
            self.0 >= 2,
        ensures
            r.0 == if self.0 % 2 == 0 {
                self.0 + 1
            } else {
                self.0 - 1
            },
    {
        self.sibling()
    }

    /// Whether this node is the root (index 1).
    #[inline]
    pub fn is_root(&self) -> (r: bool)
        ensures
            r == (self.0 == 1),
    {
        self.0 == 1
    }

    /// Whether this node is the left child of its parent.
    #[inline]
    pub fn is_left_child(&self) -> (r: bool)
        requires
            self.0 >= 1,
        ensures
            r == (self.0 != 1 && self.0 % 2 == 0),
    {
        self.0 != 1 && self.0 % 2 == 0
    }

    /// Whether this node, known not to be the root, is a left child.
    #[inline]
    pub fn is_left_child_if_not_root(&self) -> (r: bool)
        ensures
            r == (self.0 % 2 == 0),
    {
        self.0 % 2 == 0
    }

    /// Whether this node is the right child of its parent.
    #[inline]
    pub fn is_right_child(&self) -> (r: bool)
        requires
            self.0 >= 1,
        ensures
            r == (self.0 != 1 && self.0 % 2 == 1),
    {
        self.0 != 1 && self.0 % 2 == 1
    }

    /// Whether this node, known not to be the root, is a right child.
    #[inline]
    pub fn is_right_child_if_not_root(&self) -> (r: bool)
        ensures
            r == (self.0 % 2 == 1),
    {
        self.0 % 2 == 1
    }

    /// The depth of this node; the root is at depth 0.
    #[inline]
    pub fn depth(&self) -> (r: u32)
        requires
            self.0 >= 1,
        ensures
            r == depth_of(self.0 as nat),
            pow2(r as nat) <= self.0 < pow2(r as nat + 1),
            r < usize::BITS,
    {
        let mut n: usize = self.0;
        let mut d: u32 = 0;
        proof {
            lemma2_to64();
        }
        while n >= 2
            invariant
                1 <= n <= usize::MAX,
                depth_of(self.0 as nat) == d + depth_of(n as nat),
                d < usize::BITS,
            decreases n,
        {
            proof {
                lemma_depth_below_bits(self.0 as nat);
            }
            n = n / 2;
            d = d + 1;
        }
        proof {
            lemma_depth_bounds(self.0 as nat);
            lemma_depth_below_bits(self.0 as nat);
        }
        d
    }

    /// Whether this node is a leaf of a tree whose leaves sit at `max_depth`.
    #[inline]
    pub fn is_leaf(&self, max_depth: u32) -> (r: bool)
        requires
            self.0 >= 1,
        ensures
            r == (depth_of(self.0 as nat) == max_depth),
    {
        self.depth() == max_depth
    }

    /// The number of leaves covered by this node in a tree whose leaves sit
    /// at `max_depth`.
    #[inline]
    pub fn size(&self, max_depth: u32) -> (r: usize)
        requires
            self.0 >= 1,
            depth_of(self.0 as nat) <= max_depth < usize::BITS,
        ensures
            r == pow2((max_depth - depth_of(self.0 as nat)) as nat),
            r >= 1,
    {
        let d = self.depth();
        pow2_usize(max_depth - d)
    }

    /// The first logical index covered by this node: its position within its
    /// level, times the node width.
    #[inline]
    pub fn left_bound(&self, max_depth: u32) -> (r: usize)
        requires
            self.0 >= 1,
            depth_of(self.0 as nat) <= max_depth < usize::BITS,
        ensures
            r == (self.0 - pow2(depth_of(self.0 as nat))) * pow2(
                (max_depth - depth_of(self.0 as nat)) as nat,
            ),
            r + pow2((max_depth - depth_of(self.0 as nat)) as nat) <= pow2(max_depth as nat),
    {
        let d = self.depth();
        let pos = self.0 - pow2_usize(d);
        let width = pow2_usize(max_depth - d);
        proof {
            lemma_node_pos_width(self.0 as nat, max_depth as nat);
        }
        pos * width
    }

    /// One past the last logical index covered by this node.
    #[inline]
    pub fn right_bound(&self, max_depth: u32) -> (r: usize)
        requires
            self.0 >= 1,
            depth_of(self.0 as nat) <= max_depth < usize::BITS,
        ensures
            r == (self.0 - pow2(depth_of(self.0 as nat)) + 1) * pow2(
                (max_depth - depth_of(self.0 as nat)) as nat,
            ),
            r <= pow2(max_depth as nat),
    {
        let d = self.depth();
        let pos = self.0 - pow2_usize(d);
        let width = pow2_usize(max_depth - d);
        proof {
            lemma_node_pos_width(self.0 as nat, max_depth as nat);
        }
        pos * width + width
    }

    /// The midpoint of the covered interval: where the two children split.
    /// For a leaf the midpoint equals the left bound.
    #[inline]
    pub fn mid(&self, max_depth: u32) -> (r: usize)
        requires
            self.0 >= 1,
            depth_of(self.0 as nat) <= max_depth < usize::BITS,
        ensures
            r == (self.0 - pow2(depth_of(self.0 as nat))) * pow2(
                (max_depth - depth_of(self.0 as nat)) as nat,
            ) + pow2((max_depth - depth_of(self.0 as nat)) as nat) / 2,
    {
        let d = self.depth();
        let pos = self.0 - pow2_usize(d);
        let width = pow2_usize(max_depth - d);
        proof {
            lemma_node_pos_width(self.0 as nat, max_depth as nat);
        }
        pos * width + width / 2
    }

    /// Both bounds of the covered interval, as a `(left, right)` pair.
    #[inline]
    pub fn node_bounds(&self, max_depth: u32) -> (r: (usize, usize))
        requires
            self.0 >= 1,
            depth_of(self.0 as nat) <= max_depth < usize::BITS,
        ensures
            r.0 == (self.0 - pow2(depth_of(self.0 as nat))) * pow2(
                (max_depth - depth_of(self.0 as nat)) as nat,
            ),
            r.1 == (self.0 - pow2(depth_of(self.0 as nat)) + 1) * pow2(
                (max_depth - depth_of(self.0 as nat)) as nat,
            ),
            r.1 <= pow2(max_depth as nat),
    {
        (self.left_bound(max_depth), self.right_bound(max_depth))
    }

    /// The lowest common ancestor of two nodes at the same depth.
    pub fn get_lca_from_same_depth(left: SegTreeNode, right: SegTreeNode) -> (r: SegTreeNode)
        requires
            left.0 >= 1,
            right.0 >= 1,
            depth_of(left.0 as nat) == depth_of(right.0 as nat),
        ensures
            r.0 == lca_same_spec(left.0 as nat, right.0 as nat),
            r.0 >= 1,
    {
        let mut l: usize = left.0;
        let mut r: usize = right.0;
        while l != r
            invariant
                l >= 1,
                r >= 1,
                depth_of(l as nat) == depth_of(r as nat),
                lca_same_spec(l as nat, r as nat) == lca_same_spec(left.0 as nat, right.0 as nat),
            decreases l,
        {
            proof {
                assert(l >= 2 && r >= 2) by {
                    if l == 1 || r == 1 {
                        assert(depth_of(l as nat) == 0 || depth_of(r as nat) == 0);
                        assert(depth_of(l as nat) == 0 && depth_of(r as nat) == 0);
                        assert(l == 1 && r == 1) by {
                            if l >= 2 {
                                assert(depth_of(l as nat) >= 1);
                            }
                            if r >= 2 {
                                assert(depth_of(r as nat) >= 1);
                            }
                        }
                    }
                }
            }
            l = l / 2;
            r = r / 2;
        }
        SegTreeNode(l)
    }

    /// The lowest common ancestor of two nodes at possibly different depths:
    /// the deeper node is first lifted to the shallower one's depth.
    pub fn get_lca_from_different_depth(left: SegTreeNode, right: SegTreeNode) -> (r: SegTreeNode)
        requires
            left.0 >= 1,
            right.0 >= 1,
        ensures
            r.0 == if depth_of(left.0 as nat) >= depth_of(right.0 as nat) {
                lca_same_spec(
                    left.0 as nat / pow2((depth_of(left.0 as nat) - depth_of(right.0 as nat)) as nat),
                    right.0 as nat,
                )
            } else {
                lca_same_spec(
                    left.0 as nat,
                    right.0 as nat / pow2(
                        (depth_of(right.0 as nat) - depth_of(left.0 as nat)) as nat,
                    ),
                )
            },
            r.0 >= 1,
    {
        let dl = left.depth();
        let dr = right.depth();
        if dl >= dr {
            let lifted = lift_node(left.0, dl - dr);
            proof {
                lemma_depth_div(left.0 as nat, (dl - dr) as nat);
                lemma_lift_positive(left.0 as nat, (dl - dr) as nat);
            }
            Self::get_lca_from_same_depth(SegTreeNode(lifted), right)
        } else {
            let lifted = lift_node(right.0, dr - dl);
            proof {
                lemma_depth_div(right.0 as nat, (dr - dl) as nat);
                lemma_lift_positive(right.0 as nat, (dr - dl) as nat);
            }
            Self::get_lca_from_same_depth(left, SegTreeNode(lifted))
        }
    }

    /// The binding node on the left: walk up while this node is a left
    /// child, stripping trailing zero bits of the index.
    pub fn get_left_binding_node(&self) -> (r: SegTreeNode)
        requires
            self.0 >= 1,
        ensures
            r.0 == odd_core_spec(self.0 as nat),
            r.0 >= 1,
    {
        let mut n: usize = self.0;
        while n % 2 == 0
            invariant
                n >= 1,
                odd_core_spec(n as nat) == odd_core_spec(self.0 as nat),
            decreases n,
        {
            n = n / 2;
        }
        SegTreeNode(n)
    }

    /// The binding node on the right: walk up while this node is a right
    /// child, stripping trailing one bits of the index; the root stands in
    /// when everything is stripped.
    pub fn get_right_binding_node(&self) -> (r: SegTreeNode)
        requires
            self.0 >= 1,
        ensures
            r.0 == if even_core_spec(self.0 as nat) == 0 {
                1
            } else {
                even_core_spec(self.0 as nat)
            },
            r.0 >= 1,
    {
        let mut n: usize = self.0;
        while n % 2 == 1
            invariant
                even_core_spec(n as nat) == even_core_spec(self.0 as nat),
            decreases n,
        {
            n = n / 2;
        }
        if n == 0 {
            SegTreeNode(1)
        } else {
            SegTreeNode(n)
        }
    }
}

/// Computes `pow2(e)` as a machine integer.
fn pow2_usize(e: u32) -> (r: usize)
    requires
        e < usize::BITS,
    ensures
        r == pow2(e as nat),
        r >= 1,
{
    proof {
        lemma_usize_pow2_no_overflow(e as nat);
        lemma_usize_shl_is_mul(1, e as usize);
        lemma_pow2_pos(e as nat);
    }
    1usize << (e as usize)
}

/// Walks a node `k` levels up by dividing its index by `pow2(k)`.
fn lift_node(i: usize, k: u32) -> (r: usize)
    requires
        i >= 1,
        k <= depth_of(i as nat),
        depth_of(i as nat) < usize::BITS,
    ensures
        r == i as nat / pow2(k as nat),
{
    proof {
        vstd::bits::lemma_usize_shr_is_div(i, k as usize);
    }
    i >> (k as usize)
}

/// Lifting a node at most to the root keeps the index positive.
proof fn lemma_lift_positive(i: nat, k: nat)
    requires
        i >= 1,
        k <= depth_of(i),
    ensures
        i / pow2(k) >= 1,
{
    lemma_depth_bounds(i);
    assert(pow2(k) <= pow2(depth_of(i))) by {
        if k < depth_of(i) {
            vstd::arithmetic::power2::lemma_pow2_strictly_increases(k, depth_of(i));
        }
    }
    assert(i / pow2(k) >= 1) by {
        lemma_pow2_pos(k);
        vstd::arithmetic::div_mod::lemma_div_is_ordered(pow2(k) as int, i as int, pow2(k) as int);
        vstd::arithmetic::div_mod::lemma_div_by_self(pow2(k) as int);
    }
}

/// Bounds for the position-and-width decomposition of a node: at depth `d`
/// in a tree with leaves at depth `D`, the node index `i` has position
/// `i - pow2(d)` within its level, each position is `pow2(D - d)` leaves
/// wide, and the whole level spans exactly `pow2(D)` leaves.
proof fn lemma_node_pos_width(i: nat, max_depth: nat)
    requires
        i >= 1,
        depth_of(i) <= max_depth,
        max_depth < usize::BITS,
    ensures
        i >= pow2(depth_of(i)),
        (i - pow2(depth_of(i))) * pow2((max_depth - depth_of(i)) as nat) + pow2(
            (max_depth - depth_of(i)) as nat,
        ) <= pow2(max_depth),
        (i - pow2(depth_of(i))) * pow2((max_depth - depth_of(i)) as nat) + pow2(
            (max_depth - depth_of(i)) as nat,
        ) == (i - pow2(depth_of(i)) + 1) * pow2((max_depth - depth_of(i)) as nat),
        pow2(max_depth) == pow2(depth_of(i)) * pow2((max_depth - depth_of(i)) as nat),
        pow2(max_depth) < usize::MAX,
{
    let d = depth_of(i);
    let w = pow2((max_depth - d) as nat);
    lemma_depth_bounds(i);
    lemma_pow2_adds(d, (max_depth - d) as nat);
    lemma_usize_pow2_no_overflow(max_depth);
    assert(i - pow2(d) + 1 <= pow2(d)) by {
        lemma_pow2_unfold(d + 1);
    }
    assert((i - pow2(d) + 1) * w == (i - pow2(d)) * w + w) by {
        vstd::arithmetic::mul::lemma_mul_is_distributive_add_other_way(
            w as int,
            i - pow2(d),
            1,
        );
    }
    assert((i - pow2(d) + 1) * w <= pow2(d) * w) by {
        lemma_mul_inequality(i - pow2(d) + 1, pow2(d) as int, w as int);
    }
}

} // verus!
