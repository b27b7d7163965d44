//! The primitive integers as tree elements.
//!
//! The ready-made tree specifications in this module's siblings are generic
//! over [`Numeric`]: a fixed-width integer with its additive identity, its
//! extreme constants, wrapping addition, wrapping multiplication by a count,
//! and its total order — each executable operation pinned to a spec function
//! and the algebraic facts the tree laws need proved once per type.
//!
//! Wrapping semantics is deliberate: the trees place no precondition on the
//! stored values, so the operations must be total. A value of width `m`
//! starting at `lo` lives in `[lo, lo + m)`, and every wrapping operation
//! returns [`wrap_val`]: the unique representative of the exact result
//! modulo `m` in that window.

use vstd::arithmetic::div_mod::{
    lemma_fundamental_div_mod, lemma_fundamental_div_mod_converse_mod, lemma_mod_self_0,
    lemma_mod_twice, lemma_small_mod,
};
use vstd::arithmetic::mul::{
    lemma_mul_is_associative, lemma_mul_is_commutative, lemma_mul_is_distributive_add,
};
use vstd::prelude::*;

verus! {

/// The unique value congruent to `x` modulo `m` in the window
/// `[lo, lo + m)`.
pub open spec fn wrap_val(x: int, lo: int, m: int) -> int {
    lo + ((x - lo) % m)
}

/// `wrap_val` stays in its window.
pub proof fn lemma_wrap_in_window(x: int, lo: int, m: int)
    requires
        m >= 1,
    ensures
        lo <= wrap_val(x, lo, m) < lo + m,
{
}

/// `wrap_val` is the unique window representative: any `y` in the window
/// congruent to `x` is the wrap of `x`.
pub proof fn lemma_wrap_unique(x: int, y: int, lo: int, m: int)
    requires
        m >= 1,
        lo <= y < lo + m,
        (x - y) % m == 0,
    ensures
        wrap_val(x, lo, m) == y,
{
    let q = (x - y) / m;
    lemma_fundamental_div_mod(x - y, m);
    assert(x - lo == q * m + (y - lo));
    lemma_fundamental_div_mod_converse_mod(x - lo, m, q, y - lo);
}

/// Congruent inputs wrap to the same value.
pub proof fn lemma_wrap_congruent(a: int, b: int, lo: int, m: int)
    requires
        m >= 1,
        (a - b) % m == 0,
    ensures
        wrap_val(a, lo, m) == wrap_val(b, lo, m),
{
    let w = wrap_val(b, lo, m);
    lemma_wrap_in_window(b, lo, m);
    // b - w is a multiple of m, and a - b is too, so a - w is as well.
    lemma_fundamental_div_mod(b - lo, m);
    let qb = (b - lo) / m;
    assert(b - w == qb * m);
    assert(a - w == (a - b) + (b - w));
    lemma_fundamental_div_mod(a - b, m);
    let qa = (a - b) / m;
    assert(a - w == qa * m + qb * m);
    assert(qa * m + qb * m == (qa + qb) * m) by {
        lemma_mul_is_distributive_add(m, qa, qb);
        lemma_mul_is_commutative(m, qa);
        lemma_mul_is_commutative(m, qb);
        lemma_mul_is_commutative(m, qa + qb);
    }
    assert(((qa + qb) * m) % m == 0) by {
        vstd::arithmetic::div_mod::lemma_mod_multiples_basic(qa + qb, m);
    }
    lemma_wrap_unique(a, w, lo, m);
}

/// A value already in the window wraps to itself.
pub proof fn lemma_wrap_exact(x: int, lo: int, m: int)
    requires
        m >= 1,
        lo <= x < lo + m,
    ensures
        wrap_val(x, lo, m) == x,
{
    lemma_small_mod((x - lo) as nat, m as nat);
}

/// Wrapping one addend first does not change a wrapped sum.
pub proof fn lemma_wrap_add(x: int, y: int, lo: int, m: int)
    requires
        m >= 1,
    ensures
        wrap_val(wrap_val(x, lo, m) + y, lo, m) == wrap_val(x + y, lo, m),
{
    let w = wrap_val(x, lo, m);
    lemma_fundamental_div_mod(x - lo, m);
    let q = (x - lo) / m;
    assert((w + y) - (x + y) == (-q) * m) by {
        vstd::arithmetic::mul::lemma_mul_unary_negation(q, m);
    }
    assert(((-q) * m) % m == 0) by {
        vstd::arithmetic::div_mod::lemma_mod_multiples_basic(-q, m);
    }
    lemma_wrap_congruent(w + y, x + y, lo, m);
}

/// Wrapping one factor first does not change a wrapped product.
pub proof fn lemma_wrap_mul(x: int, y: int, lo: int, m: int)
    requires
        m >= 1,
    ensures
        wrap_val(wrap_val(x, lo, m) * y, lo, m) == wrap_val(x * y, lo, m),
{
    let w = wrap_val(x, lo, m);
    lemma_fundamental_div_mod(x - lo, m);
    let q = (x - lo) / m;
    assert(w == x + (-q) * m) by {
        vstd::arithmetic::mul::lemma_mul_unary_negation(q, m);
    }
    assert(w * y == x * y + ((-q) * y) * m) by {
        lemma_mul_is_distributive_add(y, x, (-q) * m);
        lemma_mul_is_commutative(y, x);
        lemma_mul_is_commutative(y, (-q) * m);
        lemma_mul_is_associative(-q, m, y);
        lemma_mul_is_commutative(m, y);
        lemma_mul_is_associative(-q, y, m);
    }
    assert((((-q) * y) * m) % m == 0) by {
        vstd::arithmetic::div_mod::lemma_mod_multiples_basic((-q) * y, m);
    }
    lemma_wrap_congruent(w * y, x * y, lo, m);
}

/// An integer type usable as a tree element: identity and extreme constants,
/// wrapping arithmetic pinned to [`wrap_val`], a total order, and the
/// algebraic facts the tree specifications build their laws from.
pub trait Numeric: Sized + Copy {
    /// The additive identity.
    spec fn spec_zero() -> Self;

    /// The largest value.
    spec fn spec_max_const() -> Self;

    /// The smallest value.
    spec fn spec_min_const() -> Self;

    /// Wrapping addition.
    spec fn spec_wrapping_add(a: Self, b: Self) -> Self;

    /// Wrapping multiplication by a count of leaves.
    spec fn spec_mul_count(a: Self, n: nat) -> Self;

    /// The total order.
    spec fn spec_le(a: Self, b: Self) -> bool;

    /// Produces the additive identity.
    fn zero() -> (r: Self)
        ensures
            r == Self::spec_zero(),
    ;

    /// Produces the largest value.
    fn max_const() -> (r: Self)
        ensures
            r == Self::spec_max_const(),
    ;

    /// Produces the smallest value.
    fn min_const() -> (r: Self)
        ensures
            r == Self::spec_min_const(),
    ;

    /// Adds, wrapping around the window.
    fn wrapping_add_val(a: Self, b: Self) -> (r: Self)
        ensures
            r == Self::spec_wrapping_add(a, b),
    ;

    /// Multiplies by a count, wrapping around the window.
    fn mul_count(a: Self, n: usize) -> (r: Self)
        ensures
            r == Self::spec_mul_count(a, n as nat),
    ;

    /// Compares.
    fn le(a: Self, b: Self) -> (r: bool)
        ensures
            r == Self::spec_le(a, b),
    ;

    /// Wrapping addition is associative and commutative with the identity
    /// neutral.
    proof fn lemma_add_laws(a: Self, b: Self, c: Self)
        ensures
            Self::spec_wrapping_add(Self::spec_wrapping_add(a, b), c) == Self::spec_wrapping_add(
                a,
                Self::spec_wrapping_add(b, c),
            ),
            Self::spec_wrapping_add(a, b) == Self::spec_wrapping_add(b, a),
            Self::spec_wrapping_add(Self::spec_zero(), a) == a,
            Self::spec_wrapping_add(a, Self::spec_zero()) == a,
    ;

    /// Multiplication by a count splits over the count.
    proof fn lemma_mul_count_split(u: Self, n1: nat, n2: nat)
        ensures
            Self::spec_mul_count(u, n1 + n2) == Self::spec_wrapping_add(
                Self::spec_mul_count(u, n1),
                Self::spec_mul_count(u, n2),
            ),
    ;

    /// Multiplication by a count is linear in the multiplicand.
    proof fn lemma_mul_count_linear(u1: Self, u2: Self, n: nat)
        ensures
            Self::spec_mul_count(Self::spec_wrapping_add(u1, u2), n) == Self::spec_wrapping_add(
                Self::spec_mul_count(u1, n),
                Self::spec_mul_count(u2, n),
            ),
    ;

    /// The order is total, transitive and antisymmetric, with the extreme
    /// constants as bounds.
    proof fn lemma_order_laws(a: Self, b: Self, c: Self)
        ensures
            Self::spec_le(a, b) || Self::spec_le(b, a),
            Self::spec_le(a, b) && Self::spec_le(b, c) ==> Self::spec_le(a, c),
            Self::spec_le(a, b) && Self::spec_le(b, a) ==> a == b,
            Self::spec_le(a, Self::spec_max_const()),
            Self::spec_le(Self::spec_min_const(), a),
    ;
}

impl Numeric for i32 {
    open spec fn spec_zero() -> i32 {
        0
    }

    open spec fn spec_max_const() -> i32 {
        i32::MAX
    }

    open spec fn spec_min_const() -> i32 {
        i32::MIN
    }

    open spec fn spec_wrapping_add(a: i32, b: i32) -> i32 {
        wrap_val(a + b, i32::MIN as int, 0x1_0000_0000) as i32
    }

    open spec fn spec_mul_count(a: i32, n: nat) -> i32 {
        wrap_val(a * n, i32::MIN as int, 0x1_0000_0000) as i32
    }

    open spec fn spec_le(a: i32, b: i32) -> bool {
        a <= b
    }

    fn zero() -> (r: i32) {
        0
    }

    fn max_const() -> (r: i32) {
        i32::MAX
    }

    fn min_const() -> (r: i32) {
        i32::MIN
    }

    fn wrapping_add_val(a: i32, b: i32) -> (r: i32) {
        proof {
            lemma_i32_wrapping_add_matches(a, b);
        }
        a.wrapping_add(b)
    }

    fn mul_count(a: i32, n: usize) -> (r: i32) {
        let f = i32_of_usize(n);
        proof {
            lemma_i32_wrapping_mul_matches(a, f, n as nat);
        }
        a.wrapping_mul(f)
    }

    fn le(a: i32, b: i32) -> (r: bool) {
        a <= b
    }

    proof fn lemma_add_laws(a: i32, b: i32, c: i32) {
        lemma_numeric_add_laws(a as int, b as int, c as int, i32::MIN as int, 0x1_0000_0000);
    }

    proof fn lemma_mul_count_split(u: i32, n1: nat, n2: nat) {
        lemma_numeric_mul_split(u as int, n1, n2, i32::MIN as int, 0x1_0000_0000);
    }

    proof fn lemma_mul_count_linear(u1: i32, u2: i32, n: nat) {
        lemma_numeric_mul_linear(u1 as int, u2 as int, n, i32::MIN as int, 0x1_0000_0000);
    }

    proof fn lemma_order_laws(a: i32, b: i32, c: i32) {
    }
}

impl Numeric for i64 {
    open spec fn spec_zero() -> i64 {
        0
    }

    open spec fn spec_max_const() -> i64 {
        i64::MAX
    }

    open spec fn spec_min_const() -> i64 {
        i64::MIN
    }

    open spec fn spec_wrapping_add(a: i64, b: i64) -> i64 {
        wrap_val(a + b, i64::MIN as int, 0x1_0000_0000_0000_0000) as i64
    }

    open spec fn spec_mul_count(a: i64, n: nat) -> i64 {
        wrap_val(a * n, i64::MIN as int, 0x1_0000_0000_0000_0000) as i64
    }

    open spec fn spec_le(a: i64, b: i64) -> bool {
        a <= b
    }

    fn zero() -> (r: i64) {
        0
    }

    fn max_const() -> (r: i64) {
        i64::MAX
    }

    fn min_const() -> (r: i64) {
        i64::MIN
    }

    fn wrapping_add_val(a: i64, b: i64) -> (r: i64) {
        proof {
            lemma_i64_wrapping_add_matches(a, b);
        }
        a.wrapping_add(b)
    }

    fn mul_count(a: i64, n: usize) -> (r: i64) {
        let f = i64_of_usize(n);
        proof {
            lemma_i64_wrapping_mul_matches(a, f, n as nat);
        }
        a.wrapping_mul(f)
    }

    fn le(a: i64, b: i64) -> (r: bool) {
        a <= b
    }

    proof fn lemma_add_laws(a: i64, b: i64, c: i64) {
        lemma_numeric_add_laws(
            a as int,
            b as int,
            c as int,
            i64::MIN as int,
            0x1_0000_0000_0000_0000,
        );
    }

    proof fn lemma_mul_count_split(u: i64, n1: nat, n2: nat) {
        lemma_numeric_mul_split(u as int, n1, n2, i64::MIN as int, 0x1_0000_0000_0000_0000);
    }

    proof fn lemma_mul_count_linear(u1: i64, u2: i64, n: nat) {
        lemma_numeric_mul_linear(
            u1 as int,
            u2 as int,
            n,
            i64::MIN as int,
            0x1_0000_0000_0000_0000,
        );
    }

    proof fn lemma_order_laws(a: i64, b: i64, c: i64) {
    }
}

impl Numeric for u32 {
    open spec fn spec_zero() -> u32 {
        0
    }

    open spec fn spec_max_const() -> u32 {
        u32::MAX
    }

    open spec fn spec_min_const() -> u32 {
        0
    }

    open spec fn spec_wrapping_add(a: u32, b: u32) -> u32 {
        wrap_val(a + b, 0, 0x1_0000_0000) as u32
    }

    open spec fn spec_mul_count(a: u32, n: nat) -> u32 {
        wrap_val(a * n, 0, 0x1_0000_0000) as u32
    }

    open spec fn spec_le(a: u32, b: u32) -> bool {
        a <= b
    }

    fn zero() -> (r: u32) {
        0
    }

    fn max_const() -> (r: u32) {
        u32::MAX
    }

    fn min_const() -> (r: u32) {
        0
    }

    fn wrapping_add_val(a: u32, b: u32) -> (r: u32) {
        proof {
            lemma_u32_wrapping_add_matches(a, b);
        }
        a.wrapping_add(b)
    }

    fn mul_count(a: u32, n: usize) -> (r: u32) {
        let f = u32_of_usize(n);
        proof {
            lemma_u32_wrapping_mul_matches(a, f, n as nat);
        }
        a.wrapping_mul(f)
    }

    fn le(a: u32, b: u32) -> (r: bool) {
        a <= b
    }

    proof fn lemma_add_laws(a: u32, b: u32, c: u32) {
        lemma_numeric_add_laws(a as int, b as int, c as int, 0, 0x1_0000_0000);
    }

    proof fn lemma_mul_count_split(u: u32, n1: nat, n2: nat) {
        lemma_numeric_mul_split(u as int, n1, n2, 0, 0x1_0000_0000);
    }

    proof fn lemma_mul_count_linear(u1: u32, u2: u32, n: nat) {
        lemma_numeric_mul_linear(u1 as int, u2 as int, n, 0, 0x1_0000_0000);
    }

    proof fn lemma_order_laws(a: u32, b: u32, c: u32) {
    }
}

/// The associativity, commutativity and identity facts of wrapping addition,
/// proved once over mathematical integers. The per-type laws are instances
/// with the in-window casts stripped.
proof fn lemma_numeric_add_laws(a: int, b: int, c: int, lo: int, m: int)
    requires
        m >= 1,
        lo <= a < lo + m,
        lo <= b < lo + m,
        lo <= c < lo + m,
        lo <= 0 < lo + m,
    ensures
        wrap_val(wrap_val(a + b, lo, m) + c, lo, m) == wrap_val(a + wrap_val(b + c, lo, m), lo, m),
        wrap_val(a + b, lo, m) == wrap_val(b + a, lo, m),
        wrap_val(0 + a, lo, m) == a,
        wrap_val(a + 0, lo, m) == a,
{
    lemma_wrap_add(a + b, c, lo, m);
    lemma_wrap_add(b + c, a, lo, m);
    assert(wrap_val(b + c, lo, m) + a == a + wrap_val(b + c, lo, m));
    lemma_wrap_exact(a, lo, m);
}

/// Splitting a wrapped product over a sum of counts, proved once over
/// mathematical integers.
proof fn lemma_numeric_mul_split(u: int, n1: nat, n2: nat, lo: int, m: int)
    requires
        m >= 1,
    ensures
        wrap_val(u * (n1 + n2), lo, m) == wrap_val(
            wrap_val(u * n1, lo, m) + wrap_val(u * n2, lo, m),
            lo,
            m,
        ),
{
    assert(u * (n1 + n2) == u * n1 + u * n2) by {
        lemma_mul_is_distributive_add(u, n1 as int, n2 as int);
    }
    lemma_wrap_add(u * n1, wrap_val(u * n2, lo, m), lo, m);
    lemma_wrap_add(u * n2, u * n1, lo, m);
    assert(u * n1 + wrap_val(u * n2, lo, m) == wrap_val(u * n2, lo, m) + u * n1);
    assert(u * n2 + u * n1 == u * n1 + u * n2);
}

/// Linearity of a wrapped product in the multiplicand, proved once over
/// mathematical integers.
proof fn lemma_numeric_mul_linear(u1: int, u2: int, n: nat, lo: int, m: int)
    requires
        m >= 1,
    ensures
        wrap_val(wrap_val(u1 + u2, lo, m) * n, lo, m) == wrap_val(
            wrap_val(u1 * n, lo, m) + wrap_val(u2 * n, lo, m),
            lo,
            m,
        ),
{
    lemma_wrap_mul(u1 + u2, n as int, lo, m);
    assert((u1 + u2) * n == u1 * n + u2 * n) by {
        vstd::arithmetic::mul::lemma_mul_is_distributive_add_other_way(n as int, u1, u2);
    }
    lemma_wrap_add(u1 * n, wrap_val(u2 * n, lo, m), lo, m);
    lemma_wrap_add(u2 * n, u1 * n, lo, m);
    assert(u1 * n + wrap_val(u2 * n, lo, m) == wrap_val(u2 * n, lo, m) + u1 * n);
    assert(u2 * n + u1 * n == u1 * n + u2 * n);
}

/// The standard library's wrapping addition on `i32` lands on the window
/// representative.
proof fn lemma_i32_wrapping_add_matches(a: i32, b: i32)
    ensures
        vstd::wrapping::i32_specs::wrapping_add(a, b) as int == wrap_val(
            a + b,
            i32::MIN as int,
            0x1_0000_0000,
        ),
{
    let m: int = 0x1_0000_0000;
    let lo: int = i32::MIN as int;
    let v = vstd::wrapping::i32_specs::wrapping_add(a, b) as int;
    lemma_mod_self_0(m);
    vstd::arithmetic::div_mod::lemma_mod_multiples_basic(-1, m);
    assert((a + b - v) % m == 0);
    lemma_wrap_unique(a + b, v, lo, m);
}

/// The standard library's wrapping addition on `i64` lands on the window
/// representative.
proof fn lemma_i64_wrapping_add_matches(a: i64, b: i64)
    ensures
        vstd::wrapping::i64_specs::wrapping_add(a, b) as int == wrap_val(
            a + b,
            i64::MIN as int,
            0x1_0000_0000_0000_0000,
        ),
{
    let m: int = 0x1_0000_0000_0000_0000;
    let lo: int = i64::MIN as int;
    let v = vstd::wrapping::i64_specs::wrapping_add(a, b) as int;
    lemma_mod_self_0(m);
    vstd::arithmetic::div_mod::lemma_mod_multiples_basic(-1, m);
    assert((a + b - v) % m == 0);
    lemma_wrap_unique(a + b, v, lo, m);
}

/// The standard library's wrapping addition on `u32` lands on the window
/// representative.
proof fn lemma_u32_wrapping_add_matches(a: u32, b: u32)
    ensures
        vstd::wrapping::u32_specs::wrapping_add(a, b) as int == wrap_val(a + b, 0, 0x1_0000_0000),
{
    let m: int = 0x1_0000_0000;
    let v = vstd::wrapping::u32_specs::wrapping_add(a, b) as int;
    lemma_mod_self_0(m);
    assert((a + b - v) % m == 0);
    lemma_wrap_unique(a + b, v, 0, m);
}

/// A `usize` count reduced into the `i32` window, congruent modulo the
/// window width.
fn i32_of_usize(n: usize) -> (r: i32)
    ensures
        r as int == wrap_val(n as int, i32::MIN as int, 0x1_0000_0000),
{
    let low: u64 = (n as u64) % 0x1_0000_0000u64;
    let low32: u32 = low as u32;
    let r: i32 = if low32 <= 0x7fff_ffffu32 {
        low32 as i32
    } else {
        ((low32 - 0x8000_0000u32) as i32) + i32::MIN
    };
    proof {
        let m: int = 0x1_0000_0000;
        let lo: int = i32::MIN as int;
        assert(low == (n as int) % m);
        vstd::arithmetic::div_mod::lemma_fundamental_div_mod(n as int, m);
        let q = (n as int) / m;
        assert(n as int - r as int == q * m + (low - r as int));
        if low32 <= 0x7fff_ffffu32 {
            assert(low - r as int == 0);
            assert((n as int - r as int) % m == 0) by {
                vstd::arithmetic::div_mod::lemma_mod_multiples_basic(q, m);
            }
        } else {
            assert(low - r as int == m);
            assert(n as int - r as int == (q + 1) * m) by {
                lemma_mul_is_distributive_add(m, q, 1);
                lemma_mul_is_commutative(m, q);
                lemma_mul_is_commutative(m, q + 1);
            }
            assert((n as int - r as int) % m == 0) by {
                vstd::arithmetic::div_mod::lemma_mod_multiples_basic(q + 1, m);
            }
        }
        lemma_wrap_unique(n as int, r as int, lo, m);
    }
    r
}

/// A `usize` count reduced into the `i64` window, congruent modulo the
/// window width.
fn i64_of_usize(n: usize) -> (r: i64)
    ensures
        r as int == wrap_val(n as int, i64::MIN as int, 0x1_0000_0000_0000_0000),
{
    let low: u64 = n as u64;
    let r: i64 = if low <= 0x7fff_ffff_ffff_ffffu64 {
        low as i64
    } else {
        ((low - 0x8000_0000_0000_0000u64) as i64) + i64::MIN
    };
    proof {
        let m: int = 0x1_0000_0000_0000_0000;
        let lo: int = i64::MIN as int;
        lemma_mod_self_0(m);
        vstd::arithmetic::div_mod::lemma_mod_multiples_basic(1, m);
        assert((n as int - r as int) % m == 0);
        lemma_wrap_unique(n as int, r as int, lo, m);
    }
    r
}

/// A `usize` count reduced into the `u32` window, congruent modulo the
/// window width.
fn u32_of_usize(n: usize) -> (r: u32)
    ensures
        r as int == wrap_val(n as int, 0, 0x1_0000_0000),
{
    let low: u64 = (n as u64) % 0x1_0000_0000u64;
    let r: u32 = low as u32;
    proof {
        let m: int = 0x1_0000_0000;
        assert(low == (n as int) % m);
        lemma_mod_twice(n as int, m);
    }
    r
}

/// The standard library's wrapping multiplication by a reduced count lands
/// on the window representative of the exact product (`i32`).
proof fn lemma_i32_wrapping_mul_matches(a: i32, f: i32, n: nat)
    requires
        f as int == wrap_val(n as int, i32::MIN as int, 0x1_0000_0000),
    ensures
        vstd::wrapping::i32_specs::wrapping_mul(a, f) as int == wrap_val(
            a * n,
            i32::MIN as int,
            0x1_0000_0000,
        ),
{
    let m: int = 0x1_0000_0000;
    let lo: int = i32::MIN as int;
    let v = vstd::wrapping::i32_specs::wrapping_mul(a, f) as int;
    lemma_crop_is_wrap(a * f, lo, m, v);
    lemma_wrap_mul(n as int, a as int, lo, m);
    assert(f * a == a * f && (n as int) * a == a * n) by {
        lemma_mul_is_commutative(f as int, a as int);
        lemma_mul_is_commutative(n as int, a as int);
    }
}

/// The standard library's wrapping multiplication by a reduced count lands
/// on the window representative of the exact product (`i64`).
proof fn lemma_i64_wrapping_mul_matches(a: i64, f: i64, n: nat)
    requires
        f as int == wrap_val(n as int, i64::MIN as int, 0x1_0000_0000_0000_0000),
    ensures
        vstd::wrapping::i64_specs::wrapping_mul(a, f) as int == wrap_val(
            a * n,
            i64::MIN as int,
            0x1_0000_0000_0000_0000,
        ),
{
    let m: int = 0x1_0000_0000_0000_0000;
    let lo: int = i64::MIN as int;
    let v = vstd::wrapping::i64_specs::wrapping_mul(a, f) as int;
    lemma_crop_is_wrap(a * f, lo, m, v);
    lemma_wrap_mul(n as int, a as int, lo, m);
    assert(f * a == a * f && (n as int) * a == a * n) by {
        lemma_mul_is_commutative(f as int, a as int);
        lemma_mul_is_commutative(n as int, a as int);
    }
}

/// The standard library's wrapping multiplication by a reduced count lands
/// on the window representative of the exact product (`u32`).
proof fn lemma_u32_wrapping_mul_matches(a: u32, f: u32, n: nat)
    requires
        f as int == wrap_val(n as int, 0, 0x1_0000_0000),
    ensures
        vstd::wrapping::u32_specs::wrapping_mul(a, f) as int == wrap_val(a * n, 0, 0x1_0000_0000),
{
    let m: int = 0x1_0000_0000;
    let v = vstd::wrapping::u32_specs::wrapping_mul(a, f) as int;
    assert(v == (a * f) % m) by {
        lemma_small_mod(((a as nat) * (f as nat)) % (m as nat), m as nat);
    }
    lemma_mod_twice(a * f, m);
    assert((a * f - v) % m == 0) by {
        vstd::arithmetic::div_mod::lemma_sub_mod_noop(a * f, v, m);
        lemma_mod_self_0(m);
    }
    lemma_wrap_unique(a * f, v, 0, m);
    lemma_wrap_mul(n as int, a as int, 0, m);
    assert(f * a == a * f && (n as int) * a == a * n) by {
        lemma_mul_is_commutative(f as int, a as int);
        lemma_mul_is_commutative(n as int, a as int);
    }
}

/// vstd's `signed_crop` is the window representative for a signed type
/// whose window is `[lo, lo + m)` with `lo == -m/2`: it is in the window and
/// congruent to its argument.
proof fn lemma_crop_is_wrap(x: int, lo: int, m: int, v: int)
    requires
        m >= 2,
        m % 2 == 0,
        lo == -(m / 2),
        v == if x % m > m / 2 - 1 {
            x % m - m
        } else {
            x % m
        },
    ensures
        v == wrap_val(x, lo, m),
{
    lemma_fundamental_div_mod(x, m);
    let q = x / m;
    assert((x - v) % m == 0) by {
        if x % m > m / 2 - 1 {
            assert(x - v == (q + 1) * m) by {
                lemma_mul_is_distributive_add(m, q, 1);
                lemma_mul_is_commutative(m, q);
                lemma_mul_is_commutative(m, q + 1);
            }
            vstd::arithmetic::div_mod::lemma_mod_multiples_basic(q + 1, m);
        } else {
            assert(x - v == q * m) by {
                lemma_mul_is_commutative(m, q);
            }
            vstd::arithmetic::div_mod::lemma_mod_multiples_basic(q, m);
        }
    }
    lemma_wrap_unique(x, v, lo, m);
}

} // verus!
