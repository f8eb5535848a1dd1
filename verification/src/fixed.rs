//! Fixed-point arithmetic on signed 64-bit values.
//!
//! A coordinate on the complex plane is held as an `i64` counting units of
//! `1 / SCALE`, so the value `x` stands for the real number `x / SCALE`.
//! Products are divided by `SCALE` with truncation toward zero, which keeps
//! the operation odd (`fmul(-a, b) == -fmul(a, b)`); the navigation laws of
//! the viewport rest on that symmetry.

use vstd::prelude::*;
use vstd::arithmetic::div_mod::{
    lemma_div_basics_1, lemma_div_by_multiple, lemma_div_is_ordered, lemma_div_pos_is_pos,
    lemma_fundamental_div_mod,
};
use vstd::arithmetic::mul::lemma_mul_inequality;

verus! {

/// Number of fixed-point units per 1.0: 2^32.
pub const SCALE: i64 = 4294967296;

/// Largest magnitude allowed for a viewport coordinate or a rendered point.
/// Keeping coordinates within this bound (2^60 units, about 2^28 as a real
/// number) leaves room for every intermediate of the escape iteration in an
/// `i64`.
pub const COORD_MAX: i64 = 1152921504606846976;

/// Largest magnitude an escape-orbit component can reach once its predecessor
/// passed the radius test: `8 * SCALE + COORD_MAX`.
pub const ORBIT_MAX: i64 = COORD_MAX + 8 * SCALE;

/// Division truncated toward zero, the rounding every fixed-point product
/// here uses. For `a >= 0` it agrees with Euclidean division; for `a < 0` it
/// is its mirror image, so `tdiv(-a, b) == -tdiv(a, b)`.
pub open spec fn tdiv(a: int, b: int) -> int
    recommends
        b > 0,
{
    if a >= 0 {
        a / b
    } else {
        -((-a) / b)
    }
}

/// The fixed-point product: `a * b` rescaled by `SCALE`, truncated toward
/// zero.
pub open spec fn fmul_spec(a: int, b: int) -> int {
    tdiv(a * b, SCALE as int)
}

/// Truncating division is odd in its dividend.
pub proof fn lemma_tdiv_neg(a: int, b: int)
    requires
        b > 0,
    ensures
        tdiv(-a, b) == -tdiv(a, b),
{
    if a == 0 {
        lemma_div_basics_1(b);
    }
}

/// A dividend no larger than `m * b` in magnitude divides down to a quotient
/// no larger than `m` in magnitude.
pub proof fn lemma_tdiv_bound(a: int, b: int, m: int)
    requires
        b > 0,
        0 <= m,
        -(m * b) <= a <= m * b,
    ensures
        -m <= tdiv(a, b) <= m,
{
    if a >= 0 {
        lemma_div_pos_is_pos(a, b);
        lemma_div_is_ordered(a, m * b, b);
        lemma_div_by_multiple(m, b);
    } else {
        lemma_div_pos_is_pos(-a, b);
        lemma_div_is_ordered(-a, m * b, b);
        lemma_div_by_multiple(m, b);
    }
}

/// Dividing an exact multiple of the divisor recovers the factor.
pub proof fn lemma_tdiv_exact(k: int, b: int)
    requires
        b > 0,
    ensures
        tdiv(k * b, b) == k,
{
    if k >= 0 {
        lemma_div_by_multiple(k, b);
    } else {
        lemma_div_by_multiple(-k, b);
        assert(-(k * b) == (-k) * b) by (nonlinear_arith);
    }
}

/// For `0 <= c <= n`, the scaled offset `tdiv(c * w, n)` lies between `0`
/// and `w`, whichever sign `w` has. This is what keeps every pixel of a
/// viewport inside the viewport's own corner coordinates.
pub proof fn lemma_tdiv_scaled_between(c: int, n: int, w: int)
    requires
        0 < n,
        0 <= c <= n,
    ensures
        w >= 0 ==> 0 <= tdiv(c * w, n) <= w,
        w < 0 ==> w <= tdiv(c * w, n) <= 0,
{
    if w >= 0 {
        vstd::arithmetic::mul::lemma_mul_nonnegative(c, w);
        lemma_mul_inequality(c, n, w);
        lemma_div_pos_is_pos(c * w, n);
        lemma_div_is_ordered(c * w, n * w, n);
        lemma_div_by_multiple(w, n);
        assert(n * w == w * n) by (nonlinear_arith);
    } else {
        assert(c * w <= 0 && -(c * w) == c * (-w)) by (nonlinear_arith)
            requires
                0 <= c && w < 0,
        ;
        vstd::arithmetic::mul::lemma_mul_nonnegative(c, -w);
        lemma_mul_inequality(c, n, -w);
        lemma_div_pos_is_pos(c * (-w), n);
        lemma_div_is_ordered(c * (-w), n * (-w), n);
        lemma_div_by_multiple(-w, n);
        assert(n * (-w) == (-w) * n) by (nonlinear_arith);
    }
}

/// A square is bounded by the square of a bound on its root.
pub proof fn lemma_square_bound(x: int, m: int)
    requires
        -m <= x <= m,
    ensures
        0 <= x * x <= m * m,
{
    assert(0 <= x * x <= m * m) by (nonlinear_arith)
        requires
            -m <= x <= m,
    ;
}

/// Conversely, `x * x < (m + 1) * (m + 1)` pins `x` into `[-m, m]`.
pub proof fn lemma_square_root_bound(x: int, m: int)
    requires
        0 <= m,
        x * x <= m * m + 2 * m,
    ensures
        -m <= x <= m,
{
    assert(-m <= x <= m) by (nonlinear_arith)
        requires
            0 <= m && x * x <= m * m + 2 * m,
    ;
}

/// Truncating division of an `i128` by a positive divisor, computed through
/// unsigned division on the magnitude.
pub fn div_trunc(a: i128, b: i128) -> (q: i128)
    requires
        b > 0,
        a > i128::MIN,
    ensures
        q == tdiv(a as int, b as int),
{
    if a >= 0 {
        let q: u128 = (a as u128) / (b as u128);
        proof {
            lemma_div_pos_is_pos(a as int, b as int);
            lemma_div_is_ordered(a as int, i128::MAX as int, b as int);
            vstd::arithmetic::div_mod::lemma_div_is_ordered_by_denominator(
                i128::MAX as int,
                1,
                b as int,
            );
            vstd::arithmetic::div_mod::lemma_div_basics_2(i128::MAX as int);
        }
        q as i128
    } else {
        let m: i128 = -a;
        let q: u128 = (m as u128) / (b as u128);
        proof {
            lemma_div_pos_is_pos(m as int, b as int);
            lemma_div_is_ordered(m as int, i128::MAX as int, b as int);
            vstd::arithmetic::div_mod::lemma_div_is_ordered_by_denominator(
                i128::MAX as int,
                1,
                b as int,
            );
            vstd::arithmetic::div_mod::lemma_div_basics_2(i128::MAX as int);
        }
        -(q as i128)
    }
}

/// The fixed-point product of two `i64` values, exact in `i128` and then
/// rescaled. The caller keeps the rescaled result inside the `i64` range.
pub fn fmul(a: i64, b: i64) -> (r: i64)
    requires
        -(i64::MAX as int) * (SCALE as int) <= (a as int) * (b as int) <= (i64::MAX as int) * (
        SCALE as int),
    ensures
        r == fmul_spec(a as int, b as int),
{
    let p: i128 = (a as i128) * (b as i128);
    let q: i128 = div_trunc(p, SCALE as i128);
    proof {
        lemma_tdiv_bound(p as int, SCALE as int, i64::MAX as int);
    }
    q as i64
}

} // verus!
