//! Fixed-point scalars: the numeric ground the whole engine stands on.
//!
//! A real number `v` is represented by the integer `round(v * 2^40)` held in
//! an `i128`.  A representation is *well formed* when its magnitude is at most
//! [`FX_MAX`]; every arithmetic routine below either keeps its result in that
//! range or reports the overflow, so callers can surface it as a numerical
//! failure instead of wrapping silently.
//!
//! Each operation's contract pins the result exactly: products and quotients
//! round toward negative infinity, stated with the mathematical `/` on `int`.

use vstd::prelude::*;
use vstd::arithmetic::div_mod::{
    lemma_div_by_multiple, lemma_div_is_ordered, lemma_div_nonincreasing, lemma_div_pos_is_pos,
    lemma_fundamental_div_mod, lemma_fundamental_div_mod_converse,
    lemma_mod_division_less_than_divisor,
};
use vstd::arithmetic::mul::{
    lemma_mul_cancels_negatives, lemma_mul_inequality, lemma_mul_unary_negation,
};

verus! {

/// One, in fixed point: 2^40.
pub const FX_ONE: i128 = 1099511627776;

/// Largest well-formed magnitude: 2^62.
pub const FX_MAX: i128 = 4611686018427387904;

/// A value is well formed when its magnitude is at most `FX_MAX`.
pub open spec fn fx_fits(v: int) -> bool {
    -(FX_MAX as int) <= v && v <= FX_MAX as int
}

/// Fixed-point product: the true product scaled back down, rounded toward
/// negative infinity.
pub open spec fn fx_mul_v(a: int, b: int) -> int {
    (a * b) / (FX_ONE as int)
}

/// Fixed-point quotient: the dividend scaled up, divided, rounded toward
/// negative infinity.  Meaningful for positive divisors.
pub open spec fn fx_div_v(a: int, b: int) -> int {
    (a * (FX_ONE as int)) / b
}

/// Euclidean quotient by a positive integer count (not a fixed-point value).
pub open spec fn fx_divn_v(a: int, n: int) -> int {
    a / n
}

/// Magnitude of a well-formed value, as an unsigned integer.
fn fx_mag(a: i128) -> (r: u128)
    requires
        fx_fits(a as int),
    ensures
        a >= 0 ==> r as int == a as int,
        a < 0 ==> r as int == -(a as int),
        r <= FX_MAX as u128,
{
    if a < 0 {
        (-a) as u128
    } else {
        a as u128
    }
}

/// For a nonnegative integer split as `p == q*d + rem`, the Euclidean
/// quotient of `-p` by `d` is `-q`, less one when the division was inexact.
proof fn lemma_neg_div(p: int, d: int, q: int, rem: int)
    requires
        0 < d,
        0 <= rem < d,
        p == q * d + rem,
        0 <= p,
    ensures
        rem == 0 ==> (-p) / d == -q,
        rem != 0 ==> (-p) / d == -q - 1,
{
    assert((-q) * d == -(q * d)) by (nonlinear_arith);
    assert((-q - 1) * d == -(q * d) - d) by (nonlinear_arith);
    if rem == 0 {
        lemma_fundamental_div_mod_converse(-p, d, -q, 0);
    } else {
        lemma_fundamental_div_mod_converse(-p, d, -q - 1, d - rem);
    }
}

/// Exact fixed-point product of two well-formed values; the result may exceed
/// the well-formed range but always fits the machine integer.
pub(crate) fn fx_mul_raw(a: i128, b: i128) -> (r: i128)
    requires
        fx_fits(a as int),
        fx_fits(b as int),
    ensures
        r as int == fx_mul_v(a as int, b as int),
{
    let neg: bool = (a < 0) != (b < 0);
    let ma: u128 = fx_mag(a);
    let mb: u128 = fx_mag(b);
    assert((ma as int) * (mb as int) <= (FX_MAX as int) * (FX_MAX as int)) by (nonlinear_arith)
        requires
            0 <= ma as int <= FX_MAX as int,
            0 <= mb as int <= FX_MAX as int,
    ;
    assert((ma as int) * (mb as int) >= 0) by (nonlinear_arith)
        requires
            0 <= ma as int,
            0 <= mb as int,
    ;
    let p: u128 = ma * mb;
    let one: u128 = FX_ONE as u128;
    let q: u128 = p / one;
    let rem: u128 = p % one;
    proof {
        lemma_div_nonincreasing(p as int, one as int);
        lemma_div_pos_is_pos(p as int, one as int);
        if a >= 0 && b >= 0 {
            assert(p as int == (a as int) * (b as int));
        } else if a < 0 && b < 0 {
            lemma_mul_cancels_negatives(a as int, b as int);
            assert(p as int == (-(a as int)) * (-(b as int)));
        } else if a < 0 {
            lemma_mul_unary_negation(a as int, b as int);
            assert(p as int == (-(a as int)) * (b as int));
        } else {
            lemma_mul_unary_negation(b as int, a as int);
            assert((a as int) * (-(b as int)) == -((a as int) * (b as int))) by (nonlinear_arith);
            assert(p as int == (a as int) * (-(b as int)));
        }
    }
    if neg {
        let qi: i128 = q as i128;
        proof {
            lemma_fundamental_div_mod(p as int, one as int);
            lemma_neg_div(p as int, one as int, q as int, rem as int);
        }
        if rem == 0 {
            -qi
        } else {
            -qi - 1
        }
    } else {
        q as i128
    }
}

/// Exact fixed-point quotient of a well-formed value by a positive
/// well-formed divisor.
pub(crate) fn fx_div_raw(a: i128, b: i128) -> (r: i128)
    requires
        fx_fits(a as int),
        0 < b,
        fx_fits(b as int),
    ensures
        r as int == fx_div_v(a as int, b as int),
{
    let ma: u128 = fx_mag(a);
    assert((ma as int) * (FX_ONE as int) <= (FX_MAX as int) * (FX_ONE as int)) by (nonlinear_arith)
        requires
            0 <= ma as int <= FX_MAX as int,
    ;
    assert((ma as int) * (FX_ONE as int) >= 0) by (nonlinear_arith)
        requires
            0 <= ma as int,
    ;
    let num: u128 = ma * (FX_ONE as u128);
    let mb: u128 = b as u128;
    let q: u128 = num / mb;
    let rem: u128 = num % mb;
    proof {
        lemma_div_nonincreasing(num as int, mb as int);
        lemma_div_pos_is_pos(num as int, mb as int);
        if a < 0 {
            lemma_mul_unary_negation(a as int, FX_ONE as int);
        }
    }
    if a < 0 {
        let qi: i128 = q as i128;
        proof {
            lemma_fundamental_div_mod(num as int, mb as int);
            lemma_neg_div(num as int, mb as int, q as int, rem as int);
        }
        if rem == 0 {
            -qi
        } else {
            -qi - 1
        }
    } else {
        q as i128
    }
}

/// Exact Euclidean quotient of a well-formed value by a positive count.
pub(crate) fn fx_divn_raw(a: i128, n: u128) -> (r: i128)
    requires
        fx_fits(a as int),
        0 < n,
    ensures
        r as int == fx_divn_v(a as int, n as int),
{
    let ma: u128 = fx_mag(a);
    let q: u128 = ma / n;
    let rem: u128 = ma % n;
    proof {
        lemma_div_nonincreasing(ma as int, n as int);
        lemma_div_pos_is_pos(ma as int, n as int);
    }
    if a < 0 {
        let qi: i128 = q as i128;
        proof {
            lemma_fundamental_div_mod(ma as int, n as int);
            lemma_neg_div(ma as int, n as int, q as int, rem as int);
        }
        if rem == 0 {
            -qi
        } else {
            -qi - 1
        }
    } else {
        q as i128
    }
}

/// The product stays within the well-formed range.
pub open spec fn fx_mul_ok(a: int, b: int) -> bool {
    fx_fits(a) && fx_fits(b) && fx_fits(fx_mul_v(a, b))
}

/// The quotient has a positive divisor and stays within range.
pub open spec fn fx_div_ok(a: int, b: int) -> bool {
    fx_fits(a) && fx_fits(b) && 0 < b && fx_fits(fx_div_v(a, b))
}

/// The sum stays within the well-formed range.
pub open spec fn fx_add_ok(a: int, b: int) -> bool {
    fx_fits(a) && fx_fits(b) && fx_fits(a + b)
}

/// The guarded product at spec level: what [`fx_mul`] returns.
pub open spec fn fx_mul_o(a: int, b: int) -> Option<int> {
    if fx_mul_ok(a, b) {
        Some(fx_mul_v(a, b))
    } else {
        None
    }
}

/// The guarded quotient at spec level: what [`fx_div`] returns.
pub open spec fn fx_div_o(a: int, b: int) -> Option<int> {
    if fx_div_ok(a, b) {
        Some(fx_div_v(a, b))
    } else {
        None
    }
}

/// The guarded sum at spec level: what [`fx_add`] returns.
pub open spec fn fx_add_o(a: int, b: int) -> Option<int> {
    if fx_add_ok(a, b) {
        Some(a + b)
    } else {
        None
    }
}

/// The guarded difference at spec level: what [`fx_sub`] returns.
pub open spec fn fx_sub_o(a: int, b: int) -> Option<int> {
    if fx_add_ok(a, -b) {
        Some(a - b)
    } else {
        None
    }
}

/// Guarded product: `None` exactly when an operand or the result is out of
/// range.
pub fn fx_mul(a: i128, b: i128) -> (r: Option<i128>)
    ensures
        fx_mul_ok(a as int, b as int) ==> r == Some(fx_mul_v(a as int, b as int) as i128),
        !fx_mul_ok(a as int, b as int) ==> r is None,
{
    if a > FX_MAX || a < -FX_MAX || b > FX_MAX || b < -FX_MAX {
        return None;
    }
    let v: i128 = fx_mul_raw(a, b);
    if v > FX_MAX || v < -FX_MAX {
        None
    } else {
        Some(v)
    }
}

/// Guarded quotient: `None` exactly when the divisor is not positive or a
/// value is out of range.
pub fn fx_div(a: i128, b: i128) -> (r: Option<i128>)
    ensures
        fx_div_ok(a as int, b as int) ==> r == Some(fx_div_v(a as int, b as int) as i128),
        !fx_div_ok(a as int, b as int) ==> r is None,
{
    if a > FX_MAX || a < -FX_MAX || b <= 0 || b > FX_MAX {
        return None;
    }
    let v: i128 = fx_div_raw(a, b);
    if v > FX_MAX || v < -FX_MAX {
        None
    } else {
        Some(v)
    }
}

/// Guarded sum: `None` exactly when an operand or the sum is out of range.
pub fn fx_add(a: i128, b: i128) -> (r: Option<i128>)
    ensures
        fx_add_ok(a as int, b as int) ==> r == Some((a + b) as i128),
        !fx_add_ok(a as int, b as int) ==> r is None,
{
    if a > FX_MAX || a < -FX_MAX || b > FX_MAX || b < -FX_MAX {
        return None;
    }
    let v: i128 = a + b;
    if v > FX_MAX || v < -FX_MAX {
        None
    } else {
        Some(v)
    }
}

/// Guarded difference: `None` exactly when an operand or the difference is
/// out of range.
pub fn fx_sub(a: i128, b: i128) -> (r: Option<i128>)
    ensures
        fx_add_ok(a as int, -(b as int)) ==> r == Some((a - b) as i128),
        !fx_add_ok(a as int, -(b as int)) ==> r is None,
{
    if a > FX_MAX || a < -FX_MAX || b > FX_MAX || b < -FX_MAX {
        return None;
    }
    let v: i128 = a - b;
    if v > FX_MAX || v < -FX_MAX {
        None
    } else {
        Some(v)
    }
}

/// Magnitude bound for a fixed-point product, stated against a bound `m`
/// already scaled down: if the operand bounds multiply to at most `m * FX_ONE`,
/// the product is within `[-m, m]`.
pub proof fn lemma_fx_mul_abs_le(a: int, b: int, ma: int, mb: int, m: int)
    requires
        -ma <= a <= ma,
        -mb <= b <= mb,
        0 <= ma,
        0 <= mb,
        0 <= m,
        ma * mb <= m * (FX_ONE as int),
    ensures
        -m <= fx_mul_v(a, b) <= m,
{
    assert(-(m * (FX_ONE as int)) <= a * b <= m * (FX_ONE as int)) by (nonlinear_arith)
        requires
            -ma <= a <= ma,
            -mb <= b <= mb,
            0 <= ma,
            0 <= mb,
            ma * mb <= m * (FX_ONE as int),
    ;
    assert(0 <= m * (FX_ONE as int)) by (nonlinear_arith)
        requires
            0 <= m,
            0 < FX_ONE,
    ;
    lemma_div_is_ordered(a * b, m * (FX_ONE as int), FX_ONE as int);
    lemma_div_is_ordered(-(m * (FX_ONE as int)), a * b, FX_ONE as int);
    lemma_div_by_multiple(m, FX_ONE as int);
    lemma_neg_div(m * (FX_ONE as int), FX_ONE as int, m, 0);
}

/// Magnitude bound for a Euclidean quotient, stated against a bound `q`
/// already divided: if the dividend is within `[-q*n, q*n]`, the quotient is
/// within `[-q, q]`.
pub proof fn lemma_divn_abs_le(a: int, n: int, q: int)
    requires
        -(q * n) <= a <= q * n,
        0 <= q,
        0 < n,
    ensures
        -q <= a / n <= q,
{
    assert(0 <= q * n) by (nonlinear_arith)
        requires
            0 <= q,
            0 < n,
    ;
    lemma_div_is_ordered(a, q * n, n);
    lemma_div_is_ordered(-(q * n), a, n);
    lemma_div_by_multiple(q, n);
    lemma_neg_div(q * n, n, q, 0);
}

/// A nonnegative times a nonnegative is nonnegative.
pub proof fn lemma_fx_mul_nonneg(a: int, b: int)
    requires
        0 <= a,
        0 <= b,
    ensures
        0 <= fx_mul_v(a, b),
{
    assert(0 <= a * b) by (nonlinear_arith)
        requires
            0 <= a,
            0 <= b,
    ;
    lemma_div_pos_is_pos(a * b, FX_ONE as int);
}

/// The fixed-point square of any value is nonnegative.
pub proof fn lemma_fx_square_nonneg(a: int)
    ensures
        0 <= fx_mul_v(a, a),
{
    assert(0 <= a * a) by (nonlinear_arith);
    lemma_div_pos_is_pos(a * a, FX_ONE as int);
}

/// A nonnegative value divided by a positive one is nonnegative.
pub proof fn lemma_fx_div_nonneg(a: int, b: int)
    requires
        0 <= a,
        0 < b,
    ensures
        0 <= fx_div_v(a, b),
{
    assert(0 <= a * (FX_ONE as int)) by (nonlinear_arith)
        requires
            0 <= a,
            0 < FX_ONE,
    ;
    lemma_div_pos_is_pos(a * (FX_ONE as int), b);
}

/// Multiplying a nonnegative value by a factor of at most one does not
/// increase it.
pub proof fn lemma_fx_mul_le_left(a: int, b: int)
    requires
        0 <= a,
        0 <= b <= FX_ONE as int,
    ensures
        fx_mul_v(a, b) <= a,
{
    lemma_mul_inequality(b, FX_ONE as int, a);
    assert(a * b == b * a) by (nonlinear_arith);
    assert(a * (FX_ONE as int) == (FX_ONE as int) * a) by (nonlinear_arith);
    lemma_div_is_ordered(a * b, a * (FX_ONE as int), FX_ONE as int);
    lemma_div_by_multiple(a, FX_ONE as int);
}

} // verus!
