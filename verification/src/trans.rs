//! Square roots, exponentials and sines over fixed-point scalars.
//!
//! The engine needs `sqrt` for the Cholesky pivots and the posterior standard
//! deviation, `exp` for the covariance kernel, `sin` for the periodic kernel
//! term, and `ln` for the log determinant.  Each routine here computes a
//! fixed-point approximation by an integer recurrence, and its contract pins
//! the result exactly: either by a unique characterization (square root) or by
//! a spec-level copy of the recurrence (series expansions).

use vstd::prelude::*;
use vstd::arithmetic::div_mod::{
    lemma_div_by_multiple, lemma_div_is_ordered, lemma_div_is_ordered_by_denominator,
    lemma_div_nonincreasing, lemma_div_pos_is_pos, lemma_mod_division_less_than_divisor,
    lemma_fundamental_div_mod,
};
use crate::fx::{
    fx_div_raw, fx_div_v, fx_divn_raw, fx_divn_v, fx_mul_raw, fx_mul_v, lemma_divn_abs_le,
    lemma_fx_mul_abs_le, lemma_fx_mul_le_left, lemma_fx_mul_nonneg, FX_MAX, FX_ONE,
};

verus! {

/// `e^{-1}` in fixed point.
pub const FX_E_INV: i128 = 404487723187;

/// Arguments at or above this cap make the negative exponential underflow to
/// zero (the true value is below one fixed-point unit).
pub const FX_EXP_CAP: i128 = 28 * FX_ONE;

/// Number of Taylor terms used for `e^f` on `0 <= f < 1`.
pub const EXP_TERMS: u128 = 20;

/// Integer square root: the unique `r` with `r^2 <= v < (r+1)^2`.
pub fn isqrt_u(v: u128) -> (r: u128)
    requires
        v < 0x100000000000000000000000000u128,
    ensures
        (r as int) * (r as int) <= v as int,
        (v as int) < (r as int + 1) * (r as int + 1),
{
    let mut lo: u128 = 0;
    let mut hi: u128 = 0x10000000000000u128;
    proof {
        assert((hi as int + 1) * (hi as int + 1) > 0x100000000000000000000000000int) by (nonlinear_arith)
            requires
                hi as int == 0x10000000000000int,
        ;
    }
    while lo < hi
        invariant
            lo <= hi,
            hi <= 0x10000000000000u128,
            (lo as int) * (lo as int) <= v as int,
            (v as int) < (hi as int + 1) * (hi as int + 1),
        decreases hi - lo,
    {
        let step: u128 = (hi - lo + 1) / 2;
        let mid: u128 = lo + step;
        assert(1 <= step && step <= hi - lo);
        assert((mid as int) * (mid as int) <= 0x100000000000000000000000000int) by (nonlinear_arith)
            requires
                0 <= mid as int <= 0x10000000000000int,
        ;
        let sq: u128 = mid * mid;
        if sq <= v {
            lo = mid;
        } else {
            hi = mid - 1;
        }
    }
    lo
}

/// Fixed-point square root of a nonnegative well-formed value: the unique
/// `r >= 0` with `r^2 <= a * FX_ONE < (r+1)^2`.
pub fn fx_sqrt(a: i128) -> (r: i128)
    requires
        0 <= a,
        a <= FX_MAX,
    ensures
        0 <= r,
        (r as int) * (r as int) <= (a as int) * (FX_ONE as int),
        (a as int) * (FX_ONE as int) < (r as int + 1) * (r as int + 1),
        r <= FX_MAX,
{
    assert((a as int) * (FX_ONE as int) < 0x100000000000000000000000000int) by (nonlinear_arith)
        requires
            0 <= a as int <= FX_MAX as int,
    ;
    assert((a as int) * (FX_ONE as int) >= 0) by (nonlinear_arith)
        requires
            0 <= a as int,
    ;
    let v: u128 = (a as u128) * (FX_ONE as u128);
    let s: u128 = isqrt_u(v);
    assert(s as int <= 0x10000000000000int) by (nonlinear_arith)
        requires
            (s as int) * (s as int) <= v as int,
            (v as int) < 0x100000000000000000000000000int,
            0 <= s as int,
    ;
    s as i128
}

/// The `k`-th Taylor term of `e^f` as the engine computes it: each term is the
/// previous one multiplied by `f` and divided by `k`, in fixed point.
pub open spec fn exp_frac_term(f: int, k: nat) -> int
    decreases k,
{
    if k == 0 {
        FX_ONE as int
    } else {
        fx_divn_v(fx_mul_v(exp_frac_term(f, (k - 1) as nat), f), k as int)
    }
}

/// Partial Taylor sum of `e^f` through term `k`.
pub open spec fn exp_frac_sum(f: int, k: nat) -> int
    decreases k,
{
    if k == 0 {
        FX_ONE as int
    } else {
        exp_frac_sum(f, (k - 1) as nat) + exp_frac_term(f, k)
    }
}

/// `e^{-i}` as the engine computes it: `i` successive fixed-point products
/// with the constant `e^{-1}`.
pub open spec fn pow_e_inv(i: nat) -> int
    decreases i,
{
    if i == 0 {
        FX_ONE as int
    } else {
        fx_mul_v(pow_e_inv((i - 1) as nat), FX_E_INV as int)
    }
}

/// The negative exponential the engine computes: zero past the underflow cap,
/// otherwise `e^{-i}` divided by the Taylor sum for `e^f`, where `i` and `f`
/// are the integer and fractional parts of the argument.
pub open spec fn exp_neg_v(u: int) -> int {
    if u >= FX_EXP_CAP as int {
        0
    } else {
        fx_div_v(
            pow_e_inv((u / (FX_ONE as int)) as nat),
            exp_frac_sum(u % (FX_ONE as int), EXP_TERMS as nat),
        )
    }
}

/// `e^{-u}` for a nonnegative argument, in fixed point.  The result is the
/// value of [`exp_neg_v`], and always lies in `[0, 1]`.
pub fn exp_neg(u: i128) -> (r: i128)
    requires
        0 <= u,
    ensures
        r as int == exp_neg_v(u as int),
        0 <= r <= FX_ONE,
{
    if u >= FX_EXP_CAP {
        return 0;
    }
    let uu: u128 = u as u128;
    let one: u128 = FX_ONE as u128;
    let i: u128 = uu / one;
    let f: i128 = (uu % one) as i128;
    proof {
        lemma_mod_division_less_than_divisor(uu as int, one as int);
        lemma_div_pos_is_pos(uu as int, one as int);
        assert((uu as int) / (one as int) < 28) by {
            lemma_div_is_ordered(uu as int, 28 * (FX_ONE as int) - 1, FX_ONE as int);
        };
    }
    let mut acc: i128 = FX_ONE;
    let mut j: u128 = 0;
    while j < i
        invariant
            j <= i,
            i < 28,
            0 <= acc <= FX_ONE,
            acc as int == pow_e_inv(j as nat),
        decreases i - j,
    {
        proof {
            lemma_fx_mul_nonneg(acc as int, FX_E_INV as int);
            lemma_fx_mul_le_left(acc as int, FX_E_INV as int);
        }
        acc = fx_mul_raw(acc, FX_E_INV);
        j = j + 1;
    }
    let mut term: i128 = FX_ONE;
    let mut sum: i128 = FX_ONE;
    let mut k: u128 = 1;
    while k <= EXP_TERMS
        invariant
            1 <= k <= EXP_TERMS + 1,
            0 <= term <= FX_ONE,
            FX_ONE <= sum,
            sum <= (k as int) * (FX_ONE as int),
            0 <= f < FX_ONE,
            term as int == exp_frac_term(f as int, (k - 1) as nat),
            sum as int == exp_frac_sum(f as int, (k - 1) as nat),
        decreases EXP_TERMS + 1 - k,
    {
        proof {
            lemma_fx_mul_nonneg(term as int, f as int);
            lemma_fx_mul_le_left(term as int, f as int);
        }
        let t2: i128 = fx_mul_raw(term, f);
        proof {
            lemma_div_pos_is_pos(t2 as int, k as int);
            lemma_div_nonincreasing(t2 as int, k as int);
        }
        term = fx_divn_raw(t2, k);
        assert(sum as int + term as int <= (k as int + 1) * (FX_ONE as int)) by (nonlinear_arith)
            requires
                sum as int <= (k as int) * (FX_ONE as int),
                term as int <= FX_ONE as int,
        ;
        sum = sum + term;
        k = k + 1;
    }
    proof {
        assert((acc as int) * (FX_ONE as int) >= 0) by (nonlinear_arith)
            requires
                0 <= acc as int,
        ;
        lemma_div_pos_is_pos((acc as int) * (FX_ONE as int), sum as int);
        lemma_div_is_ordered_by_denominator((acc as int) * (FX_ONE as int), FX_ONE as int, sum as int);
        lemma_div_by_multiple(acc as int, FX_ONE as int);
    }
    let r: i128 = fx_div_raw(acc, sum);
    r
}

/// `2*pi` in fixed point.
pub const FX_TWO_PI: i128 = 6908435304715;

/// One half, in fixed point.
pub const FX_HALF: i128 = 549755813888;

/// One quarter, in fixed point.
pub const FX_QUARTER: i128 = 274877906944;

/// Number of Taylor terms used for the sine on a quarter wave.
pub const SIN_TERMS: u128 = 12;

/// The `j`-th Taylor term of `sin(x)` as the engine computes it: the first
/// term is `x`, and each later term is the previous one multiplied by `-x^2`
/// and divided by the next two factorial factors, in fixed point.
pub open spec fn sin_term(x: int, j: nat) -> int
    decreases j,
{
    if j <= 1 {
        x
    } else {
        fx_divn_v(
            fx_mul_v(sin_term(x, (j - 1) as nat), -fx_mul_v(x, x)),
            (2 * (j - 1)) * (2 * (j - 1) + 1),
        )
    }
}

/// Partial Taylor sum of `sin(x)` through term `j`.
pub open spec fn sin_sum(x: int, j: nat) -> int
    decreases j,
{
    if j == 0 {
        0
    } else {
        sin_sum(x, (j - 1) as nat) + sin_term(x, j)
    }
}

/// Clamp a value into `[-1, 1]`.
pub open spec fn clamp_one(r: int) -> int {
    if r > FX_ONE as int {
        FX_ONE as int
    } else if r < -(FX_ONE as int) {
        -(FX_ONE as int)
    } else {
        r
    }
}

/// `sin(2*pi*v)` on the first quarter wave `0 <= v <= 1/4`, as the engine
/// computes it: the Taylor sum at `x = 2*pi*v`, clamped into `[-1, 1]`.
pub open spec fn sin_quarter_v(v: int) -> int {
    clamp_one(sin_sum(fx_mul_v(FX_TWO_PI as int, v), SIN_TERMS as nat))
}

/// `sin(2*pi*t)` for any nonnegative `t`: reduce modulo the period, then fold
/// onto the first quarter wave by the sine's symmetries.
pub open spec fn sin2pi_v(t: int) -> int {
    let u = t % (FX_ONE as int);
    if u < FX_HALF as int {
        if u <= FX_QUARTER as int {
            sin_quarter_v(u)
        } else {
            sin_quarter_v(FX_HALF as int - u)
        }
    } else {
        let w = u - FX_HALF as int;
        if w <= FX_QUARTER as int {
            -sin_quarter_v(w)
        } else {
            -sin_quarter_v(FX_HALF as int - w)
        }
    }
}

/// Taylor evaluation of `sin(2*pi*v)` on the first quarter wave.
fn sin_quarter(v: i128) -> (r: i128)
    requires
        0 <= v <= FX_QUARTER,
    ensures
        r as int == sin_quarter_v(v as int),
        -FX_ONE <= r <= FX_ONE,
{
    proof {
        lemma_fx_mul_nonneg(FX_TWO_PI as int, v as int);
        assert((FX_TWO_PI as int) * (FX_QUARTER as int) <= (2 * (FX_ONE as int)) * (FX_ONE as int))
            by (nonlinear_arith)
            requires
                FX_TWO_PI as int == 6908435304715,
                FX_QUARTER as int == 274877906944,
                FX_ONE as int == 1099511627776,
        ;
        lemma_fx_mul_abs_le(
            FX_TWO_PI as int,
            v as int,
            FX_TWO_PI as int,
            FX_QUARTER as int,
            2 * (FX_ONE as int),
        );
    }
    let x: i128 = fx_mul_raw(FX_TWO_PI, v);
    proof {
        lemma_fx_mul_nonneg(x as int, x as int);
        assert((2 * (FX_ONE as int)) * (2 * (FX_ONE as int)) <= (4 * (FX_ONE as int)) * (FX_ONE as int))
            by (nonlinear_arith)
            requires
                FX_ONE as int == 1099511627776,
        ;
        lemma_fx_mul_abs_le(x as int, x as int, 2 * (FX_ONE as int), 2 * (FX_ONE as int), 4 * (FX_ONE as int));
    }
    let x2: i128 = fx_mul_raw(x, x);
    let nx2: i128 = -x2;
    let mut term: i128 = x;
    let mut sum: i128 = x;
    let mut j: u128 = 2;
    proof {
        assert(sin_sum(x as int, 1nat) == x as int) by {
            reveal_with_fuel(sin_sum, 2);
            reveal_with_fuel(sin_term, 2);
        };
    }
    while j <= SIN_TERMS
        invariant
            2 <= j <= SIN_TERMS + 1,
            0 <= x <= 2 * (FX_ONE as int),
            0 <= x2 <= 4 * (FX_ONE as int),
            x2 as int == fx_mul_v(x as int, x as int),
            nx2 as int == -(x2 as int),
            -(2 * (FX_ONE as int)) <= term as int <= 2 * (FX_ONE as int),
            -((j as int - 1) * (2 * (FX_ONE as int))) <= sum as int
                <= (j as int - 1) * (2 * (FX_ONE as int)),
            term as int == sin_term(x as int, (j - 1) as nat),
            sum as int == sin_sum(x as int, (j - 1) as nat),
        decreases SIN_TERMS + 1 - j,
    {
        proof {
            assert((2 * (FX_ONE as int)) * (4 * (FX_ONE as int)) <= (8 * (FX_ONE as int)) * (FX_ONE as int))
                by (nonlinear_arith)
                requires
                    FX_ONE as int == 1099511627776,
            ;
            lemma_fx_mul_abs_le(
                term as int,
                nx2 as int,
                2 * (FX_ONE as int),
                4 * (FX_ONE as int),
                8 * (FX_ONE as int),
            );
        }
        let num: i128 = fx_mul_raw(term, nx2);
        let jm: u128 = j - 1;
        assert(6 <= (2 * (jm as int)) * (2 * (jm as int) + 1) <= 600) by (nonlinear_arith)
            requires
                1 <= jm as int <= 12,
        ;
        let d: u128 = (2 * jm) * (2 * jm + 1);
        proof {
            assert(8 * (FX_ONE as int) <= (2 * (FX_ONE as int)) * (d as int)) by (nonlinear_arith)
                requires
                    6 <= d as int,
                    0 < FX_ONE,
            ;
            lemma_divn_abs_le(num as int, d as int, 2 * (FX_ONE as int));
        }
        term = fx_divn_raw(num, d);
        assert({
            &&& -((j as int) * (2 * (FX_ONE as int))) <= sum as int + term as int
            &&& sum as int + term as int <= (j as int) * (2 * (FX_ONE as int))
            &&& (j as int) * (2 * (FX_ONE as int)) <= 28587302322176
        }) by (nonlinear_arith)
            requires
                -((j as int - 1) * (2 * (FX_ONE as int))) <= sum as int
                    <= (j as int - 1) * (2 * (FX_ONE as int)),
                -(2 * (FX_ONE as int)) <= term as int <= 2 * (FX_ONE as int),
                2 <= j as int <= 13,
                FX_ONE as int == 1099511627776,
        ;
        sum = sum + term;
        j = j + 1;
    }
    if sum > FX_ONE {
        FX_ONE
    } else if sum < -FX_ONE {
        -FX_ONE
    } else {
        sum
    }
}

/// `sin(2*pi*t)` for a nonnegative fixed-point `t`, in `[-1, 1]`.
pub fn sin2pi(t: i128) -> (r: i128)
    requires
        0 <= t,
    ensures
        r as int == sin2pi_v(t as int),
        -FX_ONE <= r <= FX_ONE,
{
    let one: u128 = FX_ONE as u128;
    proof {
        lemma_mod_division_less_than_divisor(t as int, one as int);
    }
    let u: i128 = ((t as u128) % one) as i128;
    if u < FX_HALF {
        if u <= FX_QUARTER {
            sin_quarter(u)
        } else {
            sin_quarter(FX_HALF - u)
        }
    } else {
        let w: i128 = u - FX_HALF;
        if w <= FX_QUARTER {
            -sin_quarter(w)
        } else {
            -sin_quarter(FX_HALF - w)
        }
    }
}

/// `sin^2(pi*t)`, computed as `(1 - cos(2*pi*t)) / 2` with
/// `cos(2*pi*t) = sin(2*pi*(t + 1/4))`.
pub open spec fn sin_sq_pi_v(t: int) -> int {
    fx_divn_v(FX_ONE as int - sin2pi_v(t + FX_QUARTER as int), 2)
}

/// `sin^2(pi*t)` for a nonnegative fixed-point `t`, in `[0, 1]`.
pub fn sin_sq_pi(t: i128) -> (r: i128)
    requires
        0 <= t <= FX_MAX,
    ensures
        r as int == sin_sq_pi_v(t as int),
        0 <= r <= FX_ONE,
{
    let c: i128 = sin2pi(t + FX_QUARTER);
    let num: i128 = FX_ONE - c;
    proof {
        lemma_div_pos_is_pos(num as int, 2);
        lemma_divn_abs_le(num as int, 2, FX_ONE as int);
    }
    fx_divn_raw(num, 2)
}

/// `sin(pi*t) * cos(pi*t)`, computed as `sin(2*pi*t) / 2`.
pub open spec fn sin_cos_pi_v(t: int) -> int {
    fx_divn_v(sin2pi_v(t), 2)
}

/// `sin(pi*t) * cos(pi*t)` for a nonnegative fixed-point `t`, in `[-1, 1]`.
pub fn sin_cos_pi(t: i128) -> (r: i128)
    requires
        0 <= t,
    ensures
        r as int == sin_cos_pi_v(t as int),
        -FX_ONE <= r <= FX_ONE,
{
    let s: i128 = sin2pi(t);
    proof {
        lemma_divn_abs_le(s as int, 2, FX_ONE as int);
    }
    fx_divn_raw(s, 2)
}

/// `ln(2)` in fixed point.
pub const FX_LN2: i128 = 762123384785;

/// Number of series terms used for the logarithm on `[1, 2)`.
pub const LN_TERMS: u128 = 10;

/// The mantissa after normalizing a positive value into `[1, 2)` by repeated
/// exact doubling or halving, with a step budget that bounds the recursion.
pub open spec fn norm_m(x: int, budget: nat) -> int
    decreases budget,
{
    if budget == 0 {
        x
    } else if x < FX_ONE as int {
        norm_m(2 * x, (budget - 1) as nat)
    } else if x >= 2 * (FX_ONE as int) {
        norm_m(x / 2, (budget - 1) as nat)
    } else {
        x
    }
}

/// The binary exponent matching [`norm_m`]: the number of halvings minus the
/// number of doublings the normalization takes.
pub open spec fn norm_e(x: int, budget: nat) -> int
    decreases budget,
{
    if budget == 0 {
        0
    } else if x < FX_ONE as int {
        norm_e(2 * x, (budget - 1) as nat) - 1
    } else if x >= 2 * (FX_ONE as int) {
        norm_e(x / 2, (budget - 1) as nat) + 1
    } else {
        0
    }
}

/// The `i`-th odd power of `u` as the engine computes it, in fixed point.
pub open spec fn ln_pow_term(u: int, i: nat) -> int
    decreases i,
{
    if i == 0 {
        u
    } else {
        fx_mul_v(ln_pow_term(u, (i - 1) as nat), fx_mul_v(u, u))
    }
}

/// Partial sum of the series `u + u^3/3 + u^5/5 + ...` through term `i`.
pub open spec fn ln_series(u: int, i: nat) -> int
    decreases i,
{
    if i == 0 {
        u
    } else {
        ln_series(u, (i - 1) as nat) + fx_divn_v(ln_pow_term(u, i), 2 * (i as int) + 1)
    }
}

/// The natural logarithm the engine computes: normalize into `[1, 2)`, sum
/// the series at `u = (m-1)/(m+1)`, and add the exponent times `ln(2)`.
pub open spec fn ln_v(x: int) -> int {
    let m = norm_m(x, 128);
    let e = norm_e(x, 128);
    let u = fx_div_v(m - FX_ONE as int, m + FX_ONE as int);
    2 * ln_series(u, LN_TERMS as nat) + e * (FX_LN2 as int)
}

/// `ln(x)` for a positive well-formed fixed-point `x`.
pub fn ln_fx(x: i128) -> (r: i128)
    requires
        0 < x,
        x <= FX_MAX,
    ensures
        r as int == ln_v(x as int),
        -(70 * (FX_ONE as int)) <= r as int <= 70 * (FX_ONE as int),
{
    let mut m: i128 = x;
    let mut e: i128 = 0;
    if x < FX_ONE {
        let ghost mut scale: nat = 1nat;
        let mut k: u128 = 0;
        proof {
            vstd::arithmetic::power2::lemma2_to64();
        }
        while m < FX_ONE
            invariant
                0 < m < 2 * (FX_ONE as int),
                0 < x < FX_ONE as int,
                k <= 40,
                scale == vstd::arithmetic::power2::pow2(k as nat),
                m as int == (x as int) * (scale as int),
                norm_m(x as int, 128) == norm_m(m as int, (128 - k) as nat),
                norm_e(x as int, 128) == norm_e(m as int, (128 - k) as nat) - k,
            decreases 2 * (FX_ONE as int) - m,
        {
            proof {
                vstd::arithmetic::power2::lemma2_to64();
                vstd::arithmetic::power2::lemma2_to64_rest();
                assert((scale as int) <= (x as int) * (scale as int)) by (nonlinear_arith)
                    requires
                        1 <= x as int,
                        0 <= scale as int,
                ;
                if k >= 40 {
                    if k > 40 {
                        vstd::arithmetic::power2::lemma_pow2_strictly_increases(40, k as nat);
                    }
                    assert(false);
                }
                vstd::arithmetic::power2::lemma_pow2_unfold((k + 1) as nat);
                assert((x as int) * (2 * (scale as int)) == 2 * ((x as int) * (scale as int)))
                    by (nonlinear_arith);
            }
            m = 2 * m;
            k = k + 1;
            proof {
                scale = 2 * scale;
            }
        }
        e = -(k as i128);
    } else {
        let ghost mut scale: nat = 1nat;
        let mut j: u128 = 0;
        proof {
            vstd::arithmetic::power2::lemma2_to64();
        }
        while m >= 2 * FX_ONE
            invariant
                FX_ONE as int <= m as int,
                m <= FX_MAX,
                FX_ONE <= x <= FX_MAX,
                j <= 30,
                scale == vstd::arithmetic::power2::pow2(j as nat),
                (scale as int) * (m as int) <= 2 * (x as int),
                norm_m(x as int, 128) == norm_m(m as int, (128 - j) as nat),
                norm_e(x as int, 128) == norm_e(m as int, (128 - j) as nat) + j,
            decreases m,
        {
            proof {
                vstd::arithmetic::power2::lemma2_to64();
                assert((scale as int) * (2 * (FX_ONE as int)) <= (scale as int) * (m as int))
                    by (nonlinear_arith)
                    requires
                        2 * (FX_ONE as int) <= m as int,
                        0 <= scale as int,
                ;
                if j >= 23 {
                    if j > 23 {
                        vstd::arithmetic::power2::lemma_pow2_strictly_increases(23, j as nat);
                    }
                    assert((scale as int) * (2 * (FX_ONE as int)) > 2 * (FX_MAX as int))
                        by (nonlinear_arith)
                        requires
                            scale as int >= 8388608,
                            FX_ONE as int == 1099511627776,
                            FX_MAX as int == 4611686018427387904,
                    ;
                    assert(false);
                }
                vstd::arithmetic::power2::lemma_pow2_unfold((j + 1) as nat);
                lemma_fundamental_div_mod(m as int, 2);
                lemma_mod_division_less_than_divisor(m as int, 2);
                assert((2 * (scale as int)) * ((m as int) / 2) <= (scale as int) * (m as int))
                    by (nonlinear_arith)
                    requires
                        2 * ((m as int) / 2) <= m as int,
                        0 <= scale as int,
                ;
                lemma_div_pos_is_pos(m as int, 2);
                lemma_div_is_ordered(2 * (FX_ONE as int), m as int, 2);
                vstd::arithmetic::div_mod::lemma_div_decreases(m as int, 2);
                lemma_divn_abs_le(m as int, 2, FX_MAX as int);
            }
            m = fx_divn_raw(m, 2);
            j = j + 1;
            proof {
                scale = 2 * scale;
            }
        }
        e = j as i128;
    }
    let t: i128 = m - FX_ONE;
    let den: i128 = m + FX_ONE;
    proof {
        assert((t as int) * (FX_ONE as int) <= (FX_ONE as int) * (den as int)) by (nonlinear_arith)
            requires
                t as int <= den as int,
                0 < FX_ONE,
        ;
        assert((t as int) * (FX_ONE as int) >= 0) by (nonlinear_arith)
            requires
                0 <= t as int,
                0 < FX_ONE,
        ;
        lemma_div_is_ordered((t as int) * (FX_ONE as int), (FX_ONE as int) * (den as int), den as int);
        lemma_div_by_multiple(FX_ONE as int, den as int);
        lemma_div_pos_is_pos((t as int) * (FX_ONE as int), den as int);
    }
    let u: i128 = fx_div_raw(t, den);
    proof {
        lemma_fx_mul_nonneg(u as int, u as int);
        lemma_fx_mul_le_left(u as int, u as int);
    }
    let u2: i128 = fx_mul_raw(u, u);
    let mut termp: i128 = u;
    let mut acc: i128 = u;
    let mut i: u128 = 1;
    while i <= LN_TERMS
        invariant
            1 <= i <= LN_TERMS + 1,
            0 <= u <= FX_ONE,
            0 <= u2 <= FX_ONE,
            u2 as int == fx_mul_v(u as int, u as int),
            0 <= termp <= FX_ONE,
            0 <= acc,
            acc as int <= (i as int) * (FX_ONE as int),
            termp as int == ln_pow_term(u as int, (i - 1) as nat),
            acc as int == ln_series(u as int, (i - 1) as nat),
        decreases LN_TERMS + 1 - i,
    {
        proof {
            lemma_fx_mul_nonneg(termp as int, u2 as int);
            lemma_fx_mul_le_left(termp as int, u2 as int);
        }
        termp = fx_mul_raw(termp, u2);
        let d: u128 = 2 * i + 1;
        proof {
            lemma_div_pos_is_pos(termp as int, d as int);
            lemma_div_nonincreasing(termp as int, d as int);
        }
        let c: i128 = fx_divn_raw(termp, d);
        assert(acc as int + c as int <= (i as int + 1) * (FX_ONE as int)) by (nonlinear_arith)
            requires
                acc as int <= (i as int) * (FX_ONE as int),
                c as int <= FX_ONE as int,
        ;
        acc = acc + c;
        i = i + 1;
    }
    2 * acc + e * FX_LN2
}

} // verus!
