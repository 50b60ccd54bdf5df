//! The composite covariance kernel and its analytic gradient.
//!
//! For scalar inputs `a`, `b` with difference `d = b - a`, the kernel is
//!
//! ```text
//! k(a, b) = amplitude * exp( -d^2 / (2*l_se^2)  -  (2/l_p^2) * sin^2(pi*|d| / period) )
//! ```
//!
//! over the fixed-point scalars of [`crate::fx`].  Every evaluation is pinned
//! by a spec-level copy of the computation ([`kernel_eval_v`]); the kernel's
//! symmetry in its two inputs is proved from it ([`lemma_kernel_symmetric`]).
//! The gradient ([`Kernel::derivative`]) returns the four partial derivatives
//! with respect to amplitude, the squared-exponential length scale, the
//! periodic length scale, and the period.

use vstd::prelude::*;
use vstd::math::abs;
use crate::fx::{
    fx_add, fx_add_o, fx_div, fx_div_o, fx_fits, fx_mul, fx_mul_o, fx_sub, fx_sub_o,
    lemma_fx_div_nonneg, lemma_fx_mul_le_left, lemma_fx_mul_nonneg, lemma_fx_square_nonneg,
    FX_MAX, FX_ONE,
};
use crate::trans::{exp_neg, exp_neg_v, sin_cos_pi, sin_cos_pi_v, sin_sq_pi, sin_sq_pi_v};
use crate::mat::{Mat, MAX_DIM};
use crate::GpError;

verus! {

/// `4*pi` in fixed point.
pub const FX_4PI: i128 = 13816870609430;

/// The kernel's four hyperparameters, as fixed-point scalars.
#[derive(Clone, Copy, Debug, PartialEq, Eq, Structural)]
pub struct HyperParameters {
    /// Overall variance scale of the kernel.
    pub amplitude: i128,
    /// Length scale of the squared-exponential term.
    pub length_scale_se: i128,
    /// Length scale of the periodic term.
    pub length_scale_periodic: i128,
    /// Period of the periodic term.
    pub period: i128,
}

/// All four hyperparameters are strictly positive.
pub open spec fn params_pos(p: HyperParameters) -> bool {
    &&& 0 < p.amplitude
    &&& 0 < p.length_scale_se
    &&& 0 < p.length_scale_periodic
    &&& 0 < p.period
}

/// Strictly positive and representable: what a kernel requires of its
/// hyperparameters.
pub open spec fn params_wf(p: HyperParameters) -> bool {
    &&& params_pos(p)
    &&& p.amplitude <= FX_MAX
    &&& p.length_scale_se <= FX_MAX
    &&& p.length_scale_periodic <= FX_MAX
    &&& p.period <= FX_MAX
}

/// The covariance function: holds a validated set of hyperparameters.
#[derive(Clone, Copy, Debug)]
pub struct Kernel {
    /// The validated hyperparameters.
    pub params: HyperParameters,
}

impl Kernel {
    /// A kernel is well formed when its hyperparameters are.
    pub open spec fn wf(self) -> bool {
        params_wf(self.params)
    }

    /// Validate hyperparameters and build a kernel.  Construction succeeds
    /// exactly when all four values are strictly positive and representable;
    /// a non-positive value is `InvalidHyperParameters`, an unrepresentably
    /// large one `NumericalInstability`.
    pub fn new(params: HyperParameters) -> (r: Result<Kernel, GpError>)
        ensures
            r is Ok <==> params_wf(params),
            r matches Ok(k) ==> k.params == params && k.wf(),
            r matches Err(e) ==> e == (if !params_pos(params) {
                GpError::InvalidHyperParameters
            } else {
                GpError::NumericalInstability
            }),
    {
        if params.amplitude <= 0 || params.length_scale_se <= 0
            || params.length_scale_periodic <= 0 || params.period <= 0 {
            Err(GpError::InvalidHyperParameters)
        } else if params.amplitude > FX_MAX || params.length_scale_se > FX_MAX
            || params.length_scale_periodic > FX_MAX || params.period > FX_MAX {
            Err(GpError::NumericalInstability)
        } else {
            Ok(Kernel { params })
        }
    }
}

/// The kernel's exponent as the engine computes it, with every guarded step
/// mirrored: the squared-exponential quotient `d^2 / (2*l_se^2)` plus the
/// periodic term `(2/l_p^2) * sin^2(pi*|d|/period)`, or `None` where a step
/// leaves the representable range.
pub open spec fn kernel_expo_o(p: HyperParameters, a: int, b: int) -> Option<int> {
    match fx_sub_o(b, a) {
        None => None,
        Some(d) => match fx_mul_o(d, d) {
            None => None,
            Some(d2) => match fx_mul_o(p.length_scale_se as int, p.length_scale_se as int) {
                None => None,
                Some(l2) => match fx_add_o(l2, l2) {
                    None => None,
                    Some(l22) => match fx_div_o(d2, l22) {
                        None => None,
                        Some(qse) => match fx_div_o(abs(d) as int, p.period as int) {
                            None => None,
                            Some(t) => match fx_mul_o(
                                p.length_scale_periodic as int,
                                p.length_scale_periodic as int,
                            ) {
                                None => None,
                                Some(lp2) => match fx_div_o(2 * (FX_ONE as int), lp2) {
                                    None => None,
                                    Some(pref) => match fx_mul_o(pref, sin_sq_pi_v(t)) {
                                        None => None,
                                        Some(pt) => fx_add_o(qse, pt),
                                    },
                                },
                            },
                        },
                    },
                },
            },
        },
    }
}

/// The kernel value the engine computes: the amplitude times the negative
/// exponential of [`kernel_expo_o`], or `None` where a step leaves the
/// representable range.
pub open spec fn kernel_eval_v(p: HyperParameters, a: int, b: int) -> Option<int> {
    match kernel_expo_o(p, a, b) {
        None => None,
        Some(e) => fx_mul_o(p.amplitude as int, exp_neg_v(e)),
    }
}

/// The kernel is symmetric in its two inputs: swapping `a` and `b` changes
/// neither success nor value, because the evaluation depends on the
/// difference only through `d^2` and `|d|`.
pub proof fn lemma_kernel_symmetric(p: HyperParameters, a: int, b: int)
    ensures
        kernel_eval_v(p, a, b) == kernel_eval_v(p, b, a),
{
    let d = b - a;
    assert((-d) * (-d) == d * d) by (nonlinear_arith);
    assert(kernel_expo_o(p, a, b) == kernel_expo_o(p, b, a));
}

/// The kernel's diagonal is one constant of the hyperparameters: at any two
/// well-formed inputs the covariance of a point with itself is the same
/// value, the amplitude scaled by the exponential of the zero-distance
/// periodic term (and by `Kernel::eval`'s contract it is nonnegative and at
/// most the amplitude).
pub proof fn lemma_kernel_diag_constant(p: HyperParameters, a: int, b: int)
    requires
        fx_fits(a),
        fx_fits(b),
    ensures
        kernel_eval_v(p, a, a) == kernel_eval_v(p, b, b),
{
    assert(fx_sub_o(a, a) == Some(0int));
    assert(fx_sub_o(b, b) == Some(0int));
    assert(kernel_expo_o(p, a, a) == kernel_expo_o(p, b, b));
}

/// A kernel matrix over a single input set is symmetric: once every cell is
/// pinned to the kernel value of its pair of inputs, swapping the indices
/// does not change the entry.
pub proof fn lemma_ker_mat_symmetric(p: HyperParameters, x: Seq<i128>, m: Mat)
    requires
        forall|i: int, j: int|
            0 <= i < x.len() && 0 <= j < x.len() ==> kernel_eval_v(p, x[i] as int, x[j] as int)
                == Some(#[trigger] m.at(i, j)),
    ensures
        forall|i: int, j: int|
            0 <= i < x.len() && 0 <= j < x.len() ==> #[trigger] m.at(i, j) == m.at(j, i),
{
    assert forall|i: int, j: int|
        0 <= i < x.len() && 0 <= j < x.len() implies #[trigger] m.at(i, j) == m.at(j, i) by {
        lemma_kernel_symmetric(p, x[i] as int, x[j] as int);
    };
}

impl Kernel {
    /// Evaluate the covariance of two inputs.  On success the result is the
    /// value of [`kernel_eval_v`], nonnegative and at most the amplitude; the
    /// only failure is `NumericalInstability`, exactly when the mirrored
    /// computation fails.
    pub fn eval(&self, a: i128, b: i128) -> (r: Result<i128, GpError>)
        requires
            self.wf(),
        ensures
            match r {
                Ok(k) => {
                    &&& kernel_eval_v(self.params, a as int, b as int) == Some(k as int)
                    &&& 0 <= k <= self.params.amplitude
                },
                Err(e) => {
                    &&& e == GpError::NumericalInstability
                    &&& kernel_eval_v(self.params, a as int, b as int) is None
                },
            },
    {
        let p = self.params;
        let d: i128 = match fx_sub(b, a) {
            Some(v) => v,
            None => {
                return Err(GpError::NumericalInstability);
            },
        };
        let ad: i128 = if d < 0 {
            -d
        } else {
            d
        };
        let d2: i128 = match fx_mul(d, d) {
            Some(v) => v,
            None => {
                return Err(GpError::NumericalInstability);
            },
        };
        let l2: i128 = match fx_mul(p.length_scale_se, p.length_scale_se) {
            Some(v) => v,
            None => {
                return Err(GpError::NumericalInstability);
            },
        };
        let l22: i128 = match fx_add(l2, l2) {
            Some(v) => v,
            None => {
                return Err(GpError::NumericalInstability);
            },
        };
        let qse: i128 = match fx_div(d2, l22) {
            Some(v) => v,
            None => {
                return Err(GpError::NumericalInstability);
            },
        };
        let t: i128 = match fx_div(ad, p.period) {
            Some(v) => v,
            None => {
                return Err(GpError::NumericalInstability);
            },
        };
        let lp2: i128 = match fx_mul(p.length_scale_periodic, p.length_scale_periodic) {
            Some(v) => v,
            None => {
                return Err(GpError::NumericalInstability);
            },
        };
        let two_one: i128 = 2 * FX_ONE;
        let pref: i128 = match fx_div(two_one, lp2) {
            Some(v) => v,
            None => {
                return Err(GpError::NumericalInstability);
            },
        };
        proof {
            lemma_fx_square_nonneg(d as int);
            lemma_fx_div_nonneg(d2 as int, l22 as int);
            lemma_fx_div_nonneg(ad as int, p.period as int);
            lemma_fx_div_nonneg(two_one as int, lp2 as int);
        }
        let s2: i128 = sin_sq_pi(t);
        let pt: i128 = match fx_mul(pref, s2) {
            Some(v) => v,
            None => {
                return Err(GpError::NumericalInstability);
            },
        };
        proof {
            lemma_fx_mul_nonneg(pref as int, s2 as int);
        }
        let expo: i128 = match fx_add(qse, pt) {
            Some(v) => v,
            None => {
                return Err(GpError::NumericalInstability);
            },
        };
        let eneg: i128 = exp_neg(expo);
        let k: i128 = match fx_mul(p.amplitude, eneg) {
            Some(v) => v,
            None => {
                return Err(GpError::NumericalInstability);
            },
        };
        proof {
            lemma_fx_mul_nonneg(p.amplitude as int, eneg as int);
            lemma_fx_mul_le_left(p.amplitude as int, eneg as int);
        }
        Ok(k)
    }
}

/// The four partial derivatives of the kernel at a pair of inputs, with
/// respect to amplitude, squared-exponential length scale, periodic length
/// scale, and period.
#[derive(Clone, Copy, Debug)]
pub struct KernelGrad {
    /// `dk/d amplitude`: the exponential factor, `k / amplitude` in exact
    /// arithmetic.
    pub d_amplitude: i128,
    /// `dk/d l_se = k * d^2 / l_se^3`.
    pub d_length_scale_se: i128,
    /// `dk/d l_p = 4 * k * sin^2(pi*|d|/period) / l_p^3`.
    pub d_length_scale_periodic: i128,
    /// `dk/d period = 4*pi*|d| * k * sin(u)*cos(u) / (l_p^2 * period^2)`,
    /// with `u = pi*|d|/period`.
    pub d_period: i128,
}

/// The tail of the gradient computation, once the shared intermediates are
/// at hand: the kernel value `k` and the four quotients, every guarded step
/// mirrored.
pub open spec fn kernel_grad_tail(
    p: HyperParameters,
    d2: int,
    ad: int,
    t: int,
    l2: int,
    lp2: int,
    eneg: int,
) -> Option<(int, int, int, int)> {
    match fx_mul_o(p.amplitude as int, eneg) {
        None => None,
        Some(k) => match fx_mul_o(k, d2) {
            None => None,
            Some(t1) => match fx_mul_o(l2, p.length_scale_se as int) {
                None => None,
                Some(l3) => match fx_div_o(t1, l3) {
                    None => None,
                    Some(g_se) => match fx_mul_o(k, sin_sq_pi_v(t)) {
                        None => None,
                        Some(t2) => match fx_add_o(t2, t2) {
                            None => None,
                            Some(t2a) => match fx_add_o(t2a, t2a) {
                                None => None,
                                Some(t24) => match fx_mul_o(lp2, p.length_scale_periodic as int) {
                                    None => None,
                                    Some(lp3) => match fx_div_o(t24, lp3) {
                                        None => None,
                                        Some(g_lp) => match fx_mul_o(FX_4PI as int, ad) {
                                            None => None,
                                            Some(n1) => match fx_mul_o(n1, k) {
                                                None => None,
                                                Some(n2) => match fx_mul_o(n2, sin_cos_pi_v(t)) {
                                                    None => None,
                                                    Some(n3) => match fx_mul_o(
                                                        p.period as int,
                                                        p.period as int,
                                                    ) {
                                                        None => None,
                                                        Some(per2) => match fx_mul_o(lp2, per2) {
                                                            None => None,
                                                            Some(den) => match fx_div_o(n3, den) {
                                                                None => None,
                                                                Some(g_per) => Some(
                                                                    (eneg, g_se, g_lp, g_per),
                                                                ),
                                                            },
                                                        },
                                                    },
                                                },
                                            },
                                        },
                                    },
                                },
                            },
                        },
                    },
                },
            },
        },
    }
}

/// The gradient the engine computes: the shared evaluation chain of
/// [`kernel_expo_o`] followed by [`kernel_grad_tail`], or `None` where a
/// step leaves the representable range.
pub open spec fn kernel_grad_v(p: HyperParameters, a: int, b: int) -> Option<(int, int, int, int)> {
    match fx_sub_o(b, a) {
        None => None,
        Some(d) => match fx_mul_o(d, d) {
            None => None,
            Some(d2) => match fx_mul_o(p.length_scale_se as int, p.length_scale_se as int) {
                None => None,
                Some(l2) => match fx_add_o(l2, l2) {
                    None => None,
                    Some(l22) => match fx_div_o(d2, l22) {
                        None => None,
                        Some(qse) => match fx_div_o(abs(d) as int, p.period as int) {
                            None => None,
                            Some(t) => match fx_mul_o(
                                p.length_scale_periodic as int,
                                p.length_scale_periodic as int,
                            ) {
                                None => None,
                                Some(lp2) => match fx_div_o(2 * (FX_ONE as int), lp2) {
                                    None => None,
                                    Some(pref) => match fx_mul_o(pref, sin_sq_pi_v(t)) {
                                        None => None,
                                        Some(pt) => match fx_add_o(qse, pt) {
                                            None => None,
                                            Some(expo) => kernel_grad_tail(
                                                p,
                                                d2,
                                                abs(d) as int,
                                                t,
                                                l2,
                                                lp2,
                                                exp_neg_v(expo),
                                            ),
                                        },
                                    },
                                },
                            },
                        },
                    },
                },
            },
        },
    }
}

impl Kernel {
    /// The analytic gradient of the kernel at a pair of inputs: the four
    /// partial derivatives in the order amplitude, squared-exponential length
    /// scale, periodic length scale, period.  On success the result is the
    /// value of [`kernel_grad_v`]; the only failure is
    /// `NumericalInstability`, exactly when the mirrored computation fails.
    #[verifier::rlimit(50)]
    pub fn derivative(&self, a: i128, b: i128) -> (r: Result<KernelGrad, GpError>)
        requires
            self.wf(),
        ensures
            match r {
                Ok(g) => {
                    &&& kernel_grad_v(self.params, a as int, b as int) == Some(
                        (
                            g.d_amplitude as int,
                            g.d_length_scale_se as int,
                            g.d_length_scale_periodic as int,
                            g.d_period as int,
                        ),
                    )
                    &&& fx_fits(g.d_amplitude as int)
                    &&& fx_fits(g.d_length_scale_se as int)
                    &&& fx_fits(g.d_length_scale_periodic as int)
                    &&& fx_fits(g.d_period as int)
                },
                Err(e) => {
                    &&& e == GpError::NumericalInstability
                    &&& kernel_grad_v(self.params, a as int, b as int) is None
                },
            },
    {
        let p = self.params;
        let d: i128 = match fx_sub(b, a) {
            Some(v) => v,
            None => {
                return Err(GpError::NumericalInstability);
            },
        };
        let ad: i128 = if d < 0 {
            -d
        } else {
            d
        };
        let d2: i128 = match fx_mul(d, d) {
            Some(v) => v,
            None => {
                return Err(GpError::NumericalInstability);
            },
        };
        let l2: i128 = match fx_mul(p.length_scale_se, p.length_scale_se) {
            Some(v) => v,
            None => {
                return Err(GpError::NumericalInstability);
            },
        };
        let l22: i128 = match fx_add(l2, l2) {
            Some(v) => v,
            None => {
                return Err(GpError::NumericalInstability);
            },
        };
        let qse: i128 = match fx_div(d2, l22) {
            Some(v) => v,
            None => {
                return Err(GpError::NumericalInstability);
            },
        };
        let t: i128 = match fx_div(ad, p.period) {
            Some(v) => v,
            None => {
                return Err(GpError::NumericalInstability);
            },
        };
        let lp2: i128 = match fx_mul(p.length_scale_periodic, p.length_scale_periodic) {
            Some(v) => v,
            None => {
                return Err(GpError::NumericalInstability);
            },
        };
        let two_one: i128 = 2 * FX_ONE;
        let pref: i128 = match fx_div(two_one, lp2) {
            Some(v) => v,
            None => {
                return Err(GpError::NumericalInstability);
            },
        };
        proof {
            lemma_fx_square_nonneg(d as int);
            lemma_fx_div_nonneg(d2 as int, l22 as int);
            lemma_fx_div_nonneg(ad as int, p.period as int);
            lemma_fx_div_nonneg(two_one as int, lp2 as int);
        }
        let s2: i128 = sin_sq_pi(t);
        let pt: i128 = match fx_mul(pref, s2) {
            Some(v) => v,
            None => {
                return Err(GpError::NumericalInstability);
            },
        };
        proof {
            lemma_fx_mul_nonneg(pref as int, s2 as int);
        }
        let expo: i128 = match fx_add(qse, pt) {
            Some(v) => v,
            None => {
                return Err(GpError::NumericalInstability);
            },
        };
        let eneg: i128 = exp_neg(expo);
        let k: i128 = match fx_mul(p.amplitude, eneg) {
            Some(v) => v,
            None => {
                return Err(GpError::NumericalInstability);
            },
        };
        let t1: i128 = match fx_mul(k, d2) {
            Some(v) => v,
            None => {
                return Err(GpError::NumericalInstability);
            },
        };
        let l3: i128 = match fx_mul(l2, p.length_scale_se) {
            Some(v) => v,
            None => {
                return Err(GpError::NumericalInstability);
            },
        };
        let g_se: i128 = match fx_div(t1, l3) {
            Some(v) => v,
            None => {
                return Err(GpError::NumericalInstability);
            },
        };
        let t2: i128 = match fx_mul(k, s2) {
            Some(v) => v,
            None => {
                return Err(GpError::NumericalInstability);
            },
        };
        let t2a: i128 = match fx_add(t2, t2) {
            Some(v) => v,
            None => {
                return Err(GpError::NumericalInstability);
            },
        };
        let t24: i128 = match fx_add(t2a, t2a) {
            Some(v) => v,
            None => {
                return Err(GpError::NumericalInstability);
            },
        };
        let lp3: i128 = match fx_mul(lp2, p.length_scale_periodic) {
            Some(v) => v,
            None => {
                return Err(GpError::NumericalInstability);
            },
        };
        let g_lp: i128 = match fx_div(t24, lp3) {
            Some(v) => v,
            None => {
                return Err(GpError::NumericalInstability);
            },
        };
        let sc: i128 = sin_cos_pi(t);
        let n1: i128 = match fx_mul(FX_4PI, ad) {
            Some(v) => v,
            None => {
                return Err(GpError::NumericalInstability);
            },
        };
        let n2: i128 = match fx_mul(n1, k) {
            Some(v) => v,
            None => {
                return Err(GpError::NumericalInstability);
            },
        };
        let n3: i128 = match fx_mul(n2, sc) {
            Some(v) => v,
            None => {
                return Err(GpError::NumericalInstability);
            },
        };
        let per2: i128 = match fx_mul(p.period, p.period) {
            Some(v) => v,
            None => {
                return Err(GpError::NumericalInstability);
            },
        };
        let den: i128 = match fx_mul(lp2, per2) {
            Some(v) => v,
            None => {
                return Err(GpError::NumericalInstability);
            },
        };
        let g_per: i128 = match fx_div(n3, den) {
            Some(v) => v,
            None => {
                return Err(GpError::NumericalInstability);
            },
        };
        Ok(KernelGrad {
            d_amplitude: eneg,
            d_length_scale_se: g_se,
            d_length_scale_periodic: g_lp,
            d_period: g_per,
        })
    }
}

/// A kernel covariance matrix: `r.at(i, j)` is the kernel of `x1[i]` and
/// `x2[j]` for every cell; every cell is written exactly once over a
/// zero-initialized store.  The only failure is `NumericalInstability`, when
/// some evaluation fails.
pub fn ker_mat(k: &Kernel, x1: &Vec<i128>, x2: &Vec<i128>) -> (r: Result<Mat, GpError>)
    requires
        k.wf(),
        x1@.len() <= MAX_DIM,
        x2@.len() <= MAX_DIM,
    ensures
        match r {
            Ok(m) => {
                &&& m.wf()
                &&& m.nrows() == x1@.len()
                &&& m.ncols() == x2@.len()
                &&& forall|i: int, j: int|
                    0 <= i < x1@.len() && 0 <= j < x2@.len()
                        ==> kernel_eval_v(k.params, x1@[i] as int, x2@[j] as int)
                        == Some(#[trigger] m.at(i, j))
            },
            Err(e) => {
                &&& e == GpError::NumericalInstability
                &&& exists|i: int, j: int|
                    0 <= i < x1@.len() && 0 <= j < x2@.len() && kernel_eval_v(
                        k.params,
                        #[trigger] x1@[i] as int,
                        #[trigger] x2@[j] as int,
                    ) is None
            },
        },
{
    let n1: usize = x1.len();
    let n2: usize = x2.len();
    let mut m = Mat::zeros(n1, n2);
    let mut i: usize = 0;
    while i < n1
        invariant
            k.wf(),
            x1@.len() == n1,
            x2@.len() == n2,
            n1 <= MAX_DIM,
            n2 <= MAX_DIM,
            m.wf(),
            m.nrows() == n1,
            m.ncols() == n2,
            i <= n1,
            forall|r2: int, c2: int|
                0 <= r2 < i && 0 <= c2 < n2
                    ==> kernel_eval_v(k.params, x1@[r2] as int, x2@[c2] as int)
                    == Some(#[trigger] m.at(r2, c2)),
        decreases n1 - i,
    {
        let mut j: usize = 0;
        while j < n2
            invariant
                k.wf(),
                x1@.len() == n1,
                x2@.len() == n2,
                n1 <= MAX_DIM,
                n2 <= MAX_DIM,
                m.wf(),
                m.nrows() == n1,
                m.ncols() == n2,
                i < n1,
                j <= n2,
                forall|r2: int, c2: int|
                    0 <= r2 < i && 0 <= c2 < n2
                        ==> kernel_eval_v(k.params, x1@[r2] as int, x2@[c2] as int)
                        == Some(#[trigger] m.at(r2, c2)),
                forall|c2: int|
                    0 <= c2 < j
                        ==> kernel_eval_v(k.params, x1@[i as int] as int, x2@[c2] as int)
                        == Some(#[trigger] m.at(i as int, c2)),
            decreases n2 - j,
        {
            let v: i128 = match k.eval(x1[i], x2[j]) {
                Ok(v) => v,
                Err(_) => {
                    return Err(GpError::NumericalInstability);
                },
            };
            m.set(i, j, v);
            j = j + 1;
        }
        i = i + 1;
    }
    Ok(m)
}

} // verus!
