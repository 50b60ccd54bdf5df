//! Gradient-ascent search over the four kernel hyperparameters.
//!
//! Each iteration fits a fresh model at the current point, evaluates the
//! gradient of the log marginal likelihood, and steps uphill; a candidate
//! whose fit fails is a rejected step that shrinks the step size rather than
//! an abort, and after too many consecutive rejections the search ends in the
//! `Diverged` state at the last accepted point.  The returned parameters are
//! the best seen, never worse than the starting point: the result's final
//! negative log likelihood is at most its initial one.

use vstd::prelude::*;
use crate::fx::{fx_add, fx_divn_raw, fx_fits, fx_mul, FX_MAX, FX_ONE};
use crate::kernel::{params_pos, params_wf, HyperParameters};
use crate::model::{fit_ok, fitted_model, lml_o, GaussianProcess, LikelihoodGradient};
use crate::GpError;

verus! {

/// The terminal state of a search.
#[derive(Clone, Copy, Debug, PartialEq, Eq, Structural)]
pub enum OptimizerStatus {
    /// The gradient norm fell below the tolerance.
    Converged,
    /// The iteration budget ran out while steps were still being accepted.
    MaxIterationsReached,
    /// Too many consecutive candidates were rejected.
    Diverged,
}

/// The outcome of a search: the best hyperparameters seen and the negative
/// log likelihood at that point and at the starting point.
pub struct OptimizationResult {
    /// The best (lowest negative log likelihood) hyperparameters seen.
    pub params: HyperParameters,
    /// The negative log likelihood at `params`.
    pub final_neg_log_likelihood: i128,
    /// The negative log likelihood at the starting hyperparameters.
    pub initial_neg_log_likelihood: i128,
    /// How the search ended.
    pub status: OptimizerStatus,
}

/// Iteration budget of a search.
pub const OPT_MAX_ITERS: usize = 25;

/// Consecutive rejected candidates tolerated before the search diverges.
pub const OPT_RETRY_BUDGET: u32 = 8;

/// Initial step size: `0.05` in fixed point.
pub const FX_STEP0: i128 = 54975581388;

/// Smallest value a hyperparameter is clamped to, keeping every candidate
/// strictly positive.
pub const FX_MIN_PARAM: i128 = 1073741824;

/// Convergence tolerance on the squared gradient norm: `1e-4` in fixed
/// point, a gradient norm of `1e-2`.
pub const FX_GRAD_TOL2: i128 = 109951162;

/// The documented default starting point: amplitude, both length scales and
/// the period all one.
pub open spec fn default_start() -> HyperParameters {
    HyperParameters {
        amplitude: FX_ONE,
        length_scale_se: FX_ONE,
        length_scale_periodic: FX_ONE,
        period: FX_ONE,
    }
}

/// Clamp a candidate hyperparameter into the strictly positive representable
/// range.
fn clamp_param(v: i128) -> (r: i128)
    ensures
        FX_MIN_PARAM as int <= r as int <= FX_MAX as int,
{
    if v < FX_MIN_PARAM {
        FX_MIN_PARAM
    } else if v > FX_MAX {
        FX_MAX
    } else {
        v
    }
}

/// Whether the gradient's squared norm is below the tolerance; an overflow
/// while accumulating counts as not converged.
fn is_small_gradient(g: &LikelihoodGradient) -> bool {
    let mut acc: i128 = 0;
    let parts: [i128; 4] = [
        g.d_amplitude,
        g.d_length_scale_se,
        g.d_length_scale_periodic,
        g.d_period,
    ];
    let mut i: usize = 0;
    while i < 4
        invariant
            i <= 4,
        decreases 4 - i,
    {
        let sq: i128 = match fx_mul(parts[i], parts[i]) {
            Some(v) => v,
            None => {
                return false;
            },
        };
        acc = match fx_add(acc, sq) {
            Some(v) => v,
            None => {
                return false;
            },
        };
        i = i + 1;
    }
    acc < FX_GRAD_TOL2
}

/// One ascent step: each hyperparameter moves by `step` times its gradient
/// component and is clamped to stay strictly positive.  `None` when the
/// arithmetic leaves the representable range.
fn step_params(p: HyperParameters, g: &LikelihoodGradient, step: i128) -> (r: Option<
    HyperParameters,
>)
    ensures
        r matches Some(q) ==> params_wf(q),
{
    let da: i128 = match fx_mul(step, g.d_amplitude) {
        Some(v) => v,
        None => {
            return None;
        },
    };
    let a: i128 = match fx_add(p.amplitude, da) {
        Some(v) => v,
        None => {
            return None;
        },
    };
    let dl: i128 = match fx_mul(step, g.d_length_scale_se) {
        Some(v) => v,
        None => {
            return None;
        },
    };
    let lse: i128 = match fx_add(p.length_scale_se, dl) {
        Some(v) => v,
        None => {
            return None;
        },
    };
    let dp: i128 = match fx_mul(step, g.d_length_scale_periodic) {
        Some(v) => v,
        None => {
            return None;
        },
    };
    let lp: i128 = match fx_add(p.length_scale_periodic, dp) {
        Some(v) => v,
        None => {
            return None;
        },
    };
    let dq: i128 = match fx_mul(step, g.d_period) {
        Some(v) => v,
        None => {
            return None;
        },
    };
    let per: i128 = match fx_add(p.period, dq) {
        Some(v) => v,
        None => {
            return None;
        },
    };
    Some(
        HyperParameters {
            amplitude: clamp_param(a),
            length_scale_se: clamp_param(lse),
            length_scale_periodic: clamp_param(lp),
            period: clamp_param(per),
        },
    )
}

/// One evaluated candidate: some model fitted at its hyperparameters has
/// exactly its recorded negative log likelihood.
pub open spec fn eval_entry_ok(
    x: Seq<i128>,
    y: Seq<i128>,
    noise: int,
    e: (HyperParameters, i128),
) -> bool {
    exists|m: GaussianProcess|
        #[trigger] fitted_model(m, x, y, e.0, noise) && lml_o(m) == Some(-(e.1 as int))
}

/// The search's evaluation log: it starts at the given starting point, every
/// entry was genuinely evaluated, and the result is the best entry — its
/// negative log likelihood is the minimum over the log and its parameters
/// are those of a minimal entry.
pub open spec fn opt_evals_ok(
    x: Seq<i128>,
    y: Seq<i128>,
    noise: int,
    initial: HyperParameters,
    evals: Seq<(HyperParameters, i128)>,
    res: OptimizationResult,
) -> bool {
    &&& evals.len() >= 1
    &&& evals[0].0 == initial
    &&& evals[0].1 == res.initial_neg_log_likelihood
    &&& forall|k: int| 0 <= k < evals.len() ==> eval_entry_ok(x, y, noise, #[trigger] evals[k])
    &&& forall|k: int|
        0 <= k < evals.len() ==> res.final_neg_log_likelihood <= (#[trigger] evals[k]).1
    &&& exists|k: int|
        0 <= k < evals.len() && (#[trigger] evals[k]).0 == res.params && evals[k].1
            == res.final_neg_log_likelihood
}

/// Search for hyperparameters with a lower negative log likelihood than the
/// starting point, by gradient ascent on the log marginal likelihood.
///
/// The search fails only where the starting point itself cannot be
/// evaluated, with the error of that evaluation.  On success the result's
/// two likelihood fields are the negative log likelihoods of models fitted
/// at the starting point and at the returned parameters, and an evaluation
/// log witnesses that the returned parameters are the best candidate seen
/// ([`opt_evals_ok`]): strictly positive, and never worse than the start.
#[verifier::rlimit(100)]
pub fn optimize(
    x: &Vec<i128>,
    y: &Vec<i128>,
    noise: i128,
    initial: HyperParameters,
) -> (r: Result<OptimizationResult, GpError>)
    ensures
        x@.len() != y@.len() || x@.len() == 0 ==> r == Err::<OptimizationResult, GpError>(
            GpError::DimensionMismatch,
        ),
        x@.len() == y@.len() && 1 <= x@.len() ==> r != Err::<OptimizationResult, GpError>(
            GpError::DimensionMismatch,
        ),
        params_pos(initial) ==> r != Err::<OptimizationResult, GpError>(
            GpError::InvalidHyperParameters,
        ),
        r is Err ==> !fit_ok(initial, x@, y@, noise as int) || (exists|m0: GaussianProcess|
            #[trigger] fitted_model(m0, x@, y@, initial, noise as int) && lml_o(m0) is None),
        match r {
            Ok(res) => {
                &&& res.final_neg_log_likelihood <= res.initial_neg_log_likelihood
                &&& params_wf(res.params)
                &&& exists|m0: GaussianProcess|
                    #[trigger] fitted_model(m0, x@, y@, initial, noise as int) && lml_o(m0)
                        == Some(-(res.initial_neg_log_likelihood as int))
                &&& exists|m1: GaussianProcess|
                    #[trigger] fitted_model(m1, x@, y@, res.params, noise as int) && lml_o(m1)
                        == Some(-(res.final_neg_log_likelihood as int))
                &&& exists|evals: Seq<(HyperParameters, i128)>|
                    #[trigger] opt_evals_ok(x@, y@, noise as int, initial, evals, res)
            },
            Err(e) => {
                ||| e == GpError::DimensionMismatch
                ||| e == GpError::InvalidHyperParameters
                ||| e == GpError::NonPositiveDefinite
                ||| e == GpError::NumericalInstability
            },
        },
{
    let model0 = match GaussianProcess::new(x, y, initial, noise) {
        Ok(m) => m,
        Err(e) => {
            return Err(e);
        },
    };
    let ghost m0g = model0;
    let ll0: i128 = match model0.log_marginal_likelihood() {
        Ok(v) => v,
        Err(e) => {
            return Err(e);
        },
    };
    let nll0: i128 = -ll0;
    let mut best: HyperParameters = initial;
    let mut best_nll: i128 = nll0;
    let mut cur: HyperParameters = initial;
    let ghost mut best_model = model0;
    let ghost mut evals: Seq<(HyperParameters, i128)> = Seq::empty().push((initial, nll0));
    proof {
        let ghost e0 = (initial, nll0);
        assert(e0.0 == initial && e0.1 == nll0);
        assert(fitted_model(m0g, x@, y@, e0.0, noise as int) && lml_o(m0g) == Some(
            -(e0.1 as int),
        ));
        assert(eval_entry_ok(x@, y@, noise as int, e0));
        assert(evals[0] == e0);
    }
    let mut model: GaussianProcess = model0;
    let mut step: i128 = FX_STEP0;
    let mut fails: u32 = 0;
    let mut status: OptimizerStatus = OptimizerStatus::MaxIterationsReached;
    let mut it: usize = 0;
    while it < OPT_MAX_ITERS
        invariant
            x@.len() == y@.len(),
            1 <= x@.len(),
            params_wf(best),
            fx_fits(best_nll as int),
            best_nll <= nll0,
            fx_fits(nll0 as int),
            fitted_model(m0g, x@, y@, initial, noise as int),
            lml_o(m0g) == Some(-(nll0 as int)),
            fitted_model(best_model, x@, y@, best, noise as int),
            lml_o(best_model) == Some(-(best_nll as int)),
            evals.len() >= 1,
            evals[0] == (initial, nll0),
            forall|k: int|
                0 <= k < evals.len() ==> eval_entry_ok(x@, y@, noise as int, #[trigger] evals[k]),
            forall|k: int| 0 <= k < evals.len() ==> best_nll <= (#[trigger] evals[k]).1,
            exists|k: int| 0 <= k < evals.len() && #[trigger] evals[k] == (best, best_nll),
            model.wf(),
            0 <= step,
            fx_fits(step as int),
            fails <= OPT_RETRY_BUDGET,
            it <= OPT_MAX_ITERS,
        decreases OPT_MAX_ITERS - it,
    {
        let mut accepted: bool = false;
        let mut converged: bool = false;
        match model.gradient() {
            Err(_) => {},
            Ok(g) => {
                if is_small_gradient(&g) {
                    converged = true;
                } else {
                    match step_params(cur, &g, step) {
                        None => {},
                        Some(cand) => {
                            match GaussianProcess::new(x, y, cand, noise) {
                                Err(_) => {},
                                Ok(m2) => {
                                    match m2.log_marginal_likelihood() {
                                        Err(_) => {},
                                        Ok(ll) => {
                                            let nll: i128 = -ll;
                                            accepted = true;
                                            cur = cand;
                                            let ghost m2g = m2;
                                            model = m2;
                                            proof {
                                                let ghost evals_old = evals;
                                                evals = evals.push((cand, nll));
                                                let ghost en = (cand, nll);
                                                assert(en.0 == cand && en.1 == nll);
                                                assert(fitted_model(
                                                    m2g,
                                                    x@,
                                                    y@,
                                                    en.0,
                                                    noise as int,
                                                ) && lml_o(m2g) == Some(-(en.1 as int)));
                                                assert(eval_entry_ok(x@, y@, noise as int, en));
                                                assert(evals[evals.len() - 1] == en);
                                                let ghost kb = choose|k: int|
                                                    0 <= k < evals_old.len() && #[trigger] evals_old[k]
                                                        == (best, best_nll);
                                                assert(evals[kb] == (best, best_nll));
                                            }
                                            if nll < best_nll {
                                                best = cand;
                                                best_nll = nll;
                                                proof {
                                                    best_model = m2g;
                                                    assert(evals[evals.len() - 1] == (
                                                        best,
                                                        best_nll,
                                                    ));
                                                }
                                            }
                                        },
                                    }
                                },
                            }
                        },
                    }
                }
            },
        }
        if converged {
            status = OptimizerStatus::Converged;
            break;
        }
        if accepted {
            fails = 0;
        } else {
            if fails == OPT_RETRY_BUDGET {
                status = OptimizerStatus::Diverged;
                break;
            }
            fails = fails + 1;
            proof {
                vstd::arithmetic::div_mod::lemma_div_pos_is_pos(step as int, 2);
                vstd::arithmetic::div_mod::lemma_div_nonincreasing(step as int, 2);
            }
            step = fx_divn_raw(step, 2);
        }
        it = it + 1;
    }
    let res = OptimizationResult {
        params: best,
        final_neg_log_likelihood: best_nll,
        initial_neg_log_likelihood: nll0,
        status,
    };
    proof {
        assert(opt_evals_ok(x@, y@, noise as int, initial, evals, res));
    }
    Ok(res)
}

impl GaussianProcess {
    /// [`optimize`] from the documented default starting point: amplitude,
    /// both length scales and the period all one.
    pub fn optimize_params(x: &Vec<i128>, y: &Vec<i128>, noise: i128) -> (r: Result<
        OptimizationResult,
        GpError,
    >)
        ensures
            x@.len() != y@.len() || x@.len() == 0 ==> r == Err::<OptimizationResult, GpError>(
                GpError::DimensionMismatch,
            ),
            x@.len() == y@.len() && 1 <= x@.len() ==> r != Err::<OptimizationResult, GpError>(
                GpError::DimensionMismatch,
            ),
            r is Err ==> !fit_ok(default_start(), x@, y@, noise as int) || (
            exists|m0: GaussianProcess|
                #[trigger] fitted_model(m0, x@, y@, default_start(), noise as int) && lml_o(m0)
                    is None),
            match r {
                Ok(res) => {
                    &&& res.final_neg_log_likelihood <= res.initial_neg_log_likelihood
                    &&& params_wf(res.params)
                    &&& exists|m0: GaussianProcess|
                        #[trigger] fitted_model(m0, x@, y@, default_start(), noise as int)
                            && lml_o(m0) == Some(-(res.initial_neg_log_likelihood as int))
                    &&& exists|m1: GaussianProcess|
                        #[trigger] fitted_model(m1, x@, y@, res.params, noise as int) && lml_o(m1)
                            == Some(-(res.final_neg_log_likelihood as int))
                    &&& exists|evals: Seq<(HyperParameters, i128)>|
                        #[trigger] opt_evals_ok(x@, y@, noise as int, default_start(), evals, res)
                },
                Err(e) => {
                    ||| e == GpError::DimensionMismatch
                    ||| e == GpError::InvalidHyperParameters
                    ||| e == GpError::NonPositiveDefinite
                    ||| e == GpError::NumericalInstability
                },
            },
    {
        let initial = HyperParameters {
            amplitude: FX_ONE,
            length_scale_se: FX_ONE,
            length_scale_periodic: FX_ONE,
            period: FX_ONE,
        };
        proof {
            assert(initial == default_start());
        }
        optimize(x, y, noise, initial)
    }
}

} // verus!
