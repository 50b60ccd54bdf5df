//! The fitted Gaussian-process model: training, posterior prediction, the
//! log marginal likelihood, and its gradient.
//!
//! Fitting regularizes the kernel matrix with the noise variance, factorizes
//! it by Cholesky, and caches the factor together with the solved weights;
//! prediction and the likelihood are read-only queries against that cached
//! state.  Every failure is a returned [`GpError`]: a dimension mismatch and
//! invalid hyperparameters fail fast, an impossible factorization is
//! `NonPositiveDefinite`, and any value leaving the representable range is
//! `NumericalInstability`.

use vstd::prelude::*;
use vstd::pervasive::VecAdditionalExecFns;
use crate::fx::{
    fx_add, fx_add_o, fx_add_ok, fx_divn_raw, fx_divn_v, fx_fits, fx_mul, fx_mul_o, fx_mul_ok,
    fx_mul_v, fx_sub, fx_sub_o, lemma_divn_abs_le, lemma_fx_mul_nonneg, FX_MAX, FX_ONE,
};
use crate::trans::{fx_sqrt, ln_fx, ln_v};
use crate::mat::{
    all_fits, back_row_ok, back_solution, back_solvable, back_solve, chol_cell_from, chol_factor,
    cholesky, diag_pos, dot, dot_v, forward_solve, fwd_row_ok, fwd_solution,
    lemma_back_solution_same_l, lemma_chol_factor_unique, lemma_fwd_solution_same_l,
    lemma_fwd_solution_unique, lemma_isqrt_unique, lower_tri, Mat, MAX_DIM,
};
use crate::kernel::{
    ker_mat, kernel_eval_v, kernel_grad_v, params_pos, params_wf, HyperParameters, Kernel,
    KernelGrad,
};
use crate::GpError;

verus! {

/// `ln(2*pi)` in fixed point.
pub const FX_LOG_2PI: i128 = 2020767204939;

/// The two-sided confidence multiplier `1.95` in fixed point.
pub const FX_CI: i128 = 2144047674163;

/// Guarded running sum of a sequence through its first `k` elements: `None`
/// as soon as a partial sum leaves the representable range.
pub open spec fn sum_o(s: Seq<i128>, k: nat) -> Option<int>
    decreases k,
{
    if k == 0 {
        Some(0)
    } else {
        match sum_o(s, (k - 1) as nat) {
            None => None,
            Some(acc) => fx_add_o(acc, s[k - 1] as int),
        }
    }
}

/// Once the running sum has failed it stays failed.
proof fn lemma_sum_none(s: Seq<i128>, k1: nat, k2: nat)
    requires
        sum_o(s, k1) is None,
        k1 <= k2,
    ensures
        sum_o(s, k2) is None,
    decreases k2,
{
    if k2 > k1 {
        lemma_sum_none(s, k1, (k2 - 1) as nat);
    }
}

/// The sample mean the engine computes: the guarded sum divided by the
/// length, rounded toward negative infinity.
pub open spec fn mean_o(s: Seq<i128>) -> Option<int> {
    if s.len() == 0 {
        None
    } else {
        match sum_o(s, s.len() as nat) {
            None => None,
            Some(t) => Some(fx_divn_v(t, s.len() as int)),
        }
    }
}

/// Sample mean of a nonempty vector.  Succeeds exactly when the guarded sum
/// does, and then returns the value of [`mean_o`].
pub fn mean(v: &Vec<i128>) -> (r: Result<i128, GpError>)
    requires
        v@.len() >= 1,
    ensures
        match r {
            Ok(m) => mean_o(v@) == Some(m as int) && fx_fits(m as int),
            Err(e) => e == GpError::NumericalInstability && mean_o(v@) is None,
        },
{
    let n: usize = v.len();
    let mut s: i128 = 0;
    let mut t: usize = 0;
    while t < n
        invariant
            v@.len() == n,
            1 <= n,
            t <= n,
            fx_fits(s as int),
            sum_o(v@, t as nat) == Some(s as int),
        decreases n - t,
    {
        s = match fx_add(s, v[t]) {
            Some(v2) => v2,
            None => {
                proof {
                    lemma_sum_none(v@, (t + 1) as nat, n as nat);
                }
                return Err(GpError::NumericalInstability);
            },
        };
        t = t + 1;
    }
    proof {
        assert(FX_MAX as int <= (FX_MAX as int) * (n as int)) by (nonlinear_arith)
            requires
                1 <= n as int,
                0 < FX_MAX,
        ;
        lemma_divn_abs_le(s as int, n as int, FX_MAX as int);
    }
    Ok(fx_divn_raw(s, n as u128))
}

/// Subtract a constant from every element; the residuals `y - mean`.
fn sub_const(v: &Vec<i128>, c: i128) -> (r: Result<Vec<i128>, GpError>)
    requires
        fx_fits(c as int),
    ensures
        match r {
            Ok(b) => {
                &&& b@.len() == v@.len()
                &&& all_fits(b@)
                &&& forall|i: int| 0 <= i < v@.len() ==> #[trigger] b@[i] as int == v@[i] - c
                &&& forall|i: int|
                    0 <= i < v@.len() ==> fx_add_ok(#[trigger] v@[i] as int, -(c as int))
            },
            Err(e) => {
                &&& e == GpError::NumericalInstability
                &&& exists|i: int|
                    0 <= i < v@.len() && !fx_add_ok(#[trigger] v@[i] as int, -(c as int))
            },
        },
{
    let n: usize = v.len();
    let mut b: Vec<i128> = Vec::new();
    let mut i: usize = 0;
    while i < n
        invariant
            v@.len() == n,
            fx_fits(c as int),
            i <= n,
            b@.len() == i,
            all_fits(b@),
            forall|t: int| 0 <= t < i ==> #[trigger] b@[t] as int == v@[t] - c,
            forall|t: int| 0 <= t < i ==> fx_add_ok(#[trigger] v@[t] as int, -(c as int)),
        decreases n - i,
    {
        let d: i128 = match fx_sub(v[i], c) {
            Some(v2) => v2,
            None => {
                return Err(GpError::NumericalInstability);
            },
        };
        b.push(d);
        i = i + 1;
    }
    Ok(b)
}

/// One entry of the regularized kernel matrix the model is fitted against:
/// the kernel of two training inputs, with the noise variance added on the
/// diagonal.
pub open spec fn reg_cell_o(
    p: HyperParameters,
    x: Seq<i128>,
    noise: int,
    i: int,
    j: int,
) -> Option<int> {
    match kernel_eval_v(p, x[i] as int, x[j] as int) {
        None => None,
        Some(k) => {
            if i == j {
                fx_add_o(k, noise)
            } else {
                Some(k)
            }
        },
    }
}

/// Cell `(i, j)` of a fitted factor satisfies the Cholesky recurrence over
/// the regularized kernel matrix of the training inputs.
pub open spec fn fit_cell_ok(
    p: HyperParameters,
    x: Seq<i128>,
    noise: int,
    l: Mat,
    i: int,
    j: int,
) -> bool {
    match reg_cell_o(p, x, noise, i, j) {
        None => false,
        Some(v) => chol_cell_from(v, l, i, j),
    }
}

/// The residuals of the targets against a mean value, as a sequence.
pub open spec fn residuals_s(y: Seq<i128>, mu: int) -> Seq<i128> {
    Seq::new(y.len(), |i: int| (y[i] - mu) as i128)
}

/// A full factor of the regularized kernel matrix over the training inputs:
/// well formed, square of the training size, lower triangular with a
/// positive diagonal, every cell satisfying the fit recurrence.
pub open spec fn reg_factor_of(p: HyperParameters, x: Seq<i128>, noise: int, lw: Mat) -> bool {
    &&& lw.wf()
    &&& lw.nrows() == x.len()
    &&& lw.ncols() == x.len()
    &&& lower_tri(lw)
    &&& diag_pos(lw)
    &&& forall|i: int, j: int|
        0 <= j <= i < x.len() ==> #[trigger] fit_cell_ok(p, x, noise, lw, i, j)
}

/// Both triangular systems against a factor have solutions for the given
/// residuals.
pub open spec fn fit_solves(lw: Mat, b: Seq<i128>) -> bool {
    exists|z: Seq<i128>| #[trigger] fwd_solution(lw, z, b) && back_solvable(lw, z)
}

/// The exact success condition of [`GaussianProcess::new`]: consistent
/// nonempty inputs within the engine's size and range limits, valid
/// hyperparameters, a representable target mean and residuals, a factor of
/// the regularized kernel matrix, and solutions of both triangular systems.
pub open spec fn fit_ok(p: HyperParameters, x: Seq<i128>, y: Seq<i128>, noise: int) -> bool {
    &&& x.len() == y.len()
    &&& 1 <= x.len() <= MAX_DIM
    &&& params_wf(p)
    &&& (forall|i: int| 0 <= i < x.len() ==> fx_fits(#[trigger] x[i] as int))
    &&& mean_o(y) is Some
    &&& (forall|i: int| 0 <= i < y.len() ==> fx_add_ok(#[trigger] y[i] as int, -mean_o(y)->Some_0))
    &&& exists|lw: Mat|
        #[trigger] reg_factor_of(p, x, noise, lw) && fit_solves(
            lw,
            residuals_s(y, mean_o(y)->Some_0),
        )
}

/// The facts `GaussianProcess::new` guarantees of a returned model: a valid
/// kernel at the given hyperparameters, the training inputs kept, the target
/// mean and residuals cached, the factor satisfying the fit recurrence, and
/// the weights solving both triangular systems.  By the uniqueness of the
/// factor and the solutions, these determine every numeric field.
pub open spec fn fitted_model(
    m: GaussianProcess,
    x: Seq<i128>,
    y: Seq<i128>,
    p: HyperParameters,
    noise: int,
) -> bool {
    &&& m.wf()
    &&& m.kernel.params == p
    &&& m.train_x@ == x
    &&& x.len() == y.len()
    &&& 1 <= x.len()
    &&& mean_o(y) == Some(m.prior_mean as int)
    &&& forall|i: int| 0 <= i < y.len() ==> #[trigger] m.b@[i] as int == y[i] - m.prior_mean
    &&& forall|i: int, j: int|
        0 <= j <= i < x.len() ==> #[trigger] fit_cell_ok(p, x, noise, m.l, i, j)
    &&& forall|i: int| 0 <= i < x.len() ==> #[trigger] fwd_row_ok(m.l, m.z@, m.b@, i)
    &&& forall|i: int| 0 <= i < x.len() ==> #[trigger] back_row_ok(m.l, m.alpha@, m.z@, i)
}

/// A fitted Gaussian-process regressor, immutable after construction.
pub struct GaussianProcess {
    /// The covariance function the model was fitted with.
    pub kernel: Kernel,
    /// The noise variance added to the kernel matrix diagonal.
    pub noise: i128,
    /// A copy of the training inputs.
    pub train_x: Vec<i128>,
    /// The prior mean constant: the sample mean of the training targets.
    pub prior_mean: i128,
    /// The residuals `y - prior_mean`.
    pub b: Vec<i128>,
    /// The whitened residuals: the solution of `L * z = b`.
    pub z: Vec<i128>,
    /// The lower triangular Cholesky factor of the regularized kernel matrix.
    pub l: Mat,
    /// The cached weights: the solution of `L^T * alpha = z`, so that
    /// `(K + noise*I) * alpha = b`.
    pub alpha: Vec<i128>,
}

impl GaussianProcess {
    /// The number of training points.
    pub open spec fn n(self) -> int {
        self.train_x@.len() as int
    }

    /// Well-formed: a validated kernel, consistent dimensions, a lower
    /// triangular factor with positive diagonal, and representable values
    /// throughout.
    pub open spec fn wf(self) -> bool {
        &&& self.kernel.wf()
        &&& 1 <= self.n() <= MAX_DIM
        &&& self.l.wf()
        &&& self.l.nrows() == self.n()
        &&& self.l.ncols() == self.n()
        &&& lower_tri(self.l)
        &&& diag_pos(self.l)
        &&& self.b@.len() == self.n()
        &&& self.z@.len() == self.n()
        &&& self.alpha@.len() == self.n()
        &&& all_fits(self.train_x@)
        &&& all_fits(self.b@)
        &&& all_fits(self.z@)
        &&& all_fits(self.alpha@)
        &&& fx_fits(self.prior_mean as int)
    }

    /// Fit a model: build the kernel matrix over the training inputs, add
    /// the noise variance to its diagonal, factorize, and solve for the
    /// weights.  It succeeds exactly when that whole pipeline does
    /// ([`fit_ok`]).
    ///
    /// Mismatched or empty inputs fail with `DimensionMismatch` and
    /// non-positive hyperparameters with `InvalidHyperParameters`, both
    /// before any linear algebra and each if and only if its condition
    /// holds; `NonPositiveDefinite` is returned only when no factor of the
    /// regularized kernel matrix exists; a value leaving the representable
    /// range (including more training points than the engine accepts) is
    /// `NumericalInstability`.
    #[verifier::rlimit(50)]
    pub fn new(
        x: &Vec<i128>,
        y: &Vec<i128>,
        params: HyperParameters,
        noise: i128,
    ) -> (r: Result<GaussianProcess, GpError>)
        ensures
            x@.len() != y@.len() || x@.len() == 0 ==> r == Err::<GaussianProcess, GpError>(
                GpError::DimensionMismatch,
            ),
            x@.len() == y@.len() && 1 <= x@.len() ==> r != Err::<GaussianProcess, GpError>(
                GpError::DimensionMismatch,
            ),
            x@.len() == y@.len() && 1 <= x@.len() <= MAX_DIM && !params_pos(params) ==> r
                == Err::<GaussianProcess, GpError>(GpError::InvalidHyperParameters),
            params_pos(params) ==> r != Err::<GaussianProcess, GpError>(
                GpError::InvalidHyperParameters,
            ),
            r is Ok <==> fit_ok(params, x@, y@, noise as int),
            r == Err::<GaussianProcess, GpError>(GpError::NonPositiveDefinite) ==> !(
            exists|lw: Mat| #[trigger] reg_factor_of(params, x@, noise as int, lw)),
            match r {
                Ok(m) => {
                    &&& m.wf()
                    &&& m.kernel.params == params
                    &&& params_wf(params)
                    &&& m.train_x@ == x@
                    &&& m.noise == noise
                    &&& x@.len() == y@.len()
                    &&& 1 <= x@.len() <= MAX_DIM
                    &&& mean_o(y@) == Some(m.prior_mean as int)
                    &&& forall|i: int|
                        0 <= i < y@.len() ==> #[trigger] m.b@[i] as int == y@[i] - m.prior_mean
                    &&& forall|i: int, j: int|
                        0 <= j <= i < x@.len() ==> #[trigger] fit_cell_ok(
                            params,
                            x@,
                            noise as int,
                            m.l,
                            i,
                            j,
                        )
                    &&& forall|i: int| 0 <= i < x@.len() ==> #[trigger] fwd_row_ok(m.l, m.z@, m.b@, i)
                    &&& forall|i: int|
                        0 <= i < x@.len() ==> #[trigger] back_row_ok(m.l, m.alpha@, m.z@, i)
                    &&& fitted_model(m, x@, y@, params, noise as int)
                },
                Err(e) => {
                    ||| e == GpError::DimensionMismatch
                    ||| e == GpError::InvalidHyperParameters
                    ||| e == GpError::NonPositiveDefinite
                    ||| e == GpError::NumericalInstability
                },
            },
    {
        let n: usize = x.len();
        if n != y.len() || n == 0 {
            return Err(GpError::DimensionMismatch);
        }
        if n > MAX_DIM {
            return Err(GpError::NumericalInstability);
        }
        let kernel = match Kernel::new(params) {
            Ok(k) => k,
            Err(e) => {
                return Err(e);
            },
        };
        let mut v: usize = 0;
        while v < n
            invariant
                x@.len() == n,
                y@.len() == n,
                1 <= n <= MAX_DIM,
                params_wf(params),
                v <= n,
                forall|t: int| 0 <= t < v ==> fx_fits(#[trigger] x@[t] as int),
            decreases n - v,
        {
            if x[v] > FX_MAX || x[v] < -FX_MAX {
                return Err(GpError::NumericalInstability);
            }
            v = v + 1;
        }
        let mut kmat = match ker_mat(&kernel, x, x) {
            Ok(m) => m,
            Err(e) => {
                proof {
                    if fit_ok(params, x@, y@, noise as int) {
                        let lw = choose|lw: Mat|
                            #[trigger] reg_factor_of(params, x@, noise as int, lw) && fit_solves(
                                lw,
                                residuals_s(y@, mean_o(y@)->Some_0),
                            );
                        let (i0, j0) = choose|i0: int, j0: int|
                            0 <= i0 < x@.len() && 0 <= j0 < x@.len() && kernel_eval_v(
                                params,
                                x@[i0] as int,
                                x@[j0] as int,
                            ) is None;
                        if j0 <= i0 {
                            assert(fit_cell_ok(params, x@, noise as int, lw, i0, j0));
                        } else {
                            crate::kernel::lemma_kernel_symmetric(
                                params,
                                x@[i0] as int,
                                x@[j0] as int,
                            );
                            assert(fit_cell_ok(params, x@, noise as int, lw, j0, i0));
                        }
                        assert(false);
                    }
                }
                return Err(e);
            },
        };
        let mut i: usize = 0;
        while i < n
            invariant
                x@.len() == n,
                y@.len() == n,
                1 <= n <= MAX_DIM,
                params_wf(params),
                kmat.wf(),
                kmat.nrows() == n,
                kmat.ncols() == n,
                i <= n,
                forall|i2: int, j2: int|
                    0 <= i2 < n && 0 <= j2 < n && i2 != j2 ==> kernel_eval_v(
                        params,
                        x@[i2] as int,
                        x@[j2] as int,
                    ) == Some(#[trigger] kmat.at(i2, j2)),
                forall|i2: int|
                    i <= i2 < n ==> kernel_eval_v(params, x@[i2] as int, x@[i2] as int) == Some(
                        #[trigger] kmat.at(i2, i2),
                    ),
                forall|i2: int|
                    0 <= i2 < i ==> reg_cell_o(params, x@, noise as int, i2, i2) == Some(
                        #[trigger] kmat.at(i2, i2),
                    ),
            decreases n - i,
        {
            let dii: i128 = match fx_add(kmat.get(i, i), noise) {
                Some(v) => v,
                None => {
                    proof {
                        if fit_ok(params, x@, y@, noise as int) {
                            let lw = choose|lw: Mat|
                                #[trigger] reg_factor_of(params, x@, noise as int, lw)
                                    && fit_solves(lw, residuals_s(y@, mean_o(y@)->Some_0));
                            assert(fit_cell_ok(params, x@, noise as int, lw, i as int, i as int));
                            assert(false);
                        }
                    }
                    return Err(GpError::NumericalInstability);
                },
            };
            kmat.set(i, i, dii);
            i = i + 1;
        }
        let l = match cholesky(&kmat) {
            Ok(l) => l,
            Err(e) => {
                proof {
                    if exists|lw: Mat| #[trigger] reg_factor_of(params, x@, noise as int, lw) {
                        let lw = choose|lw: Mat|
                            #[trigger] reg_factor_of(params, x@, noise as int, lw);
                        assert forall|i2: int, j2: int|
                            0 <= j2 <= i2 < n implies #[trigger] crate::mat::chol_cell_ok(
                            kmat,
                            lw,
                            i2,
                            j2,
                        ) by {
                            assert(fit_cell_ok(params, x@, noise as int, lw, i2, j2));
                            assert(reg_cell_o(params, x@, noise as int, i2, j2) == Some(
                                kmat.at(i2, j2),
                            ));
                        };
                        assert(chol_factor(kmat, lw));
                        assert(false);
                    }
                }
                return Err(e);
            },
        };
        proof {
            assert forall|i2: int, j2: int| 0 <= j2 <= i2 < n implies #[trigger] fit_cell_ok(
                params,
                x@,
                noise as int,
                l,
                i2,
                j2,
            ) by {
                assert(crate::mat::chol_cell_ok(kmat, l, i2, j2));
                assert(reg_cell_o(params, x@, noise as int, i2, j2) == Some(kmat.at(i2, j2)));
            };
        }
        let mu: i128 = match mean(y) {
            Ok(m) => m,
            Err(e) => {
                return Err(e);
            },
        };
        let b = match sub_const(y, mu) {
            Ok(b) => b,
            Err(e) => {
                proof {
                    if fit_ok(params, x@, y@, noise as int) {
                        let i0 = choose|i0: int|
                            0 <= i0 < y@.len() && !fx_add_ok(
                                #[trigger] y@[i0] as int,
                                -(mu as int),
                            );
                        assert(false);
                    }
                }
                return Err(e);
            },
        };
        let z = match forward_solve(&l, &b) {
            Ok(z) => z,
            Err(e) => {
                proof {
                    if fit_ok(params, x@, y@, noise as int) {
                        let lw = choose|lw: Mat|
                            #[trigger] reg_factor_of(params, x@, noise as int, lw) && fit_solves(
                                lw,
                                residuals_s(y@, mean_o(y@)->Some_0),
                            );
                        lemma_fit_factors_equal(params, x@, noise as int, kmat, l, lw);
                        let mu_s = mean_o(y@)->Some_0;
                        let zw = choose|zw: Seq<i128>|
                            #[trigger] fwd_solution(lw, zw, residuals_s(y@, mu_s))
                                && back_solvable(lw, zw);
                        assert(residuals_s(y@, mu_s) =~= b@);
                        lemma_fwd_solution_same_l(lw, l, zw, b@);
                        assert(fwd_solution(l, zw, b@));
                        assert(false);
                    }
                }
                return Err(e);
            },
        };
        let alpha = match back_solve(&l, &z) {
            Ok(a) => a,
            Err(e) => {
                proof {
                    if fit_ok(params, x@, y@, noise as int) {
                        let lw = choose|lw: Mat|
                            #[trigger] reg_factor_of(params, x@, noise as int, lw) && fit_solves(
                                lw,
                                residuals_s(y@, mean_o(y@)->Some_0),
                            );
                        lemma_fit_factors_equal(params, x@, noise as int, kmat, l, lw);
                        let mu_s = mean_o(y@)->Some_0;
                        let zw = choose|zw: Seq<i128>|
                            #[trigger] fwd_solution(lw, zw, residuals_s(y@, mu_s))
                                && back_solvable(lw, zw);
                        assert(residuals_s(y@, mu_s) =~= b@);
                        lemma_fwd_solution_same_l(lw, l, zw, b@);
                        lemma_fwd_solution_unique(l, zw, z@, b@);
                        let aw = choose|aw: Seq<i128>| #[trigger] back_solution(lw, aw, zw);
                        lemma_back_solution_same_l(lw, l, aw, zw);
                        assert(back_solution(l, aw, z@));
                        assert(false);
                    }
                }
                return Err(e);
            },
        };
        proof {
            assert(residuals_s(y@, mu as int) =~= b@);
            assert(reg_factor_of(params, x@, noise as int, l));
            assert(back_solution(l, alpha@, z@));
            assert(fwd_solution(l, z@, residuals_s(y@, mean_o(y@)->Some_0)) && back_solvable(
                l,
                z@,
            ));
        }
        Ok(GaussianProcess {
            kernel,
            noise,
            train_x: clone_vec(x),
            prior_mean: mu,
            b,
            z,
            l,
            alpha,
        })
    }
}

/// The factor the fit computed and any witness factor of the same
/// regularized kernel matrix agree on every entry.
proof fn lemma_fit_factors_equal(
    p: HyperParameters,
    x: Seq<i128>,
    noise: int,
    kmat: Mat,
    l: Mat,
    lw: Mat,
)
    requires
        kmat.nrows() == x.len(),
        kmat.ncols() == x.len(),
        forall|i2: int, j2: int|
            0 <= i2 < x.len() && 0 <= j2 < x.len() && i2 != j2 ==> kernel_eval_v(
                p,
                x[i2] as int,
                x[j2] as int,
            ) == Some(#[trigger] kmat.at(i2, j2)),
        forall|i2: int|
            0 <= i2 < x.len() ==> reg_cell_o(p, x, noise, i2, i2) == Some(
                #[trigger] kmat.at(i2, i2),
            ),
        l.nrows() == x.len() && l.ncols() == x.len(),
        lower_tri(l),
        forall|i: int, j: int|
            0 <= j <= i < x.len() ==> #[trigger] crate::mat::chol_cell_ok(kmat, l, i, j),
        reg_factor_of(p, x, noise, lw),
    ensures
        forall|i: int, j: int|
            0 <= i < x.len() && 0 <= j < x.len() ==> #[trigger] l.at(i, j) == lw.at(i, j),
{
    assert forall|i2: int, j2: int|
        0 <= j2 <= i2 < x.len() implies #[trigger] crate::mat::chol_cell_ok(kmat, lw, i2, j2) by {
        assert(fit_cell_ok(p, x, noise, lw, i2, j2));
        assert(reg_cell_o(p, x, noise, i2, j2) == Some(kmat.at(i2, j2)));
    };
    lemma_chol_factor_unique(kmat, l, lw);
}

/// An element-for-element copy of a vector.
fn clone_vec(v: &Vec<i128>) -> (r: Vec<i128>)
    ensures
        r@ == v@,
{
    let n: usize = v.len();
    let mut r: Vec<i128> = Vec::new();
    let mut i: usize = 0;
    while i < n
        invariant
            v@.len() == n,
            i <= n,
            r@.len() == i,
            forall|t: int| 0 <= t < i ==> #[trigger] r@[t] == v@[t],
        decreases n - i,
    {
        r.push(v[i]);
        i = i + 1;
    }
    proof {
        assert(r@ =~= v@);
    }
    r
}

/// The posterior at a set of query points: the predicted mean and the two
/// confidence bounds, index for index.
pub struct GPPosterior {
    /// The posterior mean at each query point.
    pub mean: Vec<i128>,
    /// The lower confidence bound at each query point.
    pub ci_low: Vec<i128>,
    /// The upper confidence bound at each query point.
    pub ci_high: Vec<i128>,
}

impl GPPosterior {
    /// The bounds bracket the mean at every index.
    pub open spec fn wf(self) -> bool {
        &&& self.ci_low@.len() == self.mean@.len()
        &&& self.ci_high@.len() == self.mean@.len()
        &&& forall|i: int|
            0 <= i < self.mean@.len() ==> #[trigger] self.ci_low@[i] <= self.mean@[i]
                <= self.ci_high@[i]
    }

    /// The posterior mean values.
    pub fn mean(&self) -> (r: Vec<i128>)
        ensures
            r@ == self.mean@,
    {
        clone_vec(&self.mean)
    }

    /// The lower confidence bounds.
    pub fn ci_low(&self) -> (r: Vec<i128>)
        ensures
            r@ == self.ci_low@,
    {
        clone_vec(&self.ci_low)
    }

    /// The upper confidence bounds.
    pub fn ci_high(&self) -> (r: Vec<i128>)
        ensures
            r@ == self.ci_high@,
    {
        clone_vec(&self.ci_high)
    }
}

/// The posterior mean at query point `i`, accumulated through the first `k`
/// training points: the prior mean plus the covariance of the query point
/// with each training input times the cached weight, every step guarded.
pub open spec fn post_mean_acc_o(m: GaussianProcess, xs: Seq<i128>, i: int, k: nat) -> Option<int>
    decreases k,
{
    if k == 0 {
        Some(m.prior_mean as int)
    } else {
        match post_mean_acc_o(m, xs, i, (k - 1) as nat) {
            None => None,
            Some(s) => match kernel_eval_v(
                m.kernel.params,
                xs[i] as int,
                m.train_x@[k - 1] as int,
            ) {
                None => None,
                Some(kv) => match fx_mul_o(kv, m.alpha@[k - 1] as int) {
                    None => None,
                    Some(p) => fx_add_o(s, p),
                },
            },
        }
    }
}

/// Once the posterior mean accumulation has failed it stays failed.
proof fn lemma_post_mean_none(m: GaussianProcess, xs: Seq<i128>, i: int, k1: nat, k2: nat)
    requires
        post_mean_acc_o(m, xs, i, k1) is None,
        k1 <= k2,
    ensures
        post_mean_acc_o(m, xs, i, k2) is None,
    decreases k2,
{
    if k2 > k1 {
        lemma_post_mean_none(m, xs, i, k1, (k2 - 1) as nat);
    }
}

/// Refute a point's specification when its mean accumulation failed.
proof fn lemma_post_mean_refuted(m: GaussianProcess, xs: Seq<i128>, i: int, k: nat)
    requires
        0 <= i < xs.len(),
        k <= m.n(),
        post_mean_acc_o(m, xs, i, k) is None,
    ensures
        !posterior_ok(m, xs),
{
    lemma_post_mean_none(m, xs, i, k, m.n() as nat);
    if posterior_ok(m, xs) {
        assert(post_point_ok(m, xs, i));
        assert(false);
    }
}

/// The covariance row of query point `i` against the training inputs.
pub open spec fn kstar_row(m: GaussianProcess, xs: Seq<i128>, i: int) -> Seq<i128> {
    Seq::new(
        m.train_x@.len() as nat,
        |t: int|
            kernel_eval_v(m.kernel.params, xs[i] as int, m.train_x@[t] as int)->Some_0 as i128,
    )
}

/// The variance pipeline of query point `i` goes through for the forward
/// solution `v` of its covariance row: the explained part, the prior
/// variance at the point, the clamped difference, and the guarded steps that
/// build the band around the mean.
pub open spec fn post_rest_ok(m: GaussianProcess, xs: Seq<i128>, i: int, v: Seq<i128>) -> bool {
    match dot_v(v, v, m.n() as nat) {
        None => false,
        Some(expl) => match kernel_eval_v(m.kernel.params, xs[i] as int, xs[i] as int) {
            None => false,
            Some(kss) => {
                let var = if kss - expl < 0 {
                    0
                } else {
                    kss - expl
                };
                &&& fx_add_ok(kss, -expl)
                &&& exists|std: i128|
                    {
                        &&& 0 <= std
                        &&& (std as int) * (std as int) <= var * (FX_ONE as int)
                        &&& var * (FX_ONE as int) < (std as int + 1) * (std as int + 1)
                        &&& #[trigger] fx_mul_ok(FX_CI as int, std as int)
                        &&& fx_add_ok(
                            post_mean_acc_o(m, xs, i, m.n() as nat)->Some_0,
                            fx_mul_v(FX_CI as int, std as int),
                        )
                        &&& fx_add_ok(
                            post_mean_acc_o(m, xs, i, m.n() as nat)->Some_0,
                            -fx_mul_v(FX_CI as int, std as int),
                        )
                    }
            },
        },
    }
}

/// The whole pipeline of query point `i` goes through: the mean
/// accumulation, a forward solution for the covariance row, and the variance
/// pipeline after it.
pub open spec fn post_point_ok(m: GaussianProcess, xs: Seq<i128>, i: int) -> bool {
    &&& post_mean_acc_o(m, xs, i, m.n() as nat) is Some
    &&& exists|v: Seq<i128>|
        #[trigger] fwd_solution(m.l, v, kstar_row(m, xs, i)) && post_rest_ok(m, xs, i, v)
}

/// The exact success condition of [`GaussianProcess::posterior`]: the query
/// within the size limit, every covariance against the training inputs
/// representable, and every point's pipeline going through.
pub open spec fn posterior_ok(m: GaussianProcess, xs: Seq<i128>) -> bool {
    &&& xs.len() <= MAX_DIM
    &&& forall|i: int, t: int|
        0 <= i < xs.len() && 0 <= t < m.n() ==> kernel_eval_v(
            m.kernel.params,
            #[trigger] xs[i] as int,
            #[trigger] m.train_x@[t] as int,
        ) is Some
    &&& forall|i: int| 0 <= i < xs.len() ==> #[trigger] post_point_ok(m, xs, i)
}

/// The returned band of query point `i` is the mean plus and minus the
/// confidence multiplier times the square root of the clamped variance, with
/// the variance pipeline's intermediates as witnesses; the uniqueness of the
/// forward solution and of the square root makes the width unique.
pub open spec fn post_band_ok(
    m: GaussianProcess,
    xs: Seq<i128>,
    i: int,
    mean_i: int,
    lo: int,
    hi: int,
) -> bool {
    exists|v: Seq<i128>, std: i128|
        #![trigger fwd_solution(m.l, v, kstar_row(m, xs, i)), (std as int) * (std as int)]
        {
            &&& fwd_solution(m.l, v, kstar_row(m, xs, i))
            &&& 0 <= std
            &&& match (
                dot_v(v, v, m.n() as nat),
                kernel_eval_v(m.kernel.params, xs[i] as int, xs[i] as int),
            ) {
                (Some(expl), Some(kss)) => {
                    let var = if kss - expl < 0 {
                        0
                    } else {
                        kss - expl
                    };
                    &&& (std as int) * (std as int) <= var * (FX_ONE as int)
                    &&& var * (FX_ONE as int) < (std as int + 1) * (std as int + 1)
                    &&& hi == mean_i + fx_mul_v(FX_CI as int, std as int)
                    &&& lo == mean_i - fx_mul_v(FX_CI as int, std as int)
                },
                _ => false,
            }
        }
}

impl GaussianProcess {
    /// Posterior prediction at the query points: for each query point the
    /// posterior mean and the confidence bounds `mean ± 1.95 * std`, where
    /// the variance is clamped to be nonnegative before the square root.  It
    /// succeeds exactly when every point's pipeline stays representable
    /// ([`posterior_ok`]); on success the three sequences have the query's
    /// length, each mean is the accumulated value of [`post_mean_acc_o`],
    /// and each band satisfies [`post_band_ok`] — the bounds bracket the
    /// mean symmetrically at the multiplier times the square root of the
    /// clamped variance.  The only failure is `NumericalInstability`.
    #[verifier::rlimit(50)]
    pub fn posterior(&self, xs: &Vec<i128>) -> (r: Result<GPPosterior, GpError>)
        requires
            self.wf(),
        ensures
            r is Ok <==> posterior_ok(*self, xs@),
            match r {
                Ok(post) => {
                    &&& post.wf()
                    &&& post.mean@.len() == xs@.len()
                    &&& forall|i: int|
                        0 <= i < xs@.len() ==> post_mean_acc_o(*self, xs@, i, self.n() as nat)
                            == Some(#[trigger] post.mean@[i] as int)
                    &&& forall|i: int|
                        0 <= i < xs@.len()
                            ==> #[trigger] (post.ci_high@[i] - post.mean@[i]) == post.mean@[i]
                            - post.ci_low@[i]
                    &&& forall|i: int|
                        0 <= i < xs@.len() ==> #[trigger] post_band_ok(
                            *self,
                            xs@,
                            i,
                            post.mean@[i] as int,
                            post.ci_low@[i] as int,
                            post.ci_high@[i] as int,
                        )
                },
                Err(e) => e == GpError::NumericalInstability,
            },
    {
        let m: usize = xs.len();
        if m > MAX_DIM {
            return Err(GpError::NumericalInstability);
        }
        let kstar = match ker_mat(&self.kernel, xs, &self.train_x) {
            Ok(k) => k,
            Err(e) => {
                proof {
                    if posterior_ok(*self, xs@) {
                        let (i0, t0) = choose|i0: int, t0: int|
                            0 <= i0 < xs@.len() && 0 <= t0 < self.train_x@.len()
                                && kernel_eval_v(
                                self.kernel.params,
                                xs@[i0] as int,
                                self.train_x@[t0] as int,
                            ) is None;
                        assert(false);
                    }
                }
                return Err(e);
            },
        };
        let n: usize = self.train_x.len();
        let mut mean_v: Vec<i128> = Vec::new();
        let mut lo_v: Vec<i128> = Vec::new();
        let mut hi_v: Vec<i128> = Vec::new();
        let mut i: usize = 0;
        while i < m
            invariant
                self.wf(),
                xs@.len() == m,
                m <= MAX_DIM,
                n == self.n(),
                kstar.wf(),
                kstar.nrows() == m,
                kstar.ncols() == n,
                forall|i2: int, t2: int|
                    0 <= i2 < m && 0 <= t2 < n ==> kernel_eval_v(
                        self.kernel.params,
                        xs@[i2] as int,
                        self.train_x@[t2] as int,
                    ) == Some(#[trigger] kstar.at(i2, t2)),
                i <= m,
                mean_v@.len() == i,
                lo_v@.len() == i,
                hi_v@.len() == i,
                forall|t: int|
                    0 <= t < i ==> #[trigger] lo_v@[t] <= mean_v@[t] <= hi_v@[t],
                forall|t: int|
                    0 <= t < i ==> post_mean_acc_o(*self, xs@, t, n as nat) == Some(
                        #[trigger] mean_v@[t] as int,
                    ),
                forall|t: int|
                    0 <= t < i ==> #[trigger] (hi_v@[t] - mean_v@[t]) == mean_v@[t] - lo_v@[t],
                forall|t: int| 0 <= t < i ==> #[trigger] post_point_ok(*self, xs@, t),
                forall|t: int|
                    0 <= t < i ==> #[trigger] post_band_ok(
                        *self,
                        xs@,
                        t,
                        mean_v@[t] as int,
                        lo_v@[t] as int,
                        hi_v@[t] as int,
                    ),
            decreases m - i,
        {
            // Posterior mean: prior mean plus the covariance row times alpha.
            let mut s: i128 = self.prior_mean;
            let mut t: usize = 0;
            while t < n
                invariant
                    self.wf(),
                    xs@.len() == m,
                    n == self.n(),
                    kstar.wf(),
                    kstar.nrows() == m,
                    kstar.ncols() == n,
                    forall|i2: int, t2: int|
                        0 <= i2 < m && 0 <= t2 < n ==> kernel_eval_v(
                            self.kernel.params,
                            xs@[i2] as int,
                            self.train_x@[t2] as int,
                        ) == Some(#[trigger] kstar.at(i2, t2)),
                    i < m,
                    t <= n,
                    fx_fits(s as int),
                    post_mean_acc_o(*self, xs@, i as int, t as nat) == Some(s as int),
                decreases n - t,
            {
                let p: i128 = match fx_mul(kstar.get(i, t), self.alpha[t]) {
                    Some(p) => p,
                    None => {
                        proof {
                            assert(post_mean_acc_o(*self, xs@, i as int, (t + 1) as nat) is None);
                            lemma_post_mean_refuted(*self, xs@, i as int, (t + 1) as nat);
                        }
                        return Err(GpError::NumericalInstability);
                    },
                };
                s = match fx_add(s, p) {
                    Some(v2) => v2,
                    None => {
                        proof {
                            assert(post_mean_acc_o(*self, xs@, i as int, (t + 1) as nat) is None);
                            lemma_post_mean_refuted(*self, xs@, i as int, (t + 1) as nat);
                        }
                        return Err(GpError::NumericalInstability);
                    },
                };
                t = t + 1;
            }
            // Predictive variance: prior variance at the point minus the
            // explained part, clamped to be nonnegative.
            let mut row: Vec<i128> = Vec::new();
            let mut t2: usize = 0;
            while t2 < n
                invariant
                    self.wf(),
                    n == self.n(),
                    kstar.wf(),
                    kstar.nrows() == m,
                    kstar.ncols() == n,
                    forall|i2: int, t3: int|
                        0 <= i2 < m && 0 <= t3 < n ==> kernel_eval_v(
                            self.kernel.params,
                            xs@[i2] as int,
                            self.train_x@[t3] as int,
                        ) == Some(#[trigger] kstar.at(i2, t3)),
                    i < m,
                    t2 <= n,
                    row@.len() == t2,
                    all_fits(row@),
                    forall|t3: int|
                        0 <= t3 < t2 ==> #[trigger] row@[t3] as int == kstar.at(i as int, t3),
                decreases n - t2,
            {
                row.push(kstar.get(i, t2));
                t2 = t2 + 1;
            }
            proof {
                assert(kstar_row(*self, xs@, i as int) =~= row@);
            }
            let v = match forward_solve(&self.l, &row) {
                Ok(v) => v,
                Err(e) => {
                    proof {
                        if posterior_ok(*self, xs@) {
                            assert(post_point_ok(*self, xs@, i as int));
                            let vw = choose|vw: Seq<i128>|
                                #[trigger] fwd_solution(self.l, vw, kstar_row(*self, xs@, i as int))
                                    && post_rest_ok(*self, xs@, i as int, vw);
                            assert(fwd_solution(self.l, vw, row@));
                            assert(false);
                        }
                    }
                    return Err(e);
                },
            };
            let explained: i128 = match dot(&v, &v) {
                Ok(d) => d,
                Err(e) => {
                    proof {
                        lemma_post_point_refuted(*self, xs@, i as int, row@, v@);
                    }
                    return Err(e);
                },
            };
            let kss: i128 = match self.kernel.eval(xs[i], xs[i]) {
                Ok(k) => k,
                Err(e) => {
                    proof {
                        lemma_post_point_refuted(*self, xs@, i as int, row@, v@);
                    }
                    return Err(e);
                },
            };
            let var0: i128 = match fx_sub(kss, explained) {
                Some(v2) => v2,
                None => {
                    proof {
                        lemma_post_point_refuted(*self, xs@, i as int, row@, v@);
                    }
                    return Err(GpError::NumericalInstability);
                },
            };
            let var: i128 = if var0 < 0 {
                0
            } else {
                var0
            };
            let std: i128 = fx_sqrt(var);
            let ciw: i128 = match fx_mul(FX_CI, std) {
                Some(v2) => v2,
                None => {
                    proof {
                        lemma_post_std_refuted(*self, xs@, i as int, row@, v@, std as int);
                    }
                    return Err(GpError::NumericalInstability);
                },
            };
            proof {
                lemma_fx_mul_nonneg(FX_CI as int, std as int);
            }
            let hi: i128 = match fx_add(s, ciw) {
                Some(v2) => v2,
                None => {
                    proof {
                        lemma_post_std_refuted(*self, xs@, i as int, row@, v@, std as int);
                    }
                    return Err(GpError::NumericalInstability);
                },
            };
            let lo: i128 = match fx_sub(s, ciw) {
                Some(v2) => v2,
                None => {
                    proof {
                        lemma_post_std_refuted(*self, xs@, i as int, row@, v@, std as int);
                    }
                    return Err(GpError::NumericalInstability);
                },
            };
            proof {
                assert(fwd_solution(self.l, v@, kstar_row(*self, xs@, i as int)));
                assert(post_rest_ok(*self, xs@, i as int, v@));
                assert(post_point_ok(*self, xs@, i as int));
                assert(post_band_ok(*self, xs@, i as int, s as int, lo as int, hi as int));
            }
            mean_v.push(s);
            lo_v.push(lo);
            hi_v.push(hi);
            i = i + 1;
        }
        proof {
            assert forall|i2: int, t2: int|
                0 <= i2 < xs@.len() && 0 <= t2 < self.n() implies kernel_eval_v(
                self.kernel.params,
                #[trigger] xs@[i2] as int,
                #[trigger] self.train_x@[t2] as int,
            ) is Some by {
                assert(kernel_eval_v(self.kernel.params, xs@[i2] as int, self.train_x@[t2] as int)
                    == Some(kstar.at(i2, t2)));
            };
        }
        Ok(GPPosterior { mean: mean_v, ci_low: lo_v, ci_high: hi_v })
    }
}

/// With the pipeline failing after the forward solve of query point `i`, the
/// point cannot satisfy its specification: any witness solution equals the
/// computed one, whose continuation is known to fail.  The caller supplies
/// which guarded step failed through the facts in scope; this lemma settles
/// the shared part, that the witness solution is the computed `v`.
proof fn lemma_post_witness_is_v(
    m: GaussianProcess,
    xs: Seq<i128>,
    i: int,
    row: Seq<i128>,
    v: Seq<i128>,
) -> (vw: Seq<i128>)
    requires
        m.wf(),
        0 <= i < xs.len(),
        row =~= kstar_row(m, xs, i),
        row.len() == m.n(),
        fwd_solution(m.l, v, row),
        post_point_ok(m, xs, i),
    ensures
        vw == v,
        post_rest_ok(m, xs, i, v),
{
    let vw = choose|vw: Seq<i128>|
        #[trigger] fwd_solution(m.l, vw, kstar_row(m, xs, i)) && post_rest_ok(m, xs, i, vw);
    lemma_fwd_solution_unique(m.l, vw, v, row);
    vw
}

/// Refute a point's specification when a step between the dot product and
/// the variance clamp failed.
proof fn lemma_post_point_refuted(
    m: GaussianProcess,
    xs: Seq<i128>,
    i: int,
    row: Seq<i128>,
    v: Seq<i128>,
)
    requires
        m.wf(),
        0 <= i < xs.len(),
        row =~= kstar_row(m, xs, i),
        row.len() == m.n(),
        fwd_solution(m.l, v, row),
        ({
            ||| (dot_v(v, v, m.n() as nat) is None)
            ||| (kernel_eval_v(m.kernel.params, xs[i] as int, xs[i] as int) is None)
            ||| (match (
                dot_v(v, v, m.n() as nat),
                kernel_eval_v(m.kernel.params, xs[i] as int, xs[i] as int),
            ) {
                (Some(expl), Some(kss)) => !fx_add_ok(kss, -expl),
                _ => true,
            })
        }),
    ensures
        !posterior_ok(m, xs),
{
    if posterior_ok(m, xs) {
        assert(post_point_ok(m, xs, i));
        let vw = lemma_post_witness_is_v(m, xs, i, row, v);
        assert(false);
    }
}

/// Refute a point's specification when a guarded step after the square root
/// failed: the witness standard deviation equals the computed one by the
/// square root's uniqueness.
proof fn lemma_post_std_refuted(
    m: GaussianProcess,
    xs: Seq<i128>,
    i: int,
    row: Seq<i128>,
    v: Seq<i128>,
    std: int,
)
    requires
        m.wf(),
        0 <= i < xs.len(),
        row =~= kstar_row(m, xs, i),
        row.len() == m.n(),
        fwd_solution(m.l, v, row),
        0 <= std,
        (match (
            dot_v(v, v, m.n() as nat),
            kernel_eval_v(m.kernel.params, xs[i] as int, xs[i] as int),
        ) {
            (Some(expl), Some(kss)) => {
                let var = if kss - expl < 0 {
                    0
                } else {
                    kss - expl
                };
                &&& std * std <= var * (FX_ONE as int)
                &&& var * (FX_ONE as int) < (std + 1) * (std + 1)
                &&& {
                    ||| !fx_mul_ok(FX_CI as int, std)
                    ||| !fx_add_ok(
                        post_mean_acc_o(m, xs, i, m.n() as nat)->Some_0,
                        fx_mul_v(FX_CI as int, std),
                    )
                    ||| !fx_add_ok(
                        post_mean_acc_o(m, xs, i, m.n() as nat)->Some_0,
                        -fx_mul_v(FX_CI as int, std),
                    )
                }
            },
            _ => false,
        }),
    ensures
        !posterior_ok(m, xs),
{
    if posterior_ok(m, xs) {
        assert(post_point_ok(m, xs, i));
        let vw = lemma_post_witness_is_v(m, xs, i, row, v);
        let expl = dot_v(v, v, m.n() as nat)->Some_0;
        let kss = kernel_eval_v(m.kernel.params, xs[i] as int, xs[i] as int)->Some_0;
        let var = if kss - expl < 0 {
            0
        } else {
            kss - expl
        };
        let stdw = choose|stdw: i128|
            {
                &&& 0 <= stdw
                &&& (stdw as int) * (stdw as int) <= var * (FX_ONE as int)
                &&& var * (FX_ONE as int) < (stdw as int + 1) * (stdw as int + 1)
                &&& #[trigger] fx_mul_ok(FX_CI as int, stdw as int)
                &&& fx_add_ok(
                    post_mean_acc_o(m, xs, i, m.n() as nat)->Some_0,
                    fx_mul_v(FX_CI as int, stdw as int),
                )
                &&& fx_add_ok(
                    post_mean_acc_o(m, xs, i, m.n() as nat)->Some_0,
                    -fx_mul_v(FX_CI as int, stdw as int),
                )
            };
        lemma_isqrt_unique(stdw as int, std, var * (FX_ONE as int));
        assert(false);
    }
}

/// The posterior contract determines its output: two result triples whose
/// means carry the accumulated value and whose bands satisfy the band
/// specification, for the same model and query, are equal — a posterior
/// query is a pure read.
pub proof fn lemma_posterior_determined(
    m: GaussianProcess,
    xs: Seq<i128>,
    mean1: Seq<i128>,
    lo1: Seq<i128>,
    hi1: Seq<i128>,
    mean2: Seq<i128>,
    lo2: Seq<i128>,
    hi2: Seq<i128>,
)
    requires
        mean1.len() == xs.len() && lo1.len() == xs.len() && hi1.len() == xs.len(),
        mean2.len() == xs.len() && lo2.len() == xs.len() && hi2.len() == xs.len(),
        forall|i: int|
            0 <= i < xs.len() ==> post_mean_acc_o(m, xs, i, m.n() as nat) == Some(
                #[trigger] mean1[i] as int,
            ),
        forall|i: int|
            0 <= i < xs.len() ==> post_mean_acc_o(m, xs, i, m.n() as nat) == Some(
                #[trigger] mean2[i] as int,
            ),
        forall|i: int|
            0 <= i < xs.len() ==> #[trigger] post_band_ok(
                m,
                xs,
                i,
                mean1[i] as int,
                lo1[i] as int,
                hi1[i] as int,
            ),
        forall|i: int|
            0 <= i < xs.len() ==> #[trigger] post_band_ok(
                m,
                xs,
                i,
                mean2[i] as int,
                lo2[i] as int,
                hi2[i] as int,
            ),
    ensures
        mean1 == mean2,
        lo1 == lo2,
        hi1 == hi2,
{
    assert forall|i: int|
        0 <= i < xs.len() implies #[trigger] mean1[i] == mean2[i] && lo1[i] == lo2[i] && hi1[i]
        == hi2[i] by {
        assert(post_band_ok(m, xs, i, mean1[i] as int, lo1[i] as int, hi1[i] as int));
        assert(post_band_ok(m, xs, i, mean2[i] as int, lo2[i] as int, hi2[i] as int));
        let (v1, std1) = choose|v1: Seq<i128>, std1: i128|
            #![trigger fwd_solution(m.l, v1, kstar_row(m, xs, i)), (std1 as int) * (std1 as int)]
            {
                &&& fwd_solution(m.l, v1, kstar_row(m, xs, i))
                &&& 0 <= std1
                &&& match (
                    dot_v(v1, v1, m.n() as nat),
                    kernel_eval_v(m.kernel.params, xs[i] as int, xs[i] as int),
                ) {
                    (Some(expl), Some(kss)) => {
                        let var = if kss - expl < 0 {
                            0
                        } else {
                            kss - expl
                        };
                        &&& (std1 as int) * (std1 as int) <= var * (FX_ONE as int)
                        &&& var * (FX_ONE as int) < (std1 as int + 1) * (std1 as int + 1)
                        &&& hi1[i] as int == mean1[i] + fx_mul_v(FX_CI as int, std1 as int)
                        &&& lo1[i] as int == mean1[i] - fx_mul_v(FX_CI as int, std1 as int)
                    },
                    _ => false,
                }
            };
        let (v2, std2) = choose|v2: Seq<i128>, std2: i128|
            #![trigger fwd_solution(m.l, v2, kstar_row(m, xs, i)), (std2 as int) * (std2 as int)]
            {
                &&& fwd_solution(m.l, v2, kstar_row(m, xs, i))
                &&& 0 <= std2
                &&& match (
                    dot_v(v2, v2, m.n() as nat),
                    kernel_eval_v(m.kernel.params, xs[i] as int, xs[i] as int),
                ) {
                    (Some(expl), Some(kss)) => {
                        let var = if kss - expl < 0 {
                            0
                        } else {
                            kss - expl
                        };
                        &&& (std2 as int) * (std2 as int) <= var * (FX_ONE as int)
                        &&& var * (FX_ONE as int) < (std2 as int + 1) * (std2 as int + 1)
                        &&& hi2[i] as int == mean2[i] + fx_mul_v(FX_CI as int, std2 as int)
                        &&& lo2[i] as int == mean2[i] - fx_mul_v(FX_CI as int, std2 as int)
                    },
                    _ => false,
                }
            };
        lemma_fwd_solution_unique(m.l, v1, v2, kstar_row(m, xs, i));
        let expl = dot_v(v1, v1, m.n() as nat)->Some_0;
        let kss = kernel_eval_v(m.kernel.params, xs[i] as int, xs[i] as int)->Some_0;
        let var = if kss - expl < 0 {
            0
        } else {
            kss - expl
        };
        lemma_isqrt_unique(std1 as int, std2 as int, var * (FX_ONE as int));
    };
    assert forall|i: int| 0 <= i < xs.len() implies #[trigger] lo1[i] == lo2[i] by {
        assert(mean1[i] == mean2[i]);
    };
    assert forall|i: int| 0 <= i < xs.len() implies #[trigger] hi1[i] == hi2[i] by {
        assert(mean1[i] == mean2[i]);
    };
    assert(mean1 =~= mean2);
    assert(lo1 =~= lo2);
    assert(hi1 =~= hi2);
}

/// Guarded running sum of the logarithms of the first `k` diagonal entries
/// of a matrix: `None` as soon as a partial sum leaves the representable
/// range.
pub open spec fn diag_log_sum_o(l: Mat, k: nat) -> Option<int>
    decreases k,
{
    if k == 0 {
        Some(0)
    } else {
        match diag_log_sum_o(l, (k - 1) as nat) {
            None => None,
            Some(s) => fx_add_o(s, ln_v(l.at(k - 1, k - 1))),
        }
    }
}

/// Once the diagonal log sum has failed it stays failed.
proof fn lemma_diag_log_sum_none(l: Mat, k1: nat, k2: nat)
    requires
        diag_log_sum_o(l, k1) is None,
        k1 <= k2,
    ensures
        diag_log_sum_o(l, k2) is None,
    decreases k2,
{
    if k2 > k1 {
        lemma_diag_log_sum_none(l, k1, (k2 - 1) as nat);
    }
}

/// The log marginal likelihood the engine computes over a model's cached
/// state: `-(b . alpha)/2 - sum_i ln(L[i][i]) - (n/2)*ln(2*pi)`, each step
/// guarded.  The diagonal log sum is half the log determinant, so the middle
/// term is `-(1/2) * logdet(K + noise*I)`.
pub open spec fn lml_o(m: GaussianProcess) -> Option<int> {
    match dot_v(m.b@, m.alpha@, m.b@.len() as nat) {
        None => None,
        Some(quad) => match diag_log_sum_o(m.l, m.n() as nat) {
            None => None,
            Some(ls) => match fx_sub_o(-fx_divn_v(quad, 2), ls) {
                None => None,
                Some(s) => fx_sub_o(s, fx_divn_v(m.n() * (FX_LOG_2PI as int), 2)),
            },
        },
    }
}

impl GaussianProcess {
    /// The log marginal likelihood of the training targets under the fitted
    /// model, from the cached residuals, weights and Cholesky factor: the
    /// value of [`lml_o`].  The log determinant is computed as twice the sum
    /// of the logs of the factor's diagonal, never through the raw
    /// determinant.  The only failure is `NumericalInstability`, exactly when
    /// the mirrored computation fails.
    pub fn log_marginal_likelihood(&self) -> (r: Result<i128, GpError>)
        requires
            self.wf(),
        ensures
            match r {
                Ok(v) => lml_o(*self) == Some(v as int) && fx_fits(v as int),
                Err(e) => e == GpError::NumericalInstability && lml_o(*self) is None,
            },
    {
        let quad: i128 = match dot(&self.b, &self.alpha) {
            Ok(d) => d,
            Err(e) => {
                return Err(e);
            },
        };
        let n: usize = self.train_x.len();
        let mut ls: i128 = 0;
        let mut i: usize = 0;
        while i < n
            invariant
                self.wf(),
                n == self.n(),
                dot_v(self.b@, self.alpha@, self.b@.len() as nat) == Some(quad as int),
                i <= n,
                fx_fits(ls as int),
                diag_log_sum_o(self.l, i as nat) == Some(ls as int),
            decreases n - i,
        {
            let lii: i128 = self.l.get(i, i);
            let lnv: i128 = ln_fx(lii);
            ls = match fx_add(ls, lnv) {
                Some(v2) => v2,
                None => {
                    proof {
                        lemma_diag_log_sum_none(self.l, (i + 1) as nat, n as nat);
                    }
                    return Err(GpError::NumericalInstability);
                },
            };
            i = i + 1;
        }
        proof {
            assert(FX_MAX as int <= (FX_MAX as int) * 2) by (nonlinear_arith)
                requires
                    0 < FX_MAX,
            ;
            lemma_divn_abs_le(quad as int, 2, FX_MAX as int);
        }
        let half_quad: i128 = fx_divn_raw(quad, 2);
        let nlog: i128 = (n as i128) * FX_LOG_2PI;
        proof {
            assert(0 <= (n as int) * (FX_LOG_2PI as int) <= 16384 * (FX_LOG_2PI as int))
                by (nonlinear_arith)
                requires
                    0 <= n as int <= 16384,
                    0 < FX_LOG_2PI,
            ;
            lemma_divn_abs_le(nlog as int, 2, FX_MAX as int);
        }
        let half_nlog: i128 = fx_divn_raw(nlog, 2);
        let s1: i128 = match fx_sub(-half_quad, ls) {
            Some(v2) => v2,
            None => {
                return Err(GpError::NumericalInstability);
            },
        };
        let res: i128 = match fx_sub(s1, half_nlog) {
            Some(v2) => v2,
            None => {
                return Err(GpError::NumericalInstability);
            },
        };
        Ok(res)
    }
}

/// Component `c` of the kernel's analytic gradient at a pair of training
/// inputs, in the order amplitude, squared-exponential length scale,
/// periodic length scale, period.
pub open spec fn grad_cell_o(m: GaussianProcess, c: int, i: int, j: int) -> Option<int> {
    match kernel_grad_v(m.kernel.params, m.train_x@[i] as int, m.train_x@[j] as int) {
        None => None,
        Some(g) => Some(
            if c == 0 {
                g.0
            } else if c == 1 {
                g.1
            } else if c == 2 {
                g.2
            } else {
                g.3
            },
        ),
    }
}

/// `dk` is the elementwise derivative matrix for component `c`: every cell
/// is the kernel gradient's component at its pair of training inputs.
pub open spec fn grad_mat_of(m: GaussianProcess, c: int, dk: Mat) -> bool {
    &&& dk.wf()
    &&& dk.nrows() == m.n()
    &&& dk.ncols() == m.n()
    &&& forall|i: int, j: int|
        0 <= i < m.n() && 0 <= j < m.n() ==> grad_cell_o(m, c, i, j) == Some(
            #[trigger] dk.at(i, j),
        )
}

/// Guarded accumulation of one row of `alpha^T * dk * alpha` through the
/// first `k` columns.
pub open spec fn grad_row_o(dk: Mat, alpha: Seq<i128>, i: int, k: nat) -> Option<int>
    decreases k,
{
    if k == 0 {
        Some(0)
    } else {
        match grad_row_o(dk, alpha, i, (k - 1) as nat) {
            None => None,
            Some(s) => match fx_mul_o(dk.at(i, k - 1), alpha[k - 1] as int) {
                None => None,
                Some(p) => fx_add_o(s, p),
            },
        }
    }
}

/// Guarded accumulation of the bilinear form `alpha^T * dk * alpha` through
/// the first `k` rows.
pub open spec fn grad_quad_o(dk: Mat, alpha: Seq<i128>, k: nat) -> Option<int>
    decreases k,
{
    if k == 0 {
        Some(0)
    } else {
        match grad_quad_o(dk, alpha, (k - 1) as nat) {
            None => None,
            Some(q) => match grad_row_o(dk, alpha, k - 1, alpha.len()) {
                None => None,
                Some(s) => match fx_mul_o(alpha[k - 1] as int, s) {
                    None => None,
                    Some(w) => fx_add_o(q, w),
                },
            },
        }
    }
}

/// Column `j` of a matrix, as a vector.
pub open spec fn col_of(dk: Mat, j: int) -> Seq<i128> {
    Seq::new(dk.nrows() as nat, |t: int| dk.at(t, j) as i128)
}

/// Column `j` of the trace computation is solved: some intermediate solves
/// the forward system for the column, and `z2s[j]` solves the back system
/// after it — together, one column of `K^-1 * dk`.
pub open spec fn grad_col_solved(m: GaussianProcess, dk: Mat, z2s: Seq<Seq<i128>>, j: int) -> bool {
    exists|z1: Seq<i128>|
        #[trigger] fwd_solution(m.l, z1, col_of(dk, j)) && back_solution(m.l, z2s[j], z1)
}

/// Guarded accumulation of the trace of the solved columns: the sum of each
/// column's own diagonal coordinate.
pub open spec fn trace_acc_o(z2s: Seq<Seq<i128>>, k: nat) -> Option<int>
    decreases k,
{
    if k == 0 {
        Some(0)
    } else {
        match trace_acc_o(z2s, (k - 1) as nat) {
            None => None,
            Some(s) => fx_add_o(s, z2s[k - 1][k - 1] as int),
        }
    }
}

/// The trace accumulation reads only the first `k` solved columns.
proof fn lemma_trace_acc_prefix(z1: Seq<Seq<i128>>, z2: Seq<Seq<i128>>, k: nat)
    requires
        k <= z1.len(),
        k <= z2.len(),
        forall|t: int| 0 <= t < k ==> z1[t] == z2[t],
    ensures
        trace_acc_o(z1, k) == trace_acc_o(z2, k),
    decreases k,
{
    if k > 0 {
        lemma_trace_acc_prefix(z1, z2, (k - 1) as nat);
    }
}

/// The value of one directional term of the likelihood gradient:
/// `(alpha^T * dk * alpha - trace(K^-1 * dk)) / 2`, witnessed by the solved
/// columns of the trace.  The factor and solution uniqueness lemmas make the
/// witnesses, and so the value, unique.
pub open spec fn grad_term_ok(m: GaussianProcess, dk: Mat, v: int) -> bool {
    exists|z2s: Seq<Seq<i128>>|
        {
            &&& z2s.len() == m.n()
            &&& (forall|j: int| 0 <= j < m.n() ==> #[trigger] grad_col_solved(m, dk, z2s, j))
            &&& match (grad_quad_o(dk, m.alpha@, m.n() as nat), trace_acc_o(z2s, m.n() as nat)) {
                (Some(q), Some(tr)) => fx_add_ok(q, -tr) && v == fx_divn_v(q - tr, 2),
                _ => false,
            }
        }
}

/// The gradient of the log marginal likelihood with respect to the four
/// hyperparameters, in the order amplitude, squared-exponential length
/// scale, periodic length scale, period.
pub struct LikelihoodGradient {
    /// `d LL / d amplitude`.
    pub d_amplitude: i128,
    /// `d LL / d l_se`.
    pub d_length_scale_se: i128,
    /// `d LL / d l_p`.
    pub d_length_scale_periodic: i128,
    /// `d LL / d period`.
    pub d_period: i128,
}

impl GaussianProcess {
    /// One directional term of the likelihood gradient:
    /// `(alpha^T * dk * alpha - trace(K^-1 * dk)) / 2`, where the trace is
    /// obtained by solving against the cached Cholesky factor, column by
    /// column, and never by refactorizing.  The only failure is
    /// `NumericalInstability`.
    #[verifier::rlimit(50)]
    fn ll_grad_term(&self, dk: &Mat) -> (r: Result<i128, GpError>)
        requires
            self.wf(),
            dk.wf(),
            dk.nrows() == self.n(),
            dk.ncols() == self.n(),
        ensures
            match r {
                Ok(v) => fx_fits(v as int) && grad_term_ok(*self, *dk, v as int),
                Err(e) => e == GpError::NumericalInstability,
            },
    {
        let n: usize = self.train_x.len();
        // alpha^T * dk * alpha
        let mut quad: i128 = 0;
        let mut i: usize = 0;
        while i < n
            invariant
                self.wf(),
                dk.wf(),
                dk.nrows() == n,
                dk.ncols() == n,
                n == self.n(),
                i <= n,
                fx_fits(quad as int),
                grad_quad_o(*dk, self.alpha@, i as nat) == Some(quad as int),
            decreases n - i,
        {
            let mut s: i128 = 0;
            let mut t: usize = 0;
            while t < n
                invariant
                    self.wf(),
                    dk.wf(),
                    dk.nrows() == n,
                    dk.ncols() == n,
                    n == self.n(),
                    i < n,
                    t <= n,
                    fx_fits(s as int),
                    fx_fits(quad as int),
                    grad_quad_o(*dk, self.alpha@, i as nat) == Some(quad as int),
                    grad_row_o(*dk, self.alpha@, i as int, t as nat) == Some(s as int),
                decreases n - t,
            {
                let p: i128 = match fx_mul(dk.get(i, t), self.alpha[t]) {
                    Some(p) => p,
                    None => {
                        return Err(GpError::NumericalInstability);
                    },
                };
                s = match fx_add(s, p) {
                    Some(v2) => v2,
                    None => {
                        return Err(GpError::NumericalInstability);
                    },
                };
                t = t + 1;
            }
            let w: i128 = match fx_mul(self.alpha[i], s) {
                Some(p) => p,
                None => {
                    return Err(GpError::NumericalInstability);
                },
            };
            quad = match fx_add(quad, w) {
                Some(v2) => v2,
                None => {
                    return Err(GpError::NumericalInstability);
                },
            };
            i = i + 1;
        }
        // trace(K^-1 * dk): solve one column at a time against the cached
        // factor and accumulate the diagonal of the solution.
        let mut trace: i128 = 0;
        let mut j: usize = 0;
        let ghost mut z2s: Seq<Seq<i128>> = Seq::empty();
        while j < n
            invariant
                self.wf(),
                dk.wf(),
                dk.nrows() == n,
                dk.ncols() == n,
                n == self.n(),
                j <= n,
                fx_fits(trace as int),
                fx_fits(quad as int),
                grad_quad_o(*dk, self.alpha@, n as nat) == Some(quad as int),
                z2s.len() == j,
                forall|j2: int| 0 <= j2 < j ==> #[trigger] grad_col_solved(*self, *dk, z2s, j2),
                trace_acc_o(z2s, j as nat) == Some(trace as int),
            decreases n - j,
        {
            let mut col: Vec<i128> = Vec::new();
            let mut t: usize = 0;
            while t < n
                invariant
                    self.wf(),
                    dk.wf(),
                    dk.nrows() == n,
                    dk.ncols() == n,
                    n == self.n(),
                    j < n,
                    t <= n,
                    col@.len() == t,
                    all_fits(col@),
                    forall|t2: int| 0 <= t2 < t ==> #[trigger] col@[t2] as int == dk.at(t2, j as int),
                decreases n - t,
            {
                col.push(dk.get(t, j));
                t = t + 1;
            }
            proof {
                assert(col@ =~= col_of(*dk, j as int));
            }
            let z1 = match forward_solve(&self.l, &col) {
                Ok(z) => z,
                Err(e) => {
                    return Err(e);
                },
            };
            let z2 = match back_solve(&self.l, &z1) {
                Ok(z) => z,
                Err(e) => {
                    return Err(e);
                },
            };
            trace = match fx_add(trace, z2[j]) {
                Some(v2) => v2,
                None => {
                    return Err(GpError::NumericalInstability);
                },
            };
            proof {
                let ghost z2s_old = z2s;
                z2s = z2s.push(z2@);
                lemma_trace_acc_prefix(z2s_old, z2s, j as nat);
                assert(z2s[j as int] == z2@);
                assert(fwd_solution(self.l, z1@, col_of(*dk, j as int)));
                assert(back_solution(self.l, z2@, z1@));
                assert(grad_col_solved(*self, *dk, z2s, j as int));
                assert forall|j2: int| 0 <= j2 < j + 1 implies #[trigger] grad_col_solved(
                    *self,
                    *dk,
                    z2s,
                    j2,
                ) by {
                    if j2 < j {
                        assert(grad_col_solved(*self, *dk, z2s_old, j2));
                        assert(z2s[j2] == z2s_old[j2]);
                        let z1w = choose|z1w: Seq<i128>|
                            #[trigger] fwd_solution(self.l, z1w, col_of(*dk, j2))
                                && back_solution(self.l, z2s_old[j2], z1w);
                        assert(fwd_solution(self.l, z1w, col_of(*dk, j2)) && back_solution(
                            self.l,
                            z2s[j2],
                            z1w,
                        ));
                    }
                };
            }
            j = j + 1;
        }
        let diff: i128 = match fx_sub(quad, trace) {
            Some(v2) => v2,
            None => {
                return Err(GpError::NumericalInstability);
            },
        };
        proof {
            assert(FX_MAX as int <= (FX_MAX as int) * 2) by (nonlinear_arith)
                requires
                    0 < FX_MAX,
            ;
            lemma_divn_abs_le(diff as int, 2, FX_MAX as int);
        }
        let v: i128 = fx_divn_raw(diff, 2);
        proof {
            assert(grad_term_ok(*self, *dk, v as int));
        }
        Ok(v)
    }

    /// The analytic gradient of the log marginal likelihood with respect to
    /// the four hyperparameters, using the standard identity
    /// `dLL/dt = (1/2) * trace((alpha*alpha^T - K^-1) * dK/dt)`.  Each
    /// elementwise derivative matrix is built from the kernel's analytic
    /// derivative and pinned by [`grad_mat_of`]; the four solves reuse the
    /// cached Cholesky factor, and each returned component is the witnessed
    /// value of [`grad_term_ok`], unique by the factor and solution
    /// uniqueness lemmas.  The only failure is `NumericalInstability`.
    #[verifier::rlimit(50)]
    pub fn gradient(&self) -> (r: Result<LikelihoodGradient, GpError>)
        requires
            self.wf(),
        ensures
            match r {
                Ok(g) => {
                    &&& fx_fits(g.d_amplitude as int)
                    &&& fx_fits(g.d_length_scale_se as int)
                    &&& fx_fits(g.d_length_scale_periodic as int)
                    &&& fx_fits(g.d_period as int)
                    &&& exists|dk: Mat|
                        #[trigger] grad_mat_of(*self, 0, dk) && grad_term_ok(
                            *self,
                            dk,
                            g.d_amplitude as int,
                        )
                    &&& exists|dk: Mat|
                        #[trigger] grad_mat_of(*self, 1, dk) && grad_term_ok(
                            *self,
                            dk,
                            g.d_length_scale_se as int,
                        )
                    &&& exists|dk: Mat|
                        #[trigger] grad_mat_of(*self, 2, dk) && grad_term_ok(
                            *self,
                            dk,
                            g.d_length_scale_periodic as int,
                        )
                    &&& exists|dk: Mat|
                        #[trigger] grad_mat_of(*self, 3, dk) && grad_term_ok(
                            *self,
                            dk,
                            g.d_period as int,
                        )
                },
                Err(e) => e == GpError::NumericalInstability,
            },
    {
        let n: usize = self.train_x.len();
        let mut m0 = Mat::zeros(n, n);
        let mut m1 = Mat::zeros(n, n);
        let mut m2 = Mat::zeros(n, n);
        let mut m3 = Mat::zeros(n, n);
        let mut i: usize = 0;
        while i < n
            invariant
                self.wf(),
                n == self.n(),
                m0.wf() && m0.nrows() == n && m0.ncols() == n,
                m1.wf() && m1.nrows() == n && m1.ncols() == n,
                m2.wf() && m2.nrows() == n && m2.ncols() == n,
                m3.wf() && m3.nrows() == n && m3.ncols() == n,
                i <= n,
                forall|i2: int, j2: int|
                    0 <= i2 < i && 0 <= j2 < n ==> grad_cell_o(*self, 0, i2, j2) == Some(
                        #[trigger] m0.at(i2, j2),
                    ),
                forall|i2: int, j2: int|
                    0 <= i2 < i && 0 <= j2 < n ==> grad_cell_o(*self, 1, i2, j2) == Some(
                        #[trigger] m1.at(i2, j2),
                    ),
                forall|i2: int, j2: int|
                    0 <= i2 < i && 0 <= j2 < n ==> grad_cell_o(*self, 2, i2, j2) == Some(
                        #[trigger] m2.at(i2, j2),
                    ),
                forall|i2: int, j2: int|
                    0 <= i2 < i && 0 <= j2 < n ==> grad_cell_o(*self, 3, i2, j2) == Some(
                        #[trigger] m3.at(i2, j2),
                    ),
            decreases n - i,
        {
            let mut j: usize = 0;
            while j < n
                invariant
                    self.wf(),
                    n == self.n(),
                    m0.wf() && m0.nrows() == n && m0.ncols() == n,
                    m1.wf() && m1.nrows() == n && m1.ncols() == n,
                    m2.wf() && m2.nrows() == n && m2.ncols() == n,
                    m3.wf() && m3.nrows() == n && m3.ncols() == n,
                    i < n,
                    j <= n,
                    forall|i2: int, j2: int|
                        0 <= i2 < i && 0 <= j2 < n ==> grad_cell_o(*self, 0, i2, j2) == Some(
                            #[trigger] m0.at(i2, j2),
                        ),
                    forall|i2: int, j2: int|
                        0 <= i2 < i && 0 <= j2 < n ==> grad_cell_o(*self, 1, i2, j2) == Some(
                            #[trigger] m1.at(i2, j2),
                        ),
                    forall|i2: int, j2: int|
                        0 <= i2 < i && 0 <= j2 < n ==> grad_cell_o(*self, 2, i2, j2) == Some(
                            #[trigger] m2.at(i2, j2),
                        ),
                    forall|i2: int, j2: int|
                        0 <= i2 < i && 0 <= j2 < n ==> grad_cell_o(*self, 3, i2, j2) == Some(
                            #[trigger] m3.at(i2, j2),
                        ),
                    forall|j2: int|
                        0 <= j2 < j ==> grad_cell_o(*self, 0, i as int, j2) == Some(
                            #[trigger] m0.at(i as int, j2),
                        ),
                    forall|j2: int|
                        0 <= j2 < j ==> grad_cell_o(*self, 1, i as int, j2) == Some(
                            #[trigger] m1.at(i as int, j2),
                        ),
                    forall|j2: int|
                        0 <= j2 < j ==> grad_cell_o(*self, 2, i as int, j2) == Some(
                            #[trigger] m2.at(i as int, j2),
                        ),
                    forall|j2: int|
                        0 <= j2 < j ==> grad_cell_o(*self, 3, i as int, j2) == Some(
                            #[trigger] m3.at(i as int, j2),
                        ),
                decreases n - j,
            {
                let g: KernelGrad = match self.kernel.derivative(self.train_x[i], self.train_x[j]) {
                    Ok(g) => g,
                    Err(e) => {
                        return Err(e);
                    },
                };
                m0.set(i, j, g.d_amplitude);
                m1.set(i, j, g.d_length_scale_se);
                m2.set(i, j, g.d_length_scale_periodic);
                m3.set(i, j, g.d_period);
                j = j + 1;
            }
            i = i + 1;
        }
        let g0: i128 = match self.ll_grad_term(&m0) {
            Ok(v) => v,
            Err(e) => {
                return Err(e);
            },
        };
        let g1: i128 = match self.ll_grad_term(&m1) {
            Ok(v) => v,
            Err(e) => {
                return Err(e);
            },
        };
        let g2: i128 = match self.ll_grad_term(&m2) {
            Ok(v) => v,
            Err(e) => {
                return Err(e);
            },
        };
        let g3: i128 = match self.ll_grad_term(&m3) {
            Ok(v) => v,
            Err(e) => {
                return Err(e);
            },
        };
        proof {
            assert(grad_mat_of(*self, 0, m0));
            assert(grad_mat_of(*self, 1, m1));
            assert(grad_mat_of(*self, 2, m2));
            assert(grad_mat_of(*self, 3, m3));
        }
        Ok(LikelihoodGradient {
            d_amplitude: g0,
            d_length_scale_se: g1,
            d_length_scale_periodic: g2,
            d_period: g3,
        })
    }
}

} // verus!
