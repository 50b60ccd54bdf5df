//! Gaussian-process regression over scalar inputs, in fixed-point arithmetic.
//!
//! Every quantity the engine works with is a real number represented as a
//! signed 128-bit integer carrying 40 fractional bits (see [`fx`]).  The
//! covariance kernel, the Cholesky factorization, the triangular solves, the
//! log-marginal-likelihood and its gradient, and the hyperparameter optimizer
//! are all implemented and verified over that representation.

pub mod fx;
pub mod kernel;
pub mod mat;
pub mod model;
pub mod optimize;
pub mod trans;

pub use kernel::{HyperParameters, Kernel, KernelGrad};
pub use model::{GPPosterior, GaussianProcess, LikelihoodGradient};
pub use optimize::{optimize, OptimizationResult, OptimizerStatus};

use vstd::prelude::*;

verus! {

/// A failure of the engine.  No operation aborts the process: every failure
/// is returned as one of these values.
#[derive(Clone, Copy, Debug, PartialEq, Eq, Structural)]
pub enum GpError {
    /// The training input and target sequences differ in length, or are empty.
    DimensionMismatch,
    /// A kernel hyperparameter is not strictly positive.
    InvalidHyperParameters,
    /// The regularized covariance matrix has no Cholesky factorization.
    NonPositiveDefinite,
    /// An intermediate value left the representable fixed-point range.
    NumericalInstability,
}

} // verus!
