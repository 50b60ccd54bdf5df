//! Behavioral tests of the fixed-point engine: factorization, fitting,
//! posterior prediction, and the error taxonomy.

use dtgaussprocess::kernel::{ker_mat, HyperParameters, Kernel};
use dtgaussprocess::mat::{back_solve, cholesky as cholesky_fx, forward_solve, Mat};
use dtgaussprocess::model::GaussianProcess;
use dtgaussprocess::GpError;

const ONE_F: f64 = 1099511627776.0;

fn fx(v: f64) -> i128 {
    (v * ONE_F).round() as i128
}

fn fl(v: i128) -> f64 {
    (v as f64) / ONE_F
}

fn fx_vec(vs: &[f64]) -> Vec<i128> {
    vs.iter().map(|v| fx(*v)).collect()
}

fn default_params() -> HyperParameters {
    HyperParameters {
        amplitude: fx(1.0),
        length_scale_se: fx(1.0),
        length_scale_periodic: fx(1.0),
        period: fx(1.0),
    }
}

#[test]
fn cholesky() {
    // A = [[3, 2], [2, 3]], b = [1, 1]: solving A*x = b recovers b.
    let mut a = Mat::zeros(2, 2);
    a.set(0, 0, fx(3.0));
    a.set(0, 1, fx(2.0));
    a.set(1, 0, fx(2.0));
    a.set(1, 1, fx(3.0));
    let l = match cholesky_fx(&a) {
        Ok(l) => l,
        Err(_) => panic!("Unable to compute cholesky"),
    };
    let b: Vec<i128> = vec![fx(1.0), fx(1.0)];
    let z = forward_solve(&l, &b).unwrap();
    let x = back_solve(&l, &z).unwrap();
    for i in 0..2 {
        let mut ax = 0.0f64;
        for j in 0..2 {
            ax += fl(a.get(i, j)) * fl(x[j]);
        }
        assert!((ax - fl(b[i])).abs() <= 1e-9, "residual {}", ax - fl(b[i]));
    }
}

#[test]
fn cholesky_reconstructs_matrix() {
    // A = [[3, 2], [2, 3]]: L * L^T reproduces A within 1e-9.
    let mut a = Mat::zeros(2, 2);
    a.set(0, 0, fx(3.0));
    a.set(0, 1, fx(2.0));
    a.set(1, 0, fx(2.0));
    a.set(1, 1, fx(3.0));
    let l = cholesky_fx(&a).expect("Unable to compute cholesky");
    for i in 0..2 {
        for j in 0..2 {
            let mut llt = 0.0f64;
            for t in 0..2 {
                llt += fl(l.get(i, t)) * fl(l.get(j, t));
            }
            assert!((llt - fl(a.get(i, j))).abs() <= 1e-9);
        }
    }
}

#[test]
fn gp() {
    // The regularized kernel matrix over x = [1, 2, 3, 4] with unit noise:
    // K * alpha recovers y = [1, 10, 20, 1] within 1e-9.
    let x = fx_vec(&[1.0, 2.0, 3.0, 4.0]);
    let y = fx_vec(&[1.0, 10.0, 20.0, 1.0]);
    let ker = Kernel::new(default_params()).unwrap();
    let mut kmat = ker_mat(&ker, &x, &x).unwrap();
    for i in 0..4 {
        let d = kmat.get(i, i) + fx(1.0);
        kmat.set(i, i, d);
    }
    let chol = match cholesky_fx(&kmat) {
        Ok(l) => l,
        Err(_) => panic!("Unable to compute cholesky"),
    };
    let z = forward_solve(&chol, &y).unwrap();
    let alpha = back_solve(&chol, &z).unwrap();
    for i in 0..4 {
        let mut ka = 0.0f64;
        for j in 0..4 {
            ka += fl(kmat.get(i, j)) * fl(alpha[j]);
        }
        let yi = fl(y[i]);
        assert!((ka - yi).abs() <= 1e-9 * yi.abs().max(1.0), "row {}: {} vs {}", i, ka, yi);
    }
}

#[test]
fn fit_consistency() {
    // (K + noise*I) * alpha recovers the residuals y - mean(y) within 1e-6.
    let x = fx_vec(&[1.0, 2.0, 3.0, 4.0]);
    let y = fx_vec(&[1.0, 10.0, 20.0, 1.0]);
    let noise = fx(0.5);
    let model = GaussianProcess::new(&x, &y, default_params(), noise).unwrap();
    let ker = Kernel::new(default_params()).unwrap();
    let kmat = ker_mat(&ker, &x, &x).unwrap();
    for i in 0..4 {
        let mut ka = 0.0f64;
        for j in 0..4 {
            let mut kij = fl(kmat.get(i, j));
            if i == j {
                kij += fl(noise);
            }
            ka += kij * fl(model.alpha[j]);
        }
        let bi = fl(model.b[i]);
        assert!((ka - bi).abs() <= 1e-6, "row {}: {} vs {}", i, ka, bi);
    }
}

#[test]
fn interpolation_limit() {
    // With nearly no noise the posterior mean at the training points is the
    // training targets, within 1e-2.
    let x = fx_vec(&[1.0, 2.0, 3.0, 4.0]);
    let yv = [1.0, 10.0, 20.0, 1.0];
    let y = fx_vec(&yv);
    let model = GaussianProcess::new(&x, &y, default_params(), fx(1e-6)).unwrap();
    let post = model.posterior(&x).unwrap();
    let mean = post.mean();
    assert_eq!(mean.len(), 4);
    for i in 0..4 {
        assert!((fl(mean[i]) - yv[i]).abs() <= 1e-2, "at {}: {} vs {}", i, fl(mean[i]), yv[i]);
    }
}

#[test]
fn posterior_bounds_bracket_mean() {
    // ciLow[i] <= mean[i] <= ciHigh[i] for every query point.
    let x = fx_vec(&[1.0, 2.0, 3.0, 4.0]);
    let y = fx_vec(&[1.0, 10.0, 20.0, 1.0]);
    let model = GaussianProcess::new(&x, &y, default_params(), fx(0.5)).unwrap();
    let xs = fx_vec(&[0.5, 1.0, 1.5, 2.0, 2.5, 3.0, 3.5, 4.0, 4.5]);
    let post = model.posterior(&xs).unwrap();
    let mean = post.mean();
    let lo = post.ci_low();
    let hi = post.ci_high();
    assert_eq!(mean.len(), xs.len());
    assert_eq!(lo.len(), xs.len());
    assert_eq!(hi.len(), xs.len());
    for i in 0..xs.len() {
        assert!(lo[i] <= mean[i] && mean[i] <= hi[i]);
        // The band is exactly symmetric around the mean.
        assert_eq!(hi[i] - mean[i], mean[i] - lo[i]);
    }
}

#[test]
fn posterior_variance_positive_away_from_data() {
    // Far from the training data the confidence band is wide: the bounds
    // differ by nearly twice the confidence multiplier times the amplitude.
    let x = fx_vec(&[1.0, 2.0]);
    let y = fx_vec(&[1.0, 2.0]);
    let model = GaussianProcess::new(&x, &y, default_params(), fx(0.1)).unwrap();
    let xs = fx_vec(&[50.25]);
    let post = model.posterior(&xs).unwrap();
    let width = fl(post.ci_high()[0]) - fl(post.ci_low()[0]);
    assert!(width > 2.0 * 1.95 * 0.9, "width {}", width);
}

#[test]
fn dimension_mismatch_rejected() {
    let x = fx_vec(&[1.0, 2.0]);
    let y = fx_vec(&[1.0]);
    assert!(matches!(
        GaussianProcess::new(&x, &y, default_params(), fx(0.1)),
        Err(GpError::DimensionMismatch)
    ));
    let empty: Vec<i128> = Vec::new();
    assert!(matches!(
        GaussianProcess::new(&empty, &empty, default_params(), fx(0.1)),
        Err(GpError::DimensionMismatch)
    ));
}

#[test]
fn invalid_hyperparameters_rejected() {
    let mut p = default_params();
    p.length_scale_se = 0;
    assert!(matches!(Kernel::new(p), Err(GpError::InvalidHyperParameters)));
    let x = fx_vec(&[1.0, 2.0]);
    let y = fx_vec(&[1.0, 2.0]);
    assert!(matches!(
        GaussianProcess::new(&x, &y, p, fx(0.1)),
        Err(GpError::InvalidHyperParameters)
    ));
    let mut q = default_params();
    q.period = -fx(1.0);
    assert!(matches!(Kernel::new(q), Err(GpError::InvalidHyperParameters)));
}

#[test]
fn duplicate_inputs_without_noise_not_positive_definite() {
    // Two identical inputs and no regularization: the kernel matrix is
    // singular and the factorization must fail, recoverably.
    let x = fx_vec(&[1.0, 1.0]);
    let y = fx_vec(&[2.0, 3.0]);
    assert!(matches!(
        GaussianProcess::new(&x, &y, default_params(), 0),
        Err(GpError::NonPositiveDefinite)
    ));
    // The same data with enough noise fits fine.
    assert!(GaussianProcess::new(&x, &y, default_params(), fx(1.0)).is_ok());
}

#[test]
fn overflow_surfaces_as_numerical_instability() {
    // Inputs whose squared difference leaves the representable range.
    let x = fx_vec(&[0.0, 3000000.0]);
    let y = fx_vec(&[1.0, 2.0]);
    assert!(matches!(
        GaussianProcess::new(&x, &y, default_params(), fx(0.1)),
        Err(GpError::NumericalInstability)
    ));
    // A hyperparameter beyond the representable range is rejected too.
    let mut p = default_params();
    p.amplitude = i128::MAX / 2;
    assert!(matches!(Kernel::new(p), Err(GpError::NumericalInstability)));
}

#[test]
fn kernel_diagonal_near_amplitude() {
    // The covariance of a point with itself is one constant of the
    // hyperparameters, never above the amplitude and within rounding of it.
    let p = HyperParameters {
        amplitude: fx(1.3),
        length_scale_se: fx(0.9),
        length_scale_periodic: fx(1.1),
        period: fx(0.7),
    };
    let ker = Kernel::new(p).unwrap();
    let d0 = ker.eval(fx(0.25), fx(0.25)).unwrap();
    for a in [-7.5f64, 0.0, 1.0, 3.25] {
        let d = ker.eval(fx(a), fx(a)).unwrap();
        assert_eq!(d, d0);
        assert!(d <= p.amplitude);
        assert!((fl(d) - 1.3).abs() <= 1e-8, "diagonal {}", fl(d));
    }
}

#[test]
fn kernel_matches_closed_form() {
    // One exact spot check of the covariance formula against a floating
    // reference evaluation.
    let p = HyperParameters {
        amplitude: fx(1.3),
        length_scale_se: fx(0.9),
        length_scale_periodic: fx(1.1),
        period: fx(0.7),
    };
    let ker = Kernel::new(p).unwrap();
    let (a, b) = (0.3f64, 1.7f64);
    let got = fl(ker.eval(fx(a), fx(b)).unwrap());
    let d = b - a;
    let se = -d * d / (2.0 * 0.9 * 0.9);
    let pe = -(2.0 / (1.1 * 1.1)) * (std::f64::consts::PI * d.abs() / 0.7).sin().powi(2);
    let want = 1.3 * (se + pe).exp();
    assert!((got - want).abs() <= 1e-7, "{} vs {}", got, want);
}
