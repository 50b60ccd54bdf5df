//! Scenario tests of the engine's stated properties: kernel symmetry, the
//! analytic gradient against numerical differentiation, the optimizer's
//! monotonic improvement, and the factorization round trip.

use dtgaussprocess::kernel::{ker_mat, HyperParameters, Kernel};
use dtgaussprocess::model::GaussianProcess;
use dtgaussprocess::optimize::optimize;

const ONE_F: f64 = 1099511627776.0;

fn fx(v: f64) -> i128 {
    (v * ONE_F).round() as i128
}

fn fl(v: i128) -> f64 {
    (v as f64) / ONE_F
}

fn fx_vec(vs: &[f64]) -> Vec<i128> {
    vs.iter().map(|v| fx(*v)).collect()
}

/// A small deterministic generator for sampled inputs.
struct Lcg(u64);

impl Lcg {
    fn next_unit(&mut self) -> f64 {
        self.0 = self
            .0
            .wrapping_mul(6364136223846793005)
            .wrapping_add(1442695040888963407);
        ((self.0 >> 11) as f64) / ((1u64 << 53) as f64)
    }
}

#[test]
fn kernel_symmetry_sampled() {
    // k(a, b) == k(b, a) exactly, over sampled pairs including negative and
    // fractional inputs.
    let p = HyperParameters {
        amplitude: fx(1.4),
        length_scale_se: fx(0.8),
        length_scale_periodic: fx(1.2),
        period: fx(0.9),
    };
    let ker = Kernel::new(p).unwrap();
    let mut rng = Lcg(7);
    for _ in 0..50 {
        let a = fx(20.0 * rng.next_unit() - 10.0);
        let b = fx(20.0 * rng.next_unit() - 10.0);
        let kab = ker.eval(a, b).unwrap();
        let kba = ker.eval(b, a).unwrap();
        assert_eq!(kab, kba);
    }
}

#[test]
fn gradient_matches_central_difference() {
    // The analytic gradient of the log marginal likelihood agrees with a
    // central-difference numerical gradient within 1e-4 relative error, for
    // ten sampled positive hyperparameter vectors.
    let x = fx_vec(&[0.9, 1.6, 2.8, 3.5]);
    let y = fx_vec(&[0.4, 1.1, -0.6, 0.9]);
    let noise = fx(0.5);
    let mut rng = Lcg(42);
    let h = 1e-3f64;
    for _ in 0..10 {
        let params = HyperParameters {
            amplitude: fx(0.7 + rng.next_unit()),
            length_scale_se: fx(0.7 + rng.next_unit()),
            length_scale_periodic: fx(0.7 + rng.next_unit()),
            period: fx(0.7 + rng.next_unit()),
        };
        let model = GaussianProcess::new(&x, &y, params, noise).unwrap();
        let g = model.gradient().unwrap();
        let analytic = [
            fl(g.d_amplitude),
            fl(g.d_length_scale_se),
            fl(g.d_length_scale_periodic),
            fl(g.d_period),
        ];
        for c in 0..4 {
            let mut up = params;
            let mut dn = params;
            match c {
                0 => {
                    up.amplitude += fx(h);
                    dn.amplitude -= fx(h);
                },
                1 => {
                    up.length_scale_se += fx(h);
                    dn.length_scale_se -= fx(h);
                },
                2 => {
                    up.length_scale_periodic += fx(h);
                    dn.length_scale_periodic -= fx(h);
                },
                _ => {
                    up.period += fx(h);
                    dn.period -= fx(h);
                },
            }
            let ll_up = fl(
                GaussianProcess::new(&x, &y, up, noise)
                    .unwrap()
                    .log_marginal_likelihood()
                    .unwrap(),
            );
            let ll_dn = fl(
                GaussianProcess::new(&x, &y, dn, noise)
                    .unwrap()
                    .log_marginal_likelihood()
                    .unwrap(),
            );
            let numeric = (ll_up - ll_dn) / (2.0 * h);
            let scale = numeric.abs().max(analytic[c].abs()).max(1e-3);
            let rel = (analytic[c] - numeric).abs() / scale;
            assert!(rel <= 1e-4, "component {}: analytic {} numeric {}", c, analytic[c], numeric);
        }
    }
}

#[test]
fn optimizer_never_worse_than_start() {
    // The optimizer's final negative log likelihood is at most the value at
    // the starting hyperparameters, and the reported starting value matches
    // an independent evaluation.
    let x = fx_vec(&[1.0, 2.0, 3.0, 4.0]);
    let y = fx_vec(&[1.0, 10.0, 20.0, 1.0]);
    let noise = fx(0.5);
    let initial = HyperParameters {
        amplitude: fx(1.0),
        length_scale_se: fx(1.0),
        length_scale_periodic: fx(1.0),
        period: fx(1.0),
    };
    let res = optimize(&x, &y, noise, initial).unwrap();
    assert!(res.final_neg_log_likelihood <= res.initial_neg_log_likelihood);
    let model0 = GaussianProcess::new(&x, &y, initial, noise).unwrap();
    let nll0 = -model0.log_marginal_likelihood().unwrap();
    assert_eq!(res.initial_neg_log_likelihood, nll0);
    // The returned parameters reproduce the reported final value.
    let model1 = GaussianProcess::new(&x, &y, res.params, noise).unwrap();
    let nll1 = -model1.log_marginal_likelihood().unwrap();
    assert_eq!(res.final_neg_log_likelihood, nll1);
}

#[test]
fn optimize_params_uses_default_start() {
    let x = fx_vec(&[1.0, 2.0, 3.0, 4.0]);
    let y = fx_vec(&[1.0, 10.0, 20.0, 1.0]);
    let noise = fx(0.5);
    let res = GaussianProcess::optimize_params(&x, &y, noise).unwrap();
    assert!(res.final_neg_log_likelihood <= res.initial_neg_log_likelihood);
    let default = HyperParameters {
        amplitude: fx(1.0),
        length_scale_se: fx(1.0),
        length_scale_periodic: fx(1.0),
        period: fx(1.0),
    };
    let model0 = GaussianProcess::new(&x, &y, default, noise).unwrap();
    assert_eq!(res.initial_neg_log_likelihood, -model0.log_marginal_likelihood().unwrap());
}

#[test]
fn factorization_round_trip() {
    // Fitting with zero noise and distinct inputs, then re-deriving the
    // kernel matrix from the stored factor, reproduces it within floating
    // tolerance.
    let x = fx_vec(&[0.0, 2.0, 5.0, 9.0]);
    let y = fx_vec(&[1.0, -1.0, 2.0, 0.5]);
    let params = HyperParameters {
        amplitude: fx(1.0),
        length_scale_se: fx(1.0),
        length_scale_periodic: fx(1.0),
        period: fx(1.0),
    };
    let model = GaussianProcess::new(&x, &y, params, 0).unwrap();
    let ker = Kernel::new(params).unwrap();
    let kmat = ker_mat(&ker, &x, &x).unwrap();
    for i in 0..4 {
        for j in 0..4 {
            let mut llt = 0.0f64;
            for t in 0..4 {
                llt += fl(model.l.get(i, t)) * fl(model.l.get(j, t));
            }
            assert!(
                (llt - fl(kmat.get(i, j))).abs() <= 1e-8,
                "cell ({}, {}): {} vs {}",
                i,
                j,
                llt,
                fl(kmat.get(i, j))
            );
        }
    }
}

#[test]
fn log_marginal_likelihood_matches_formula() {
    // The likelihood agrees with the textbook form computed in floating
    // point from the model's cached state.
    let x = fx_vec(&[1.0, 2.0, 3.0, 4.0]);
    let y = fx_vec(&[1.0, 10.0, 20.0, 1.0]);
    let model = GaussianProcess::new(
        &x,
        &y,
        HyperParameters {
            amplitude: fx(1.0),
            length_scale_se: fx(1.0),
            length_scale_periodic: fx(1.0),
            period: fx(1.0),
        },
        fx(0.5),
    )
    .unwrap();
    let got = fl(model.log_marginal_likelihood().unwrap());
    let n = 4usize;
    let mut quad = 0.0f64;
    for i in 0..n {
        quad += fl(model.b[i]) * fl(model.alpha[i]);
    }
    let mut logdet_half = 0.0f64;
    for i in 0..n {
        logdet_half += fl(model.l.get(i, i)).ln();
    }
    let want = -0.5 * quad - logdet_half - (n as f64 / 2.0) * (2.0 * std::f64::consts::PI).ln();
    assert!((got - want).abs() <= 1e-6, "{} vs {}", got, want);
}
