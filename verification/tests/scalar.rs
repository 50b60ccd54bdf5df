//! Spot checks of the fixed-point scalar layer: exact values where the
//! arithmetic admits them, tight tolerances elsewhere.

use dtgaussprocess::fx::{fx_add, fx_div, fx_mul, fx_sub, FX_MAX, FX_ONE};
use dtgaussprocess::trans::{exp_neg, fx_sqrt, ln_fx, sin2pi, sin_cos_pi, sin_sq_pi, FX_LN2};

const ONE_F: f64 = 1099511627776.0;

fn fx(v: f64) -> i128 {
    (v * ONE_F).round() as i128
}

fn fl(v: i128) -> f64 {
    (v as f64) / ONE_F
}

#[test]
fn fixed_point_operations_exact() {
    // 1.5 * 2 = 3, 3 / 2 = 1.5, 1.25 + 0.75 = 2, 1 - 2.5 = -1.5: all exact
    // in fixed point.
    assert_eq!(fx_mul(fx(1.5), fx(2.0)), Some(fx(3.0)));
    assert_eq!(fx_div(fx(3.0), fx(2.0)), Some(fx(1.5)));
    assert_eq!(fx_add(fx(1.25), fx(0.75)), Some(fx(2.0)));
    assert_eq!(fx_sub(fx(1.0), fx(2.5)), Some(fx(-1.5)));
    // Out-of-range operands are reported, not wrapped.
    assert_eq!(fx_mul(FX_MAX, FX_MAX), None);
    assert_eq!(fx_add(FX_MAX, FX_MAX), None);
    assert_eq!(fx_div(FX_ONE, 0), None);
    assert_eq!(fx_div(FX_ONE, -FX_ONE), None);
}

#[test]
fn square_root_exact_on_perfect_squares() {
    assert_eq!(fx_sqrt(fx(4.0)), fx(2.0));
    assert_eq!(fx_sqrt(fx(0.25)), fx(0.5));
    assert_eq!(fx_sqrt(0), 0);
    let r = fl(fx_sqrt(fx(3.0)));
    assert!((r - 3.0f64.sqrt()).abs() <= 1e-9);
}

#[test]
fn exponential_values() {
    // e^0 is exactly one in fixed point; other points match the floating
    // reference tightly.
    assert_eq!(exp_neg(0), FX_ONE);
    for v in [0.1f64, 0.5, 1.0, 2.0, 5.0, 13.7] {
        let got = fl(exp_neg(fx(v)));
        assert!((got - (-v).exp()).abs() <= 1e-8, "exp(-{}): {}", v, got);
    }
    // Far past the representable magnitude of the true value it underflows
    // to zero.
    assert_eq!(exp_neg(fx(40.0)), 0);
}

#[test]
fn sine_values() {
    // sin(2*pi*t) at quarter-period points and against the reference.
    assert_eq!(sin2pi(0), 0);
    assert_eq!(sin2pi(fx(0.5)), 0);
    assert!((fl(sin2pi(fx(0.25))) - 1.0).abs() <= 1e-9);
    assert!((fl(sin2pi(fx(0.75))) + 1.0).abs() <= 1e-9);
    for v in [0.1f64, 0.3, 0.6, 1.4, 7.8] {
        let got = fl(sin2pi(fx(v)));
        let want = (2.0 * std::f64::consts::PI * v).sin();
        assert!((got - want).abs() <= 1e-8, "sin2pi({}): {} vs {}", v, got, want);
    }
    // sin^2(pi*t) vanishes at integers (up to the quarter-wave rounding of
    // a few fixed-point units) and is one at half-integers.
    assert!(fl(sin_sq_pi(fx(1.0))).abs() <= 1e-11);
    assert!(fl(sin_sq_pi(fx(3.0))).abs() <= 1e-11);
    assert!((fl(sin_sq_pi(fx(0.5))) - 1.0).abs() <= 1e-9);
    // sin(pi*t)*cos(pi*t) = sin(2*pi*t)/2.
    for v in [0.2f64, 0.9, 2.3] {
        let got = fl(sin_cos_pi(fx(v)));
        let want = (std::f64::consts::PI * v).sin() * (std::f64::consts::PI * v).cos();
        assert!((got - want).abs() <= 1e-8, "sincos({}): {} vs {}", v, got, want);
    }
}

#[test]
fn logarithm_values() {
    // ln(1) is exactly zero and ln(2) is exactly the stored constant; other
    // points match the floating reference tightly.
    assert_eq!(ln_fx(FX_ONE), 0);
    assert_eq!(ln_fx(2 * FX_ONE), FX_LN2);
    for v in [0.001f64, 0.3, 1.7, 10.0, 12345.0] {
        let got = fl(ln_fx(fx(v)));
        assert!((got - v.ln()).abs() <= 1e-7, "ln({}): {} vs {}", v, got, v.ln());
    }
}
