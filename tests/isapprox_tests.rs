use uniquetol::{isapprox, is_nan, order_key, NanComparison, Tols, TolsError};

fn envelope(x: u64, y: u64, t: Tols) -> bool {
    let (x, y) = (f64::from_bits(x), f64::from_bits(y));
    let (atol, rtol) = (f64::from_bits(t.atol), f64::from_bits(t.rtol));
    let tol = atol.max(rtol * x.abs().max(y.abs()));
    (x - y).abs() <= tol
}

fn tols(atol: f64, rtol: f64) -> Tols {
    Tols::new(atol.to_bits(), rtol.to_bits()).unwrap()
}

fn approx(x: f64, y: f64, t: Tols, nan_cmp: NanComparison) -> bool {
    isapprox(x.to_bits(), y.to_bits(), t, nan_cmp, &envelope)
}

#[test]
fn tols_reject_negative_atol() {
    let r = Tols::new((-1.0f64).to_bits(), 0.0f64.to_bits());
    assert_eq!(r, Err(TolsError::NegativeAtol((-1.0f64).to_bits())));
}

#[test]
fn tols_reject_negative_rtol() {
    let r = Tols::new(0.0f64.to_bits(), (-1.0f64).to_bits());
    assert_eq!(r, Err(TolsError::NegativeRtol((-1.0f64).to_bits())));
}

#[test]
fn tols_zero_is_exact_equality() {
    let t = Tols::new(0.0f64.to_bits(), 0.0f64.to_bits()).unwrap();
    assert_eq!(f64::from_bits(t.atol), 0.0);
    assert_eq!(f64::from_bits(t.rtol), 0.0);
    assert!(approx(1.5, 1.5, t, NanComparison::Equal));
    assert!(!approx(1.5, 1.5000000000000002, t, NanComparison::Equal));
}

#[test]
fn tols_default_values() {
    let t = Tols::default();
    assert_eq!(f64::from_bits(t.atol), 1e-8);
    assert_eq!(f64::from_bits(t.rtol), f64::EPSILON.sqrt());
}

#[test]
fn isapprox_symmetric() {
    let t = tols(1e-5, 1e-2);
    let vals = [0.0, -0.0, 1.0, 1.000001, 1.02, -3.0, -2.97, 1e300, f64::INFINITY];
    for &x in vals.iter() {
        for &y in vals.iter() {
            assert_eq!(
                approx(x, y, t, NanComparison::NotEqual),
                approx(y, x, t, NanComparison::NotEqual)
            );
        }
    }
}

#[test]
fn isapprox_reflexive() {
    let t = Tols::new(0.0f64.to_bits(), 0.0f64.to_bits()).unwrap();
    for &x in [0.0, -0.0, 1.0, -7.25, 1e-300, f64::MAX, f64::INFINITY, f64::NEG_INFINITY].iter() {
        assert!(approx(x, x, t, NanComparison::NotEqual));
    }
    assert!(approx(0.0, -0.0, t, NanComparison::NotEqual));
}

#[test]
fn isapprox_nan_policy() {
    let t = Tols::default();
    assert!(approx(f64::NAN, f64::NAN, t, NanComparison::Equal));
    assert!(!approx(f64::NAN, f64::NAN, t, NanComparison::NotEqual));
    assert!(!approx(f64::NAN, 1.0, t, NanComparison::Equal));
    assert!(!approx(1.0, f64::NAN, t, NanComparison::NotEqual));
}

#[test]
fn isapprox_envelope() {
    let t = tols(1e-5, 0.0);
    assert!(approx(1.0, 1.0000001, t, NanComparison::Equal));
    assert!(!approx(1.0, 1.001, t, NanComparison::Equal));
    let t = tols(0.0, 1e-2);
    assert!(approx(100.0, 100.5, t, NanComparison::Equal));
    assert!(!approx(100.0, 102.0, t, NanComparison::Equal));
}

#[test]
fn nan_comparison_conversions() {
    assert_eq!(NanComparison::from(true), NanComparison::Equal);
    assert_eq!(NanComparison::from(false), NanComparison::NotEqual);
    assert!(bool::from(NanComparison::Equal));
    assert!(!bool::from(NanComparison::NotEqual));
    assert_eq!(NanComparison::default(), NanComparison::Equal);
}

#[test]
fn bit_classification() {
    assert!(is_nan(f64::NAN.to_bits()));
    assert!(is_nan((-f64::NAN).to_bits()));
    assert!(!is_nan(f64::INFINITY.to_bits()));
    assert!(!is_nan(1.0f64.to_bits()));
    let keys: Vec<u64> = [f64::NEG_INFINITY, -2.0, -1e-300, -0.0, 0.0, 1e-300, 3.0, f64::INFINITY, f64::NAN]
        .iter()
        .map(|v| order_key(v.to_bits()))
        .collect();
    for w in keys.windows(2) {
        assert!(w[0] <= w[1]);
    }
    assert_eq!(order_key((-0.0f64).to_bits()), order_key(0.0f64.to_bits()));
    assert!(order_key(f64::NAN.to_bits()) > order_key(f64::INFINITY.to_bits()));
    assert_eq!(order_key((-f64::NAN).to_bits()), order_key(f64::NAN.to_bits()));
}

#[test]
fn tols_error_messages() {
    assert_eq!(TolsError::NegativeAtol(0).message(), "atol must be non-negative");
    assert_eq!(TolsError::NegativeRtol(0).message(), "rtol must be non-negative");
}

#[test]
fn tols_accept_negative_zero() {
    let r = Tols::new((-0.0f64).to_bits(), (-0.0f64).to_bits());
    assert_eq!(r, Ok(Tols { atol: (-0.0f64).to_bits(), rtol: (-0.0f64).to_bits() }));
    let t = r.unwrap();
    assert!(approx(2.0, 2.0, t, NanComparison::Equal));
    assert!(approx(0.0, -0.0, t, NanComparison::Equal));
    assert!(!approx(2.0, 2.0000000000000004, t, NanComparison::Equal));
}

#[test]
fn tols_accept_nan_either_sign() {
    assert!(Tols::new(f64::NAN.to_bits(), 0).is_ok());
    assert!(Tols::new((-f64::NAN).to_bits(), 0).is_ok());
    assert!(Tols::new(0, (-f64::NAN).to_bits()).is_ok());
    let r = Tols::new(0, (-1e-300f64).to_bits());
    assert_eq!(r, Err(TolsError::NegativeRtol((-1e-300f64).to_bits())));
}
