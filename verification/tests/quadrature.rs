use fem1d::rational::Rat;
use fem1d::integration::{integrate, Monomial};

fn r(n: i64, d: i64) -> Rat {
    Rat::new(n, d)
}

fn approx(v: Rat) -> f64 {
    (v.numer() as f64) / (v.denom() as f64)
}

#[test]
fn test_intergate() {
    let val = integrate(&Monomial { exponent: 1 }, &r(0, 1), &r(1, 1)).unwrap();
    assert!((approx(val) - 0.5f64).abs() < 1e-12f64);
}

#[test]
fn quadrature_linear_is_exact() {
    let val = integrate(&Monomial { exponent: 1 }, &r(0, 1), &r(1, 1)).unwrap();
    assert!(val.equal(&r(1, 2)));
}

#[test]
fn quadrature_quartic_is_exact() {
    // integral of x^4 over [0, 2] is 32/5
    let val = integrate(&Monomial { exponent: 4 }, &r(0, 1), &r(2, 1)).unwrap();
    assert!(val.equal(&r(32, 5)));
}

#[test]
fn quadrature_quintic_is_exact() {
    // integral of x^5 over [-1, 3] is (3^6 - 1) / 6
    let val = integrate(&Monomial { exponent: 5 }, &r(-1, 1), &r(3, 1)).unwrap();
    assert!(val.equal(&r(728, 6)));
}

#[test]
fn quadrature_degenerate_range_is_zero() {
    let a = r(7, 3);
    let val = integrate(&Monomial { exponent: 3 }, &a, &a).unwrap();
    assert!(val.equal(&r(0, 1)));
    assert_eq!(val.numer(), 0);
}

#[test]
fn quadrature_backwards_range_is_zero() {
    let val = integrate(&Monomial { exponent: 2 }, &r(2, 1), &r(1, 1)).unwrap();
    assert!(val.equal(&r(0, 1)));
}

#[test]
fn rational_arithmetic_is_exact() {
    assert!(r(1, 2).add(&r(1, 3)).unwrap().equal(&r(5, 6)));
    assert!(r(1, 2).sub(&r(1, 3)).unwrap().equal(&r(1, 6)));
    assert!(r(2, 3).mul(&r(3, 4)).unwrap().equal(&r(1, 2)));
    assert!(r(2, 3).div(&r(4, 9)).unwrap().equal(&r(3, 2)));
    assert!(r(1, 2).div(&r(0, 5)).is_none());
    assert!(r(1, 3).le(&r(1, 2)));
    assert!(r(1, 3).lt(&r(1, 2)));
    assert!(!r(1, 2).lt(&r(1, 2)));
    assert!(r(2, 4).equal(&r(1, 2)));
}

#[test]
fn rational_overflow_is_reported() {
    let big = r(i64::MAX, 1);
    assert!(big.add(&big).is_none());
    assert!(big.mul(&big).is_none());
}
