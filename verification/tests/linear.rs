use polynomial_roots::fixed::{Fixed, SCALE};
use polynomial_roots::linear::get_roots;
use polynomial_roots::polynomials::Polynomial;

fn fx(v: f64) -> Fixed {
    Fixed::from_raw((v * SCALE as f64).round() as i64)
}

fn polynomial(coefficients: &[f64]) -> Polynomial {
    Polynomial::new(coefficients.iter().map(|&v| fx(v)).collect())
}

#[test]
fn polynomial_with_one_root() {
    let polynomial = polynomial(&[1.0, 2.0]);
    assert_eq!(get_roots(&polynomial, false), vec![fx(-0.5)],);
}

#[test]
fn polynomial_with_two_roots() {
    let polynomial = polynomial(&[-2.0, 1.0]);
    assert_eq!(get_roots(&polynomial, true), vec![fx(0.0), fx(2.0)],);
}

#[test]
fn zero_comes_after_a_negative_root() {
    assert_eq!(get_roots(&polynomial(&[2.0, 1.0]), true), vec![fx(-2.0), fx(0.0)]);
    assert_eq!(get_roots(&polynomial(&[0.0, 1.0]), true), vec![fx(0.0), fx(0.0)]);
}

#[test]
fn no_coefficients_no_roots() {
    assert_eq!(get_roots(&polynomial(&[]), false), vec![]);
    assert_eq!(get_roots(&polynomial(&[]), true), vec![]);
}

#[test]
fn no_leading_coefficient_no_root_by_the_formula() {
    assert_eq!(get_roots(&polynomial(&[3.0, 0.0]), false), vec![]);
    assert_eq!(get_roots(&polynomial(&[3.0, 0.0]), true), vec![fx(0.0)]);
}

#[test]
fn root_is_rounded_toward_zero() {
    // -1 / 3
    assert_eq!(get_roots(&polynomial(&[1.0, 3.0]), false), vec![Fixed::from_raw(-1_431_655_765)]);
}

#[test]
fn root_outside_the_range_is_no_root() {
    // 1000 divided by one unit is more than the largest number.
    let p = Polynomial::new(vec![fx(1000.0), Fixed::from_raw(1)]);
    assert_eq!(get_roots(&p, false), vec![]);
    assert_eq!(get_roots(&p, true), vec![fx(0.0)]);
    // The smallest number has no negated number.
    let q = Polynomial::new(vec![Fixed::from_raw(i64::MIN), fx(4.0)]);
    assert_eq!(get_roots(&q, false), vec![]);
}
