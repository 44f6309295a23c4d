use polynomial_roots::fixed::{Fixed, SCALE};
use polynomial_roots::math::is_zero;
use polynomial_roots::polynomials::Polynomial;

fn fx(v: f64) -> Fixed {
    Fixed::from_raw((v * SCALE as f64).round() as i64)
}

fn polynomial(coefficients: &[f64]) -> Polynomial {
    Polynomial::new(coefficients.iter().map(|&v| fx(v)).collect())
}

fn coefficients(polynomial: &Polynomial) -> Vec<Fixed> {
    polynomial.iter().copied().collect()
}

#[test]
fn create_polynomial() {
    let coefficients: Vec<Fixed> = Vec::new();

    let polynomial = Polynomial::new(coefficients.clone());

    assert_eq!(polynomial.iter().copied().collect::<Vec<Fixed>>(), coefficients);
}

#[test]
fn create_polynomial_with_coefficients() {
    let coefficients = vec![fx(1.0), fx(-2.5), fx(0.0), fx(4.0)];
    let polynomial = Polynomial::new(coefficients.clone());
    assert_eq!(polynomial.iter().copied().collect::<Vec<Fixed>>(), coefficients);
    assert_eq!(polynomial.len(), 4);
}

#[test]
fn evaluate_polynomial() {
    // c = 1, b = 2, a = -3
    // a x² + b x + c
    let polynomial = polynomial(&[1.0, 2.0, -3.0]);

    //    p(x) - y = 0
    // => p(x) = y
    assert!(is_zero(polynomial.get_value_at(fx(-1.0)).saturating_add(fx(4.0))));
}

#[test]
fn evaluation_is_exact_on_whole_numbers() {
    let p = polynomial(&[1.0, 2.0, -3.0]);
    assert_eq!(p.get_value_at(fx(-1.0)), fx(-4.0));
    assert_eq!(p.get_value_at(fx(0.0)), fx(1.0));
    assert_eq!(p.get_value_at(fx(2.0)), fx(-7.0));
    let cubic = polynomial(&[-6.0, 11.0, -6.0, 1.0]);
    assert_eq!(cubic.get_value_at(fx(1.0)), fx(0.0));
    assert_eq!(cubic.get_value_at(fx(4.0)), fx(6.0));
    assert_eq!(cubic.get_value_at(fx(0.5)), fx(-1.875));
}

#[test]
fn empty_polynomial_is_zero_everywhere() {
    let p = polynomial(&[]);
    assert_eq!(p.get_value_at(fx(3.0)), fx(0.0));
    assert_eq!(p.get_value_at(fx(-1000.0)), fx(0.0));
}

#[test]
fn evaluation_saturates() {
    let p = polynomial(&[0.0, 0.0, 0.0, 1.0]);
    assert_eq!(p.get_value_at(fx(100_000.0)).raw(), i64::MAX);
    assert_eq!(p.get_value_at(fx(-100_000.0)).raw(), i64::MIN);
}

#[test]
fn coefficients_by_position() {
    let p = polynomial(&[1.0, 2.0, -3.0]);
    assert_eq!(p.len(), 3);
    assert_eq!(p.first(), Some(&fx(1.0)));
    assert_eq!(p.last(), Some(&fx(-3.0)));
    assert_eq!(p.get(0), Some(&fx(1.0)));
    assert_eq!(p.get(1), Some(&fx(2.0)));
    assert_eq!(p.get(2), Some(&fx(-3.0)));
    assert_eq!(p.get(3), None);
    assert_eq!(coefficients(&p), vec![fx(1.0), fx(2.0), fx(-3.0)]);
    let empty = polynomial(&[]);
    assert_eq!(empty.first(), None);
    assert_eq!(empty.last(), None);
    assert_eq!(empty.get(0), None);
}

#[test]
fn simplify_trims_both_ends() {
    // 0 + 0 x + 1 x² + 0 x³ becomes 1.
    let mut p = polynomial(&[0.0, 0.0, 1.0, 0.0]);
    p.simplify();
    assert_eq!(coefficients(&p), vec![fx(1.0)]);
}

#[test]
fn simplify_keeps_zeros_inside() {
    let mut p = polynomial(&[0.0, -2.0, 0.0, 1.0, 0.0, 0.0]);
    p.simplify();
    assert_eq!(coefficients(&p), vec![fx(-2.0), fx(0.0), fx(1.0)]);
}

#[test]
fn simplify_empties_a_polynomial_of_zeros() {
    let mut p = polynomial(&[0.0, 0.00005, -0.00005]);
    p.simplify();
    assert_eq!(p.len(), 0);
    let mut empty = polynomial(&[]);
    empty.simplify();
    assert_eq!(empty.len(), 0);
}

#[test]
fn simplify_goes_by_the_tolerance() {
    let mut p = polynomial(&[0.00005, 1.0, 0.0002]);
    p.simplify();
    assert_eq!(coefficients(&p), vec![fx(1.0), fx(0.0002)]);
    let mut q = polynomial(&[0.00005, 1.0, 0.0002]);
    q.simplify_within(fx(0.001));
    assert_eq!(coefficients(&q), vec![fx(1.0)]);
    let mut r = polynomial(&[0.00005, 1.0, 0.0002]);
    r.simplify_within(fx(0.00001));
    assert_eq!(coefficients(&r), vec![fx(0.00005), fx(1.0), fx(0.0002)]);
}

#[test]
fn simplify_twice_changes_nothing_more() {
    let mut p = polynomial(&[0.0, 3.0, 0.0, -1.0, 0.0]);
    p.simplify();
    let once = coefficients(&p);
    p.simplify();
    assert_eq!(coefficients(&p), once);
}

#[test]
fn evaluation_is_accurate_within_a_few_units() {
    // 1 + 2x - 3x² at 0.3 is 1.33. Two multiplications by a number below one
    // and three terms leave an error of no more than a few units.
    let p = polynomial(&[1.0, 2.0, -3.0]);
    let x = fx(0.3);
    let exact = 1.0 + 2.0 * 0.3 - 3.0 * 0.3 * 0.3;
    let found = p.get_value_at(x).raw() as f64;
    assert!((found - exact * SCALE as f64).abs() <= 8.0);
    // x⁵ at 0.9
    let q = polynomial(&[0.0, 0.0, 0.0, 0.0, 0.0, 1.0]);
    let found = q.get_value_at(fx(0.9)).raw() as f64;
    assert!((found - 0.59049 * SCALE as f64).abs() <= 8.0);
}

#[test]
fn checked_evaluation_agrees_where_nothing_is_clamped() {
    let p = polynomial(&[1.0, 2.0, -3.0]);
    for x in [-1.0, 0.0, 0.3, 2.0, 1000.0] {
        assert_eq!(p.checked_value_at(fx(x)), Some(p.get_value_at(fx(x))));
    }
    assert_eq!(polynomial(&[]).checked_value_at(fx(3.0)), Some(fx(0.0)));
    assert_eq!(p.checked_value_at(fx(-1.0)), Some(fx(-4.0)));
}

#[test]
fn checked_evaluation_reports_clamping() {
    // x⁴ - x³ at 2000: both terms are clamped, and cancel.
    let p = polynomial(&[0.0, 0.0, 0.0, -1.0, 1.0]);
    assert_eq!(p.get_value_at(fx(2000.0)), fx(0.0));
    assert_eq!(p.checked_value_at(fx(2000.0)), None);
    // A power is clamped, though its term is not.
    let q = polynomial(&[0.0, 0.0, 0.0, 0.000001]);
    assert_eq!(q.checked_value_at(fx(2000.0)), None);
    // A sum of terms is clamped.
    let r = polynomial(&[2_000_000_000.0, 2_000_000_000.0]);
    assert_eq!(r.checked_value_at(fx(1.0)), None);
    assert_eq!(r.checked_value_at(fx(0.01)).is_some(), true);
    // The power after the last term is not needed.
    let s = polynomial(&[0.0, 0.0, 1.0]);
    assert_eq!(s.checked_value_at(fx(40_000.0)), Some(fx(1_600_000_000.0)));
}
