use polynomial_roots::fixed::{Fixed, SCALE};
use polynomial_roots::polynomials::Polynomial;
use polynomial_roots::quadratic::{get_roots, get_roots_within};

fn fx(v: f64) -> Fixed {
    Fixed::from_raw((v * SCALE as f64).round() as i64)
}

fn polynomial(coefficients: &[f64]) -> Polynomial {
    Polynomial::new(coefficients.iter().map(|&v| fx(v)).collect())
}

#[test]
fn two_roots() {
    // (x - 1)(x - 3)
    assert_eq!(get_roots(&polynomial(&[3.0, -4.0, 1.0]), false), vec![fx(1.0), fx(3.0)]);
    // x² - 2
    assert_eq!(
        get_roots(&polynomial(&[-2.0, 0.0, 1.0]), false),
        vec![Fixed::from_raw(-6_074_000_999), Fixed::from_raw(6_074_000_999)]
    );
}

#[test]
fn one_root_where_the_discriminant_is_zero() {
    // (x - 1)²
    assert_eq!(get_roots(&polynomial(&[1.0, -2.0, 1.0]), false), vec![fx(1.0)]);
    assert_eq!(get_roots(&polynomial(&[1.0, -2.0, 1.0]), true), vec![fx(0.0), fx(1.0)]);
    // (x + 1)²
    assert_eq!(get_roots(&polynomial(&[1.0, 2.0, 1.0]), true), vec![fx(-1.0), fx(0.0)]);
}

#[test]
fn no_root_where_the_discriminant_is_negative() {
    assert_eq!(get_roots(&polynomial(&[1.0, 0.0, 1.0]), false), vec![]);
    assert_eq!(get_roots(&polynomial(&[1.0, 0.0, 1.0]), true), vec![fx(0.0)]);
}

#[test]
fn zero_is_put_in_its_place() {
    assert_eq!(
        get_roots(&polynomial(&[3.0, 4.0, 1.0]), true),
        vec![fx(-3.0), fx(-1.0), fx(0.0)]
    );
    assert_eq!(
        get_roots(&polynomial(&[-3.0, 2.0, 1.0]), true),
        vec![fx(-3.0), fx(0.0), fx(1.0)]
    );
    assert_eq!(
        get_roots(&polynomial(&[3.0, -4.0, 1.0]), true),
        vec![fx(0.0), fx(1.0), fx(3.0)]
    );
}

#[test]
fn fewer_than_three_coefficients_give_nothing() {
    assert_eq!(get_roots(&polynomial(&[]), true), vec![]);
    assert_eq!(get_roots(&polynomial(&[1.0, 2.0]), true), vec![]);
}

#[test]
fn no_square_term_no_root_by_the_formula() {
    assert_eq!(get_roots(&polynomial(&[1.0, 2.0, 0.0]), false), vec![]);
    assert_eq!(get_roots(&polynomial(&[1.0, 2.0, 0.0]), true), vec![fx(0.0)]);
}

#[test]
fn negative_square_term_keeps_the_order() {
    // -x² + 2: the root with the added square root is the smaller.
    assert_eq!(
        get_roots(&polynomial(&[2.0, 0.0, -1.0]), false),
        vec![Fixed::from_raw(-6_074_000_999), Fixed::from_raw(6_074_000_999)]
    );
    // 1 - x²
    assert_eq!(get_roots(&polynomial(&[1.0, 0.0, -1.0]), false), vec![fx(-1.0), fx(1.0)]);
    // (x + 1)(3 - x) = 3 + 2x - x²
    assert_eq!(get_roots(&polynomial(&[3.0, 2.0, -1.0]), false), vec![fx(-1.0), fx(3.0)]);
}

#[test]
fn zero_is_put_in_its_place_with_a_negative_square_term() {
    // -(x + 1)(x + 3), (x + 1)(3 - x), -(x - 1)(x - 3)
    assert_eq!(
        get_roots(&polynomial(&[-3.0, -4.0, -1.0]), true),
        vec![fx(-3.0), fx(-1.0), fx(0.0)]
    );
    assert_eq!(
        get_roots(&polynomial(&[3.0, 2.0, -1.0]), true),
        vec![fx(-1.0), fx(0.0), fx(3.0)]
    );
    assert_eq!(
        get_roots(&polynomial(&[-3.0, 4.0, -1.0]), true),
        vec![fx(0.0), fx(1.0), fx(3.0)]
    );
}

#[test]
fn discriminant_goes_by_the_tolerance() {
    // x² - 2.01x + 1.01 = (x - 1)(x - 1.01) has the discriminant 0.0001.
    let p = polynomial(&[1.01, -2.01, 1.0]);
    assert_eq!(get_roots_within(&p, false, fx(0.001)).len(), 1);
    assert_eq!(get_roots_within(&p, false, fx(0.00001)).len(), 2);
}

#[test]
fn formula_outside_the_range_gives_no_roots() {
    // x² - 100000x + 1: the square of 100000 is more than the largest number.
    assert_eq!(get_roots(&polynomial(&[1.0, -100_000.0, 1.0]), false), vec![]);
    assert_eq!(get_roots(&polynomial(&[1.0, -100_000.0, 1.0]), true), vec![fx(0.0)]);
    // 4 * a and 4 * a * c
    assert_eq!(get_roots(&polynomial(&[1.0, 1.0, 1_000_000_000.0]), false), vec![]);
    assert_eq!(get_roots(&polynomial(&[-50_000.0, 1.0, 50_000.0]), false), vec![]);
    // The quotient by a small divisor
    let p = Polynomial::new(vec![fx(0.0), fx(1000.0), Fixed::from_raw(1)]);
    assert_eq!(get_roots(&p, false), vec![]);
}

#[test]
fn formula_inside_the_range_is_unchanged() {
    // (x - 300)(x + 400) = x² + 100x - 120000
    assert_eq!(
        get_roots(&polynomial(&[-120_000.0, 100.0, 1.0]), false),
        vec![fx(-400.0), fx(300.0)]
    );
}
