use polynomial_roots::constants::Settings;
use polynomial_roots::fixed::{Fixed, SCALE};
use polynomial_roots::polynomials::Polynomial;
use polynomial_roots::solver::{solve, solve_with};

fn fx(v: f64) -> Fixed {
    Fixed::from_raw((v * SCALE as f64).round() as i64)
}

fn float(x: Fixed) -> f64 {
    x.raw() as f64 / SCALE as f64
}

fn polynomial(coefficients: &[f64]) -> Polynomial {
    Polynomial::new(coefficients.iter().map(|&v| fx(v)).collect())
}

fn assert_close(found: &[Fixed], expected: &[f64]) {
    assert_eq!(found.len(), expected.len(), "{:?}", found);
    for (x, e) in found.iter().zip(expected) {
        assert!((float(*x) - e).abs() < 0.0001, "{} is not close to {}", float(*x), e);
    }
}

#[test]
fn nothing_to_solve() {
    assert_eq!(solve(polynomial(&[])), vec![]);
    assert_eq!(solve(polynomial(&[5.0])), vec![]);
    assert_eq!(solve(polynomial(&[0.0, 0.0, 0.0])), vec![fx(0.0)]);
}

#[test]
fn power_of_x_has_the_root_zero() {
    assert_eq!(solve(polynomial(&[0.0, 0.0, 5.0])), vec![fx(0.0)]);
    assert_eq!(solve(polynomial(&[0.0, 5.0, 0.0])), vec![fx(0.0)]);
}

#[test]
fn first_degree() {
    assert_eq!(solve(polynomial(&[3.0, -1.0])), vec![fx(3.0)]);
    assert_eq!(solve(polynomial(&[0.0, 3.0, -1.0, 0.0])), vec![fx(0.0), fx(3.0)]);
}

#[test]
fn second_degree() {
    // x (x + 1)²
    assert_eq!(solve(polynomial(&[0.0, 1.0, 2.0, 1.0])), vec![fx(-1.0), fx(0.0)]);
    // x (x² - 2)
    assert_close(&solve(polynomial(&[0.0, -2.0, 0.0, 1.0])), &[-1.41421, 0.0, 1.41421]);
}

#[test]
fn higher_degree() {
    assert_close(&solve(polynomial(&[-6.0, 11.0, -6.0, 1.0])), &[1.0, 2.0, 3.0]);
    assert_close(
        &solve(polynomial(&[0.0, 0.0, -6.0, 11.0, -6.0, 1.0, 0.0])),
        &[0.0, 1.0, 2.0, 3.0],
    );
}

#[test]
fn settings_reach_every_method() {
    let rough = Settings::new(fx(0.5), 20, fx(0.01)).unwrap();
    // With half as the tolerance the coefficients 0.25 count as zero.
    assert_eq!(solve_with(polynomial(&[0.25, 3.0, -1.0, 0.25]), &rough), vec![fx(0.0), fx(3.0)]);
    assert_eq!(
        solve_with(polynomial(&[-6.0, 11.0, -6.0, 1.0]), &Settings::reference()),
        solve(polynomial(&[-6.0, 11.0, -6.0, 1.0]))
    );
}
