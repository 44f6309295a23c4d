use polynomial_roots::false_position::cauchy::{
    biggest_non_last_coefficient, bound, negative_variations, negative_variations_within,
    variations, variations_within,
};
use polynomial_roots::fixed::{Fixed, SCALE};
use polynomial_roots::polynomials::Polynomial;

fn fx(v: f64) -> Fixed {
    Fixed::from_raw((v * SCALE as f64).round() as i64)
}

fn polynomial(coefficients: &[f64]) -> Polynomial {
    Polynomial::new(coefficients.iter().map(|&v| fx(v)).collect())
}

#[test]
fn variations_count_sign_changes() {
    assert_eq!(variations(&polynomial(&[1.0, -1.0, 1.0])), 2);
    assert_eq!(variations(&polynomial(&[1.0, 1.0, 1.0])), 0);
    assert_eq!(variations(&polynomial(&[-6.0, 11.0, -6.0, 1.0])), 3);
    assert_eq!(variations(&polynomial(&[6.0, 11.0, 6.0, 1.0])), 0);
    assert_eq!(variations(&polynomial(&[-1.0, -1.0, 1.0, 1.0])), 1);
}

#[test]
fn variations_pass_over_zeros() {
    assert_eq!(variations(&polynomial(&[1.0, 0.0, -1.0])), 1);
    assert_eq!(variations(&polynomial(&[1.0, 0.0, 0.0, 1.0])), 0);
    assert_eq!(variations(&polynomial(&[0.0, -2.0, 0.0, 1.0])), 1);
    assert_eq!(variations(&polynomial(&[0.0, 0.0, 0.0])), 0);
    // A coefficient within the tolerance counts as zero whatever its sign.
    assert_eq!(variations(&polynomial(&[1.0, -0.00005, 1.0])), 0);
    assert_eq!(variations(&polynomial(&[1.0, -0.0002, 1.0])), 2);
    assert_eq!(variations(&polynomial(&[-0.00005, 1.0, 2.0])), 0);
}

#[test]
fn variations_of_short_polynomials() {
    assert_eq!(variations(&polynomial(&[])), 0);
    assert_eq!(variations(&polynomial(&[5.0])), 0);
    assert_eq!(negative_variations(&polynomial(&[])), 0);
    assert_eq!(negative_variations(&polynomial(&[5.0])), 0);
}

#[test]
fn negative_variations_are_those_of_the_reflection() {
    // (x + 1)(x + 2)(x + 3) has three negative roots.
    assert_eq!(negative_variations(&polynomial(&[6.0, 11.0, 6.0, 1.0])), 3);
    // (x - 1)(x - 2)(x - 3) has none.
    assert_eq!(negative_variations(&polynomial(&[-6.0, 11.0, -6.0, 1.0])), 0);
    // x³ + 1 has the root -1, x³ - 1 has no negative root.
    assert_eq!(negative_variations(&polynomial(&[1.0, 0.0, 0.0, 1.0])), 1);
    assert_eq!(negative_variations(&polynomial(&[-1.0, 0.0, 0.0, 1.0])), 0);
    // x + 1 and x² - 2
    assert_eq!(negative_variations(&polynomial(&[1.0, 1.0])), 1);
    assert_eq!(negative_variations(&polynomial(&[-2.0, 0.0, 1.0])), 1);
    assert_eq!(negative_variations(&polynomial(&[0.0, -2.0, 0.0, 1.0])), 1);
}

#[test]
fn negative_variations_equal_variations_of_reflected_coefficients() {
    let samples: [&[f64]; 5] = [
        &[1.0, -3.0, 0.0, 2.0, 5.0],
        &[-1.0, 0.0, 0.0, 0.0, 1.0],
        &[2.0, 2.0, 2.0, 2.0, 2.0, 2.0],
        &[0.0, 1.0, -1.0, 0.0, -1.0, 1.0],
        &[-4.0, 0.00005, 3.0, -0.00005, 1.0],
    ];
    for sample in samples {
        let reflected: Vec<f64> =
            sample.iter().enumerate().map(|(i, &v)| if i % 2 == 1 { -v } else { v }).collect();
        assert_eq!(
            negative_variations(&polynomial(sample)),
            variations(&polynomial(&reflected))
        );
    }
}

#[test]
fn variations_with_a_chosen_tolerance() {
    let p = polynomial(&[1.0, -0.01, 1.0]);
    assert_eq!(variations_within(&p, fx(0.1)), 0);
    assert_eq!(variations_within(&p, fx(0.001)), 2);
    let q = polynomial(&[1.0, 0.01, 1.0]);
    assert_eq!(negative_variations_within(&q, fx(0.1)), 0);
    assert_eq!(negative_variations_within(&q, fx(0.001)), 2);
}

#[test]
fn variations_of_extreme_coefficients() {
    let p = Polynomial::new(vec![
        Fixed::from_raw(i64::MIN),
        Fixed::from_raw(i64::MAX),
        Fixed::from_raw(i64::MIN),
    ]);
    assert_eq!(variations(&p), 2);
    assert_eq!(negative_variations(&p), 0);
}

#[test]
fn biggest_coefficient_leaves_the_last_out() {
    assert_eq!(biggest_non_last_coefficient(&polynomial(&[-2.0, 0.0, 1.0])), fx(2.0));
    assert_eq!(biggest_non_last_coefficient(&polynomial(&[1.0, -4.0, 2.0, 100.0])), fx(4.0));
    assert_eq!(biggest_non_last_coefficient(&polynomial(&[100.0])), fx(0.0));
    assert_eq!(biggest_non_last_coefficient(&polynomial(&[])), fx(0.0));
    let extreme = Polynomial::new(vec![Fixed::from_raw(i64::MIN), fx(1.0)]);
    assert_eq!(biggest_non_last_coefficient(&extreme).raw(), i64::MAX);
}

#[test]
fn bound_of_x_squared_minus_two() {
    // |1 + max(|-2|, |0|) / 1| = 3, and the roots ±1.414 lie within.
    assert_eq!(bound(&polynomial(&[-2.0, 0.0, 1.0])), Some(fx(3.0)));
}

#[test]
fn bound_divides_by_the_leading_coefficient() {
    assert_eq!(bound(&polynomial(&[1.0, -4.0, 2.0])), Some(fx(3.0)));
    assert_eq!(bound(&polynomial(&[-6.0, 11.0, -6.0, 1.0])), Some(fx(12.0)));
    assert_eq!(bound(&polynomial(&[0.0, -2.0, 0.0, 1.0])), Some(fx(3.0)));
    assert_eq!(bound(&polynomial(&[3.0, 0.0, 0.0, 0.5])), Some(fx(7.0)));
}

#[test]
fn bound_with_a_negative_leading_coefficient() {
    // |1 + 2 / (-1)| = 1
    assert_eq!(bound(&polynomial(&[2.0, 0.0, -1.0])), Some(fx(1.0)));
    // |1 + 6 / (-2)| = 2
    assert_eq!(bound(&polynomial(&[6.0, 1.0, -2.0])), Some(fx(2.0)));
}

#[test]
fn bound_of_a_constant_is_one() {
    assert_eq!(bound(&polynomial(&[5.0])), Some(fx(1.0)));
    assert_eq!(bound(&polynomial(&[-5.0])), Some(fx(1.0)));
}

#[test]
fn bound_is_undefined_without_coefficients() {
    assert_eq!(bound(&polynomial(&[])), None);
}

#[test]
fn bound_is_the_largest_number_without_a_leading_coefficient() {
    assert_eq!(bound(&polynomial(&[1.0, 2.0, 0.0])), Some(Fixed::from_raw(i64::MAX)));
    assert_eq!(bound(&polynomial(&[-1.0, 0.0])), Some(Fixed::from_raw(i64::MAX)));
    assert_eq!(bound(&polynomial(&[0.0])), Some(Fixed::from_raw(i64::MAX)));
    assert_eq!(bound(&polynomial(&[0.0, 0.0])), Some(Fixed::from_raw(i64::MAX)));
}

#[test]
fn bound_saturates() {
    let p = Polynomial::new(vec![fx(1000.0), Fixed::from_raw(1)]);
    assert_eq!(bound(&p).map(|b| b.raw()), Some(i64::MAX));
}

#[test]
fn bound_encloses_the_roots_of_a_cubic() {
    // (x - 1)(x - 2)(x + 3) = x³ - 7x + 6
    let p = polynomial(&[6.0, -7.0, 0.0, 1.0]);
    let b = bound(&p).unwrap();
    assert_eq!(b, fx(8.0));
    for root in [1.0, 2.0, -3.0] {
        assert_eq!(p.get_value_at(fx(root)), fx(0.0));
        assert!(b.saturating_neg().raw() <= fx(root).raw() && fx(root).raw() <= b.raw());
    }
}

#[test]
fn variations_are_no_fewer_than_the_roots_on_each_side() {
    // (x - 1)(x - 2)(x + 3) = x³ - 7x + 6
    let p = polynomial(&[6.0, -7.0, 0.0, 1.0]);
    assert_eq!(variations(&p), 2);
    assert_eq!(negative_variations(&p), 1);
    // (x - 1)(x² + 1) = x³ - x² + x - 1 has one positive root and three
    // variations.
    let q = polynomial(&[-1.0, 1.0, -1.0, 1.0]);
    assert_eq!(variations(&q), 3);
    assert_eq!(negative_variations(&q), 0);
    // (x + 1.5)(x - 0.5)(x - 2.25)(x + 4)
    let r = polynomial(&[6.75, -10.3125, -8.0, 2.75, 1.0]);
    assert_eq!(variations(&r), 2);
    assert_eq!(negative_variations(&r), 2);
}

#[test]
fn tolerance_hides_a_small_coefficient() {
    // x² - x + 0.00005 has two positive roots, but its constant coefficient
    // counts as zero, and one variation is left.
    let p = polynomial(&[0.00005, -1.0, 1.0]);
    assert_eq!(variations(&p), 1);
    assert_eq!(variations_within(&p, fx(0.00001)), 2);
}

#[test]
fn bound_is_rounded_away_from_zero() {
    // 1 + 1/3: the third is rounded up, so that the bound is not below
    // four thirds.
    let b = bound(&polynomial(&[1.0, 3.0])).unwrap();
    assert_eq!(b.raw(), SCALE + 1_431_655_766);
    assert!(3 * (b.raw() as i128) >= 4 * SCALE as i128);
    // |1 + 1/(-3)|: the negative third is rounded down.
    let c = bound(&polynomial(&[1.0, -3.0])).unwrap();
    assert_eq!(c.raw(), SCALE - 1_431_655_766);
}
