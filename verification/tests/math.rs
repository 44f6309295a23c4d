use polynomial_roots::constants::{Settings, EPSILON, ITERATIONS, PARTITION_SIZE};
use polynomial_roots::fixed::{Fixed, SCALE};
use polynomial_roots::math::{is_zero, is_zero_within};

fn fx(v: f64) -> Fixed {
    Fixed::from_raw((v * SCALE as f64).round() as i64)
}

#[test]
fn zero() {
    assert_eq!(is_zero(fx(0.0)), true);
}

#[test]
fn negative_number() {
    assert_eq!(is_zero(fx(-10.0)), false);
}

#[test]
fn positive_number() {
    assert_eq!(is_zero(fx(10.0)), false);
}

#[test]
fn tolerance_is_exclusive() {
    assert!(is_zero(Fixed::from_raw(EPSILON - 1)));
    assert!(is_zero(Fixed::from_raw(-EPSILON + 1)));
    assert!(!is_zero(Fixed::from_raw(EPSILON)));
    assert!(!is_zero(Fixed::from_raw(-EPSILON)));
}

#[test]
fn tolerance_can_be_chosen() {
    assert!(is_zero_within(fx(0.4), fx(0.5)));
    assert!(is_zero_within(fx(-0.4), fx(0.5)));
    assert!(!is_zero_within(fx(0.5), fx(0.5)));
    assert!(!is_zero_within(fx(0.0), fx(0.0)));
    assert!(!is_zero_within(fx(0.0), fx(-1.0)));
    assert!(is_zero_within(Fixed::from_raw(i64::MAX), Fixed::from_raw(i64::MIN)) == false);
}

#[test]
fn reference_values() {
    assert_eq!(EPSILON, fx(0.0001).raw());
    assert_eq!(PARTITION_SIZE, fx(0.01).raw());
    assert_eq!(ITERATIONS, 20);
    let settings = Settings::reference();
    assert_eq!(settings.epsilon().raw(), EPSILON);
    assert_eq!(settings.iterations(), ITERATIONS);
    assert_eq!(settings.partition_size().raw(), PARTITION_SIZE);
}

#[test]
fn settings_need_a_positive_tolerance_and_width() {
    assert!(Settings::new(fx(0.001), 5, fx(0.5)).is_some());
    assert!(Settings::new(fx(0.0), 5, fx(0.5)).is_none());
    assert!(Settings::new(fx(-0.001), 5, fx(0.5)).is_none());
    assert!(Settings::new(fx(0.001), 5, fx(0.0)).is_none());
    assert!(Settings::new(fx(0.001), 5, fx(-0.5)).is_none());
    let settings = Settings::new(fx(0.001), 5, fx(0.5)).unwrap();
    assert_eq!(settings.epsilon(), fx(0.001));
    assert_eq!(settings.iterations(), 5);
    assert_eq!(settings.partition_size(), fx(0.5));
}
