//! The roots of a polynomial of the second degree.
//!
//! The formula is evaluated in checked arithmetic: where a step of it leaves
//! the range of the numbers, it gives no root.

use vstd::prelude::*;
use crate::constants::EPSILON;
use crate::fixed::{
    in_range, lemma_quotient_of_numbers_is_monotonic, lemma_square_root_exists, quotient,
    square_root, Fixed, SCALE,
};
use crate::math::{is_zero_within, near_zero, non_decreasing};
use crate::polynomials::{raw_values, Polynomial};

verus! {

/// Raw value of the discriminant `b * b - 4 * a * c` of the polynomial
/// `c + b * x + a * x^2`; none where a product or the difference lies
/// outside the range of the numbers.
pub open spec fn discriminant(c: int, b: int, a: int) -> Option<int> {
    let b_squared = quotient(b * b, SCALE as int);
    let four_a = quotient((4 * SCALE) * a, SCALE as int);
    let four_a_c = quotient(four_a * c, SCALE as int);
    if in_range(b_squared) && in_range(four_a) && in_range(four_a_c) && in_range(
        b_squared - four_a_c,
    ) {
        Some(b_squared - four_a_c)
    } else {
        None
    }
}

/// Raw value of `2 * a`, the divisor of the quadratic formula; none where it
/// is zero or lies outside the range of the numbers.
pub open spec fn divisor(a: int) -> Option<int> {
    let twice_a = quotient((2 * SCALE) * a, SCALE as int);
    if in_range(twice_a) && twice_a != 0 {
        Some(twice_a)
    } else {
        None
    }
}

/// The one root `-b / (2 * a)` of a polynomial whose discriminant is zero;
/// none where the negated coefficient or the quotient lies outside the range
/// of the numbers.
pub open spec fn single_root(b: int, twice_a: int) -> Seq<int> {
    let root = quotient((-b) * SCALE, twice_a);
    if in_range(-b) && in_range(root) {
        seq![root]
    } else {
        Seq::empty()
    }
}

/// The two roots `(-b - s) / (2 * a)` and `(-b + s) / (2 * a)`, where `s` is
/// the square root of the discriminant `delta`, the smaller first: that is
/// the one with the square root subtracted where the divisor is positive,
/// and the one with the square root added where it is negative. None where
/// a step of the formula lies outside the range of the numbers.
pub open spec fn two_roots(b: int, delta: int, twice_a: int) -> Seq<int> {
    let root_of_delta = square_root(delta);
    let low = -b - root_of_delta;
    let high = -b + root_of_delta;
    let with_root_subtracted = quotient(low * SCALE, twice_a);
    let with_root_added = quotient(high * SCALE, twice_a);
    if in_range(-b) && in_range(low) && in_range(high) && in_range(with_root_subtracted)
        && in_range(with_root_added) {
        if twice_a > 0 {
            seq![with_root_subtracted, with_root_added]
        } else {
            seq![with_root_added, with_root_subtracted]
        }
    } else {
        Seq::empty()
    }
}

/// The roots that the quadratic formula gives for `c + b * x + a * x^2`: one
/// where the discriminant is zero within `epsilon`, two where it is positive,
/// none where it is negative, where the coefficient `a` is exactly zero, or
/// where a step of the formula lies outside the range of the numbers.
pub open spec fn formula_roots(c: int, b: int, a: int, epsilon: int) -> Seq<int> {
    match (discriminant(c, b, a), divisor(a)) {
        (Some(delta), Some(twice_a)) => if near_zero(delta, epsilon) {
            single_root(b, twice_a)
        } else if delta > 0 {
            two_roots(b, delta, twice_a)
        } else {
            Seq::empty()
        },
        _ => Seq::empty(),
    }
}

/// `roots` with zero put in at its place if flagged, where `roots` holds one
/// number, or two of which the first is not the larger.
pub open spec fn with_zero(roots: Seq<int>, has_zero: bool) -> Seq<int> {
    if !has_zero {
        roots
    } else if roots.len() == 1 {
        if roots[0] > 0 {
            seq![0int, roots[0]]
        } else {
            seq![roots[0], 0int]
        }
    } else if roots.len() == 2 {
        if roots[1] < 0 {
            seq![roots[0], roots[1], 0int]
        } else if roots[0] < 0 {
            seq![roots[0], 0int, roots[1]]
        } else {
            seq![0int, roots[0], roots[1]]
        }
    } else {
        seq![0int]
    }
}

/// The roots by the quadratic formula of the polynomial whose first three
/// coefficients are those of `coefficients`; none for fewer than three.
pub open spec fn quadratic_roots(coefficients: Seq<int>, has_zero: bool, epsilon: int) -> Seq<int> {
    if coefficients.len() < 3 {
        Seq::empty()
    } else {
        with_zero(
            formula_roots(coefficients[0], coefficients[1], coefficients[2], epsilon),
            has_zero,
        )
    }
}

/// The discriminant of `c + b * x + a * x^2`.
fn compute_discriminant(c: Fixed, b: Fixed, a: Fixed) -> (r: Option<Fixed>)
    ensures
        r is Some <==> discriminant(c@, b@, a@) is Some,
        r matches Some(delta) ==> discriminant(c@, b@, a@) == Some(delta@),
{
    let b_squared = match b.checked_mul(b) {
        Some(v) => v,
        None => {
            return None;
        },
    };
    let four_a = match Fixed::from_int(4).checked_mul(a) {
        Some(v) => v,
        None => {
            return None;
        },
    };
    let four_a_c = match four_a.checked_mul(c) {
        Some(v) => v,
        None => {
            return None;
        },
    };
    b_squared.checked_sub(four_a_c)
}

/// The divisor `2 * a` of the formula.
fn compute_divisor(a: Fixed) -> (r: Option<Fixed>)
    ensures
        r is Some <==> divisor(a@) is Some,
        r matches Some(twice_a) ==> divisor(a@) == Some(twice_a@),
{
    match Fixed::from_int(2).checked_mul(a) {
        Some(twice_a) => if twice_a.raw != 0 {
            Some(twice_a)
        } else {
            None
        },
        None => None,
    }
}

/// The one root of a polynomial whose discriminant is zero.
fn compute_single_root(b: Fixed, twice_a: Fixed) -> (r: Vec<Fixed>)
    requires
        twice_a@ != 0,
    ensures
        raw_values(r@) == single_root(b@, twice_a@),
{
    let mut found: Vec<Fixed> = Vec::new();
    match b.checked_neg() {
        Some(negated) => match negated.checked_div(twice_a) {
            Some(root) => {
                found.push(root);
            },
            None => {},
        },
        None => {},
    }
    assert(raw_values(found@) == single_root(b@, twice_a@));
    found
}

/// The two roots of a polynomial whose discriminant is positive.
fn compute_two_roots(b: Fixed, delta: Fixed, twice_a: Fixed) -> (r: Vec<Fixed>)
    requires
        twice_a@ != 0,
        delta@ > 0,
    ensures
        raw_values(r@) == two_roots(b@, delta@, twice_a@),
{
    let mut found: Vec<Fixed> = Vec::new();
    proof {
        assert(raw_values(found@) == Seq::<int>::empty());
    }
    let negated = match b.checked_neg() {
        Some(v) => v,
        None => {
            return found;
        },
    };
    let root_of_delta = match delta.checked_sqrt() {
        Some(v) => v,
        None => {
            return found;
        },
    };
    let low = match negated.checked_sub(root_of_delta) {
        Some(v) => v,
        None => {
            return found;
        },
    };
    let high = match negated.checked_add(root_of_delta) {
        Some(v) => v,
        None => {
            return found;
        },
    };
    let with_root_subtracted = match low.checked_div(twice_a) {
        Some(v) => v,
        None => {
            return found;
        },
    };
    let with_root_added = match high.checked_div(twice_a) {
        Some(v) => v,
        None => {
            return found;
        },
    };
    if twice_a.is_positive() {
        found.push(with_root_subtracted);
        found.push(with_root_added);
    } else {
        found.push(with_root_added);
        found.push(with_root_subtracted);
    }
    assert(raw_values(found@) == two_roots(b@, delta@, twice_a@));
    found
}

/// The numbers in `roots`, with zero put in at its place if `has_zero` is
/// set.
fn place_zero(roots: Vec<Fixed>, has_zero: bool) -> (r: Vec<Fixed>)
    requires
        roots@.len() <= 2,
    ensures
        raw_values(r@) == with_zero(raw_values(roots@), has_zero),
{
    let mut placed: Vec<Fixed> = Vec::new();
    if !has_zero {
        assert(raw_values(roots@).len() == roots@.len());
        return roots;
    }
    if roots.len() == 1 {
        if roots[0].is_positive() {
            placed.push(Fixed::zero());
            placed.push(roots[0]);
        } else {
            placed.push(roots[0]);
            placed.push(Fixed::zero());
        }
    } else if roots.len() == 2 {
        if roots[1].is_negative() {
            placed.push(roots[0]);
            placed.push(roots[1]);
            placed.push(Fixed::zero());
        } else if roots[0].is_negative() {
            placed.push(roots[0]);
            placed.push(Fixed::zero());
            placed.push(roots[1]);
        } else {
            placed.push(Fixed::zero());
            placed.push(roots[0]);
            placed.push(roots[1]);
        }
    } else {
        placed.push(Fixed::zero());
    }
    assert(raw_values(placed@) == with_zero(raw_values(roots@), has_zero));
    placed
}

/// The real roots of `polynomial` by the quadratic formula, in increasing
/// order, with the discriminant tested against the tolerance `epsilon`; zero
/// is among them if `has_zero` is set.
pub fn get_roots_within(polynomial: &Polynomial, has_zero: bool, epsilon: Fixed) -> (r: Vec<Fixed>)
    ensures
        raw_values(r@) == quadratic_roots(polynomial@, has_zero, epsilon@),
        non_decreasing(raw_values(r@)),
{
    proof {
        lemma_quadratic_roots_are_ordered(polynomial@, has_zero, epsilon@);
    }
    let mut found: Vec<Fixed> = Vec::new();
    let (c, b, a) = match (polynomial.get(0), polynomial.get(1), polynomial.get(2)) {
        (Some(c), Some(b), Some(a)) => (*c, *b, *a),
        _ => {
            assert(raw_values(found@) == Seq::<int>::empty());
            return found;
        },
    };
    match (compute_discriminant(c, b, a), compute_divisor(a)) {
        (Some(delta), Some(twice_a)) => {
            if is_zero_within(delta, epsilon) {
                found = compute_single_root(b, twice_a);
            } else if delta.is_positive() {
                found = compute_two_roots(b, delta, twice_a);
            }
        },
        _ => {},
    }
    assert(raw_values(found@) == formula_roots(c@, b@, a@, epsilon@));
    place_zero(found, has_zero)
}

/// The real roots of `polynomial` by the quadratic formula, in increasing
/// order, with the discriminant tested against the reference tolerance.
pub fn get_roots(polynomial: &Polynomial, has_zero: bool) -> (r: Vec<Fixed>)
    ensures
        raw_values(r@) == quadratic_roots(polynomial@, has_zero, EPSILON as int),
        non_decreasing(raw_values(r@)),
{
    get_roots_within(polynomial, has_zero, Fixed { raw: EPSILON })
}

/// The quadratic formula gives its roots in increasing order, and zero is
/// put in at its place.
pub proof fn lemma_quadratic_roots_are_ordered(
    coefficients: Seq<int>,
    has_zero: bool,
    epsilon: int,
)
    ensures
        non_decreasing(quadratic_roots(coefficients, has_zero, epsilon)),
{
    if coefficients.len() >= 3 {
        let c = coefficients[0];
        let b = coefficients[1];
        let a = coefficients[2];
        match (discriminant(c, b, a), divisor(a)) {
            (Some(delta), Some(twice_a)) => {
                if !near_zero(delta, epsilon) && delta > 0 {
                    lemma_square_root_exists(delta);
                    let root = square_root(delta);
                    lemma_quotient_of_numbers_is_monotonic(-b - root, -b + root, twice_a);
                }
            },
            _ => {},
        }
    }
}

} // verus!
