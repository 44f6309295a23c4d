//! The root of a polynomial of the first degree.

use vstd::prelude::*;
use crate::fixed::{in_range, quotient, Fixed, SCALE};
use crate::math::non_decreasing;
use crate::polynomials::{raw_values, Polynomial};

verus! {

/// The root that the linear formula gives for the constant coefficient `b`
/// and the leading coefficient `a`: the quotient of the negated constant
/// coefficient by the leading one. There is none where the leading
/// coefficient is exactly zero, nor where the negated coefficient or the
/// quotient lies outside the range of the numbers.
pub open spec fn formula_root(b: int, a: int) -> Option<int> {
    let root = quotient((-b) * SCALE, a);
    if a != 0 && in_range(-b) && in_range(root) {
        Some(root)
    } else {
        None
    }
}

/// The roots by the linear formula, with zero before or after the root of
/// the formula if flagged; without a root of the formula only a flagged zero
/// is left. A polynomial without coefficients has no roots.
pub open spec fn linear_roots(c: Seq<int>, has_zero: bool) -> Seq<int> {
    if c.len() == 0 {
        Seq::empty()
    } else {
        match formula_root(c.first(), c.last()) {
            None => if has_zero {
                seq![0int]
            } else {
                Seq::empty()
            },
            Some(root) => if !has_zero {
                seq![root]
            } else if root > 0 {
                seq![0int, root]
            } else {
                seq![root, 0int]
            },
        }
    }
}

/// The quotient of `numerator` by `denominator`, where both the negated
/// numerator and the quotient are numbers.
fn negated_quotient(numerator: Fixed, denominator: Fixed) -> (r: Option<Fixed>)
    ensures
        r is Some <==> formula_root(numerator@, denominator@) is Some,
        r matches Some(q) ==> formula_root(numerator@, denominator@) == Some(q@),
{
    match numerator.checked_neg() {
        Some(negated) => negated.checked_div(denominator),
        None => None,
    }
}

/// The real roots of `polynomial` by the linear formula, in increasing order;
/// zero is among them if `has_zero` is set.
pub fn get_roots(polynomial: &Polynomial, has_zero: bool) -> (r: Vec<Fixed>)
    ensures
        raw_values(r@) == linear_roots(polynomial@, has_zero),
        non_decreasing(raw_values(r@)),
{
    let mut found: Vec<Fixed> = Vec::new();
    match (polynomial.last(), polynomial.first()) {
        (Some(a), Some(b)) => {
            match negated_quotient(*b, *a) {
                Some(root) => {
                    if has_zero && root.is_positive() {
                        found.push(Fixed::zero());
                        found.push(root);
                    } else if has_zero {
                        found.push(root);
                        found.push(Fixed::zero());
                    } else {
                        found.push(root);
                    }
                },
                None => {
                    if has_zero {
                        found.push(Fixed::zero());
                    }
                },
            }
        },
        _ => {},
    }
    assert(raw_values(found@) == linear_roots(polynomial@, has_zero));
    found
}

} // verus!
