//! From the coefficients as they were given to the roots: trimming, then the
//! method that fits the degree.

use vstd::prelude::*;
use crate::constants::Settings;
use crate::false_position::{roots, zero_root};
use crate::fixed::Fixed;
use crate::linear::linear_roots;
use crate::math::{is_zero_within, near_zero};
use crate::polynomials::{raw_values, trimmed, Polynomial};
use crate::quadratic::quadratic_roots;

verus! {

/// Whether zero is a root of the polynomial with coefficients `c` by its
/// constant coefficient alone: it has one, and that is zero within `epsilon`.
pub open spec fn zero_is_root(c: Seq<int>, epsilon: int) -> bool {
    c.len() > 0 && near_zero(c.first(), epsilon)
}

/// The roots of the polynomial with coefficients `c`: those of the trimmed
/// coefficients by the linear formula where two are left, by the quadratic
/// formula where three are, by the search where there are more; with fewer
/// than two left there is no root but zero, if the constant coefficient
/// speaks for it.
pub open spec fn solution(c: Seq<int>, settings: Settings) -> Seq<int> {
    let has_zero = zero_is_root(c, settings.tolerance());
    let kept = trimmed(c, settings.tolerance());
    if kept.len() < 2 {
        zero_root(has_zero)
    } else if kept.len() == 2 {
        linear_roots(kept, has_zero)
    } else if kept.len() == 3 {
        quadratic_roots(kept, has_zero, settings.tolerance())
    } else {
        roots(kept, has_zero, settings)
    }
}

/// The real roots of `polynomial` found with the given settings.
pub fn solve_with(polynomial: Polynomial, settings: &Settings) -> (r: Vec<Fixed>)
    ensures
        raw_values(r@) == solution(polynomial@, *settings),
{
    let epsilon = settings.epsilon();
    let has_zero = match polynomial.first() {
        Some(first) => is_zero_within(*first, epsilon),
        None => false,
    };
    let mut kept = polynomial;
    kept.simplify_within(epsilon);
    let n = kept.len();
    if n < 2 {
        let mut found: Vec<Fixed> = Vec::new();
        if has_zero {
            found.push(Fixed::zero());
        }
        assert(raw_values(found@) == zero_root(has_zero));
        found
    } else if n == 2 {
        crate::linear::get_roots(&kept, has_zero)
    } else if n == 3 {
        crate::quadratic::get_roots_within(&kept, has_zero, epsilon)
    } else {
        crate::false_position::get_roots_with(&kept, has_zero, settings)
    }
}

/// The real roots of `polynomial` found with the reference settings.
pub fn solve(polynomial: Polynomial) -> (r: Vec<Fixed>)
    ensures
        raw_values(r@) == solution(polynomial@, Settings::reference_settings()),
{
    let settings = Settings::reference();
    solve_with(polynomial, &settings)
}

} // verus!
