//! Real roots of polynomials with real coefficients.
//!
//! A polynomial is a sequence of coefficients in increasing power order. Its
//! real roots are looked for in three steps: Cauchy's bound gives the
//! interval to search, the counts of sign variations say how many roots to
//! look for on each side of zero, and a sweep over the interval in cells of
//! a fixed width refines every cell in which the polynomial changes sign by
//! the false position method. Polynomials of the first and second degree are
//! solved by formula.
//!
//! The interval holds the real roots where the leading coefficient is
//! positive, and the counts are upper bounds on the numbers of real roots
//! where the coefficients that count as zero are exactly zero; both are
//! proved. The search itself is approximate: it may miss a root, and it may
//! report a root near zero twice. What it reports is a point where the
//! computed value of the polynomial is zero within the tolerance, and where
//! no step of the computation left the range of the numbers, so that the
//! computed value lies within a known error of the true one.
//!
//! The two formulas are evaluated in checked arithmetic as well: where a
//! step of a formula leaves the range of the numbers, it gives no root.
//!
//! Numbers are fixed-point values with 32 fractional bits, so that every
//! result of the library is an exact function of its arguments; the
//! contracts state these functions, and the laws proved beside them say
//! what the results mean for the polynomial.

pub mod constants;
pub mod false_position;
pub mod fixed;
pub mod linear;
pub mod math;
pub mod polynomials;
pub mod quadratic;
pub mod solver;
