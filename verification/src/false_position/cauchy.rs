//! What the coefficients alone tell about the real roots: the counts of sign
//! variations, and Cauchy's bound.
//!
//! By Descartes' rule of signs the counts are upper bounds on the number of
//! roots on each side of zero, provided that the coefficients which count as
//! zero are exactly zero. Cauchy's bound encloses the roots where the leading
//! coefficient is positive; where it is negative, roots may lie beyond it.

use vstd::prelude::*;
use crate::constants::EPSILON;
use crate::fixed::{
    lemma_truncated_quotient, magnitude, quotient, quotient_away, ratio_away, saturate, sum, Fixed,
    SCALE,
};
use crate::math::{is_zero_within, near_zero};
use crate::polynomials::{
    as_reals, is_real_root, real_absolute, real_power, real_value, Polynomial,
};

verus! {

/// Whether `a` and `b` have strictly opposite signs.
pub open spec fn opposite(a: int, b: int) -> bool {
    (a < 0 && b > 0) || (a > 0 && b < 0)
}

/// `c` without the coefficients that are zero within `epsilon`.
pub open spec fn significant(c: Seq<int>, epsilon: int) -> Seq<int>
    decreases c.len(),
{
    if c.len() == 0 {
        c
    } else if near_zero(c.last(), epsilon) {
        significant(c.drop_last(), epsilon)
    } else {
        significant(c.drop_last(), epsilon).push(c.last())
    }
}

/// The number of neighbours in `c` with strictly opposite signs.
pub open spec fn sign_changes(c: Seq<int>) -> nat
    decreases c.len(),
{
    if c.len() < 2 {
        0
    } else if opposite(c[c.len() - 2], c.last()) {
        sign_changes(c.drop_last()) + 1
    } else {
        sign_changes(c.drop_last())
    }
}

/// The number of sign variations of the coefficients `c`: the sign changes
/// that are left once the coefficients that are zero within `epsilon` have
/// been taken out.
pub open spec fn variation_count(c: Seq<int>, epsilon: int) -> nat {
    sign_changes(significant(c, epsilon))
}

/// The coefficients of the polynomial `p(-x)`, where `c` holds those of
/// `p(x)`: the coefficients of the odd powers change sign.
pub open spec fn reflected(c: Seq<int>) -> Seq<int> {
    Seq::new(c.len(), |i: int| if i % 2 == 0 { c[i] } else { -c[i] })
}

/// The largest absolute value in `c`, zero if `c` is empty.
pub open spec fn largest_magnitude(c: Seq<int>) -> int
    decreases c.len(),
{
    if c.len() == 0 {
        0
    } else {
        let rest = largest_magnitude(c.drop_last());
        let m = magnitude(c.last());
        if m > rest {
            m
        } else {
            rest
        }
    }
}

/// All the coefficients of `c` but that of the highest power.
pub open spec fn lower_coefficients(c: Seq<int>) -> Seq<int> {
    if c.len() == 0 {
        c
    } else {
        c.drop_last()
    }
}

/// Cauchy's bound for the coefficients `c`: the absolute value of one plus
/// the quotient of the largest magnitude among the lower coefficients by the
/// leading coefficient. The quotient is rounded away from zero, so that
/// rounding does not draw the bound inside the roots. Where the leading
/// coefficient is exactly zero there is no quotient, and the bound is the
/// largest number. There is no bound for the empty sequence.
pub open spec fn cauchy_bound(c: Seq<int>) -> Option<int> {
    if c.len() == 0 {
        None
    } else if c.last() == 0 {
        Some(i64::MAX as int)
    } else {
        Some(magnitude(sum(SCALE as int, ratio_away(largest_magnitude(c.drop_last()), c.last()))))
    }
}

/// The absolute value of `v`, exactly.
pub open spec fn absolute(v: int) -> int {
    if v < 0 {
        -v
    } else {
        v
    }
}

/// The sign of `value`, turned round if `flip` is set: -1, 0 or 1.
fn signum(value: Fixed, flip: bool) -> (r: i8)
    ensures
        -1 <= r <= 1,
        r < 0 <==> (if flip { -value@ } else { value@ }) < 0,
        r > 0 <==> (if flip { -value@ } else { value@ }) > 0,
{
    let s: i8 = if value.raw < 0 {
        -1
    } else if value.raw > 0 {
        1
    } else {
        0
    };
    if flip {
        -s
    } else {
        s
    }
}

/// The variations of `polynomial` itself, or of its reflection.
fn count_variations(polynomial: &Polynomial, epsilon: Fixed, reflect: bool) -> (r: usize)
    ensures
        r == variation_count(if reflect { reflected(polynomial@) } else { polynomial@ }, epsilon@),
{
    let ghost c = if reflect { reflected(polynomial@) } else { polynomial@ };
    let n = polynomial.len();
    let mut count: usize = 0;
    // Sign of the last coefficient seen that was not near zero; none yet
    // while `seen` is unset.
    let mut seen = false;
    let mut previous: i8 = 0;
    let mut i: usize = 0;
    while i < n
        invariant
            n == polynomial@.len(),
            c == (if reflect { reflected(polynomial@) } else { polynomial@ }),
            i <= n,
            count == sign_changes(significant(c.take(i as int), epsilon@)),
            count <= i,
            seen == (significant(c.take(i as int), epsilon@).len() > 0),
            -1 <= previous <= 1,
            seen ==> (previous < 0 <==> significant(c.take(i as int), epsilon@).last() < 0),
            seen ==> (previous > 0 <==> significant(c.take(i as int), epsilon@).last() > 0),
        decreases n - i,
    {
        let ghost kept = significant(c.take(i as int), epsilon@);
        let ghost next = c.take(i + 1);
        proof {
            assert(next.drop_last() == c.take(i as int));
            assert(next.last() == c[i as int]);
        }
        match polynomial.get(i) {
            Some(coefficient) => {
                if !is_zero_within(*coefficient, epsilon) {
                    let sign = signum(*coefficient, reflect && i % 2 == 1);
                    proof {
                        assert(kept.push(next.last()).drop_last() == kept);
                    }
                    if seen && ((previous < 0 && sign > 0) || (previous > 0 && sign < 0)) {
                        count += 1;
                    }
                    seen = true;
                    previous = sign;
                }
            },
            None => {},
        }
        i += 1;
    }
    proof {
        assert(c.take(i as int) == c);
    }
    count
}

/// The number of sign variations of the coefficients, with coefficients that
/// are zero within `epsilon` passed over. By Descartes' rule of signs the
/// polynomial has no more positive roots than this, provided that every
/// coefficient passed over is exactly zero; a coefficient that is small but
/// not zero can hide roots from the count.
pub fn variations_within(polynomial: &Polynomial, epsilon: Fixed) -> (r: usize)
    ensures
        r == variation_count(polynomial@, epsilon@),
{
    count_variations(polynomial, epsilon, false)
}

/// The number of sign variations at the reference tolerance.
pub fn variations(polynomial: &Polynomial) -> (r: usize)
    ensures
        r == variation_count(polynomial@, EPSILON as int),
{
    count_variations(polynomial, Fixed { raw: EPSILON }, false)
}

/// The number of sign variations of the coefficients of `p(-x)`, with
/// coefficients that are zero within `epsilon` passed over. By Descartes' rule
/// of signs the polynomial has no more negative roots than this, provided
/// that every coefficient passed over is exactly zero; a coefficient that is
/// small but not zero can hide roots from the count.
pub fn negative_variations_within(polynomial: &Polynomial, epsilon: Fixed) -> (r: usize)
    ensures
        r == variation_count(reflected(polynomial@), epsilon@),
{
    count_variations(polynomial, epsilon, true)
}

/// The number of sign variations of `p(-x)` at the reference tolerance.
pub fn negative_variations(polynomial: &Polynomial) -> (r: usize)
    ensures
        r == variation_count(reflected(polynomial@), EPSILON as int),
{
    count_variations(polynomial, Fixed { raw: EPSILON }, true)
}

/// The largest absolute value among the coefficients below the leading one,
/// zero if there is none.
pub fn biggest_non_last_coefficient(polynomial: &Polynomial) -> (r: Fixed)
    ensures
        r@ == largest_magnitude(lower_coefficients(polynomial@)),
{
    let n = polynomial.len();
    let mut biggest = Fixed::zero();
    let mut i: usize = 0;
    while i + 1 < n
        invariant
            n == polynomial@.len(),
            i + 1 <= n || (i == 0 && n == 0),
            biggest@ == largest_magnitude(polynomial@.take(i as int)),
        decreases n - i,
    {
        proof {
            let next = polynomial@.take(i + 1);
            assert(next.drop_last() == polynomial@.take(i as int));
        }
        match polynomial.get(i) {
            Some(coefficient) => {
                let m = coefficient.saturating_abs();
                if m.raw > biggest.raw {
                    biggest = m;
                }
            },
            None => {},
        }
        i += 1;
    }
    proof {
        assert(polynomial@.take(i as int) == lower_coefficients(polynomial@));
    }
    biggest
}

/// Cauchy's bound, within which the roots are searched for: the largest
/// number where the leading coefficient is exactly zero, and none for a
/// polynomial without coefficients. Where the leading coefficient is
/// positive, the bound encloses the roots.
pub fn bound(polynomial: &Polynomial) -> (r: Option<Fixed>)
    ensures
        r is None <==> polynomial@.len() == 0,
        r matches Some(b) ==> cauchy_bound(polynomial@) == Some(b@),
{
    match polynomial.last() {
        Some(last) => {
            let biggest = biggest_non_last_coefficient(polynomial);
            match biggest.saturating_div_away(*last) {
                Some(q) => Some(Fixed::one().saturating_add(q).saturating_abs()),
                None => Some(Fixed { raw: i64::MAX }),
            }
        },
        None => None,
    }
}

/// Where no coefficient is zero within the tolerance, the sign variations are
/// the sign changes between neighbours.
pub proof fn lemma_variations_without_zeros(c: Seq<int>, epsilon: int)
    requires
        forall|i: int| 0 <= i < c.len() ==> !near_zero(#[trigger] c[i], epsilon),
    ensures
        significant(c, epsilon) == c,
        variation_count(c, epsilon) == sign_changes(c),
    decreases c.len(),
{
    if c.len() > 0 {
        lemma_variations_without_zeros(c.drop_last(), epsilon);
        assert(c.drop_last().push(c.last()) == c);
    }
}

/// No coefficient among the significant ones is zero within the tolerance, so
/// taking them out a second time changes nothing, nor does it change the
/// count.
pub proof fn lemma_significant_has_no_zeros(c: Seq<int>, epsilon: int)
    ensures
        forall|i: int|
            0 <= i < significant(c, epsilon).len() ==> !near_zero(
                #[trigger] significant(c, epsilon)[i],
                epsilon,
            ),
        variation_count(significant(c, epsilon), epsilon) == variation_count(c, epsilon),
    decreases c.len(),
{
    if c.len() > 0 {
        lemma_significant_has_no_zeros(c.drop_last(), epsilon);
    }
    lemma_variations_without_zeros(significant(c, epsilon), epsilon);
}

/// The largest magnitude is at least every magnitude in the sequence, and
/// not negative.
pub proof fn lemma_largest_magnitude_bounds(c: Seq<int>)
    ensures
        largest_magnitude(c) >= 0,
        forall|i: int| 0 <= i < c.len() ==> magnitude(#[trigger] c[i]) <= largest_magnitude(c),
    decreases c.len(),
{
    if c.len() > 0 {
        lemma_largest_magnitude_bounds(c.drop_last());
        assert forall|i: int| 0 <= i < c.len() implies magnitude(#[trigger] c[i])
            <= largest_magnitude(c) by {
            if i < c.len() - 1 {
                assert(c.drop_last()[i] == c[i]);
            }
        }
    }
}

/// The largest magnitude of a sequence that is not empty is the magnitude of
/// one of its members.
pub proof fn lemma_largest_magnitude_is_attained(c: Seq<int>)
    requires
        c.len() > 0,
    ensures
        exists|i: int| 0 <= i < c.len() && magnitude(#[trigger] c[i]) == largest_magnitude(c),
    decreases c.len(),
{
    let rest = c.drop_last();
    lemma_largest_magnitude_bounds(rest);
    if rest.len() > 0 && magnitude(c.last()) <= largest_magnitude(rest) {
        lemma_largest_magnitude_is_attained(rest);
        let i = choose|i: int|
            0 <= i < rest.len() && magnitude(#[trigger] rest[i]) == largest_magnitude(rest);
        assert(c[i] == rest[i]);
    } else {
        assert(magnitude(c[c.len() - 1]) == largest_magnitude(c));
    }
}

/// The magnitude of a power is the power of the magnitude, and positive
/// where the base is not zero.
proof fn lemma_power_of_magnitude(x: real, n: nat)
    ensures
        real_absolute(real_power(x, n)) == real_power(real_absolute(x), n),
        x != 0 as real ==> real_power(real_absolute(x), n) > 0 as real,
    decreases n,
{
    if n > 0 {
        lemma_power_of_magnitude(x, (n - 1) as nat);
        let p = real_power(x, (n - 1) as nat);
        let q = real_power(real_absolute(x), (n - 1) as nat);
        assert(real_absolute(x * p) == real_absolute(x) * q && (x != 0 as real ==> real_absolute(x)
            * q > 0 as real)) by (nonlinear_arith)
            requires
                real_absolute(p) == q,
                x != 0 as real ==> q > 0 as real,
        ;
    }
}

/// One step of the domination argument: the lower terms, one more of them
/// taken in, stay below the next power of the leading term.
proof fn lemma_domination_step(
    r: real,
    last: real,
    power: real,
    size: real,
    m: real,
    lead: real,
    a: real,
)
    by (nonlinear_arith)
    requires
        lead > 0 as real,
        m >= 0 as real,
        a > 0 as real,
        size > 0 as real,
        -m <= last <= m,
        real_absolute(r) < lead * size,
        real_absolute(power) == size,
        lead * a > lead + m,
    ensures
        real_absolute(r + last * power) < lead * (a * size),
{
    assert(real_absolute(last * power) <= m * size);
    assert(real_absolute(r + last * power) <= real_absolute(r) + m * size);
    assert(lead * size + m * size == (lead + m) * size);
    assert((lead + m) * size < (lead * a) * size);
    assert((lead * a) * size == lead * (a * size));
}

/// Beyond Cauchy's bound the leading term outweighs all the terms below it:
/// with no coefficient of `c` larger in magnitude than `m`, and `x` large
/// enough for the leading coefficient `lead`, the value of `c` at `x` stays
/// below what the leading term will be.
proof fn lemma_lower_terms_are_dominated(c: Seq<int>, x: real, m: int, lead: int)
    requires
        lead > 0,
        m >= 0,
        forall|i: int| 0 <= i < c.len() ==> -m <= #[trigger] c[i] <= m,
        (lead as real) * real_absolute(x) > (lead + m) as real,
    ensures
        real_absolute(real_value(as_reals(c), x)) < (lead as real) * real_power(
            real_absolute(x),
            c.len(),
        ),
    decreases c.len(),
{
    if c.len() > 0 {
        let rest = c.drop_last();
        let k = rest.len();
        assert forall|i: int| 0 <= i < rest.len() implies -m <= #[trigger] rest[i] <= m by {
            assert(rest[i] == c[i]);
        }
        lemma_lower_terms_are_dominated(rest, x, m, lead);
        lemma_power_of_magnitude(x, k);
        assert(as_reals(c).drop_last() == as_reals(rest));
        assert(real_absolute(x) > 0 as real) by (nonlinear_arith)
            requires
                lead > 0,
                m >= 0,
                (lead as real) * real_absolute(x) > (lead + m) as real,
        ;
        lemma_domination_step(
            real_value(as_reals(rest), x),
            c.last() as real,
            real_power(x, k),
            real_power(real_absolute(x), k),
            m as real,
            lead as real,
            real_absolute(x),
        );
    }
}

/// Cauchy's bound encloses the real roots: where the leading coefficient is
/// positive and the bound below the largest number, no real root of the
/// polynomial is larger in magnitude than the bound.
pub proof fn lemma_bound_encloses_roots(c: Seq<int>, x: real)
    requires
        c.len() > 0,
        c.last() > 0,
        forall|i: int| 0 <= i < c.len() ==> i64::MIN < #[trigger] c[i] <= i64::MAX,
        is_real_root(c, x),
    ensures
        cauchy_bound(c) matches Some(b) && (b == i64::MAX || real_absolute(x) * (SCALE as real)
            <= b as real),
{
    let lower = c.drop_last();
    let lead = c.last();
    let m = largest_magnitude(lower);
    let a = real_absolute(x);
    let b = cauchy_bound(c).unwrap();
    let q = quotient_away(m * SCALE, lead);
    lemma_largest_magnitude_bounds(lower);
    assert forall|i: int| 0 <= i < lower.len() implies -m <= #[trigger] lower[i] <= m by {
        assert(lower[i] == c[i]);
        assert(magnitude(lower[i]) == absolute(lower[i]));
    }
    assert(m * SCALE >= 0) by (nonlinear_arith)
        requires
            m >= 0,
            SCALE > 0,
    ;
    lemma_truncated_quotient(m * SCALE, lead);
    assert(q >= 0 && m * SCALE <= q * lead) by (nonlinear_arith)
        requires
            lead > 0,
            m * SCALE >= 0,
            q == quotient_away(m * SCALE, lead),
            0 <= quotient(m * SCALE, lead) * lead <= m * SCALE < quotient(m * SCALE, lead) * lead
                + lead,
    ;
    assert(b == saturate(SCALE + saturate(q)));
    if b < i64::MAX && a * (SCALE as real) > b as real {
        assert(b == SCALE + q);
        assert((lead as real) * a > (lead + m) as real) by (nonlinear_arith)
            requires
                a * (SCALE as real) > (SCALE + q) as real,
                m * SCALE <= q * lead,
                lead > 0,
                SCALE > 0,
        ;
        lemma_lower_terms_are_dominated(lower, x, m, lead);
        lemma_power_of_magnitude(x, lower.len());
        assert(as_reals(c).drop_last() == as_reals(lower));
        let r = real_value(as_reals(lower), x);
        let p = real_power(x, lower.len());
        assert(r + (lead as real) * p != 0 as real) by (nonlinear_arith)
            requires
                lead > 0,
                real_absolute(r) < (lead as real) * real_absolute(p),
        ;
    }
}

/// Cauchy's bound encloses the roots among the fixed-point numbers: where the
/// leading coefficient is positive, a root of the polynomial that is the
/// number with the raw value `raw` lies between the negated bound and the
/// bound.
pub proof fn lemma_bound_encloses_fixed_point_roots(c: Seq<int>, x: real, raw: int)
    requires
        c.len() > 0,
        c.last() > 0,
        forall|i: int| 0 <= i < c.len() ==> i64::MIN < #[trigger] c[i] <= i64::MAX,
        i64::MIN < raw <= i64::MAX,
        x * (SCALE as real) == raw as real,
        is_real_root(c, x),
    ensures
        cauchy_bound(c) matches Some(b) && -b <= raw <= b,
{
    lemma_bound_encloses_roots(c, x);
    let b = cauchy_bound(c).unwrap();
    if b < i64::MAX {
        assert(real_absolute(x) * (SCALE as real) == absolute(raw) as real) by (nonlinear_arith)
            requires
                x * (SCALE as real) == raw as real,
                SCALE > 0,
        ;
    }
}

} // verus!
