//! Root isolation and refinement by the false position method.
//!
//! The search runs over the interval that Cauchy's bound gives, cell by cell.
//! A cell at whose ends the polynomial has strictly opposite signs is a
//! bracket; the false position method refines it for a fixed number of steps,
//! and the point it ends at counts as a root if the polynomial is zero there
//! within the tolerance.
//!
//! Far from zero the value of a polynomial can leave the range of the
//! numbers. A value that the evaluation would have to clamp decides nothing
//! here: a cell with such a value at an end is no bracket, a refinement that
//! meets one yields no point, and a point with such a value is no root.

pub mod cauchy;
pub mod descartes;

use vstd::prelude::*;
use crate::constants::{Settings, EPSILON};
use crate::fixed::{lemma_raw_product_bounds, negation, quotient, sum, Fixed};
use crate::math::{is_zero_within, near_zero, non_decreasing};
use crate::polynomials::{
    as_reals, lemma_value_at_is_accurate, nothing_saturates, number, raw_values, real_absolute,
    real_value, value_at, value_error, Polynomial,
};
use self::cauchy::{
    bound, cauchy_bound, negative_variations_within, opposite, reflected, variation_count,
    variations_within,
};

verus! {

/// Where the chord through the points `(a, fa)` and `(b, fb)` crosses zero:
/// `(a * fb - b * fa) / (fb - fa)`, rounded toward zero.
pub open spec fn chord_zero(a: int, fa: int, b: int, fb: int) -> int
    recommends
        fa != fb,
{
    quotient(a * fb - b * fa, fb - fa)
}

/// The false position point of the polynomial with coefficients `c` for the
/// ends `a` and `b`. There is none where the evaluation at an end clamps a
/// value, where the polynomial takes the same value at both ends, or where
/// the chord crosses zero outside the range of the numbers.
pub open spec fn false_position_point(c: Seq<int>, a: int, b: int) -> Option<int> {
    let fa = value_at(c, a);
    let fb = value_at(c, b);
    let x = chord_zero(a, fa, b, fb);
    if nothing_saturates(c, a) && nothing_saturates(c, b) && fa != fb && i64::MIN <= x
        <= i64::MAX {
        Some(x)
    } else {
        None
    }
}

/// The false position point after `steps` refinements of the bracket from `a`
/// to `b`. A refinement moves one end to the current point: the lower end
/// if the polynomial is negative there and positive at the upper end, else
/// the upper end. There is no refined point where one of the false position
/// points on the way is missing, which is the case where the evaluation at
/// one of them clamps a value.
pub open spec fn refined(c: Seq<int>, a: int, b: int, steps: nat) -> Option<int>
    decreases steps,
{
    match false_position_point(c, a, b) {
        None => None,
        Some(x) => if steps == 0 {
            Some(x)
        } else if value_at(c, x) < 0 && value_at(c, b) > 0 {
            refined(c, x, b, (steps - 1) as nat)
        } else {
            refined(c, a, x, (steps - 1) as nat)
        },
    }
}

/// Whether the cell from `lo` to `hi` is a bracket: the evaluation at
/// neither end clamps a value, and the values have strictly opposite signs.
pub open spec fn is_bracket(c: Seq<int>, lo: int, hi: int) -> bool {
    nothing_saturates(c, lo) && nothing_saturates(c, hi) && opposite(
        value_at(c, lo),
        value_at(c, hi),
    )
}

/// The root found in the cell from `lo` to `hi`, if any: the cell must be a
/// bracket, and at the refined point the evaluation must clamp nothing and
/// give a value that is zero within the tolerance.
pub open spec fn cell_root(c: Seq<int>, settings: Settings, lo: int, hi: int) -> Option<int> {
    if is_bracket(c, lo, hi) {
        match refined(c, lo, hi, settings.budget()) {
            Some(x) => if nothing_saturates(c, x) && near_zero(
                value_at(c, x),
                settings.tolerance(),
            ) {
                Some(x)
            } else {
                None
            },
            None => None,
        }
    } else {
        None
    }
}

/// The roots found by a sweep over the cells that start at `from`, then one
/// partition width further, and so on below `to`, in the order in which they
/// are found; the sweep ends early once `remaining` roots have been found.
pub open spec fn roots_in_interval(
    c: Seq<int>,
    settings: Settings,
    from: int,
    to: int,
    remaining: nat,
) -> Seq<int>
    decreases (if from < to { to - from } else { 0 }),
    when settings.width() > 0 && to <= i64::MAX
{
    if from >= to || remaining == 0 {
        Seq::empty()
    } else {
        let next = sum(from, settings.width());
        match cell_root(c, settings, from, next) {
            Some(x) => seq![x] + roots_in_interval(c, settings, next, to, (remaining - 1) as nat),
            None => roots_in_interval(c, settings, next, to, remaining),
        }
    }
}

/// The root zero, if the caller has flagged it.
pub open spec fn zero_root(has_zero: bool) -> Seq<int> {
    if has_zero {
        seq![0int]
    } else {
        Seq::empty()
    }
}

/// The negative roots: a sweep from the negated bound up to one partition
/// width above zero, for as many roots as `p(-x)` has sign variations.
pub open spec fn negative_roots(c: Seq<int>, settings: Settings, bound: int) -> Seq<int> {
    roots_in_interval(
        c,
        settings,
        negation(bound),
        settings.width(),
        variation_count(reflected(c), settings.tolerance()),
    )
}

/// The positive roots: a sweep from zero up to the bound and the tolerance
/// above it, for as many roots as `p(x)` has sign variations.
pub open spec fn positive_roots(c: Seq<int>, settings: Settings, bound: int) -> Seq<int> {
    roots_in_interval(
        c,
        settings,
        0,
        sum(bound, settings.tolerance()),
        variation_count(c, settings.tolerance()),
    )
}

/// The roots of the polynomial with coefficients `c`: the negative ones, then
/// zero if flagged, then the positive ones. Without coefficients there is no
/// bound and nothing to search, and only the flagged zero is left.
pub open spec fn roots(c: Seq<int>, has_zero: bool, settings: Settings) -> Seq<int> {
    match cauchy_bound(c) {
        None => zero_root(has_zero),
        Some(b) => negative_roots(c, settings, b) + zero_root(has_zero) + positive_roots(
            c,
            settings,
            b,
        ),
    }
}

/// The false position point for the ends `a` and `b`, or `None` where there
/// is none: the evaluation at an end clamps a value, the polynomial takes the
/// same value at both ends, or the point lies outside the range of the
/// numbers.
pub fn false_position(polynomial: &Polynomial, a: Fixed, b: Fixed) -> (r: Option<Fixed>)
    ensures
        r is Some <==> false_position_point(polynomial@, a@, b@) is Some,
        r matches Some(x) ==> false_position_point(polynomial@, a@, b@) == Some(x@),
{
    let fa = match polynomial.checked_value_at(a) {
        Some(value) => value,
        None => {
            return None;
        },
    };
    let fb = match polynomial.checked_value_at(b) {
        Some(value) => value,
        None => {
            return None;
        },
    };
    if fa.raw == fb.raw {
        return None;
    }
    proof {
        lemma_raw_product_bounds(a@, fb@);
        lemma_raw_product_bounds(b@, fa@);
    }
    let numerator: i128 = (a.raw as i128) * (fb.raw as i128) - (b.raw as i128) * (fa.raw as i128);
    let denominator: i128 = fb.raw as i128 - fa.raw as i128;
    let q: i128 = if denominator > 0 {
        numerator / denominator
    } else {
        (-numerator) / (-denominator)
    };
    if q < i64::MIN as i128 || q > i64::MAX as i128 {
        None
    } else {
        Some(Fixed { raw: q as i64 })
    }
}

/// The point that the false position method reaches from the bracket between
/// `a` and `b` in `iterations` refinements, or `None` where a false position
/// point on the way is missing.
pub fn get_root(polynomial: &Polynomial, a: Fixed, b: Fixed, iterations: u32) -> (r: Option<Fixed>)
    ensures
        r is Some <==> refined(polynomial@, a@, b@, iterations as nat) is Some,
        r matches Some(x) ==> refined(polynomial@, a@, b@, iterations as nat) == Some(x@),
{
    let ghost goal = refined(polynomial@, a@, b@, iterations as nat);
    let mut lo = a;
    let mut hi = b;
    let mut x = match false_position(polynomial, lo, hi) {
        Some(x) => x,
        None => {
            return None;
        },
    };
    let mut done: u32 = 0;
    while done < iterations
        invariant
            done <= iterations,
            goal == refined(polynomial@, a@, b@, iterations as nat),
            false_position_point(polynomial@, lo@, hi@) == Some(x@),
            goal == refined(polynomial@, lo@, hi@, (iterations - done) as nat),
        decreases iterations - done,
    {
        match (polynomial.checked_value_at(x), polynomial.checked_value_at(hi)) {
            (Some(at_x), Some(at_hi)) => {
                if at_x.is_negative() && at_hi.is_positive() {
                    lo = x;
                } else {
                    hi = x;
                }
            },
            _ => {
                // The evaluation at the upper end clamps nothing, or there
                // would be no point `x`; so it is at `x` that a value is
                // clamped, and no false position point has `x` for an end.
                let ghost left = (iterations - done - 1) as nat;
                assert(false_position_point(polynomial@, x@, hi@) is None);
                assert(false_position_point(polynomial@, lo@, x@) is None);
                assert(refined(polynomial@, x@, hi@, left) is None);
                assert(refined(polynomial@, lo@, x@, left) is None);
                return None;
            },
        }
        done += 1;
        assert(goal == refined(polynomial@, lo@, hi@, (iterations - done) as nat));
        x = match false_position(polynomial, lo, hi) {
            Some(x) => x,
            None => {
                return None;
            },
        };
    }
    Some(x)
}

/// Appends to `roots` the roots found by a sweep over the cells from `a` to
/// `b`, and ends the sweep early once `remaining_roots` have been found.
pub fn get_roots_in_interval(
    roots: &mut Vec<Fixed>,
    polynomial: &Polynomial,
    a: Fixed,
    b: Fixed,
    remaining_roots: usize,
    settings: &Settings,
)
    ensures
        raw_values(final(roots)@) == raw_values(old(roots)@) + roots_in_interval(
            polynomial@,
            *settings,
            a@,
            b@,
            remaining_roots as nat,
        ),
{
    let width = settings.partition_size();
    let epsilon = settings.epsilon();
    let iterations = settings.iterations();
    let ghost found = roots_in_interval(polynomial@, *settings, a@, b@, remaining_roots as nat);
    let mut current = a;
    let mut remaining = remaining_roots;
    proof {
        assert(raw_values(roots@) + found == raw_values(old(roots)@) + found);
    }
    while current.raw < b.raw && remaining > 0
        invariant
            width@ == settings.width(),
            width@ > 0,
            epsilon@ == settings.tolerance(),
            iterations == settings.budget(),
            raw_values(roots@) + roots_in_interval(
                polynomial@,
                *settings,
                current@,
                b@,
                remaining as nat,
            ) == raw_values(old(roots)@) + found,
        decreases (if current@ < b@ { b@ - current@ } else { 0 }),
    {
        let start = current;
        current = current.saturating_add(width);
        let ghost before = raw_values(roots@);
        let ghost rest = roots_in_interval(
            polynomial@,
            *settings,
            current@,
            b@,
            (remaining - 1) as nat,
        );
        match (polynomial.checked_value_at(start), polynomial.checked_value_at(current)) {
            (Some(at_start), Some(at_end)) => {
                if (at_start.is_negative() && at_end.is_positive()) || (at_start.is_positive()
                    && at_end.is_negative()) {
                    match get_root(polynomial, start, current, iterations) {
                        Some(x) => {
                            match polynomial.checked_value_at(x) {
                                Some(at_x) => {
                                    if is_zero_within(at_x, epsilon) {
                                        roots.push(x);
                                        remaining -= 1;
                                        proof {
                                            assert(raw_values(roots@) == before.push(x@));
                                            assert(before.push(x@) + rest == before + (seq![x@]
                                                + rest));
                                        }
                                    }
                                },
                                None => {},
                            }
                        },
                        None => {},
                    }
                }
            },
            _ => {},
        }
    }
}

/// The real roots of `polynomial` that the search finds with the given
/// settings: the negative ones, zero if `has_zero` is set, then the positive
/// ones. Each of them is the flagged zero, or a point where the evaluation of
/// the polynomial clamps no value and gives a value that is zero within the
/// tolerance.
pub fn get_roots_with(polynomial: &Polynomial, has_zero: bool, settings: &Settings) -> (r: Vec<
    Fixed,
>)
    ensures
        raw_values(r@) == roots(polynomial@, has_zero, *settings),
        r@.len() <= variation_count(reflected(polynomial@), settings.tolerance())
            + variation_count(polynomial@, settings.tolerance()) + (if has_zero { 1nat } else { 0nat }),
        forall|i: int|
            0 <= i < r@.len() ==> (nothing_saturates(polynomial@, (#[trigger] r@[i])@) && near_zero(
                value_at(polynomial@, r@[i]@),
                settings.tolerance(),
            )) || (has_zero && r@[i]@ == 0),
{
    let mut found: Vec<Fixed> = Vec::new();
    let epsilon = settings.epsilon();
    let width = settings.partition_size();
    assert(raw_values(found@) == Seq::<int>::empty());
    match bound(polynomial) {
        Some(upper_bound) => {
            let negative = negative_variations_within(polynomial, epsilon);
            if negative > 0 {
                get_roots_in_interval(
                    &mut found,
                    polynomial,
                    upper_bound.saturating_neg(),
                    width,
                    negative,
                    settings,
                );
            }
            let ghost below = raw_values(found@);
            assert(below == negative_roots(polynomial@, *settings, upper_bound@));
            if has_zero {
                found.push(Fixed::zero());
                assert(raw_values(found@) == below.push(0int));
            }
            let ghost middle = raw_values(found@);
            assert(middle == below + zero_root(has_zero));
            let positive = variations_within(polynomial, epsilon);
            if positive > 0 {
                get_roots_in_interval(
                    &mut found,
                    polynomial,
                    Fixed::zero(),
                    upper_bound.saturating_add(epsilon),
                    positive,
                    settings,
                );
            }
            assert(raw_values(found@) == middle + positive_roots(
                polynomial@,
                *settings,
                upper_bound@,
            ));
        },
        None => {
            if has_zero {
                found.push(Fixed::zero());
                assert(raw_values(found@) == Seq::<int>::empty().push(0int));
            }
        },
    }
    proof {
        lemma_roots_are_valid(polynomial@, has_zero, *settings);
        let found_raw = raw_values(found@);
        assert forall|i: int| 0 <= i < found@.len() implies (nothing_saturates(
            polynomial@,
            (#[trigger] found@[i])@,
        ) && near_zero(value_at(polynomial@, found@[i]@), settings.tolerance())) || (has_zero
            && found@[i]@ == 0) by {
            assert(found_raw[i] == found@[i]@);
        }
    }
    found
}

/// The real roots of `polynomial` that the search finds with the reference
/// settings. Each of them is the flagged zero, or a point where the
/// evaluation of the polynomial clamps no value and gives a value that is
/// zero within the tolerance.
pub fn get_roots(polynomial: &Polynomial, has_zero: bool) -> (r: Vec<Fixed>)
    ensures
        raw_values(r@) == roots(polynomial@, has_zero, Settings::reference_settings()),
        r@.len() <= variation_count(reflected(polynomial@), EPSILON as int) + variation_count(
            polynomial@,
            EPSILON as int,
        ) + (if has_zero { 1nat } else { 0nat }),
        forall|i: int|
            0 <= i < r@.len() ==> (nothing_saturates(polynomial@, (#[trigger] r@[i])@) && near_zero(
                value_at(polynomial@, r@[i]@),
                EPSILON as int,
            )) || (has_zero && r@[i]@ == 0),
{
    let settings = Settings::reference();
    get_roots_with(polynomial, has_zero, &settings)
}

/// Where the cell of a sweep starts that comes after `cells_before` others,
/// the first of which starts at `from`.
pub open spec fn cell_start(from: int, width: int, cells_before: nat) -> int {
    from + cells_before * width
}

/// Whether the root found in the cell that starts at `lo` lies in that cell.
pub open spec fn cell_holds_its_root(c: Seq<int>, settings: Settings, lo: int) -> bool {
    match cell_root(c, settings, lo, sum(lo, settings.width())) {
        Some(x) => lo <= x <= sum(lo, settings.width()),
        None => true,
    }
}

/// Whether the root found in any cell of the sweep from `from` to `to` lies
/// in that cell.
pub open spec fn roots_stay_in_cells(c: Seq<int>, settings: Settings, from: int, to: int) -> bool {
    forall|k: nat|
        #[trigger] cell_start(from, settings.width(), k) < to ==> cell_holds_its_root(
            c,
            settings,
            cell_start(from, settings.width(), k),
        )
}

/// Whether the polynomial rises through every bracket of the sweep from
/// `from` to `to`: it is negative at the lower end of each cell that is a
/// bracket.
pub open spec fn brackets_rise(c: Seq<int>, settings: Settings, from: int, to: int) -> bool {
    forall|k: nat|
        #[trigger] cell_start(from, settings.width(), k) < to && is_bracket(
            c,
            cell_start(from, settings.width(), k),
            sum(cell_start(from, settings.width(), k), settings.width()),
        ) ==> value_at(c, cell_start(from, settings.width(), k)) < 0
}

/// The chord through two points on opposite sides of zero, the first of them
/// strictly below, crosses zero between them; where the second point lies on
/// zero, the chord crosses there.
pub proof fn lemma_chord_zero_is_between(a: int, fa: int, b: int, fb: int)
    requires
        i64::MIN <= a <= b <= i64::MAX,
        fa < 0 <= fb,
    ensures
        a <= chord_zero(a, fa, b, fb) <= b,
        fb == 0 ==> chord_zero(a, fa, b, fb) == b,
{
    let n = a * fb - b * fa;
    let d = fb - fa;
    assert(a * d <= n <= b * d) by (nonlinear_arith)
        requires
            n == a * fb - b * fa,
            d == fb - fa,
            a <= b,
            fa < 0 <= fb,
    ;
    assert(fb == 0 ==> n == b * d) by (nonlinear_arith)
        requires
            n == a * fb - b * fa,
            d == fb - fa,
    ;
    if n >= 0 {
        assert(a <= n / d <= b && (n == b * d ==> n / d == b)) by (nonlinear_arith)
            requires
                d > 0,
                n >= 0,
                a * d <= n <= b * d,
        ;
    } else {
        assert(a <= -((-n) / d) <= b && (n == b * d ==> -((-n) / d) == b)) by (nonlinear_arith)
            requires
                d > 0,
                n < 0,
                a * d <= n <= b * d,
        ;
    }
}

/// In a bracket at whose lower end the polynomial is negative and at whose
/// upper end it is not, the refined point, where there is one, lies in the
/// bracket.
pub proof fn lemma_refined_stays_in_rising_bracket(c: Seq<int>, a: int, b: int, steps: nat)
    requires
        i64::MIN <= a <= b <= i64::MAX,
        value_at(c, a) < 0 <= value_at(c, b),
    ensures
        refined(c, a, b, steps) matches Some(x) ==> a <= x <= b,
    decreases steps,
{
    let x = chord_zero(a, value_at(c, a), b, value_at(c, b));
    lemma_chord_zero_is_between(a, value_at(c, a), b, value_at(c, b));
    if steps > 0 && false_position_point(c, a, b) is Some {
        if value_at(c, x) < 0 && value_at(c, b) > 0 {
            lemma_refined_stays_in_rising_bracket(c, x, b, (steps - 1) as nat);
        } else {
            lemma_refined_stays_in_rising_bracket(c, a, x, (steps - 1) as nat);
        }
    }
}

/// A sweep finds no more roots than it was asked for; at each of them the
/// evaluation of the polynomial clamps no value and gives a value that is
/// zero within the tolerance.
pub proof fn lemma_sweep_roots_are_valid(
    c: Seq<int>,
    settings: Settings,
    from: int,
    to: int,
    remaining: nat,
)
    requires
        settings.width() > 0,
        to <= i64::MAX,
    ensures
        roots_in_interval(c, settings, from, to, remaining).len() <= remaining,
        forall|i: int|
            0 <= i < roots_in_interval(c, settings, from, to, remaining).len() ==> {
                let x = #[trigger] roots_in_interval(c, settings, from, to, remaining)[i];
                nothing_saturates(c, x) && near_zero(value_at(c, x), settings.tolerance())
            },
    decreases (if from < to { to - from } else { 0 }),
{
    if from < to && remaining > 0 {
        let next = sum(from, settings.width());
        match cell_root(c, settings, from, next) {
            Some(x) => {
                lemma_sweep_roots_are_valid(c, settings, next, to, (remaining - 1) as nat);
            },
            None => {
                lemma_sweep_roots_are_valid(c, settings, next, to, remaining);
            },
        }
    }
}

/// A sweep that has found fewer roots than it was asked for has passed over
/// no cell: the root found in any cell that starts below the end of the
/// sweep, a whole number of partition widths above its start, is among its
/// roots.
pub proof fn lemma_sweep_reports_every_cell(
    c: Seq<int>,
    settings: Settings,
    from: int,
    to: int,
    remaining: nat,
    cells_before: nat,
)
    requires
        settings.width() > 0,
        i64::MIN <= from,
        to <= i64::MAX,
        from + cells_before * settings.width() < to,
        roots_in_interval(c, settings, from, to, remaining).len() < remaining,
        cell_root(
            c,
            settings,
            from + cells_before * settings.width(),
            sum(from + cells_before * settings.width(), settings.width()),
        ) is Some,
    ensures
        roots_in_interval(c, settings, from, to, remaining).contains(
            cell_root(
                c,
                settings,
                from + cells_before * settings.width(),
                sum(from + cells_before * settings.width(), settings.width()),
            ).unwrap(),
        ),
    decreases cells_before,
{
    let width = settings.width();
    let found = roots_in_interval(c, settings, from, to, remaining);
    let next = sum(from, width);
    assert(cells_before * width >= 0) by (nonlinear_arith)
        requires
            width > 0,
    ;
    if cells_before == 0 {
        assert(0 * width == 0) by (nonlinear_arith);
        let x = cell_root(c, settings, from, next).unwrap();
        assert(found[0] == x);
    } else {
        let fewer = (cells_before - 1) as nat;
        assert(cells_before * width == width + fewer * width && fewer * width >= 0)
            by (nonlinear_arith)
            requires
                fewer == cells_before - 1,
                width > 0,
        ;
        assert(next == from + width);
        let start = next + fewer * width;
        let target = cell_root(c, settings, start, sum(start, width)).unwrap();
        match cell_root(c, settings, from, next) {
            Some(x) => {
                let rest = roots_in_interval(c, settings, next, to, (remaining - 1) as nat);
                lemma_sweep_reports_every_cell(
                    c,
                    settings,
                    next,
                    to,
                    (remaining - 1) as nat,
                    fewer,
                );
                let i = choose|i: int| 0 <= i < rest.len() && rest[i] == target;
                assert(found[i + 1] == target);
            },
            None => {
                lemma_sweep_reports_every_cell(c, settings, next, to, remaining, fewer);
            },
        }
    }
}

/// Where the polynomial rises through every bracket of a sweep, the root
/// found in any cell of the sweep lies in that cell.
pub proof fn lemma_rising_brackets_keep_roots_in_cells(
    c: Seq<int>,
    settings: Settings,
    from: int,
    to: int,
)
    requires
        settings.width() > 0,
        i64::MIN <= from,
        to <= i64::MAX,
        brackets_rise(c, settings, from, to),
    ensures
        roots_stay_in_cells(c, settings, from, to),
{
    let width = settings.width();
    assert forall|k: nat| #[trigger] cell_start(from, width, k) < to implies cell_holds_its_root(
        c,
        settings,
        cell_start(from, width, k),
    ) by {
        let lo = cell_start(from, width, k);
        let hi = sum(lo, width);
        assert(k * width >= 0) by (nonlinear_arith)
            requires
                width > 0,
        ;
        if is_bracket(c, lo, hi) {
            lemma_refined_stays_in_rising_bracket(c, lo, hi, settings.budget());
        }
    }
}

/// The cells of a sweep but the first are the cells of the sweep that starts
/// one partition width further on.
proof fn lemma_roots_stay_in_later_cells(c: Seq<int>, settings: Settings, from: int, to: int)
    requires
        settings.width() > 0,
        roots_stay_in_cells(c, settings, from, to),
    ensures
        roots_stay_in_cells(c, settings, from + settings.width(), to),
        from < to ==> cell_holds_its_root(c, settings, from),
{
    let width = settings.width();
    assert forall|k: nat| #[trigger] cell_start(from + width, width, k) < to implies
        cell_holds_its_root(c, settings, cell_start(from + width, width, k)) by {
        assert(cell_start(from + width, width, k) == cell_start(from, width, k + 1))
            by (nonlinear_arith);
    }
    assert(cell_start(from, width, 0) == from) by (nonlinear_arith);
}

/// Where the root found in any cell of a sweep lies in that cell, the sweep
/// finds its roots in increasing order, none of them below its starting
/// point.
pub proof fn lemma_sweep_is_ordered(
    c: Seq<int>,
    settings: Settings,
    from: int,
    to: int,
    remaining: nat,
)
    requires
        settings.width() > 0,
        i64::MIN <= from,
        to <= i64::MAX,
        roots_stay_in_cells(c, settings, from, to),
    ensures
        non_decreasing(roots_in_interval(c, settings, from, to, remaining)),
        forall|i: int|
            0 <= i < roots_in_interval(c, settings, from, to, remaining).len() ==> from
                <= #[trigger] roots_in_interval(c, settings, from, to, remaining)[i],
    decreases (if from < to { to - from } else { 0 }),
{
    if from < to && remaining > 0 {
        let next = sum(from, settings.width());
        lemma_roots_stay_in_later_cells(c, settings, from, to);
        if next == from + settings.width() {
            match cell_root(c, settings, from, next) {
                Some(x) => {
                    lemma_sweep_is_ordered(c, settings, next, to, (remaining - 1) as nat);
                },
                None => {
                    lemma_sweep_is_ordered(c, settings, next, to, remaining);
                },
            }
        } else {
            // The cell ends at the largest number, and the sweep with it.
            assert(next >= to);
            assert(roots_in_interval(c, settings, next, to, remaining).len() == 0);
            assert(roots_in_interval(c, settings, next, to, (remaining - 1) as nat).len() == 0);
        }
    }
}

/// The search returns no more roots than the two counts of sign variations
/// allow, and one more for a flagged zero; each of them is the flagged zero,
/// or a point where the evaluation of the polynomial clamps no value and
/// gives a value that is zero within the tolerance.
pub proof fn lemma_roots_are_valid(c: Seq<int>, has_zero: bool, settings: Settings)
    requires
        settings.width() > 0,
    ensures
        roots(c, has_zero, settings).len() <= variation_count(reflected(c), settings.tolerance())
            + variation_count(c, settings.tolerance()) + (if has_zero { 1nat } else { 0nat }),
        forall|i: int|
            0 <= i < roots(c, has_zero, settings).len() ==> {
                let x = #[trigger] roots(c, has_zero, settings)[i];
                (nothing_saturates(c, x) && near_zero(value_at(c, x), settings.tolerance())) || (
                has_zero && x == 0)
            },
{
    settings.lemma_parameters_are_raw();
    match cauchy_bound(c) {
        Some(b) => {
            lemma_sweep_roots_are_valid(
                c,
                settings,
                negation(b),
                settings.width(),
                variation_count(reflected(c), settings.tolerance()),
            );
            lemma_sweep_roots_are_valid(
                c,
                settings,
                0,
                sum(b, settings.tolerance()),
                variation_count(c, settings.tolerance()),
            );
        },
        None => {},
    }
}

/// What a root that the search returns means for the polynomial itself:
/// unless it is the flagged zero, the value of the polynomial at the number it
/// stands for is smaller in magnitude than the tolerance and the error of the
/// evaluation.
pub proof fn lemma_roots_are_near_zeros(c: Seq<int>, has_zero: bool, settings: Settings, i: int)
    requires
        settings.width() > 0,
        0 <= i < roots(c, has_zero, settings).len(),
        !(has_zero && roots(c, has_zero, settings)[i] == 0),
    ensures
        real_absolute(real_value(as_reals(c), number(roots(c, has_zero, settings)[i]))) < (
        settings.tolerance() as real) + value_error(c, roots(c, has_zero, settings)[i]),
{
    let x = roots(c, has_zero, settings)[i];
    lemma_roots_are_valid(c, has_zero, settings);
    lemma_value_at_is_accurate(c, x);
}

/// The search returns its roots in increasing order wherever the root found
/// in any cell of its two sweeps lies in that cell and the sweep below zero
/// finds nothing above zero.
pub proof fn lemma_roots_are_ordered(c: Seq<int>, has_zero: bool, settings: Settings)
    requires
        settings.width() > 0,
        cauchy_bound(c) matches Some(b) ==> {
            &&& roots_stay_in_cells(c, settings, negation(b), settings.width())
            &&& roots_stay_in_cells(c, settings, 0, sum(b, settings.tolerance()))
            &&& forall|i: int|
                0 <= i < negative_roots(c, settings, b).len() ==> #[trigger] negative_roots(
                    c,
                    settings,
                    b,
                )[i] <= 0
        },
    ensures
        non_decreasing(roots(c, has_zero, settings)),
{
    settings.lemma_parameters_are_raw();
    match cauchy_bound(c) {
        Some(b) => {
            lemma_sweep_is_ordered(
                c,
                settings,
                negation(b),
                settings.width(),
                variation_count(reflected(c), settings.tolerance()),
            );
            lemma_sweep_is_ordered(
                c,
                settings,
                0,
                sum(b, settings.tolerance()),
                variation_count(c, settings.tolerance()),
            );
        },
        None => {},
    }
}

/// Two searches on the same coefficients, flag and settings return the same
/// roots: a search keeps no state from one call to the next.
pub proof fn lemma_search_is_repeatable(
    c: Seq<int>,
    has_zero: bool,
    settings: Settings,
    first: Seq<int>,
    second: Seq<int>,
)
    requires
        first == roots(c, has_zero, settings),
        second == roots(c, has_zero, settings),
    ensures
        first == second,
{
}

} // verus!
