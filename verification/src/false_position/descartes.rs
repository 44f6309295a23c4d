//! Descartes' rule of signs: a polynomial that is not zero has no more
//! positive real roots, each counted as often as it occurs, than its
//! coefficients have sign variations.

use vstd::prelude::*;
use crate::math::near_zero;
use crate::polynomials::{as_reals, real_power, real_value};
use super::cauchy::{reflected, significant, variation_count};

verus! {

/// The sign of the last member of `c` that is not zero, as -1 or 1; 0 if
/// there is none.
pub open spec fn last_sign(c: Seq<real>) -> int
    decreases c.len(),
{
    if c.len() == 0 {
        0
    } else if c.last() > 0 as real {
        1
    } else if c.last() < 0 as real {
        -1
    } else {
        last_sign(c.drop_last())
    }
}

/// The number of sign variations of the real coefficients `c`: how often a
/// coefficient that is not zero has the other sign than the last one before
/// it that is not zero.
pub open spec fn sign_variations(c: Seq<real>) -> nat
    decreases c.len(),
{
    if c.len() == 0 {
        0
    } else if (c.last() > 0 as real && last_sign(c.drop_last()) < 0) || (c.last() < 0 as real
        && last_sign(c.drop_last()) > 0) {
        sign_variations(c.drop_last()) + 1
    } else {
        sign_variations(c.drop_last())
    }
}

/// The coefficients of the product of the polynomial with coefficients `q`
/// and the linear factor `x - r`.
pub open spec fn times_linear(q: Seq<real>, r: real) -> Seq<real> {
    Seq::new(
        q.len() + 1,
        |i: int|
            (if i >= 1 {
                q[i - 1]
            } else {
                0 as real
            }) - r * (if i < q.len() {
                q[i]
            } else {
                0 as real
            }),
    )
}

/// The coefficients `c`, each multiplied by `k`.
pub open spec fn scaled(c: Seq<real>, k: real) -> Seq<real> {
    Seq::new(c.len(), |i: int| k * c[i])
}

/// The quotient of the polynomial with coefficients `c` by the linear factor
/// `x - r`, multiplied by a power of `r`: where `r` is a root, the product of
/// this quotient and the factor is the polynomial multiplied by `r^n`, with
/// `n` the highest index of `c`.
pub open spec fn quotient_by_linear(c: Seq<real>, r: real) -> Seq<real> {
    Seq::new(
        (c.len() - 1) as nat,
        |i: int| -(real_power(r, (c.len() - 2 - i) as nat) * real_value(c.take(i + 1), r)),
    )
}

/// Whether `roots` lists positive roots of the polynomial with coefficients
/// `c`, none of them more often than it occurs as a root: the last of the
/// list is a root, and the others are such a list for the quotient of the
/// polynomial by the linear factor of that root.
pub open spec fn are_positive_roots(c: Seq<real>, roots: Seq<real>) -> bool
    decreases roots.len(),
{
    roots.len() == 0 || (roots.last() > 0 as real && real_value(c, roots.last()) == 0 as real
        && are_positive_roots(quotient_by_linear(c, roots.last()), roots.drop_last()))
}

/// Whether `roots` lists positive roots of the polynomial with coefficients
/// `c` that differ from one another.
pub open spec fn are_distinct_positive_roots(c: Seq<real>, roots: Seq<real>) -> bool {
    &&& forall|i: int|
        0 <= i < roots.len() ==> #[trigger] roots[i] > 0 as real && real_value(c, roots[i])
            == 0 as real
    &&& forall|i: int, j: int| 0 <= i < j < roots.len() ==> roots[i] != roots[j]
}

/// The numbers `roots` with their signs turned round.
pub open spec fn negated(roots: Seq<real>) -> Seq<real> {
    Seq::new(roots.len(), |i: int| -roots[i])
}

/// Whether `roots` lists negative roots of the polynomial with the raw
/// coefficients `c`, none of them more often than it occurs as a root: the
/// negated numbers are such a list of positive roots for `p(-x)`.
pub open spec fn are_negative_roots(c: Seq<int>, roots: Seq<real>) -> bool {
    are_positive_roots(as_reals(reflected(c)), negated(roots))
}

/// Whether every coefficient of `c` that is zero within `epsilon` is exactly
/// zero.
pub open spec fn zeros_are_exact(c: Seq<int>, epsilon: int) -> bool {
    forall|i: int| 0 <= i < c.len() && near_zero(#[trigger] c[i], epsilon) ==> c[i] == 0
}

/// Whether some coefficient of `c` is not zero.
pub open spec fn is_not_zero(c: Seq<int>) -> bool {
    exists|i: int| 0 <= i < c.len() && #[trigger] c[i] != 0
}

/// What one more coefficient does to the variations and to the last sign.
proof fn lemma_push(w: Seq<real>, x: real)
    ensures
        sign_variations(w.push(x)) == sign_variations(w) + (if (x > 0 as real && last_sign(w) < 0)
            || (x < 0 as real && last_sign(w) > 0) {
            1nat
        } else {
            0nat
        }),
        last_sign(w.push(x)) == (if x > 0 as real {
            1
        } else if x < 0 as real {
            -1
        } else {
            last_sign(w)
        }),
        -1 <= last_sign(w) <= 1,
{
    assert(w.push(x).drop_last() == w);
    lemma_last_sign_range(w);
}

/// The last sign is -1, 0 or 1.
proof fn lemma_last_sign_range(c: Seq<real>)
    ensures
        -1 <= last_sign(c) <= 1,
    decreases c.len(),
{
    if c.len() > 0 {
        lemma_last_sign_range(c.drop_last());
    }
}

/// A sequence without a sign has no variations, and its multiples by a
/// linear factor have no sign either.
proof fn lemma_all_zero(q: Seq<real>, r: real)
    requires
        last_sign(q) == 0,
    ensures
        forall|i: int| 0 <= i < q.len() ==> #[trigger] q[i] == 0 as real,
        sign_variations(q) == 0,
        last_sign(times_linear(q, r)) == 0,
        last_sign(times_linear(q, r).drop_last()) == 0,
        sign_variations(times_linear(q, r).drop_last()) == 0,
    decreases q.len(),
{
    let p = times_linear(q, r);
    assert(r * (0 as real) == 0 as real) by (nonlinear_arith);
    if q.len() > 0 {
        let rest = q.drop_last();
        lemma_all_zero(rest, r);
        assert forall|i: int| 0 <= i < q.len() implies #[trigger] q[i] == 0 as real by {
            if i < q.len() - 1 {
                assert(rest[i] == q[i]);
            }
        }
        let below = times_linear(rest, r);
        assert(p.drop_last() == below);
        assert(p.last() == 0 as real);
        lemma_push(below, 0 as real);
        assert(below.push(0 as real) == p);
    } else {
        assert(p.last() == 0 as real);
        assert(p.drop_last() == Seq::<real>::empty());
        assert(last_sign(p.drop_last()) == 0);
    }
}

/// How the product with a linear factor grows with one more coefficient: the
/// last coefficient of the product so far loses `r` times the new
/// coefficient, and the new coefficient comes after it.
proof fn lemma_times_linear_step(q: Seq<real>, r: real)
    requires
        q.len() > 0,
    ensures
        times_linear(q, r) == times_linear(q.drop_last(), r).drop_last().push(
            times_linear(q.drop_last(), r).last() - r * q.last(),
        ).push(q.last()),
        q.len() >= 2 ==> times_linear(q.drop_last(), r).last() == q[q.len() - 2],
        q.len() == 1 ==> times_linear(q.drop_last(), r).last() == 0 as real,
{
    let rest = q.drop_last();
    let below = times_linear(rest, r);
    let p = times_linear(q, r);
    let built = below.drop_last().push(below.last() - r * q.last()).push(q.last());
    assert(r * (0 as real) == 0 as real) by (nonlinear_arith);
    assert(p.len() == built.len());
    assert forall|i: int| 0 <= i < p.len() implies p[i] == built[i] by {
        if i < q.len() - 1 {
            assert(rest[i] == q[i]);
            if i >= 1 {
                assert(rest[i - 1] == q[i - 1]);
            }
        } else if i == q.len() - 1 {
            if i >= 1 {
                assert(rest[i - 1] == q[i - 1]);
            }
        }
    }
}

/// Multiplying a polynomial by a linear factor with a positive root adds at
/// least one sign variation, and keeps the last sign.
pub proof fn lemma_factor_adds_a_variation(q: Seq<real>, r: real)
    requires
        r > 0 as real,
        last_sign(q) != 0,
    ensures
        sign_variations(times_linear(q, r)) >= sign_variations(q) + 1,
        last_sign(times_linear(q, r)) == last_sign(q),
    decreases q.len(),
{
    // With `a` the last coefficient of `q` and `rest` the others, the product
    // is that of `rest` with its last coefficient `l` turned into
    // `u = l - r * a`, and `a` after it. By induction the product of `rest`
    // ends on the last sign of `rest`, and `l` is zero or of that sign.
    // Where `a` has the same sign, `u` may have any sign, but `a` after it
    // brings back the sign the product of `rest` ended on, so no variation is
    // lost. Where `a` has the other sign, `u` keeps the sign and `a` adds a
    // variation, as it does to `q`.
    let rest = q.drop_last();
    let a = q.last();
    let below = times_linear(rest, r);
    let w = below.drop_last();
    let l = below.last();
    let u = l - r * a;
    lemma_times_linear_step(q, r);
    assert(rest.push(a) == q);
    assert(w.push(l) == below);
    lemma_push(rest, a);
    lemma_push(w, l);
    lemma_push(w, u);
    lemma_push(w.push(u), a);
    assert((a > 0 as real ==> r * a > 0 as real) && (a < 0 as real ==> r * a < 0 as real) && (a
        == 0 as real ==> r * a == 0 as real)) by (nonlinear_arith)
        requires
            r > 0 as real,
    ;
    if last_sign(rest) == 0 {
        lemma_all_zero(rest, r);
    } else {
        lemma_factor_adds_a_variation(rest, r);
        if rest.len() >= 1 {
            let b = rest.last();
            assert(rest.drop_last().push(b) == rest);
            lemma_push(rest.drop_last(), b);
            assert(l == b);
        }
    }
}

/// Powers of one base multiply by adding the exponents.
proof fn lemma_power_adds(x: real, m: nat, n: nat)
    ensures
        real_power(x, m) * real_power(x, n) == real_power(x, m + n),
    decreases m,
{
    if m == 0 {
        assert((1 as real) * real_power(x, n) == real_power(x, n)) by (nonlinear_arith);
    } else {
        lemma_power_adds(x, (m - 1) as nat, n);
        let a = real_power(x, (m - 1) as nat);
        let b = real_power(x, n);
        assert((x * a) * b == x * (a * b)) by (nonlinear_arith);
    }
}

/// A power of a positive number is positive.
proof fn lemma_power_is_positive(x: real, n: nat)
    requires
        x > 0 as real,
    ensures
        real_power(x, n) > 0 as real,
    decreases n,
{
    if n > 0 {
        lemma_power_is_positive(x, (n - 1) as nat);
        let a = real_power(x, (n - 1) as nat);
        assert(x * a > 0 as real) by (nonlinear_arith)
            requires
                x > 0 as real,
                a > 0 as real,
        ;
    }
}

/// Multiplying the coefficients by a positive number changes neither the
/// variations nor the last sign, and multiplies the value.
proof fn lemma_scaled(c: Seq<real>, k: real, x: real)
    requires
        k > 0 as real,
    ensures
        sign_variations(scaled(c, k)) == sign_variations(c),
        last_sign(scaled(c, k)) == last_sign(c),
        real_value(scaled(c, k), x) == k * real_value(c, x),
    decreases c.len(),
{
    if c.len() == 0 {
        assert(scaled(c, k) == c);
        assert(k * (0 as real) == 0 as real) by (nonlinear_arith);
    } else {
        let rest = c.drop_last();
        let a = c.last();
        lemma_scaled(rest, k, x);
        assert(scaled(c, k).drop_last() == scaled(rest, k));
        assert((a > 0 as real ==> k * a > 0 as real) && (a < 0 as real ==> k * a < 0 as real) && (a
            == 0 as real ==> k * a == 0 as real)) by (nonlinear_arith)
            requires
                k > 0 as real,
        ;
        let e = real_value(rest, x);
        let p = real_power(x, (c.len() - 1) as nat);
        assert(k * e + (k * a) * p == k * (e + a * p)) by (nonlinear_arith);
    }
}

/// The value of a product with a linear factor is the product of the values.
proof fn lemma_value_of_times_linear(q: Seq<real>, r: real, x: real)
    ensures
        real_value(times_linear(q, r), x) == (x - r) * real_value(q, x),
    decreases q.len(),
{
    let p = times_linear(q, r);
    if q.len() == 0 {
        assert(p.drop_last() == Seq::<real>::empty());
        assert(r * (0 as real) == 0 as real) by (nonlinear_arith);
        assert(p.last() == 0 as real);
        assert(real_value(p.drop_last(), x) == 0 as real);
        assert((0 as real) * real_power(x, 0) == 0 as real && (x - r) * (0 as real) == 0 as real)
            by (nonlinear_arith);
    } else {
        let rest = q.drop_last();
        let a = q.last();
        let m = q.len();
        let below = times_linear(rest, r);
        let w = below.drop_last();
        let l = below.last();
        lemma_times_linear_step(q, r);
        lemma_value_of_times_linear(rest, r, x);
        let middle = w.push(l - r * a);
        assert(p == middle.push(a));
        assert(p.drop_last() == middle);
        assert(middle.drop_last() == w);
        assert(w.push(l) == below);
        assert(below.drop_last() == w);
        let vw = real_value(w, x);
        let vr = real_value(rest, x);
        let low = real_power(x, (m - 1) as nat);
        let high = real_power(x, m);
        assert(high == x * low);
        assert(real_value(below, x) == vw + l * low);
        assert(real_value(middle, x) == vw + (l - r * a) * low);
        assert(real_value(p, x) == real_value(middle, x) + a * high);
        assert(real_value(q, x) == vr + a * low);
        assert(vw + (l - r * a) * low + a * (x * low) == (x - r) * (vr + a * low))
            by (nonlinear_arith)
            requires
                vw + l * low == (x - r) * vr,
        ;
    }
}

/// Where `r` is a root of the polynomial with coefficients `c`, the linear
/// factor `x - r` divides it: the product of the quotient and the factor has
/// the coefficients of `c`, each multiplied by one power of `r`.
proof fn lemma_quotient_by_linear(c: Seq<real>, r: real)
    requires
        c.len() >= 2,
        real_value(c, r) == 0 as real,
    ensures
        times_linear(quotient_by_linear(c, r), r) == scaled(
            c,
            real_power(r, (c.len() - 1) as nat),
        ),
{
    let n = (c.len() - 1) as nat;
    let q = quotient_by_linear(c, r);
    let p = times_linear(q, r);
    let k = real_power(r, n);
    assert(p.len() == c.len());
    assert forall|i: int| 0 <= i < c.len() implies p[i] == k * c[i] by {
        let ei = real_value(c.take(i + 1), r);
        let below = real_value(c.take(i), r);
        assert(c.take(i + 1).drop_last() == c.take(i));
        assert(c.take(i + 1).last() == c[i]);
        let xi = real_power(r, i as nat);
        assert(ei == below + c[i] * xi);
        if i == n {
            assert(c.take(i + 1) == c);
            assert(q[i - 1] == -(real_power(r, 0) * below));
            assert(-((1 as real) * below) - r * (0 as real) == k * c[i]) by (nonlinear_arith)
                requires
                    below + c[i] * k == 0 as real,
            ;
        } else {
            let high = real_power(r, (n - 1 - i) as nat);
            assert(q[i] == -(high * ei));
            lemma_power_adds(r, (n - i) as nat, i as nat);
            assert(real_power(r, (n - i) as nat) == r * high);
            if i == 0 {
                assert(c.take(0) == Seq::<real>::empty());
                assert(below == 0 as real);
                assert((0 as real) - r * (-(high * ei)) == (r * high) * ei) by (nonlinear_arith);
                assert((r * high) * (c[i] * xi) == ((r * high) * xi) * c[i]) by (nonlinear_arith);
            } else {
                assert(q[i - 1] == -(real_power(r, (n - i) as nat) * below));
                let rest = ei - below;
                assert(-((r * high) * below) - r * (-(high * ei)) == (r * high) * rest)
                    by (nonlinear_arith)
                    requires
                        rest == ei - below,
                ;
                assert((r * high) * (c[i] * xi) == ((r * high) * xi) * c[i]) by (nonlinear_arith);
            }
        }
    }
}

/// A positive root splits off: a polynomial that is not zero and has the
/// positive root `r` is no constant, and is, up to a positive factor, the
/// product of its quotient and the linear factor `x - r`; the quotient is not
/// zero either, and has the same variations and the same last sign as that
/// product has without the factor.
proof fn lemma_root_splits_off(c: Seq<real>, r: real)
    requires
        last_sign(c) != 0,
        r > 0 as real,
        real_value(c, r) == 0 as real,
    ensures
        c.len() >= 2,
        real_power(r, (c.len() - 1) as nat) > 0 as real,
        times_linear(quotient_by_linear(c, r), r) == scaled(
            c,
            real_power(r, (c.len() - 1) as nat),
        ),
        sign_variations(times_linear(quotient_by_linear(c, r), r)) == sign_variations(c),
        last_sign(times_linear(quotient_by_linear(c, r), r)) == last_sign(c),
        last_sign(quotient_by_linear(c, r)) != 0,
{
    if c.len() < 2 {
        // A constant that is not zero has no root.
        assert(c.drop_last().len() == 0);
        assert(real_value(c.drop_last(), r) == 0 as real);
        assert(real_power(r, 0) == 1 as real);
        assert(last_sign(c.drop_last()) == 0);
        assert((0 as real) + c.last() * (1 as real) == c.last()) by (nonlinear_arith);
        assert(false);
    }
    let n = (c.len() - 1) as nat;
    let q = quotient_by_linear(c, r);
    let k = real_power(r, n);
    lemma_power_is_positive(r, n);
    lemma_quotient_by_linear(c, r);
    lemma_scaled(c, k, r);
    if last_sign(q) == 0 {
        lemma_all_zero(q, r);
    }
}

/// Descartes' rule of signs: a polynomial that is not zero has no more
/// positive real roots, each counted as often as it occurs, than its
/// coefficients have sign variations.
pub proof fn lemma_rule_of_signs(c: Seq<real>, roots: Seq<real>)
    requires
        last_sign(c) != 0,
        are_positive_roots(c, roots),
    ensures
        roots.len() <= sign_variations(c),
    decreases roots.len(),
{
    if roots.len() > 0 {
        let others = roots.drop_last();
        let r = roots.last();
        lemma_root_splits_off(c, r);
        let q = quotient_by_linear(c, r);
        lemma_rule_of_signs(q, others);
        lemma_factor_adds_a_variation(q, r);
    }
}

/// Positive roots that differ from one another are roots counted no more
/// often than they occur.
pub proof fn lemma_distinct_roots_are_roots(c: Seq<real>, roots: Seq<real>)
    requires
        last_sign(c) != 0,
        are_distinct_positive_roots(c, roots),
    ensures
        are_positive_roots(c, roots),
    decreases roots.len(),
{
    if roots.len() > 0 {
        let others = roots.drop_last();
        let r = roots.last();
        lemma_root_splits_off(c, r);
        let n = (c.len() - 1) as nat;
        let q = quotient_by_linear(c, r);
        let k = real_power(r, n);
        assert forall|i: int| 0 <= i < others.len() implies #[trigger] others[i] > 0 as real
            && real_value(q, others[i]) == 0 as real by {
            assert(others[i] == roots[i]);
            let x = roots[i];
            lemma_scaled(c, k, x);
            lemma_value_of_times_linear(q, r, x);
            assert(roots[i] != roots[roots.len() - 1]);
            let v = real_value(q, x);
            assert(v == 0 as real) by (nonlinear_arith)
                requires
                    (x - r) * v == k * (0 as real),
                    x != r,
            ;
        }
        assert forall|i: int, j: int| 0 <= i < j < others.len() implies others[i] != others[j] by {
            assert(others[i] == roots[i] && others[j] == roots[j]);
        }
        lemma_distinct_roots_are_roots(q, others);
    }
}

/// The sign variations of whole numbers are those of the same numbers taken
/// as real numbers, and so is the last sign.
proof fn lemma_variations_of_reals(c: Seq<int>)
    ensures
        variation_count(c, 1) == sign_variations(as_reals(c)),
        significant(c, 1).len() > 0 <==> last_sign(as_reals(c)) != 0,
        last_sign(as_reals(c)) > 0 ==> significant(c, 1).last() > 0,
        last_sign(as_reals(c)) < 0 ==> significant(c, 1).last() < 0,
    decreases c.len(),
{
    if c.len() > 0 {
        let rest = c.drop_last();
        lemma_variations_of_reals(rest);
        assert(as_reals(c).drop_last() == as_reals(rest));
        assert(as_reals(c).last() == c.last() as real);
        if c.last() != 0 {
            let kept = significant(rest, 1);
            assert(kept.push(c.last()).drop_last() == kept);
        }
    }
}

/// A sequence has a last sign where one of its members is not zero.
proof fn lemma_last_sign_exists(c: Seq<int>)
    requires
        is_not_zero(c),
    ensures
        last_sign(as_reals(c)) != 0,
    decreases c.len(),
{
    let i = choose|i: int| 0 <= i < c.len() && #[trigger] c[i] != 0;
    assert(as_reals(c).drop_last() == as_reals(c.drop_last()));
    if c.last() == 0 {
        assert(c.drop_last()[i] == c[i]);
        lemma_last_sign_exists(c.drop_last());
    }
}

/// Where the coefficients that are zero within a positive tolerance are
/// exactly zero, the tolerance changes nothing in the count of the
/// variations.
proof fn lemma_variations_with_exact_zeros(c: Seq<int>, epsilon: int)
    requires
        epsilon > 0,
        zeros_are_exact(c, epsilon),
    ensures
        significant(c, epsilon) == significant(c, 1),
        variation_count(c, epsilon) == variation_count(c, 1),
    decreases c.len(),
{
    if c.len() > 0 {
        let rest = c.drop_last();
        assert forall|i: int| 0 <= i < rest.len() && near_zero(
            #[trigger] rest[i],
            epsilon,
        ) implies rest[i] == 0 by {
            assert(rest[i] == c[i]);
        }
        lemma_variations_with_exact_zeros(rest, epsilon);
        assert(near_zero(c[c.len() - 1], epsilon) ==> c[c.len() - 1] == 0);
    }
}

/// The powers of a negated number are those of the number, negated where the
/// exponent is odd.
proof fn lemma_power_of_negated(x: real, n: nat)
    ensures
        real_power(-x, n) == (if n % 2 == 0 {
            real_power(x, n)
        } else {
            -real_power(x, n)
        }),
    decreases n,
{
    if n > 0 {
        lemma_power_of_negated(x, (n - 1) as nat);
        let p = real_power(x, (n - 1) as nat);
        assert((-x) * p == -(x * p) && (-x) * (-p) == x * p) by (nonlinear_arith);
    }
}

/// The reflected coefficients are those of `p(-x)`: their value at a number
/// is the value of the coefficients at the negated number.
pub proof fn lemma_value_of_reflected(c: Seq<int>, x: real)
    ensures
        real_value(as_reals(reflected(c)), x) == real_value(as_reals(c), -x),
    decreases c.len(),
{
    if c.len() > 0 {
        let n = (c.len() - 1) as nat;
        lemma_value_of_reflected(c.drop_last(), x);
        assert(as_reals(reflected(c)).drop_last() == as_reals(reflected(c.drop_last())));
        assert(as_reals(c).drop_last() == as_reals(c.drop_last()));
        lemma_power_of_negated(x, n);
        let p = real_power(x, n);
        let a = c[n as int] as real;
        assert((-a) * p == a * (-p)) by (nonlinear_arith);
        assert((-c[n as int]) as real == -a);
    }
}

/// A polynomial has no more positive real roots, each counted as often as it
/// occurs, than its coefficients have sign variations, where the
/// coefficients that count as zero are exactly zero.
pub proof fn lemma_variations_bound_positive_roots(c: Seq<int>, epsilon: int, roots: Seq<real>)
    requires
        epsilon > 0,
        zeros_are_exact(c, epsilon),
        is_not_zero(c),
        are_positive_roots(as_reals(c), roots),
    ensures
        roots.len() <= variation_count(c, epsilon),
{
    lemma_last_sign_exists(c);
    lemma_variations_with_exact_zeros(c, epsilon);
    lemma_variations_of_reals(c);
    lemma_rule_of_signs(as_reals(c), roots);
}

/// A polynomial has no more negative real roots, each counted as often as it
/// occurs, than its reflected coefficients have sign variations, where the
/// coefficients that count as zero are exactly zero.
pub proof fn lemma_variations_bound_negative_roots(c: Seq<int>, epsilon: int, roots: Seq<real>)
    requires
        epsilon > 0,
        zeros_are_exact(c, epsilon),
        is_not_zero(c),
        are_negative_roots(c, roots),
    ensures
        roots.len() <= variation_count(reflected(c), epsilon),
{
    let mirrored = reflected(c);
    let i = choose|i: int| 0 <= i < c.len() && #[trigger] c[i] != 0;
    assert(mirrored[i] != 0);
    assert forall|i: int| 0 <= i < mirrored.len() && near_zero(
        #[trigger] mirrored[i],
        epsilon,
    ) implies mirrored[i] == 0 by {
        assert(near_zero(c[i], epsilon));
    }
    lemma_variations_bound_positive_roots(mirrored, epsilon, negated(roots));
}

/// Negative real roots that differ from one another are negative roots
/// counted no more often than they occur.
pub proof fn lemma_distinct_negative_roots_are_roots(c: Seq<int>, roots: Seq<real>)
    requires
        is_not_zero(c),
        forall|i: int|
            0 <= i < roots.len() ==> #[trigger] roots[i] < 0 as real && real_value(
                as_reals(c),
                roots[i],
            ) == 0 as real,
        forall|i: int, j: int| 0 <= i < j < roots.len() ==> roots[i] != roots[j],
    ensures
        are_negative_roots(c, roots),
{
    let mirrored = reflected(c);
    let positive = negated(roots);
    let i = choose|i: int| 0 <= i < c.len() && #[trigger] c[i] != 0;
    assert(mirrored[i] != 0);
    lemma_last_sign_exists(mirrored);
    assert forall|i: int| 0 <= i < positive.len() implies #[trigger] positive[i] > 0 as real
        && real_value(as_reals(mirrored), positive[i]) == 0 as real by {
        lemma_value_of_reflected(c, positive[i]);
        assert(-positive[i] == roots[i]);
    }
    assert forall|i: int, j: int| 0 <= i < j < positive.len() implies positive[i]
        != positive[j] by {
        assert(roots[i] != roots[j]);
    }
    lemma_distinct_roots_are_roots(as_reals(mirrored), positive);
}

} // verus!
