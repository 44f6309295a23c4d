//! Polynomials with fixed-point coefficients, stored in increasing power
//! order: the coefficient at index `i` multiplies the `i`-th power.

use vstd::prelude::*;
use crate::constants::EPSILON;
use crate::fixed::{lemma_truncated_quotient, product, quotient, sum, Fixed, SCALE};
use crate::math::{is_zero_within, near_zero};

verus! {

/// The raw values of a sequence of numbers.
pub open spec fn raw_values(numbers: Seq<Fixed>) -> Seq<int> {
    Seq::new(numbers.len(), |i: int| numbers[i]@)
}

/// Raw value of the `n`-th power of `x`, by repeated multiplication.
pub open spec fn power(x: int, n: nat) -> int
    decreases n,
{
    if n == 0 {
        SCALE as int
    } else {
        product(power(x, (n - 1) as nat), x)
    }
}

/// Raw value of the polynomial with coefficients `c` at `x`: the terms
/// `c[i] * x^i`, added up from the lowest power to the highest.
pub open spec fn value_at(c: Seq<int>, x: int) -> int
    decreases c.len(),
{
    if c.len() == 0 {
        0
    } else {
        sum(value_at(c.drop_last(), x), product(c.last(), power(x, (c.len() - 1) as nat)))
    }
}

/// How many coefficients at the front of `c` are zero within `epsilon`.
pub open spec fn leading_zeros(c: Seq<int>, epsilon: int) -> nat
    decreases c.len(),
{
    if c.len() == 0 || !near_zero(c.first(), epsilon) {
        0
    } else {
        1 + leading_zeros(c.drop_first(), epsilon)
    }
}

/// How many coefficients at the back of `c` are zero within `epsilon`.
pub open spec fn trailing_zeros(c: Seq<int>, epsilon: int) -> nat
    decreases c.len(),
{
    if c.len() == 0 || !near_zero(c.last(), epsilon) {
        0
    } else {
        1 + trailing_zeros(c.drop_last(), epsilon)
    }
}

/// `c` without the coefficients at its two ends that are zero within
/// `epsilon`; empty if all of them are.
pub open spec fn trimmed(c: Seq<int>, epsilon: int) -> Seq<int> {
    let lo = leading_zeros(c, epsilon) as int;
    let hi = c.len() - trailing_zeros(c, epsilon);
    if lo < hi {
        c.subrange(lo, hi)
    } else {
        Seq::empty()
    }
}

/// A polynomial; its view is the sequence of the raw values of its
/// coefficients, lowest power first. The empty sequence is the zero
/// polynomial.
pub struct Polynomial {
    coefficients: Vec<Fixed>,
}

impl View for Polynomial {
    type V = Seq<int>;

    closed spec fn view(&self) -> Seq<int> {
        raw_values(self.coefficients@)
    }
}

impl Polynomial {
    /// The polynomial with the given coefficients, lowest power first.
    pub fn new(coefficients: Vec<Fixed>) -> (r: Polynomial)
        ensures
            r@ == raw_values(coefficients@),
    {
        Polynomial { coefficients }
    }

    /// Removes the coefficients at both ends that are zero within `epsilon`.
    pub fn simplify_within(&mut self, epsilon: Fixed)
        ensures
            final(self)@ == trimmed(old(self)@, epsilon@),
    {
        let n = self.coefficients.len();
        let mut lo: usize = 0;
        while lo < n && is_zero_within(self.coefficients[lo], epsilon)
            invariant
                n == self.coefficients.len(),
                lo <= n,
                forall|i: int| 0 <= i < lo ==> near_zero(#[trigger] self@[i], epsilon@),
            decreases n - lo,
        {
            lo += 1;
        }
        let mut hi: usize = n;
        while hi > 0 && is_zero_within(self.coefficients[hi - 1], epsilon)
            invariant
                n == self.coefficients.len(),
                hi <= n,
                forall|i: int| hi <= i < n ==> near_zero(#[trigger] self@[i], epsilon@),
            decreases hi,
        {
            hi -= 1;
        }
        proof {
            lemma_leading_zeros(self@, epsilon@, lo as int);
            lemma_trailing_zeros(self@, epsilon@, n - hi);
        }
        let mut kept: Vec<Fixed> = Vec::new();
        if lo < hi {
            let mut i: usize = lo;
            while i < hi
                invariant
                    n == self.coefficients.len(),
                    lo <= i <= hi <= n,
                    raw_values(kept@) == self@.subrange(lo as int, i as int),
                decreases hi - i,
            {
                let ghost before = raw_values(kept@);
                kept.push(self.coefficients[i]);
                assert(raw_values(kept@) == before.push(self@[i as int]));
                assert(self@.subrange(lo as int, i + 1) == before.push(self@[i as int]));
                i += 1;
            }
        }
        self.coefficients = kept;
    }

    /// Removes the coefficients at both ends that are zero within the
    /// reference tolerance.
    pub fn simplify(&mut self)
        ensures
            final(self)@ == trimmed(old(self)@, EPSILON as int),
    {
        self.simplify_within(Fixed { raw: EPSILON });
    }

    /// The value of the polynomial at `x`, in saturating arithmetic: a power,
    /// a term or a sum of terms that leaves the range of the numbers is
    /// clamped, and the result may then be far from the value of the
    /// polynomial. `checked_value_at` tells whether that happened.
    pub fn get_value_at(&self, x: Fixed) -> (r: Fixed)
        ensures
            r@ == value_at(self@, x@),
    {
        let mut acc = Fixed::zero();
        let mut pow = Fixed::one();
        let mut i: usize = 0;
        while i < self.coefficients.len()
            invariant
                i <= self.coefficients.len(),
                acc@ == value_at(self@.take(i as int), x@),
                pow@ == power(x@, i as nat),
            decreases self.coefficients.len() - i,
        {
            proof {
                let next = self@.take(i + 1);
                assert(next.drop_last() == self@.take(i as int));
                assert(next.last() == self.coefficients[i as int]@);
            }
            acc = acc.saturating_add(self.coefficients[i].saturating_mul(pow));
            pow = pow.saturating_mul(x);
            i += 1;
        }
        proof {
            assert(self@.take(i as int) == self@);
        }
        acc
    }

    /// The value of the polynomial at `x`, or `None` where a power, a term
    /// or a sum of terms on the way lies outside the range of the numbers, so
    /// that `get_value_at` clamps it.
    pub fn checked_value_at(&self, x: Fixed) -> (r: Option<Fixed>)
        ensures
            r is Some <==> nothing_saturates(self@, x@),
            r matches Some(v) ==> v@ == value_at(self@, x@),
    {
        let n = self.coefficients.len();
        let mut acc = Fixed::zero();
        let mut pow = Fixed::one();
        let mut i: usize = 0;
        while i < n
            invariant
                n == self.coefficients.len(),
                i <= n,
                acc@ == value_at(self@.take(i as int), x@),
                i < n ==> pow@ == power(x@, i as nat),
                forall|k: int| 0 <= k < i ==> #[trigger] step_stays_in_range(self@, x@, k),
            decreases n - i,
        {
            proof {
                let next = self@.take(i + 1);
                assert(next.drop_last() == self@.take(i as int));
                assert(next.last() == self.coefficients[i as int]@);
            }
            let term = match self.coefficients[i].checked_mul(pow) {
                Some(term) => term,
                None => {
                    assert(!step_stays_in_range(self@, x@, i as int));
                    return None;
                },
            };
            acc = match acc.checked_add(term) {
                Some(sum) => sum,
                None => {
                    assert(!step_stays_in_range(self@, x@, i as int));
                    return None;
                },
            };
            if i + 1 < n {
                pow = match pow.checked_mul(x) {
                    Some(next) => next,
                    None => {
                        assert(!step_stays_in_range(self@, x@, i as int));
                        return None;
                    },
                };
            }
            assert(step_stays_in_range(self@, x@, i as int));
            i += 1;
        }
        proof {
            assert(self@.take(i as int) == self@);
        }
        Some(acc)
    }

    /// The number of coefficients.
    pub fn len(&self) -> (r: usize)
        ensures
            r == self@.len(),
    {
        self.coefficients.len()
    }

    /// An iterator over the coefficients, lowest power first.
    pub fn iter(&self) -> (r: std::slice::Iter<'_, Fixed>)
        ensures
            raw_values(vstd::std_specs::slice::into_iter_elts(r)) == self@,
    {
        self.coefficients.iter()
    }

    /// The coefficient of the `index`-th power, if there is one.
    pub fn get(&self, index: usize) -> (r: Option<&Fixed>)
        ensures
            r is Some <==> index < self@.len(),
            r matches Some(c) ==> c@ == self@[index as int],
    {
        if index < self.coefficients.len() {
            Some(&self.coefficients[index])
        } else {
            None
        }
    }

    /// The constant coefficient, if there is one.
    pub fn first(&self) -> (r: Option<&Fixed>)
        ensures
            r is Some <==> self@.len() > 0,
            r matches Some(c) ==> c@ == self@.first(),
    {
        self.get(0)
    }

    /// The coefficient of the highest power, if there is one.
    pub fn last(&self) -> (r: Option<&Fixed>)
        ensures
            r is Some <==> self@.len() > 0,
            r matches Some(c) ==> c@ == self@.last(),
    {
        let n = self.coefficients.len();
        if n == 0 {
            None
        } else {
            self.get(n - 1)
        }
    }
}

/// The real number `x` to the power `n`.
pub open spec fn real_power(x: real, n: nat) -> real
    decreases n,
{
    if n == 0 {
        1 as real
    } else {
        x * real_power(x, (n - 1) as nat)
    }
}

/// The value at the real number `x` of the polynomial with the real
/// coefficients `c`: the sum of the terms `c[i] * x^i`.
pub open spec fn real_value(c: Seq<real>, x: real) -> real
    decreases c.len(),
{
    if c.len() == 0 {
        0 as real
    } else {
        real_value(c.drop_last(), x) + c.last() * real_power(x, (c.len() - 1) as nat)
    }
}

/// The whole numbers `c` as real numbers. Raw coefficients taken as whole
/// numbers are the coefficients of the polynomial multiplied by `SCALE`,
/// which has the same roots.
pub open spec fn as_reals(c: Seq<int>) -> Seq<real> {
    Seq::new(c.len(), |i: int| c[i] as real)
}

/// Whether the real number `x` is a root of the polynomial with the raw
/// coefficients `c`.
pub open spec fn is_real_root(c: Seq<int>, x: real) -> bool {
    real_value(as_reals(c), x) == 0 as real
}

/// The absolute value of the real number `x`.
pub open spec fn real_absolute(x: real) -> real {
    if x < 0 as real {
        -x
    } else {
        x
    }
}

/// The real number that the raw value `raw` stands for.
pub open spec fn number(raw: int) -> real {
    (raw as real) / (SCALE as real)
}

/// How far, in units, the computed power `power(x, n)` can lie from the
/// `n`-th power of the number `x` stands for: every multiplication rounds by
/// less than one unit, and carries on the error so far, multiplied by the
/// magnitude of the number.
pub open spec fn power_error(x: int, n: nat) -> real
    decreases n,
{
    if n == 0 {
        0 as real
    } else {
        power_error(x, (n - 1) as nat) * real_absolute(number(x)) + 1 as real
    }
}

/// How far, in units, the computed value `value_at(c, x)` can lie from the
/// value of the polynomial at the number `x` stands for: every term rounds by
/// less than one unit, and carries the error of its power, multiplied by the
/// magnitude of its coefficient.
pub open spec fn value_error(c: Seq<int>, x: int) -> real
    decreases c.len(),
{
    if c.len() == 0 {
        0 as real
    } else {
        value_error(c.drop_last(), x) + real_absolute(number(c.last())) * power_error(
            x,
            (c.len() - 1) as nat,
        ) + 1 as real
    }
}

/// Whether the power of `x` that follows the `k`-th is computed without
/// clamping.
pub open spec fn power_stays_in_range(x: int, k: int) -> bool {
    power(x, (k + 1) as nat) == quotient(power(x, k as nat) * x, SCALE as int)
}

/// Whether the step of the evaluation at `x` that takes in the coefficient
/// `c[k]` clamps nothing: not the term, not the sum of the terms so far, and
/// not the next power, where another term needs it.
pub open spec fn step_stays_in_range(c: Seq<int>, x: int, k: int) -> bool {
    &&& product(c[k], power(x, k as nat)) == quotient(c[k] * power(x, k as nat), SCALE as int)
    &&& value_at(c.take(k + 1), x) == value_at(c.take(k), x) + product(c[k], power(x, k as nat))
    &&& k + 1 < c.len() ==> power_stays_in_range(x, k)
}

/// Whether the evaluation of the polynomial with coefficients `c` at `x`
/// stays in the range of the numbers: no power, no term and no sum of the
/// terms so far is clamped.
pub open spec fn nothing_saturates(c: Seq<int>, x: int) -> bool {
    forall|k: int| 0 <= k < c.len() ==> #[trigger] step_stays_in_range(c, x, k)
}

/// `x` to the power `n`, exactly.
pub open spec fn whole_power(x: int, n: nat) -> int
    decreases n,
{
    if n == 0 {
        1
    } else {
        x * whole_power(x, (n - 1) as nat)
    }
}

/// The exact value at the whole number `x` of the polynomial whose
/// coefficients have the raw values `c`, as a raw value: the sum of the
/// terms `c[i] * x^i`.
pub open spec fn whole_value(c: Seq<int>, x: int) -> int
    decreases c.len(),
{
    if c.len() == 0 {
        0
    } else {
        whole_value(c.drop_last(), x) + c.last() * whole_power(x, (c.len() - 1) as nat)
    }
}

/// The quotient of a multiple of the scale by the scale is exact.
proof fn lemma_quotient_of_multiple(n: int)
    ensures
        quotient(n * SCALE, SCALE as int) == n,
{
    assert(SCALE == 0x1_0000_0000);
    if n >= 0 {
        assert((n * 0x1_0000_0000) / 0x1_0000_0000 == n);
    } else {
        assert((-(n * 0x1_0000_0000)) / 0x1_0000_0000 == -n);
    }
}

/// While nothing is clamped, the power of a whole number is computed
/// exactly.
proof fn lemma_power_of_whole_number(x: int, n: nat)
    requires
        forall|k: int| 0 <= k < n ==> #[trigger] power_stays_in_range(x * SCALE, k),
    ensures
        power(x * SCALE, n) == whole_power(x, n) * SCALE,
    decreases n,
{
    if n > 0 {
        lemma_power_of_whole_number(x, (n - 1) as nat);
        let below = whole_power(x, (n - 1) as nat);
        let whole = whole_power(x, n);
        assert(power_stays_in_range(x * SCALE, n - 1));
        assert((below * SCALE) * (x * SCALE) == (whole * SCALE) * SCALE) by (nonlinear_arith)
            requires
                whole == x * below,
        ;
        lemma_quotient_of_multiple(whole * SCALE);
    } else {
        assert(whole_power(x, 0) * SCALE == SCALE) by (nonlinear_arith)
            requires
                whole_power(x, 0) == 1,
        ;
    }
}

/// At a whole number nothing is rounded: while nothing is clamped, the value
/// of a polynomial is computed exactly.
pub proof fn lemma_value_at_whole_number(c: Seq<int>, x: int)
    requires
        nothing_saturates(c, x * SCALE),
    ensures
        value_at(c, x * SCALE) == whole_value(c, x),
    decreases c.len(),
{
    if c.len() > 0 {
        let rest = c.drop_last();
        let n = (c.len() - 1) as nat;
        assert forall|k: int| 0 <= k < rest.len() implies #[trigger] step_stays_in_range(
            rest,
            x * SCALE,
            k,
        ) by {
            assert(step_stays_in_range(c, x * SCALE, k));
            assert(rest.take(k + 1) == c.take(k + 1));
            assert(rest.take(k) == c.take(k));
            assert(rest[k] == c[k]);
        }
        assert forall|k: int| 0 <= k < n implies #[trigger] power_stays_in_range(
            x * SCALE,
            k,
        ) by {
            assert(step_stays_in_range(c, x * SCALE, k));
        }
        assert(step_stays_in_range(c, x * SCALE, n as int));
        lemma_value_at_whole_number(rest, x);
        lemma_power_of_whole_number(x, n);
        let p = whole_power(x, n);
        assert(c.last() * (p * SCALE) == (c.last() * p) * SCALE) by (nonlinear_arith);
        lemma_quotient_of_multiple(c.last() * p);
        assert(c.take(c.len() as int) == c);
        assert(c.take(c.len() - 1) == rest);
    }
}

/// A quotient rounded toward zero lies less than one from the exact
/// quotient.
proof fn lemma_rounding_is_below_one(n: int)
    ensures
        real_absolute(quotient(n, SCALE as int) as real - number(n)) < 1 as real,
{
    let q = quotient(n, SCALE as int);
    lemma_truncated_quotient(n, SCALE as int);
    assert(real_absolute(q as real - (n as real) / (SCALE as real)) < 1 as real)
        by (nonlinear_arith)
        requires
            SCALE == 0x1_0000_0000,
            (n >= 0 ==> 0 <= q * SCALE <= n < q * SCALE + SCALE),
            (n < 0 ==> n <= q * SCALE <= 0 && q * SCALE - SCALE < n),
    ;
}

/// While nothing is clamped, the computed power lies within its error of
/// the power of the number.
proof fn lemma_power_is_accurate(x: int, n: nat)
    requires
        forall|k: int| 0 <= k < n ==> #[trigger] power_stays_in_range(x, k),
    ensures
        real_absolute(number(power(x, n)) - real_power(number(x), n)) * (SCALE as real)
            <= power_error(x, n),
        power_error(x, n) >= 0 as real,
    decreases n,
{
    let s = SCALE as real;
    let xr = number(x);
    if n == 0 {
        assert(number(SCALE as int) == 1 as real);
    } else {
        let m = (n - 1) as nat;
        lemma_power_is_accurate(x, m);
        let below = power(x, m);
        let exact = real_power(xr, m);
        let e = power_error(x, m);
        assert(power_stays_in_range(x, m as int));
        assert(power(x, n) == quotient(below * x, SCALE as int));
        lemma_rounding_is_below_one(below * x);
        let q = power(x, n) as real;
        let t = number(below * x);
        assert(t == number(below) * (x as real)) by (nonlinear_arith)
            requires
                t == ((below * x) as real) / s,
                number(below) == (below as real) / s,
                s == 0x1_0000_0000 as real,
        ;
        let d = number(below) - exact;
        assert(real_absolute(q / s - xr * exact) * s <= e * real_absolute(xr) + 1 as real)
            by (nonlinear_arith)
            requires
                s == 0x1_0000_0000 as real,
                xr == (x as real) / s,
                real_absolute(q - t) < 1 as real,
                t == number(below) * (x as real),
                d == number(below) - exact,
                real_absolute(d) * s <= e,
                e >= 0 as real,
        {
            // q / s - xr * exact == (q - t) / s + xr * d
            assert(t / s == number(below) * xr);
            assert(q / s - xr * exact == (q - t) / s + xr * d);
            assert(real_absolute((q - t) / s) * s < 1 as real);
            assert(real_absolute(xr * d) * s == real_absolute(xr) * (real_absolute(d) * s));
            assert(real_absolute(xr) * (real_absolute(d) * s) <= real_absolute(xr) * e);
        }
        assert(e * real_absolute(xr) + 1 as real >= 0 as real) by (nonlinear_arith)
            requires
                e >= 0 as real,
                real_absolute(xr) >= 0 as real,
        ;
    }
}

/// For a number between minus one and one the error of a power is no more
/// than one unit for every multiplication.
pub proof fn lemma_power_error_within_one(x: int, n: nat)
    requires
        -SCALE <= x <= SCALE,
    ensures
        0 as real <= power_error(x, n) <= n as real,
    decreases n,
{
    if n > 0 {
        lemma_power_error_within_one(x, (n - 1) as nat);
        let e = power_error(x, (n - 1) as nat);
        let a = real_absolute(number(x));
        assert(0 as real <= a <= 1 as real) by (nonlinear_arith)
            requires
                a == real_absolute((x as real) / (SCALE as real)),
                -SCALE <= x <= SCALE,
                SCALE == 0x1_0000_0000,
        ;
        assert(0 as real <= e * a <= e) by (nonlinear_arith)
            requires
                0 as real <= e,
                0 as real <= a <= 1 as real,
        ;
    }
}

/// While nothing is clamped, the computed value of a polynomial lies within
/// its error of the value of the polynomial at the number that `x` stands
/// for.
pub proof fn lemma_value_at_is_accurate(c: Seq<int>, x: int)
    requires
        nothing_saturates(c, x),
    ensures
        real_absolute((value_at(c, x) as real) - real_value(as_reals(c), number(x)))
            <= value_error(c, x),
    decreases c.len(),
{
    let s = SCALE as real;
    let xr = number(x);
    if c.len() > 0 {
        let rest = c.drop_last();
        let n = (c.len() - 1) as nat;
        assert forall|k: int| 0 <= k < rest.len() implies #[trigger] step_stays_in_range(
            rest,
            x,
            k,
        ) by {
            assert(step_stays_in_range(c, x, k));
            assert(rest.take(k + 1) == c.take(k + 1));
            assert(rest.take(k) == c.take(k));
            assert(rest[k] == c[k]);
        }
        assert forall|k: int| 0 <= k < n implies #[trigger] power_stays_in_range(x, k) by {
            assert(step_stays_in_range(c, x, k));
        }
        assert(step_stays_in_range(c, x, n as int));
        lemma_value_at_is_accurate(rest, x);
        lemma_power_is_accurate(x, n);
        let a = c.last();
        let pw = power(x, n);
        let exact = real_power(xr, n);
        let e = power_error(x, n);
        let term = product(a, pw);
        assert(term == quotient(a * pw, SCALE as int));
        lemma_rounding_is_below_one(a * pw);
        assert(c.take(c.len() as int) == c);
        assert(c.take(c.len() - 1) == rest);
        assert(value_at(c, x) == value_at(rest, x) + term);
        assert(as_reals(c).drop_last() == as_reals(rest));
        assert(as_reals(c).last() == a as real);
        let t = number(a * pw);
        assert(t == number(a) * (pw as real)) by (nonlinear_arith)
            requires
                t == ((a * pw) as real) / s,
                number(a) == (a as real) / s,
                s == 0x1_0000_0000 as real,
        ;
        let d = number(pw) - exact;
        assert(real_absolute((term as real) - (a as real) * exact) <= real_absolute(number(a)) * e
            + 1 as real) by (nonlinear_arith)
            requires
                s == 0x1_0000_0000 as real,
                number(a) == (a as real) / s,
                number(pw) == (pw as real) / s,
                real_absolute((term as real) - t) < 1 as real,
                t == number(a) * (pw as real),
                d == number(pw) - exact,
                real_absolute(d) * s <= e,
        {
            // term - a * exact == (term - t) + number(a) * s * d
            assert((a as real) == number(a) * s);
            assert((pw as real) == number(pw) * s);
            assert((term as real) - (a as real) * exact == ((term as real) - t) + number(a) * (s
                * d));
            assert(real_absolute(number(a) * (s * d)) == real_absolute(number(a)) * (
            real_absolute(d) * s));
            assert(real_absolute(number(a)) * (real_absolute(d) * s) <= real_absolute(number(a))
                * e);
        }
    }
}

/// A run of near-zero coefficients at the front that ends at a coefficient
/// which is not near zero, or at the end of the sequence, is the whole run.
pub proof fn lemma_leading_zeros(c: Seq<int>, epsilon: int, n: int)
    requires
        0 <= n <= c.len(),
        forall|i: int| 0 <= i < n ==> near_zero(#[trigger] c[i], epsilon),
        n < c.len() ==> !near_zero(c[n], epsilon),
    ensures
        leading_zeros(c, epsilon) == n,
    decreases n,
{
    if n > 0 {
        let rest = c.drop_first();
        assert forall|i: int| 0 <= i < n - 1 implies near_zero(#[trigger] rest[i], epsilon) by {
            assert(rest[i] == c[i + 1]);
        }
        lemma_leading_zeros(rest, epsilon, n - 1);
    }
}

/// A run of `n` near-zero coefficients at the back that starts after a
/// coefficient which is not near zero, or at the start of the sequence, is the
/// whole run.
pub proof fn lemma_trailing_zeros(c: Seq<int>, epsilon: int, n: int)
    requires
        0 <= n <= c.len(),
        forall|i: int| c.len() - n <= i < c.len() ==> near_zero(#[trigger] c[i], epsilon),
        n < c.len() ==> !near_zero(c[c.len() - n - 1], epsilon),
    ensures
        trailing_zeros(c, epsilon) == n,
    decreases n,
{
    if n > 0 {
        let rest = c.drop_last();
        assert forall|i: int| rest.len() - (n - 1) <= i < rest.len() implies near_zero(
            #[trigger] rest[i],
            epsilon,
        ) by {
            assert(rest[i] == c[i]);
        }
        lemma_trailing_zeros(rest, epsilon, n - 1);
    }
}

/// The leading zeros are a run of coefficients that are zero within the
/// tolerance, and the coefficient that follows the run is not.
pub proof fn lemma_leading_zeros_end(c: Seq<int>, epsilon: int)
    ensures
        leading_zeros(c, epsilon) <= c.len(),
        forall|i: int| 0 <= i < leading_zeros(c, epsilon) ==> near_zero(#[trigger] c[i], epsilon),
        leading_zeros(c, epsilon) < c.len() ==> !near_zero(
            c[leading_zeros(c, epsilon) as int],
            epsilon,
        ),
    decreases c.len(),
{
    if c.len() > 0 && near_zero(c.first(), epsilon) {
        let rest = c.drop_first();
        lemma_leading_zeros_end(rest, epsilon);
        assert forall|i: int| 0 <= i < leading_zeros(c, epsilon) implies near_zero(
            #[trigger] c[i],
            epsilon,
        ) by {
            if i > 0 {
                assert(rest[i - 1] == c[i]);
            }
        }
        if leading_zeros(c, epsilon) < c.len() {
            assert(rest[leading_zeros(rest, epsilon) as int] == c[leading_zeros(c, epsilon) as int]);
        }
    }
}

/// The trailing zeros are a run of coefficients that are zero within the
/// tolerance, and the coefficient before the run is not.
pub proof fn lemma_trailing_zeros_start(c: Seq<int>, epsilon: int)
    ensures
        trailing_zeros(c, epsilon) <= c.len(),
        forall|i: int|
            c.len() - trailing_zeros(c, epsilon) <= i < c.len() ==> near_zero(
                #[trigger] c[i],
                epsilon,
            ),
        trailing_zeros(c, epsilon) < c.len() ==> !near_zero(
            c[c.len() - trailing_zeros(c, epsilon) - 1],
            epsilon,
        ),
    decreases c.len(),
{
    if c.len() > 0 && near_zero(c.last(), epsilon) {
        let rest = c.drop_last();
        lemma_trailing_zeros_start(rest, epsilon);
        assert forall|i: int| c.len() - trailing_zeros(c, epsilon) <= i < c.len() implies near_zero(
            #[trigger] c[i],
            epsilon,
        ) by {
            if i < c.len() - 1 {
                assert(rest[i] == c[i]);
            }
        }
        if trailing_zeros(c, epsilon) < c.len() {
            assert(rest[rest.len() - trailing_zeros(rest, epsilon) - 1] == c[c.len()
                - trailing_zeros(c, epsilon) - 1]);
        }
    }
}

/// Trimmed coefficients begin and end with a coefficient that is not zero
/// within the tolerance, so that trimming them again changes nothing.
pub proof fn lemma_trimmed_is_trimmed(c: Seq<int>, epsilon: int)
    ensures
        trimmed(c, epsilon).len() > 0 ==> !near_zero(trimmed(c, epsilon).first(), epsilon)
            && !near_zero(trimmed(c, epsilon).last(), epsilon),
        trimmed(trimmed(c, epsilon), epsilon) == trimmed(c, epsilon),
{
    let kept = trimmed(c, epsilon);
    lemma_leading_zeros_end(c, epsilon);
    lemma_trailing_zeros_start(c, epsilon);
    if kept.len() > 0 {
        assert(kept.first() == c[leading_zeros(c, epsilon) as int]);
        assert(kept.last() == c[c.len() - trailing_zeros(c, epsilon) - 1]);
        lemma_leading_zeros(kept, epsilon, 0);
        lemma_trailing_zeros(kept, epsilon, 0);
        assert(kept.subrange(0, kept.len() as int) == kept);
    }
}

} // verus!
