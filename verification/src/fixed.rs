//! Signed fixed-point numbers with 32 fractional bits.
//!
//! A number is stored as a count of units of 2^-32 in an `i64`. Every
//! operation computes the mathematically exact result and rounds it to a
//! whole number of units, toward zero unless it says otherwise. Where the
//! rounded result lies outside the range of `i64`, a saturating operation
//! clamps it to the range, and a checked operation returns `None`.

use vstd::prelude::*;

verus! {

/// Number of units in the value one.
pub const SCALE: i64 = 0x1_0000_0000;

/// `v` clamped to the range of raw values.
pub open spec fn saturate(v: int) -> int {
    if v < i64::MIN {
        i64::MIN as int
    } else if v > i64::MAX {
        i64::MAX as int
    } else {
        v
    }
}

/// The quotient of `n` by `d`, rounded toward zero.
pub open spec fn quotient(n: int, d: int) -> int
    recommends
        d != 0,
{
    if d > 0 {
        if n >= 0 {
            n / d
        } else {
            -((-n) / d)
        }
    } else {
        if n >= 0 {
            -(n / (-d))
        } else {
            (-n) / (-d)
        }
    }
}

/// Raw value of the saturating sum.
pub open spec fn sum(a: int, b: int) -> int {
    saturate(a + b)
}

/// Raw value of the saturating negation.
pub open spec fn negation(a: int) -> int {
    saturate(-a)
}

/// Raw value of the saturating absolute value.
pub open spec fn magnitude(a: int) -> int {
    saturate(if a < 0 { -a } else { a })
}

/// Raw value of the saturating product: the exact product of the two numbers,
/// rounded toward zero.
pub open spec fn product(a: int, b: int) -> int {
    saturate(quotient(a * b, SCALE as int))
}

/// Whether `v` lies in the range of the raw values.
pub open spec fn in_range(v: int) -> bool {
    i64::MIN <= v <= i64::MAX
}

/// The quotient of `n` by `d`, rounded away from zero.
pub open spec fn quotient_away(n: int, d: int) -> int
    recommends
        d != 0,
{
    let q = quotient(n, d);
    if q * d == n {
        q
    } else if (n > 0) == (d > 0) {
        q + 1
    } else {
        q - 1
    }
}

/// Raw value of the saturating quotient with the exact quotient of the two
/// numbers rounded away from zero.
pub open spec fn ratio_away(a: int, b: int) -> int
    recommends
        b != 0,
{
    saturate(quotient_away(a * SCALE, b))
}

/// Whether `r` is the raw value of the square root, rounded down, of the
/// number with raw value `v`.
pub open spec fn is_square_root(r: int, v: int) -> bool {
    r >= 0 && r * r <= v * SCALE < (r + 1) * (r + 1)
}

/// Raw value of the square root, rounded down, of a number that is not
/// negative.
pub open spec fn square_root(v: int) -> int
    recommends
        v >= 0,
{
    choose|r: int| is_square_root(r, v)
}

/// A fixed-point number; `raw` counts units of 2^-32.
#[derive(Clone, Copy, Debug, PartialEq, Eq, Structural)]
pub struct Fixed {
    pub raw: i64,
}

impl View for Fixed {
    type V = int;

    open spec fn view(&self) -> int {
        self.raw as int
    }
}

/// The product of two raw values lies well inside the range of `i128`.
pub proof fn lemma_raw_product_bounds(a: int, b: int)
    by (nonlinear_arith)
    requires
        i64::MIN <= a <= i64::MAX,
        i64::MIN <= b <= i64::MAX,
    ensures
        -0x3fff_ffff_ffff_ffff_8000_0000_0000_0000 <= a * b
            <= 0x4000_0000_0000_0000_0000_0000_0000_0000,
{
}

/// Every whole number that is not negative lies between the squares of two
/// neighbours.
proof fn lemma_whole_square_root_exists(n: nat) -> (r: nat)
    ensures
        r * r <= n < (r + 1) * (r + 1),
    decreases n,
{
    if n == 0 {
        assert(0 * 0 == 0 && (0 + 1) * (0 + 1) == 1) by (nonlinear_arith);
        0
    } else {
        let below = lemma_whole_square_root_exists((n - 1) as nat);
        if n < (below + 1) * (below + 1) {
            below
        } else {
            assert((below + 1) * (below + 1) < (below + 2) * (below + 2)) by (nonlinear_arith);
            below + 1
        }
    }
}

/// A number that is not negative has a square root rounded down, and that is
/// not negative.
pub proof fn lemma_square_root_exists(v: int)
    requires
        v >= 0,
    ensures
        is_square_root(square_root(v), v),
{
    assert(v * SCALE >= 0) by (nonlinear_arith)
        requires
            v >= 0,
            SCALE > 0,
    ;
    let r = lemma_whole_square_root_exists((v * SCALE) as nat);
    assert(is_square_root(r as int, v));
}

/// The quotient of two numbers grows with the dividend where the divisor is
/// positive, and falls as the dividend grows where the divisor is negative.
pub proof fn lemma_quotient_of_numbers_is_monotonic(a: int, b: int, d: int)
    requires
        a <= b,
        d != 0,
    ensures
        d > 0 ==> quotient(a * SCALE, d) <= quotient(b * SCALE, d),
        d < 0 ==> quotient(b * SCALE, d) <= quotient(a * SCALE, d),
{
    assert(a * SCALE <= b * SCALE) by (nonlinear_arith)
        requires
            a <= b,
            SCALE > 0,
    ;
    if d > 0 {
        lemma_quotient_is_monotonic(a * SCALE, b * SCALE, d);
    } else {
        // The quotient by a negative divisor is the negated quotient by the
        // negated divisor.
        lemma_quotient_is_monotonic(a * SCALE, b * SCALE, -d);
    }
}

/// The quotient rounded toward zero grows with the dividend where the
/// divisor is positive.
proof fn lemma_quotient_is_monotonic(a: int, b: int, d: int)
    requires
        a <= b,
        d > 0,
    ensures
        quotient(a, d) <= quotient(b, d),
{
    if a >= 0 {
        assert(a / d <= b / d) by (nonlinear_arith)
            requires
                0 <= a <= b,
                d > 0,
        ;
    } else if b >= 0 {
        assert(-((-a) / d) <= 0 <= b / d) by (nonlinear_arith)
            requires
                a < 0 <= b,
                d > 0,
        ;
    } else {
        assert((-b) / d <= (-a) / d) by (nonlinear_arith)
            requires
                a <= b < 0,
                d > 0,
        ;
    }
}

/// The quotient rounded toward zero times the divisor lies between zero and
/// the dividend, less than one divisor away from it.
pub proof fn lemma_truncated_quotient(n: int, d: int)
    requires
        d > 0,
    ensures
        n >= 0 ==> 0 <= quotient(n, d) * d <= n < quotient(n, d) * d + d,
        n < 0 ==> n <= quotient(n, d) * d <= 0 && quotient(n, d) * d - d < n,
{
    if n >= 0 {
        assert(0 <= (n / d) * d <= n < (n / d) * d + d) by (nonlinear_arith)
            requires
                n >= 0,
                d > 0,
        ;
    } else {
        assert(0 <= ((-n) / d) * d <= -n < ((-n) / d) * d + d) by (nonlinear_arith)
            requires
                n < 0,
                d > 0,
        ;
        assert((-((-n) / d)) * d == -(((-n) / d) * d)) by (nonlinear_arith);
    }
}

/// A number has one square root rounded down, and no more.
pub proof fn lemma_square_root_is_unique(r: int, t: int, v: int)
    requires
        is_square_root(r, v),
        is_square_root(t, v),
    ensures
        r == t,
        r == square_root(v),
{
    assert(r == t) by (nonlinear_arith)
        requires
            r >= 0,
            t >= 0,
            r * r < (t + 1) * (t + 1),
            t * t < (r + 1) * (r + 1),
    ;
    let chosen = square_root(v);
    assert(is_square_root(chosen, v));
    assert(r == chosen) by (nonlinear_arith)
        requires
            r >= 0,
            chosen >= 0,
            r * r < (chosen + 1) * (chosen + 1),
            chosen * chosen < (r + 1) * (r + 1),
    ;
}

/// The largest whole number whose square does not exceed `n`.
fn whole_square_root(n: u128) -> (r: u128)
    requires
        n < 0x1_0000_0000_0000_0000_0000_0000,
    ensures
        r * r <= n < (r + 1) * (r + 1),
        r < 0x1_0000_0000_0000,
{
    let mut lo: u128 = 0;
    let mut hi: u128 = 0x1_0000_0000_0000;
    assert(hi * hi > n) by (nonlinear_arith)
        requires
            hi == 0x1_0000_0000_0000,
            n < 0x1_0000_0000_0000_0000_0000_0000,
    ;
    while hi - lo > 1
        invariant
            lo < hi <= 0x1_0000_0000_0000,
            lo * lo <= n < hi * hi,
        decreases hi - lo,
    {
        let mid = lo + (hi - lo) / 2;
        assert(mid * mid <= 0x1_0000_0000_0000 * 0x1_0000_0000_0000) by (nonlinear_arith)
            requires
                mid <= 0x1_0000_0000_0000,
        ;
        if mid * mid <= n {
            lo = mid;
        } else {
            hi = mid;
        }
    }
    lo
}

impl Fixed {
    /// The number with the given raw value.
    pub fn from_raw(raw: i64) -> (r: Fixed)
        ensures
            r@ == raw,
    {
        Fixed { raw }
    }

    /// The number with the raw value `wide`, saturated.
    pub fn saturating_from(wide: i128) -> (r: Fixed)
        ensures
            r@ == saturate(wide as int),
    {
        if wide < i64::MIN as i128 {
            Fixed { raw: i64::MIN }
        } else if wide > i64::MAX as i128 {
            Fixed { raw: i64::MAX }
        } else {
            Fixed { raw: wide as i64 }
        }
    }

    /// The whole number `n`, saturated.
    pub fn from_int(n: i64) -> (r: Fixed)
        ensures
            r@ == saturate(n * SCALE),
    {
        proof {
            lemma_raw_product_bounds(n as int, SCALE as int);
        }
        Fixed::saturating_from((n as i128) * (SCALE as i128))
    }

    /// The number zero.
    pub fn zero() -> (r: Fixed)
        ensures
            r@ == 0,
    {
        Fixed { raw: 0 }
    }

    /// The number one.
    pub fn one() -> (r: Fixed)
        ensures
            r@ == SCALE,
    {
        Fixed { raw: SCALE }
    }

    /// The raw value.
    pub fn raw(&self) -> (r: i64)
        ensures
            r == self@,
    {
        self.raw
    }

    /// Whether the number is below zero.
    pub fn is_negative(&self) -> (r: bool)
        ensures
            r == (self@ < 0),
    {
        self.raw < 0
    }

    /// Whether the number is above zero.
    pub fn is_positive(&self) -> (r: bool)
        ensures
            r == (self@ > 0),
    {
        self.raw > 0
    }

    /// The sum, clamped to the range of the numbers.
    pub fn saturating_add(self, other: Fixed) -> (r: Fixed)
        ensures
            r@ == sum(self@, other@),
    {
        Fixed::saturating_from(self.raw as i128 + other.raw as i128)
    }

    /// The sum, or `None` where it lies outside the range of the numbers.
    pub fn checked_add(self, other: Fixed) -> (r: Option<Fixed>)
        ensures
            r is Some <==> in_range(self@ + other@),
            r matches Some(s) ==> s@ == self@ + other@,
    {
        let wide: i128 = self.raw as i128 + other.raw as i128;
        if wide < i64::MIN as i128 || wide > i64::MAX as i128 {
            None
        } else {
            Some(Fixed { raw: wide as i64 })
        }
    }

    /// The difference, or `None` where it lies outside the range of the
    /// numbers.
    pub fn checked_sub(self, other: Fixed) -> (r: Option<Fixed>)
        ensures
            r is Some <==> in_range(self@ - other@),
            r matches Some(d) ==> d@ == self@ - other@,
    {
        let wide: i128 = self.raw as i128 - other.raw as i128;
        if wide < i64::MIN as i128 || wide > i64::MAX as i128 {
            None
        } else {
            Some(Fixed { raw: wide as i64 })
        }
    }

    /// The negated number, or `None` for the smallest number, which has
    /// none.
    pub fn checked_neg(self) -> (r: Option<Fixed>)
        ensures
            r is Some <==> in_range(-self@),
            r matches Some(n) ==> n@ == -self@,
    {
        if self.raw == i64::MIN {
            None
        } else {
            Some(Fixed { raw: -self.raw })
        }
    }

    /// The negated number; the largest number for the smallest.
    pub fn saturating_neg(self) -> (r: Fixed)
        ensures
            r@ == negation(self@),
    {
        Fixed::saturating_from(-(self.raw as i128))
    }

    /// The absolute value; the largest number for the smallest.
    pub fn saturating_abs(self) -> (r: Fixed)
        ensures
            r@ == magnitude(self@),
    {
        if self.raw < 0 {
            Fixed::saturating_from(-(self.raw as i128))
        } else {
            self
        }
    }

    /// The product, rounded toward zero and clamped to the range of the
    /// numbers.
    pub fn saturating_mul(self, other: Fixed) -> (r: Fixed)
        ensures
            r@ == product(self@, other@),
    {
        proof {
            lemma_raw_product_bounds(self@, other@);
        }
        let wide: i128 = (self.raw as i128) * (other.raw as i128);
        Fixed::saturating_from(wide / (SCALE as i128))
    }

    /// The product, rounded toward zero, or `None` where it lies outside the
    /// range of the numbers.
    pub fn checked_mul(self, other: Fixed) -> (r: Option<Fixed>)
        ensures
            r is Some <==> in_range(quotient(self@ * other@, SCALE as int)),
            r matches Some(p) ==> p@ == quotient(self@ * other@, SCALE as int),
    {
        proof {
            lemma_raw_product_bounds(self@, other@);
        }
        let wide: i128 = (self.raw as i128) * (other.raw as i128);
        let q: i128 = wide / (SCALE as i128);
        if q < i64::MIN as i128 || q > i64::MAX as i128 {
            None
        } else {
            Some(Fixed { raw: q as i64 })
        }
    }

    /// The square root, rounded down, or `None` for a negative number.
    pub fn checked_sqrt(self) -> (r: Option<Fixed>)
        ensures
            self@ < 0 <==> r is None,
            r matches Some(q) ==> is_square_root(q@, self@) && q@ == square_root(self@),
    {
        if self.raw < 0 {
            return None;
        }
        proof {
            lemma_raw_product_bounds(self@, SCALE as int);
        }
        let scaled: u128 = (self.raw as u128) * (SCALE as u128);
        assert(scaled < 0x1_0000_0000_0000_0000_0000_0000) by (nonlinear_arith)
            requires
                scaled == self.raw * SCALE,
                0 <= self.raw < 0x8000_0000_0000_0000,
                SCALE == 0x1_0000_0000,
        ;
        let root = whole_square_root(scaled);
        proof {
            lemma_square_root_is_unique(root as int, root as int, self@);
        }
        Some(Fixed { raw: root as i64 })
    }

    /// The quotient, rounded away from zero and clamped to the range of the
    /// numbers, or `None` when the divisor is zero.
    pub fn saturating_div_away(self, divisor: Fixed) -> (r: Option<Fixed>)
        ensures
            divisor@ == 0 <==> r is None,
            r matches Some(q) ==> q@ == ratio_away(self@, divisor@),
    {
        if divisor.raw == 0 {
            return None;
        }
        proof {
            lemma_raw_product_bounds(self@, SCALE as int);
        }
        let wide: i128 = (self.raw as i128) * (SCALE as i128);
        let d: i128 = divisor.raw as i128;
        // The same quotient with a positive divisor.
        let (n, e): (i128, i128) = if d > 0 {
            (wide, d)
        } else {
            (-wide, -d)
        };
        let q: i128 = n / e;
        proof {
            lemma_truncated_quotient(n as int, e as int);
            assert(q * d == wide <==> q * e == n) by (nonlinear_arith)
                requires
                    (d == e && wide == n) || (d == -e && wide == -n),
            ;
        }
        let remainder: i128 = n - q * e;
        let rounded: i128 = if remainder > 0 {
            q + 1
        } else if remainder < 0 {
            q - 1
        } else {
            q
        };
        Some(Fixed::saturating_from(rounded))
    }

    /// The quotient, rounded toward zero, or `None` where the divisor is zero
    /// or the quotient lies outside the range of the numbers.
    pub fn checked_div(self, divisor: Fixed) -> (r: Option<Fixed>)
        ensures
            r is Some <==> divisor@ != 0 && in_range(quotient(self@ * SCALE, divisor@)),
            r matches Some(q) ==> q@ == quotient(self@ * SCALE, divisor@),
    {
        if divisor.raw == 0 {
            return None;
        }
        proof {
            lemma_raw_product_bounds(self@, SCALE as int);
        }
        let wide: i128 = (self.raw as i128) * (SCALE as i128);
        let d: i128 = divisor.raw as i128;
        let q: i128 = if d > 0 {
            wide / d
        } else {
            (-wide) / (-d)
        };
        if q < i64::MIN as i128 || q > i64::MAX as i128 {
            None
        } else {
            Some(Fixed { raw: q as i64 })
        }
    }
}

} // verus!
