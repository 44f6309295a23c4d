//! The zero test that every sign decision of the root search goes through.

use vstd::prelude::*;
use crate::constants::EPSILON;
use crate::fixed::Fixed;

verus! {

/// Whether the raw value `v` lies strictly between `-epsilon` and `epsilon`.
pub open spec fn near_zero(v: int, epsilon: int) -> bool {
    -epsilon < v < epsilon
}

/// Whether the sequence `r` never decreases.
pub open spec fn non_decreasing(r: Seq<int>) -> bool {
    forall|i: int, j: int| 0 <= i <= j < r.len() ==> r[i] <= r[j]
}

/// Whether `number` is zero within the tolerance `epsilon`.
pub fn is_zero_within(number: Fixed, epsilon: Fixed) -> (r: bool)
    ensures
        r == near_zero(number@, epsilon@),
{
    -(epsilon.raw as i128) < number.raw as i128 && number.raw < epsilon.raw
}

/// Whether `number` is zero within the reference tolerance.
pub fn is_zero(number: Fixed) -> (r: bool)
    ensures
        r == near_zero(number@, EPSILON as int),
{
    is_zero_within(number, Fixed { raw: EPSILON })
}

} // verus!
