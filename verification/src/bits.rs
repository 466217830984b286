//! Single-precision numbers, held as their IEEE 754 bit patterns.
//!
//! Vector coordinates and scores are `u32` values here: the pattern of the
//! number, with the sign in the top bit, the exponent in the next eight and the
//! fraction in the last twenty-three.
use vstd::prelude::*;

verus! {

/// The pattern without its sign bit.
pub open spec fn magnitude(b: u32) -> int {
    if b >= 0x8000_0000 {
        b - 0x8000_0000
    } else {
        b as int
    }
}

/// A pattern that is neither an infinity nor a NaN.
pub open spec fn is_finite(b: u32) -> bool {
    magnitude(b) < 0x7f80_0000
}

/// A pattern that is no number.
pub open spec fn is_nan(b: u32) -> bool {
    magnitude(b) > 0x7f80_0000
}

/// Where a number stands among the others: of two patterns that are no NaN the
/// greater number is the one with the greater rank, and both zeros rank as 0.
pub open spec fn rank(b: u32) -> int {
    if b >= 0x8000_0000 {
        0x8000_0000 - b
    } else {
        b as int
    }
}

/// The pattern without its sign bit.
pub fn magnitude_of(b: u32) -> (r: u32)
    ensures
        r == magnitude(b),
{
    if b >= 0x8000_0000 {
        b - 0x8000_0000
    } else {
        b
    }
}

/// Whether the pattern is a finite number.
pub fn finite(b: u32) -> (r: bool)
    ensures
        r == is_finite(b),
{
    magnitude_of(b) < 0x7f80_0000
}

/// Whether the pattern is a NaN.
pub fn nan(b: u32) -> (r: bool)
    ensures
        r == is_nan(b),
{
    magnitude_of(b) > 0x7f80_0000
}

/// The rank of a pattern.
pub fn rank_of(b: u32) -> (r: i64)
    ensures
        r == rank(b),
{
    if b >= 0x8000_0000 {
        -((b - 0x8000_0000) as i64)
    } else {
        b as i64
    }
}

/// `a > b`, as numbers: false where either is a NaN.
pub open spec fn is_greater(a: u32, b: u32) -> bool {
    !is_nan(a) && !is_nan(b) && rank(a) > rank(b)
}

/// `a >= b`, as numbers: false where either is a NaN.
pub open spec fn is_at_least(a: u32, b: u32) -> bool {
    !is_nan(a) && !is_nan(b) && rank(a) >= rank(b)
}

/// Whether `a > b`.
pub fn greater(a: u32, b: u32) -> (r: bool)
    ensures
        r == is_greater(a, b),
{
    !nan(a) && !nan(b) && rank_of(a) > rank_of(b)
}

/// Whether `a >= b`.
pub fn at_least(a: u32, b: u32) -> (r: bool)
    ensures
        r == is_at_least(a, b),
{
    !nan(a) && !nan(b) && rank_of(a) >= rank_of(b)
}

/// The numbers are the patterns up to the infinities, of either sign; what lies beyond is no
/// number, and the infinities are not finite.
pub proof fn law_patterns(b: u32)
    ensures
        is_nan(b) <==> 0x7f80_0000 < b < 0x8000_0000 || 0xff80_0000 < b,
        is_finite(b) <==> b < 0x7f80_0000 || 0x8000_0000 <= b < 0xff80_0000,
        !is_nan(0x7f80_0000) && !is_finite(0x7f80_0000),
        !is_nan(0xff80_0000) && !is_finite(0xff80_0000),
{
}

/// Of two positive patterns the greater is the greater number, of two negative ones the
/// lesser; a positive number is greater than a negative one, but zero is not greater than
/// the negative zero. No number is neither greater than another nor less.
pub proof fn law_numbers_ordered(a: u32, b: u32)
    ensures
        is_nan(a) || is_nan(b) ==> !is_greater(a, b) && !is_at_least(a, b),
        !is_nan(a) && !is_nan(b) ==> {
            &&& is_at_least(a, b) <==> !is_greater(b, a)
            &&& a < 0x8000_0000 && b < 0x8000_0000 ==> (is_greater(a, b) <==> a > b)
            &&& a >= 0x8000_0000 && b >= 0x8000_0000 ==> (is_greater(a, b) <==> a < b)
            &&& a < 0x8000_0000 && b >= 0x8000_0000 ==> (is_greater(a, b) <==> !(a == 0 && b
                == 0x8000_0000))
            &&& a >= 0x8000_0000 && b < 0x8000_0000 ==> !is_greater(a, b)
        },
        is_greater(a, b) ==> rank(a) > rank(b),
        !is_nan(a) && !is_nan(b) && rank(a) > rank(b) ==> is_greater(a, b),
{
}

} // verus!
