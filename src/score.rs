//! Ordering of similarity scores given as IEEE-754 double bit patterns.
use vstd::prelude::*;

verus! {

/// The sign bit of a double.
pub const SIGN_BIT: u64 = 0x8000_0000_0000_0000;

/// All bits of a double but the sign.
pub const ABS_MASK: u64 = 0x7FFF_FFFF_FFFF_FFFF;

/// The bits of positive infinity: every larger magnitude is a NaN.
pub const INF_BITS: u64 = 0x7FF0_0000_0000_0000;

/// The bit pattern is a NaN.
pub open spec fn is_nan(b: u64) -> bool {
    (b & ABS_MASK) > INF_BITS
}

/// The bit pattern is a zero of either sign.
pub open spec fn is_zero(b: u64) -> bool {
    (b & ABS_MASK) == 0
}

/// A key whose unsigned order is the IEEE total order of doubles
/// (negative NaNs first, then negative numbers, -0, +0, positive numbers, positive NaNs).
pub open spec fn order_key(b: u64) -> u64 {
    if b & SIGN_BIT != 0 {
        !b
    } else {
        b | SIGN_BIT
    }
}

/// IEEE `a < b`: false when either side is a NaN, and -0 equals +0.
pub open spec fn less_than(a: u64, b: u64) -> bool {
    &&& !is_nan(a)
    &&& !is_nan(b)
    &&& !(is_zero(a) && is_zero(b))
    &&& order_key(a) < order_key(b)
}

/// IEEE `a > b`.
pub open spec fn greater_than(a: u64, b: u64) -> bool {
    less_than(b, a)
}

/// The key of the total order of doubles.
pub fn total_key(b: u64) -> (r: u64)
    ensures
        r == order_key(b),
{
    if b & SIGN_BIT != 0 {
        !b
    } else {
        b | SIGN_BIT
    }
}

/// IEEE `a < b` on two bit patterns.
pub fn score_lt(a: u64, b: u64) -> (r: bool)
    ensures
        r == less_than(a, b),
{
    let nan_a = (a & ABS_MASK) > INF_BITS;
    let nan_b = (b & ABS_MASK) > INF_BITS;
    let zeros = (a & ABS_MASK) == 0 && (b & ABS_MASK) == 0;
    !nan_a && !nan_b && !zeros && total_key(a) < total_key(b)
}

/// IEEE `a > b` on two bit patterns.
pub fn score_gt(a: u64, b: u64) -> (r: bool)
    ensures
        r == greater_than(a, b),
{
    score_lt(b, a)
}

} // verus!
