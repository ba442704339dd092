//! Measured real values (masses, similarities, limits) carried as the bit patterns of their
//! IEEE-754 doubles, and the order of those values.
use vstd::prelude::*;

verus! {

/// The sign bit of a double.
pub const SIGN_BIT: u64 = 0x8000_0000_0000_0000;

/// The bit pattern of positive infinity: a pattern whose bits other than the sign exceed it
/// is a NaN.
pub const INFINITY_BITS: u64 = 0x7FF0_0000_0000_0000;

/// The bits of a double other than its sign.
pub open spec fn magnitude_bits(b: u64) -> u64 {
    if b >= SIGN_BIT {
        (b - SIGN_BIT) as u64
    } else {
        b
    }
}

/// `b` is the bit pattern of a double that is not NaN.
pub open spec fn is_number(b: u64) -> bool {
    magnitude_bits(b) <= INFINITY_BITS
}

/// The place of the double with bit pattern `b` among all doubles that are not NaN. IEEE-754
/// orders such doubles by sign and then by their other bits read as an unsigned integer, and
/// counts negative and positive zero as equal; `rank_of` maps that order onto the integers.
pub open spec fn rank_of(b: u64) -> int {
    if b >= SIGN_BIT {
        -(magnitude_bits(b) as int)
    } else {
        b as int
    }
}

fn rank_value(b: u64) -> (r: i128)
    ensures
        r == rank_of(b),
{
    if b >= SIGN_BIT {
        -((b - SIGN_BIT) as i128)
    } else {
        b as i128
    }
}

/// `a < b` for the doubles with these bit patterns.
pub fn value_lt(a: u64, b: u64) -> (r: bool)
    ensures
        r == (rank_of(a) < rank_of(b)),
{
    rank_value(a) < rank_value(b)
}

/// `a == b` for the doubles with these bit patterns.
pub fn value_eq(a: u64, b: u64) -> (r: bool)
    ensures
        r == (rank_of(a) == rank_of(b)),
{
    rank_value(a) == rank_value(b)
}

/// The smaller of two values, as `f64::min` gives it for numbers.
pub open spec fn min_rank(a: u64, b: u64) -> int {
    if rank_of(a) < rank_of(b) {
        rank_of(a)
    } else {
        rank_of(b)
    }
}

} // verus!
