//! IEEE-754 doubles as 64-bit patterns: NaN test and order.

use vstd::prelude::*;

verus! {

/// The bit that holds the sign.
pub const SIGN_BIT: u64 = 0x8000_0000_0000_0000u64;

/// The bits that hold the exponent.
pub const EXPONENT_BITS: u64 = 0x7ff0_0000_0000_0000u64;

/// The bits that hold the fraction.
pub const FRACTION_BITS: u64 = 0x000f_ffff_ffff_ffffu64;

/// All bits but the sign.
pub const MAGNITUDE_BITS: u64 = 0x7fff_ffff_ffff_ffffu64;

/// A pattern is a NaN when its exponent is all ones and its fraction is not zero.
pub open spec fn is_nan(b: u64) -> bool {
    (b & EXPONENT_BITS) == EXPONENT_BITS && (b & FRACTION_BITS) != 0
}

/// The pattern without its sign: for a number, its absolute value's pattern.
pub open spec fn magnitude(b: u64) -> int {
    (b & MAGNITUDE_BITS) as int
}

/// Whether the sign bit is set.
pub open spec fn is_negative(b: u64) -> bool {
    (b & SIGN_BIT) != 0
}

/// An integer that orders the numbers as the doubles are ordered: the
/// magnitude, negated under a sign bit. Both zeros have rank 0.
pub open spec fn rank(b: u64) -> int {
    if is_negative(b) {
        -magnitude(b)
    } else {
        magnitude(b)
    }
}

/// `a < b` as doubles: false when either is a NaN.
pub open spec fn less(a: u64, b: u64) -> bool {
    !is_nan(a) && !is_nan(b) && rank(a) < rank(b)
}

/// `a > b` as doubles: false when either is a NaN.
pub open spec fn greater(a: u64, b: u64) -> bool {
    less(b, a)
}

/// Decides whether a pattern is a NaN.
pub fn is_nan_bits(b: u64) -> (r: bool)
    ensures
        r == is_nan(b),
{
    (b & EXPONENT_BITS) == EXPONENT_BITS && (b & FRACTION_BITS) != 0
}

fn rank_of(b: u64) -> (r: i128)
    ensures
        r == rank(b),
{
    let m: u64 = b & MAGNITUDE_BITS;
    let wide: i128 = m as i128;
    if (b & SIGN_BIT) != 0 {
        -wide
    } else {
        wide
    }
}

/// Decides `a < b` on the patterns of two doubles.
pub fn is_less(a: u64, b: u64) -> (r: bool)
    ensures
        r == less(a, b),
{
    !is_nan_bits(a) && !is_nan_bits(b) && rank_of(a) < rank_of(b)
}

/// Decides `a > b` on the patterns of two doubles.
pub fn is_greater(a: u64, b: u64) -> (r: bool)
    ensures
        r == greater(a, b),
{
    is_less(b, a)
}

/// The order is strict: nothing is below itself, and two numbers are never
/// each below the other.
pub proof fn lemma_less_is_strict(a: u64, b: u64)
    ensures
        !less(a, a),
        less(a, b) ==> !less(b, a),
{
}

/// The order is transitive.
pub proof fn lemma_less_is_transitive(a: u64, b: u64, c: u64)
    requires
        less(a, b),
        less(b, c),
    ensures
        less(a, c),
{
}

/// Two numbers of different rank are ordered one way or the other, and
/// numbers of one rank differ at most in the sign of zero.
pub proof fn lemma_less_is_total(a: u64, b: u64)
    requires
        !is_nan(a),
        !is_nan(b),
    ensures
        less(a, b) || less(b, a) || rank(a) == rank(b),
        rank(a) == rank(b) ==> a == b || (magnitude(a) == 0 && magnitude(b) == 0),
{
    assert(rank(a) == rank(b) ==> a == b || (magnitude(a) == 0 && magnitude(b) == 0)) by {
        let ma: u64 = a & MAGNITUDE_BITS;
        let mb: u64 = b & MAGNITUDE_BITS;
        assert(ma == mb && ((a & SIGN_BIT) != 0) == ((b & SIGN_BIT) != 0) ==> a == b)
            by (bit_vector)
            requires
                ma == a & 0x7fff_ffff_ffff_ffffu64,
                mb == b & 0x7fff_ffff_ffff_ffffu64,
        ;
    }
}

} // verus!
