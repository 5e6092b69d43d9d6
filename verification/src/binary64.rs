//! IEEE 754 binary64 values held as their 64-bit patterns.
//!
//! Classification, sign handling and ordering of binary64 values are decided
//! on the pattern alone. The model below reads a pattern as a sign and a
//! magnitude; `lemma_bit_fields` ties that reading to the bit layout.

use vstd::prelude::*;

verus! {

/// The pattern whose only set bit is the sign bit (negative zero).
pub const SIGN_BIT: u64 = 0x8000_0000_0000_0000;

/// Positive infinity. Magnitudes above it are NaNs, magnitudes below it are finite.
pub const INFINITY: u64 = 0x7FF0_0000_0000_0000;

/// Positive zero.
pub const ZERO: u64 = 0;

/// The value one.
pub const ONE: u64 = 0x3FF0_0000_0000_0000;

/// The value minus one.
pub const NEG_ONE: u64 = 0xBFF0_0000_0000_0000;

/// Whether the sign bit of `x` is set.
pub open spec fn negative(x: u64) -> bool {
    x >= SIGN_BIT
}

/// The pattern of `x` with its sign bit cleared.
pub open spec fn magnitude(x: u64) -> u64 {
    if x >= SIGN_BIT {
        (x - SIGN_BIT) as u64
    } else {
        x
    }
}

/// `x` is neither an infinity nor a NaN.
pub open spec fn finite(x: u64) -> bool {
    magnitude(x) < INFINITY
}

/// `x` is a NaN.
pub open spec fn nan(x: u64) -> bool {
    magnitude(x) > INFINITY
}

/// `x` is a zero of either sign.
pub open spec fn is_zero(x: u64) -> bool {
    magnitude(x) == 0
}

/// The pattern of `x` with its sign bit flipped.
pub open spec fn negated(x: u64) -> u64 {
    if x >= SIGN_BIT {
        (x - SIGN_BIT) as u64
    } else {
        (x + SIGN_BIT) as u64
    }
}

/// Position of a non-NaN value on the number line: patterns of one sign are
/// ordered like their magnitudes, and both zeros share position 0.
pub open spec fn rank(x: u64) -> int {
    if negative(x) {
        -(magnitude(x) as int)
    } else {
        magnitude(x) as int
    }
}

/// The comparison `a <= b` of two values: false as soon as one is a NaN.
pub open spec fn le_spec(a: u64, b: u64) -> bool {
    !nan(a) && !nan(b) && rank(a) <= rank(b)
}

/// The comparison `a > b` of two values: false as soon as one is a NaN.
pub open spec fn gt_spec(a: u64, b: u64) -> bool {
    !nan(a) && !nan(b) && rank(a) > rank(b)
}

/// The sign/magnitude reading agrees with the bit layout: bit 63 is the sign,
/// the low 63 bits are the magnitude, and a value is finite exactly when its
/// eleven exponent bits are not all set.
pub proof fn lemma_bit_fields(x: u64)
    ensures
        negative(x) <==> (x >> 63) == 1,
        magnitude(x) == x & 0x7FFF_FFFF_FFFF_FFFF,
        negated(x) == x ^ 0x8000_0000_0000_0000,
        finite(x) <==> (x >> 52) & 0x7FF != 0x7FF,
        nan(x) <==> ((x >> 52) & 0x7FF == 0x7FF && x & 0x000F_FFFF_FFFF_FFFF != 0),
{
    assert((x >= 0x8000_0000_0000_0000u64) <==> (x >> 63) == 1) by (bit_vector);
    assert(x >= 0x8000_0000_0000_0000u64 ==> (x - 0x8000_0000_0000_0000u64) as u64 == x
        & 0x7FFF_FFFF_FFFF_FFFF) by (bit_vector);
    assert(x < 0x8000_0000_0000_0000u64 ==> x == x & 0x7FFF_FFFF_FFFF_FFFF) by (bit_vector);
    assert(x >= 0x8000_0000_0000_0000u64 ==> (x - 0x8000_0000_0000_0000u64) as u64 == x
        ^ 0x8000_0000_0000_0000) by (bit_vector);
    assert(x < 0x8000_0000_0000_0000u64 ==> (x + 0x8000_0000_0000_0000u64) as u64 == x
        ^ 0x8000_0000_0000_0000) by (bit_vector);
    assert(((x & 0x7FFF_FFFF_FFFF_FFFF) < 0x7FF0_0000_0000_0000u64) <==> (x >> 52) & 0x7FF
        != 0x7FF) by (bit_vector);
    assert(((x & 0x7FFF_FFFF_FFFF_FFFF) > 0x7FF0_0000_0000_0000u64) <==> ((x >> 52) & 0x7FF
        == 0x7FF && x & 0x000F_FFFF_FFFF_FFFF != 0)) by (bit_vector);
}

/// Taking the magnitude keeps finiteness and never yields a negative value.
pub proof fn lemma_magnitude(x: u64)
    ensures
        !negative(magnitude(x)),
        magnitude(magnitude(x)) == magnitude(x),
        finite(magnitude(x)) == finite(x),
        nan(magnitude(x)) == nan(x),
        rank(magnitude(x)) == magnitude(x),
        rank(magnitude(x)) >= 0,
{
}

/// Flipping the sign twice gives the value back, keeps the magnitude and
/// mirrors the position on the number line.
pub proof fn lemma_negated(x: u64)
    ensures
        negated(negated(x)) == x,
        magnitude(negated(x)) == magnitude(x),
        finite(negated(x)) == finite(x),
        rank(negated(x)) == -rank(x),
{
}

/// Among non-NaN values exactly one of `a <= b` and `a > b` holds; with a NaN
/// neither does.
pub proof fn lemma_order_total(a: u64, b: u64)
    ensures
        !nan(a) && !nan(b) ==> (le_spec(a, b) <==> !gt_spec(a, b)),
        nan(a) || nan(b) ==> !le_spec(a, b) && !gt_spec(a, b),
{
}

/// Whether `x` is neither infinite nor a NaN.
pub fn is_finite(x: u64) -> (r: bool)
    ensures
        r == finite(x),
{
    abs(x) < INFINITY
}

/// Whether `x` is a NaN.
pub fn is_nan(x: u64) -> (r: bool)
    ensures
        r == nan(x),
{
    abs(x) > INFINITY
}

/// The absolute value of `x`: the same pattern with the sign bit cleared.
pub fn abs(x: u64) -> (r: u64)
    ensures
        r == magnitude(x),
{
    if x >= SIGN_BIT {
        x - SIGN_BIT
    } else {
        x
    }
}

/// The value `-x`: the same pattern with the sign bit flipped.
pub fn neg(x: u64) -> (r: u64)
    ensures
        r == negated(x),
{
    if x >= SIGN_BIT {
        x - SIGN_BIT
    } else {
        x + SIGN_BIT
    }
}

/// The comparison `a <= b`.
pub fn le(a: u64, b: u64) -> (r: bool)
    ensures
        r == le_spec(a, b),
{
    let ma: u64 = abs(a);
    let mb: u64 = abs(b);
    if ma > INFINITY || mb > INFINITY {
        false
    } else if a >= SIGN_BIT {
        if b >= SIGN_BIT {
            mb <= ma
        } else {
            true
        }
    } else if b >= SIGN_BIT {
        ma == 0 && mb == 0
    } else {
        ma <= mb
    }
}

/// The comparison `a > b`.
pub fn gt(a: u64, b: u64) -> (r: bool)
    ensures
        r == gt_spec(a, b),
{
    let ma: u64 = abs(a);
    let mb: u64 = abs(b);
    if ma > INFINITY || mb > INFINITY {
        false
    } else if a >= SIGN_BIT {
        if b >= SIGN_BIT {
            ma < mb
        } else {
            false
        }
    } else if b >= SIGN_BIT {
        ma > 0 || mb > 0
    } else {
        ma > mb
    }
}

} // verus!
