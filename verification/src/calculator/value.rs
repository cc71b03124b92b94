use vstd::prelude::*;

verus! {

/// The sign bit of an IEEE 754 binary64 bit pattern.
pub const SIGN_BIT: u64 = 0x8000_0000_0000_0000;

/// The bit pattern of positive infinity; every larger magnitude is a NaN.
pub const INFINITY_BITS: u64 = 0x7FF0_0000_0000_0000;

/// The bit pattern of 1.0.
pub const ONE_BITS: u64 = 0x3FF0_0000_0000_0000;

/// The pattern with its sign bit cleared.
pub open spec fn magnitude(bits: u64) -> u64 {
    if bits >= SIGN_BIT {
        (bits - SIGN_BIT) as u64
    } else {
        bits
    }
}

/// The sign bit is set: of a negative value, of -0.0, of some NaNs.
pub open spec fn sign_set(bits: u64) -> bool {
    bits >= SIGN_BIT
}

/// The pattern is none of a number.
pub open spec fn is_nan(bits: u64) -> bool {
    magnitude(bits) > INFINITY_BITS
}

/// The value is +0.0 or -0.0: what compares equal to 0.0.
pub open spec fn is_zero(bits: u64) -> bool {
    magnitude(bits) == 0
}

/// The value is less than 0.0; false of a NaN and of either zero.
pub open spec fn below_zero(bits: u64) -> bool {
    sign_set(bits) && !is_nan(bits) && !is_zero(bits)
}

/// The value is greater than 1.0; false of a NaN.
pub open spec fn above_one(bits: u64) -> bool {
    !sign_set(bits) && !is_nan(bits) && magnitude(bits) > ONE_BITS
}

/// The value is less than -1.0; false of a NaN.
pub open spec fn below_minus_one(bits: u64) -> bool {
    sign_set(bits) && !is_nan(bits) && magnitude(bits) > ONE_BITS
}

/// The pattern with its sign bit cleared.
fn abs_bits(bits: u64) -> (m: u64)
    ensures
        m == magnitude(bits),
{
    if bits >= SIGN_BIT {
        bits - SIGN_BIT
    } else {
        bits
    }
}

/// Whether the value equals 0.0.
pub fn equals_zero(bits: u64) -> (r: bool)
    ensures
        r == is_zero(bits),
{
    abs_bits(bits) == 0
}

/// Whether the value is less than 0.0.
pub fn less_than_zero(bits: u64) -> (r: bool)
    ensures
        r == below_zero(bits),
{
    let m = abs_bits(bits);
    bits >= SIGN_BIT && m <= INFINITY_BITS && m != 0
}

/// Whether the value is greater than 1.0.
pub fn greater_than_one(bits: u64) -> (r: bool)
    ensures
        r == above_one(bits),
{
    bits < SIGN_BIT && bits <= INFINITY_BITS && bits > ONE_BITS
}

/// Whether the value is less than -1.0.
pub fn less_than_minus_one(bits: u64) -> (r: bool)
    ensures
        r == below_minus_one(bits),
{
    let m = abs_bits(bits);
    bits >= SIGN_BIT && m <= INFINITY_BITS && m > ONE_BITS
}

} // verus!
