//! Ordering of single-precision floats given by their IEEE-754 bit patterns.
//!
//! A value is NaN when its exponent bits are all set and its mantissa is not
//! zero. Every other value is ordered by its sign and magnitude bits, with the
//! two zeros equal: this is the order of `<` and `<=` on `f32`.
use vstd::prelude::*;

verus! {

/// The sign bit of an `f32`.
pub const SIGN_BIT: u32 = 0x8000_0000;

/// The bits of positive infinity; a larger magnitude is a NaN.
pub const INFINITY_BITS: u32 = 0x7f80_0000;

/// The magnitude bits (everything but the sign) of a float.
pub open spec fn magnitude(b: u32) -> int {
    (b % SIGN_BIT) as int
}

/// Whether the bits encode a NaN.
pub open spec fn is_nan(b: u32) -> bool {
    magnitude(b) > INFINITY_BITS
}

/// An integer that orders non-NaN floats as `<` does; both zeros map to 0.
pub open spec fn order_key(b: u32) -> int {
    if b >= SIGN_BIT {
        -magnitude(b)
    } else {
        magnitude(b)
    }
}

/// `a <= b` on the floats the bits encode.
pub open spec fn le(a: u32, b: u32) -> bool {
    !is_nan(a) && !is_nan(b) && order_key(a) <= order_key(b)
}

/// `a < b` on the floats the bits encode.
pub open spec fn lt(a: u32, b: u32) -> bool {
    !is_nan(a) && !is_nan(b) && order_key(a) < order_key(b)
}

/// Whether the bits encode a NaN.
pub fn bits_is_nan(b: u32) -> (r: bool)
    ensures
        r == is_nan(b),
{
    b % SIGN_BIT > INFINITY_BITS
}

/// The order key of non-NaN bits.
pub fn bits_order_key(b: u32) -> (k: i64)
    ensures
        k == order_key(b),
{
    let m = (b % SIGN_BIT) as i64;
    if b >= SIGN_BIT {
        -m
    } else {
        m
    }
}

/// `a <= b` on `f32` values given as bits.
pub fn bits_le(a: u32, b: u32) -> (r: bool)
    ensures
        r == le(a, b),
{
    !bits_is_nan(a) && !bits_is_nan(b) && bits_order_key(a) <= bits_order_key(b)
}

/// `a < b` on `f32` values given as bits.
pub fn bits_lt(a: u32, b: u32) -> (r: bool)
    ensures
        r == lt(a, b),
{
    !bits_is_nan(a) && !bits_is_nan(b) && bits_order_key(a) < bits_order_key(b)
}

} // verus!
