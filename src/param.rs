//! Ray parameters held as IEEE-754 binary32 bit patterns, and their order.
//!
//! For two encodings that are not NaN, `a <= b` on the `f32` values holds
//! exactly when `order_key(a) <= order_key(b)`: non-negative values order
//! as unsigned integers of their bits, negative ones by decreasing
//! magnitude, and both zeros share the key `0`.

use vstd::prelude::*;

verus! {

/// The sign bit of a binary32 encoding.
pub const SIGN_BIT: u32 = 0x8000_0000;

/// The encoding of positive infinity: every magnitude above it is a NaN.
pub const INFINITY_BITS: u32 = 0x7f80_0000;

/// The magnitude of an encoding: its bits without the sign bit.
pub open spec fn magnitude(bits: u32) -> int {
    bits as int % SIGN_BIT as int
}

/// True when `bits` encodes a NaN.
pub open spec fn is_nan(bits: u32) -> bool {
    magnitude(bits) > INFINITY_BITS as int
}

/// The place of an encoded value in the order of binary32 values.
pub open spec fn order_key(bits: u32) -> int {
    if bits >= SIGN_BIT {
        -magnitude(bits)
    } else {
        magnitude(bits)
    }
}

/// True when the encoded value compares `>= 0.0`: it is neither a NaN
/// nor negative (`-0.0` counts as zero).
pub open spec fn is_non_negative(bits: u32) -> bool {
    !is_nan(bits) && order_key(bits) >= 0
}

/// Returns the order key of an encoding.
pub fn key_of(bits: u32) -> (k: i64)
    ensures
        k == order_key(bits),
{
    if bits >= SIGN_BIT {
        -((bits - SIGN_BIT) as i64)
    } else {
        bits as i64
    }
}

/// Tells whether an encoded value compares `>= 0.0`.
pub fn non_negative(bits: u32) -> (r: bool)
    ensures
        r == is_non_negative(bits),
{
    bits <= INFINITY_BITS || bits == SIGN_BIT
}

} // verus!
