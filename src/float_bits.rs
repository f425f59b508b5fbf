//! Order and sign of IEEE-754 single-precision values, computed on their bits.
use vstd::prelude::*;

verus! {

/// Bit pattern of the largest finite single-precision value.
pub const F32_MAX_BITS: u32 = 0x7f7f_ffff;

/// Bit pattern of the sign.
pub const SIGN_BIT: u32 = 0x8000_0000;

/// The bits `b` encode a NaN: all exponent bits set and a non-zero fraction.
pub open spec fn is_nan_bits(b: u32) -> bool {
    (b / 0x80_0000) % 256 == 255 && b % 0x80_0000 != 0
}

/// A key whose unsigned order is the numeric order of the non-NaN values
/// (with negative zero just below positive zero).
pub open spec fn order_key(b: u32) -> u32 {
    if b >= SIGN_BIT {
        (0xffff_ffff - b) as u32
    } else {
        (b + SIGN_BIT) as u32
    }
}

/// The bits of the value with the opposite sign.
pub open spec fn neg_bits(b: u32) -> u32 {
    if b >= SIGN_BIT {
        (b - SIGN_BIT) as u32
    } else {
        (b + SIGN_BIT) as u32
    }
}

/// Whether `b` encodes a NaN.
pub fn is_nan(b: u32) -> (r: bool)
    ensures
        r == is_nan_bits(b),
{
    (b / 0x80_0000) % 256 == 255 && b % 0x80_0000 != 0
}

/// The order key of the value with bits `b`.
pub fn to_order_key(b: u32) -> (r: u32)
    ensures
        r == order_key(b),
{
    if b >= SIGN_BIT {
        0xffff_ffff - b
    } else {
        b + SIGN_BIT
    }
}

/// The bits of `-x` for the value `x` with bits `b`.
pub fn negate(b: u32) -> (r: u32)
    ensures
        r == neg_bits(b),
{
    if b >= SIGN_BIT {
        b - SIGN_BIT
    } else {
        b + SIGN_BIT
    }
}

} // verus!
