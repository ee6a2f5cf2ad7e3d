//! Decoding of IEEE-754 binary64 bit patterns.

use vstd::arithmetic::power2::pow2;
use vstd::prelude::*;

verus! {

/// Two to the power 52: the weight of the implicit leading bit of a normal
/// binary64 significand.
pub const IMPLICIT_BIT: u64 = 0x10_0000_0000_0000;

/// The biased exponent of a normal number with real exponent 0 (1023) plus
/// the number of stored fraction bits (52).
pub const EXPONENT_OFFSET: i16 = 1075;

/// The 11-bit biased exponent field of a binary64 pattern.
pub open spec fn exponent_field(bits: u64) -> int {
    (bits as int / 0x10_0000_0000_0000) % 0x800
}

/// The 52-bit stored fraction of a binary64 pattern.
pub open spec fn fraction_field(bits: u64) -> int {
    bits as int % 0x10_0000_0000_0000
}

/// Whether the sign bit of a binary64 pattern is set.
pub open spec fn sign_bit(bits: u64) -> bool {
    bits >= 0x8000_0000_0000_0000
}

/// The integer significand of the number that `bits` encodes: the fraction
/// with the implicit bit for a normal number, twice the fraction for zero
/// and subnormals, so that the number is always
/// `sign * mantissa * 2^exponent` with the exponent of [`decoded_exponent`].
pub open spec fn decoded_mantissa(bits: u64) -> int {
    if exponent_field(bits) == 0 {
        2 * fraction_field(bits)
    } else {
        fraction_field(bits) + 0x10_0000_0000_0000
    }
}

/// The power of two by which [`decoded_mantissa`] is scaled.
pub open spec fn decoded_exponent(bits: u64) -> int {
    exponent_field(bits) - 1075
}

/// `1` when the sign bit is clear, `-1` when it is set.
pub open spec fn decoded_sign(bits: u64) -> int {
    if sign_bit(bits) {
        -1
    } else {
        1
    }
}

/// Decodes the bit pattern of a binary64 number into its integer
/// significand, its power-of-two exponent and its sign.
pub fn integer_decode(bits: u64) -> (decoded: (u64, i16, i8))
    ensures
        decoded.0 == decoded_mantissa(bits),
        decoded.1 == decoded_exponent(bits),
        decoded.2 == decoded_sign(bits),
{
    let sign: i8 = if bits >> 63 == 0 {
        1
    } else {
        -1
    };
    let field: u64 = (bits >> 52) & 0x7ff;
    let fraction: u64 = bits & 0xf_ffff_ffff_ffff;
    assert((bits >> 63 == 0) <==> bits < 0x8000_0000_0000_0000) by (bit_vector);
    assert(field == (bits / 0x10_0000_0000_0000) % 0x800) by (bit_vector)
        requires
            field == (bits >> 52) & 0x7ff,
    ;
    assert(fraction == bits % 0x10_0000_0000_0000) by (bit_vector)
        requires
            fraction == bits & 0xf_ffff_ffff_ffff,
    ;
    assert(fraction << 1 == 2 * fraction) by (bit_vector)
        requires
            fraction < 0x10_0000_0000_0000,
    ;
    assert(fraction | 0x10_0000_0000_0000 == fraction + 0x10_0000_0000_0000) by (bit_vector)
        requires
            fraction < 0x10_0000_0000_0000,
    ;
    let mantissa: u64 = if field == 0 {
        fraction << 1
    } else {
        fraction | IMPLICIT_BIT
    };
    let exponent: i16 = field as i16 - EXPONENT_OFFSET;
    (mantissa, exponent, sign)
}

/// Whether `bits` encodes a finite number: neither an infinity nor a NaN.
pub open spec fn is_finite(bits: u64) -> bool {
    exponent_field(bits) < 0x7ff
}

/// The magnitude of the finite number that `bits` encodes, in units of
/// `2^-1075`, the weight of half the smallest subnormal. Every finite
/// binary64 magnitude is a whole number of these units, so comparing two
/// scaled magnitudes compares the two numbers' absolute values exactly.
pub open spec fn scaled_magnitude(bits: u64) -> nat {
    (decoded_mantissa(bits) * pow2(exponent_field(bits) as nat)) as nat
}

} // verus!
