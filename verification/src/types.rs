//! The ordered key that stands for a distance.

use crate::utils::{
    decoded_exponent, decoded_mantissa, decoded_sign, exponent_field, fraction_field,
    integer_decode, is_finite, scaled_magnitude, sign_bit,
};
use vstd::arithmetic::mul::{lemma_mul_inequality, lemma_mul_strict_inequality};
use vstd::arithmetic::power2::{
    lemma2_to64_rest, lemma_pow2_adds, lemma_pow2_pos, lemma_pow2_strictly_increases, pow2,
};
use vstd::prelude::*;

verus! {

/// A distance as a key that can be compared, hashed and used in maps: the
/// exponent, significand and sign decoded from the bit pattern of a binary64
/// number.
///
/// Two keys are equal exactly when they come from the same bit pattern, so
/// `+0.0` and `-0.0` give different keys. Keys are ordered by exponent, then
/// by significand, then by sign; on non-negative finite numbers this is the
/// numeric order. A negative number is ranked by its magnitude, and the sign
/// only separates two keys of equal magnitude. The fields stand in the
/// order in which they are compared, so `cmp` and `<` give the same order.
#[derive(Clone, Copy, Debug, PartialEq, Eq, Hash, Ord, Structural)]
pub struct Distance {
    pub exponent: i16,
    pub mantissa: u64,
    pub sign: i8,
}

impl Distance {
    /// The key of the number whose bit pattern is `bits`.
    pub open spec fn of_bits(bits: u64) -> Distance {
        Distance {
            exponent: decoded_exponent(bits) as i16,
            mantissa: decoded_mantissa(bits) as u64,
            sign: decoded_sign(bits) as i8,
        }
    }

    /// The strict order of keys: by exponent, then significand, then sign.
    pub open spec fn precedes(self, other: Distance) -> bool {
        ||| self.exponent < other.exponent
        ||| self.exponent == other.exponent && self.mantissa < other.mantissa
        ||| self.exponent == other.exponent && self.mantissa == other.mantissa && self.sign
            < other.sign
    }

    /// Makes the key of a distance from the bit pattern of its binary64
    /// value.
    pub fn new(val: u64) -> (distance: Distance)
        ensures
            distance == Distance::of_bits(val),
    {
        let decoded: (u64, i16, i8) = integer_decode(val);
        Distance { exponent: decoded.1, mantissa: decoded.0, sign: decoded.2 }
    }

    /// Whether this key comes strictly before `other`.
    pub fn is_before(&self, other: &Distance) -> (before: bool)
        ensures
            before == self.precedes(*other),
    {
        if self.exponent != other.exponent {
            self.exponent < other.exponent
        } else if self.mantissa != other.mantissa {
            self.mantissa < other.mantissa
        } else {
            self.sign < other.sign
        }
    }
}

/// The decoded components of every bit pattern fit the key's fields: the
/// significand is below `2^53`, the exponent lies in `-1075..=972`.
pub proof fn lemma_decoded_ranges(bits: u64)
    ensures
        0 <= decoded_mantissa(bits) < 0x20_0000_0000_0000,
        -1075 <= decoded_exponent(bits) <= 972,
        exponent_field(bits) > 0 ==> decoded_mantissa(bits) >= 0x10_0000_0000_0000,
        Distance::of_bits(bits).mantissa == decoded_mantissa(bits),
        Distance::of_bits(bits).exponent == decoded_exponent(bits),
        Distance::of_bits(bits).sign == decoded_sign(bits),
{
}

/// Keys are equal exactly when the bit patterns are.
pub proof fn lemma_key_identifies_bits(x: u64, y: u64)
    ensures
        Distance::of_bits(x) == Distance::of_bits(y) <==> x == y,
{
    lemma_decoded_ranges(x);
    lemma_decoded_ranges(y);
    if Distance::of_bits(x) == Distance::of_bits(y) {
        assert(exponent_field(x) == exponent_field(y));
        assert(fraction_field(x) == fraction_field(y));
        assert(sign_bit(x) == sign_bit(y));
        assert(x == y) by (nonlinear_arith)
            requires
                (x as int / 0x10_0000_0000_0000) % 0x800 == (y as int / 0x10_0000_0000_0000)
                    % 0x800,
                x as int % 0x10_0000_0000_0000 == y as int % 0x10_0000_0000_0000,
                (x >= 0x8000_0000_0000_0000) == (y >= 0x8000_0000_0000_0000),
        ;
    }
}

/// The order of keys is a strict total order.
pub proof fn lemma_precedes_is_strict_total_order(a: Distance, b: Distance, c: Distance)
    ensures
        !a.precedes(a),
        a.precedes(b) && b.precedes(c) ==> a.precedes(c),
        a.precedes(b) || a == b || b.precedes(a),
        !(a.precedes(b) && b.precedes(a)),
{
}

/// On non-negative finite numbers, a key that comes first belongs to the
/// smaller number.
pub proof fn lemma_precedes_implies_smaller(x: u64, y: u64)
    requires
        !sign_bit(x),
        !sign_bit(y),
        is_finite(x),
        is_finite(y),
        Distance::of_bits(x).precedes(Distance::of_bits(y)),
    ensures
        scaled_magnitude(x) < scaled_magnitude(y),
{
    lemma_decoded_ranges(x);
    lemma_decoded_ranges(y);
    let ex = exponent_field(x) as nat;
    let ey = exponent_field(y) as nat;
    let mx = decoded_mantissa(x);
    let my = decoded_mantissa(y);
    lemma_pow2_pos(ex);
    lemma_pow2_pos(ey);
    if ex == ey {
        lemma_mul_strict_inequality(mx, my, pow2(ex) as int);
    } else {
        assert(ex < ey);
        // mx * 2^ex < 2^53 * 2^ex = 2^(ex + 53) <= 2^(ey + 52) = 2^52 * 2^ey <= my * 2^ey
        lemma2_to64_rest();
        lemma_mul_strict_inequality(mx, 0x20_0000_0000_0000, pow2(ex) as int);
        lemma_pow2_adds(53, ex);
        lemma_pow2_adds(52, ey);
        if ex + 53 < ey + 52 {
            lemma_pow2_strictly_increases(ex + 53, ey + 52);
        }
        lemma_mul_inequality(0x10_0000_0000_0000, my, pow2(ey) as int);
    }
}

/// The order of keys is the numeric order: for non-negative finite numbers
/// `x < y`, the key of `x` comes before the key of `y`.
pub proof fn lemma_order_matches_magnitude(x: u64, y: u64)
    requires
        !sign_bit(x),
        !sign_bit(y),
        is_finite(x),
        is_finite(y),
        scaled_magnitude(x) < scaled_magnitude(y),
    ensures
        Distance::of_bits(x).precedes(Distance::of_bits(y)),
{
    let kx = Distance::of_bits(x);
    let ky = Distance::of_bits(y);
    lemma_precedes_is_strict_total_order(kx, ky, kx);
    if ky.precedes(kx) {
        lemma_precedes_implies_smaller(y, x);
    } else if kx == ky {
        lemma_key_identifies_bits(x, y);
    }
}

} // verus!
