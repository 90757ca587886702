//! Binary64 numbers held by their IEEE 754 bit pattern.
//!
//! Ratings, ratios, weights and score deltas are double precision numbers.
//! The library stores each one as its bit pattern (`f64::to_bits`) and states
//! every rule over that pattern: for values of the same sign, binary64 bit
//! patterns are ordered exactly as the numbers they encode.

use vstd::prelude::*;

verus! {

/// The sign bit of a binary64 pattern.
pub const SIGN_BIT: u64 = 0x8000_0000_0000_0000;

/// The pattern of positive infinity; a magnitude at or above it is infinite or NaN.
pub const INFINITY_BITS: u64 = 0x7FF0_0000_0000_0000;

/// The pattern of `1.0`.
pub const ONE_BITS: u64 = 0x3FF0_0000_0000_0000;

/// The pattern of `10.0`.
pub const TEN_BITS: u64 = 0x4024_0000_0000_0000;

/// The pattern of `8.0`.
pub const EIGHT_BITS: u64 = 0x4020_0000_0000_0000;

/// The pattern of `+0.0`.
pub const ZERO_BITS: u64 = 0;

/// Whether the sign bit is set.
pub open spec fn is_negative_signed(bits: u64) -> bool {
    bits >= SIGN_BIT
}

/// The pattern with its sign bit cleared.
pub open spec fn magnitude(bits: u64) -> int {
    if bits >= SIGN_BIT { bits - SIGN_BIT } else { bits as int }
}

/// Finite numbers: neither infinite nor NaN.
pub open spec fn is_finite(bits: u64) -> bool {
    magnitude(bits) < INFINITY_BITS
}

/// `+0.0` or `-0.0`.
pub open spec fn is_zero(bits: u64) -> bool {
    magnitude(bits) == 0
}

/// A signed integer that orders finite numbers as `<` orders them
/// (both zeros map to `0`).
pub open spec fn ordinal(bits: u64) -> int {
    if bits >= SIGN_BIT { -magnitude(bits) } else { bits as int }
}

/// The numeric comparison `a < b` of two finite numbers.
pub open spec fn less_than(a: u64, b: u64) -> bool {
    ordinal(a) < ordinal(b)
}

/// A finite number in `[0, upper]`, where `upper` is a non-negative finite pattern.
pub open spec fn within(bits: u64, upper: u64) -> bool {
    is_zero(bits) || (!is_negative_signed(bits) && bits <= upper)
}

/// The key under which unsigned comparison orders patterns as `f64::total_cmp` does.
pub open spec fn total_order_key(bits: u64) -> u64 {
    if bits >= SIGN_BIT { (u64::MAX - bits) as u64 } else { (bits + SIGN_BIT) as u64 }
}

/// Computes [`total_order_key`].
pub fn total_order_key_of(bits: u64) -> (key: u64)
    ensures
        key == total_order_key(bits),
{
    if bits >= SIGN_BIT {
        u64::MAX - bits
    } else {
        bits + SIGN_BIT
    }
}

/// Whether the pattern encodes a finite number.
pub fn finite(bits: u64) -> (result: bool)
    ensures
        result == is_finite(bits),
{
    if bits >= SIGN_BIT {
        bits - SIGN_BIT < INFINITY_BITS
    } else {
        bits < INFINITY_BITS
    }
}

/// Whether the pattern encodes a zero.
pub fn zero(bits: u64) -> (result: bool)
    ensures
        result == is_zero(bits),
{
    bits == 0 || bits == SIGN_BIT
}

/// Whether the pattern encodes a finite number in `[0, upper]`.
pub fn in_range(bits: u64, upper: u64) -> (result: bool)
    ensures
        result == within(bits, upper),
{
    zero(bits) || (bits < SIGN_BIT && bits <= upper)
}

/// The numeric comparison `a < b` of two finite numbers.
pub fn lower(a: u64, b: u64) -> (result: bool)
    requires
        is_finite(a),
        is_finite(b),
    ensures
        result == less_than(a, b),
{
    let a_negative = a >= SIGN_BIT;
    let b_negative = b >= SIGN_BIT;
    if !a_negative && !b_negative {
        a < b
    } else if a_negative && b_negative {
        b - SIGN_BIT < a - SIGN_BIT
    } else if a_negative {
        !(a == SIGN_BIT && b == 0)
    } else {
        false
    }
}

/// The total order key orders patterns: a smaller pattern among non-negative
/// numbers, or among negative numbers a larger magnitude, gives a smaller key.
pub proof fn lemma_total_order_key_monotone(a: u64, b: u64)
    requires
        is_finite(a),
        is_finite(b),
        less_than(a, b),
    ensures
        total_order_key(a) < total_order_key(b),
{
}

} // verus!
