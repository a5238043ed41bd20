//! A total order on `f32` values, given by their IEEE-754 bit patterns.
//!
//! Depths and pick layers are `f32`s. They are sorted with the usual total order in which every
//! NaN is below every number, all NaNs are equal, and `-0.0 == +0.0`. This module maps the bit
//! pattern of a float to an integer key whose order is that order.
use vstd::prelude::*;

verus! {

/// The sign bit of an `f32`.
pub const SIGN_BIT: u32 = 0x8000_0000u32;

/// The bit pattern of positive infinity, the largest magnitude that is not a NaN.
pub const INFINITY_BITS: u32 = 0x7f80_0000u32;

/// The bit pattern without its sign bit.
pub open spec fn magnitude(bits: u32) -> int {
    bits as int % 0x8000_0000
}

/// The float has its sign bit set.
pub open spec fn is_negative(bits: u32) -> bool {
    bits >= 0x8000_0000
}

/// The float is a NaN: all exponent bits set and a non-zero mantissa.
pub open spec fn is_nan(bits: u32) -> bool {
    magnitude(bits) > 0x7f80_0000
}

/// The float is `+0.0` or `-0.0`.
pub open spec fn is_zero(bits: u32) -> bool {
    magnitude(bits) == 0
}

/// Float equality in the total order: NaNs equal each other, the two zeros are equal, and
/// other values are equal when their bit patterns are.
pub open spec fn float_eq(a: u32, b: u32) -> bool {
    if is_nan(a) || is_nan(b) {
        is_nan(a) && is_nan(b)
    } else {
        a == b || (is_zero(a) && is_zero(b))
    }
}

/// Strict order of floats: NaN is below every number; among numbers, IEEE-754 orders values of
/// the same sign like their magnitudes (reversed for negative values), and a negative value is
/// below a positive one unless both are zeros.
pub open spec fn float_lt(a: u32, b: u32) -> bool {
    if is_nan(b) {
        false
    } else if is_nan(a) {
        true
    } else if !is_negative(a) && !is_negative(b) {
        magnitude(a) < magnitude(b)
    } else if is_negative(a) && is_negative(b) {
        magnitude(b) < magnitude(a)
    } else if is_negative(a) {
        !(is_zero(a) && is_zero(b))
    } else {
        false
    }
}

/// The order key of a float's bit pattern.
pub open spec fn spec_order_key(bits: u32) -> int {
    if is_nan(bits) {
        0
    } else if is_negative(bits) {
        0x8000_0000 - magnitude(bits)
    } else {
        0x8000_0000 + magnitude(bits)
    }
}

/// Keys compare as the floats do.
pub proof fn lemma_order_key(a: u32, b: u32)
    ensures
        float_lt(a, b) <==> spec_order_key(a) < spec_order_key(b),
        float_eq(a, b) <==> spec_order_key(a) == spec_order_key(b),
{
}

/// Maps the bit pattern of an `f32` to an integer with the same total order.
pub fn order_key(bits: u32) -> (k: u32)
    ensures
        k as int == spec_order_key(bits),
{
    let mag = bits % SIGN_BIT;
    if mag > INFINITY_BITS {
        0
    } else if bits >= SIGN_BIT {
        SIGN_BIT - mag
    } else {
        SIGN_BIT + mag
    }
}

/// `==` on two `f32`s given by their bit patterns: a NaN equals nothing, not even itself, and
/// the two zeros are equal.
pub open spec fn f32_eq_spec(a: u32, b: u32) -> bool {
    !is_nan(a) && !is_nan(b) && (a == b || (is_zero(a) && is_zero(b)))
}

/// `==` on two `f32`s given by their bit patterns.
pub fn f32_eq(a: u32, b: u32) -> (r: bool)
    ensures
        r == f32_eq_spec(a, b),
{
    let ma = a % SIGN_BIT;
    let mb = b % SIGN_BIT;
    ma <= INFINITY_BITS && mb <= INFINITY_BITS && (a == b || (ma == 0 && mb == 0))
}

/// The sign bit of an `f64`.
pub const SIGN_BIT_64: u64 = 0x8000_0000_0000_0000u64;

/// The bit pattern of positive infinity as an `f64`.
pub const INFINITY_BITS_64: u64 = 0x7ff0_0000_0000_0000u64;

/// `==` on two `f64`s given by their bit patterns: a NaN equals nothing, not even itself, and
/// the two zeros are equal.
pub open spec fn f64_eq_spec(a: u64, b: u64) -> bool {
    let ma = a as int % 0x8000_0000_0000_0000;
    let mb = b as int % 0x8000_0000_0000_0000;
    ma <= 0x7ff0_0000_0000_0000 && mb <= 0x7ff0_0000_0000_0000 && (a == b || (ma == 0 && mb == 0))
}

/// `==` on two `f64`s given by their bit patterns.
pub fn f64_eq(a: u64, b: u64) -> (r: bool)
    ensures
        r == f64_eq_spec(a, b),
{
    let ma = a % SIGN_BIT_64;
    let mb = b % SIGN_BIT_64;
    ma <= INFINITY_BITS_64 && mb <= INFINITY_BITS_64 && (a == b || (ma == 0 && mb == 0))
}

} // verus!
