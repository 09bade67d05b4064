//! A total order on the bit patterns of `f64` values.
//!
//! Stored components are IEEE 754 double-precision numbers. The library never
//! computes with them as numbers: it compares them, and it compares their bit
//! patterns through `order_key`, an unsigned integer whose order is the
//! numeric order of the values for every pattern that is not a NaN.
use vstd::prelude::*;

verus! {

/// The sign bit of an `f64` bit pattern.
pub const SIGN_BIT: u64 = 0x8000_0000_0000_0000;

/// The bit pattern of positive infinity; magnitudes above it are NaNs.
pub const INFINITY_BITS: u64 = 0x7FF0_0000_0000_0000;

/// Whether the pattern has its sign bit set.
pub open spec fn f64_negative(bits: u64) -> bool {
    bits >= SIGN_BIT
}

/// The pattern with its sign bit cleared: the encoded magnitude, whose order
/// as an integer is the order of the magnitudes (IEEE 754, 3.4).
pub open spec fn f64_magnitude(bits: u64) -> int {
    if f64_negative(bits) {
        bits - SIGN_BIT
    } else {
        bits as int
    }
}

/// Whether the pattern encodes a NaN.
pub open spec fn f64_is_nan(bits: u64) -> bool {
    f64_magnitude(bits) > INFINITY_BITS
}

/// Whether the pattern encodes zero, of either sign.
pub open spec fn f64_is_zero(bits: u64) -> bool {
    f64_magnitude(bits) == 0
}

/// IEEE 754 equality of two values given by their bit patterns (not NaN).
pub open spec fn f64_eq(a: u64, b: u64) -> bool {
    a == b || (f64_is_zero(a) && f64_is_zero(b))
}

/// IEEE 754 `<` of two values given by their bit patterns (not NaN).
pub open spec fn f64_lt(a: u64, b: u64) -> bool {
    if f64_is_zero(a) && f64_is_zero(b) {
        false
    } else if !f64_negative(a) && !f64_negative(b) {
        f64_magnitude(a) < f64_magnitude(b)
    } else if f64_negative(a) && f64_negative(b) {
        f64_magnitude(b) < f64_magnitude(a)
    } else {
        f64_negative(a)
    }
}

/// IEEE 754 `<=` of two values given by their bit patterns (not NaN).
pub open spec fn f64_le(a: u64, b: u64) -> bool {
    f64_lt(a, b) || f64_eq(a, b)
}

/// The key of a pattern: negative values are reflected below the sign bit,
/// non-negative values are lifted above it, and both zeros meet at it.
pub open spec fn order_key_spec(bits: u64) -> u64 {
    if bits == SIGN_BIT {
        SIGN_BIT
    } else if f64_negative(bits) {
        (u64::MAX - bits) as u64
    } else {
        (bits + SIGN_BIT) as u64
    }
}

/// Computes the order key of an `f64` bit pattern.
pub fn order_key(bits: u64) -> (key: u64)
    ensures
        key == order_key_spec(bits),
{
    if bits == SIGN_BIT {
        SIGN_BIT
    } else if bits >= SIGN_BIT {
        u64::MAX - bits
    } else {
        bits + SIGN_BIT
    }
}

/// Keys order values as IEEE 754 does: for two patterns that are not NaNs,
/// the first value is below the second exactly when its key is below the
/// other key, and the values are equal exactly when the keys are.
pub proof fn lemma_order_key_is_numeric_order(a: u64, b: u64)
    requires
        !f64_is_nan(a),
        !f64_is_nan(b),
    ensures
        f64_lt(a, b) <==> order_key_spec(a) < order_key_spec(b),
        f64_eq(a, b) <==> order_key_spec(a) == order_key_spec(b),
        f64_le(a, b) <==> order_key_spec(a) <= order_key_spec(b),
{
}

/// IEEE 754 `<` of any two values given by their bit patterns: false when
/// either is a NaN.
pub open spec fn ieee_lt(a: u64, b: u64) -> bool {
    !f64_is_nan(a) && !f64_is_nan(b) && f64_lt(a, b)
}

/// IEEE 754 `<=` of any two values given by their bit patterns: false when
/// either is a NaN.
pub open spec fn ieee_le(a: u64, b: u64) -> bool {
    !f64_is_nan(a) && !f64_is_nan(b) && f64_le(a, b)
}

/// Whether the pattern encodes a NaN.
pub fn is_nan(bits: u64) -> (nan: bool)
    ensures
        nan == f64_is_nan(bits),
{
    let magnitude: u64 = if bits >= SIGN_BIT {
        bits - SIGN_BIT
    } else {
        bits
    };
    magnitude > INFINITY_BITS
}

/// Compares two values given by their bit patterns with IEEE 754 `<`.
pub fn less_than(a: u64, b: u64) -> (lt: bool)
    ensures
        lt == ieee_lt(a, b),
        !f64_is_nan(a) && !f64_is_nan(b) ==> (lt <==> order_key_spec(a) < order_key_spec(b)),
{
    proof {
        if !f64_is_nan(a) && !f64_is_nan(b) {
            lemma_order_key_is_numeric_order(a, b);
        }
    }
    !is_nan(a) && !is_nan(b) && order_key(a) < order_key(b)
}

/// Compares two values given by their bit patterns with IEEE 754 `<=`.
pub fn less_or_equal(a: u64, b: u64) -> (le: bool)
    ensures
        le == ieee_le(a, b),
        !f64_is_nan(a) && !f64_is_nan(b) ==> (le <==> order_key_spec(a) <= order_key_spec(b)),
{
    proof {
        if !f64_is_nan(a) && !f64_is_nan(b) {
            lemma_order_key_is_numeric_order(a, b);
        }
    }
    !is_nan(a) && !is_nan(b) && order_key(a) <= order_key(b)
}

} // verus!
