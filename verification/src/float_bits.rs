//! Floating-point values of the protocol are carried as their IEEE-754
//! binary64 bit patterns. This module classifies such bit patterns.
use vstd::prelude::*;

verus! {

/// Number of distinct values of the 52-bit fraction field.
pub const FRACTION_SPAN: u64 = 0x10_0000_0000_0000;

/// Bit pattern of `+0.0`.
pub const POSITIVE_ZERO: u64 = 0;

/// Bit pattern of `-0.0`.
pub const NEGATIVE_ZERO: u64 = 0x8000_0000_0000_0000;

/// Bit pattern of `1.0`.
pub const ONE: u64 = 0x3FF0_0000_0000_0000;

/// The biased exponent field of a binary64 bit pattern.
pub open spec fn exponent_field(bits: u64) -> int {
    ((bits as int) / (FRACTION_SPAN as int)) % 2048
}

/// Whether the sign bit is set.
pub open spec fn sign_set(bits: u64) -> bool {
    bits >= NEGATIVE_ZERO
}

/// `f64::from_bits(bits).is_finite()`: the exponent field is not all ones.
pub open spec fn is_finite(bits: u64) -> bool {
    exponent_field(bits) != 2047
}

/// `f64::from_bits(bits) >= 0.0` for a finite value.
pub open spec fn is_finite_non_negative(bits: u64) -> bool {
    is_finite(bits) && (!sign_set(bits) || bits == NEGATIVE_ZERO)
}

/// `f64::from_bits(bits) > 0.0` for a finite value.
pub open spec fn is_finite_positive(bits: u64) -> bool {
    is_finite(bits) && !sign_set(bits) && bits != POSITIVE_ZERO
}

/// `0.0 <= f64::from_bits(bits) <= 1.0`. Non-negative binary64 values are
/// ordered like their bit patterns.
pub open spec fn is_unit_interval(bits: u64) -> bool {
    bits == NEGATIVE_ZERO || bits <= ONE
}

/// Executable form of [`is_finite`].
pub fn finite(bits: u64) -> (r: bool)
    ensures
        r == is_finite(bits),
{
    (bits / FRACTION_SPAN) % 2048 != 2047
}

/// Executable form of [`is_finite_non_negative`].
pub fn finite_non_negative(bits: u64) -> (r: bool)
    ensures
        r == is_finite_non_negative(bits),
{
    finite(bits) && (bits < NEGATIVE_ZERO || bits == NEGATIVE_ZERO)
}

/// Executable form of [`is_finite_positive`].
pub fn finite_positive(bits: u64) -> (r: bool)
    ensures
        r == is_finite_positive(bits),
{
    finite(bits) && bits < NEGATIVE_ZERO && bits != POSITIVE_ZERO
}

/// Executable form of [`is_unit_interval`].
pub fn unit_interval(bits: u64) -> (r: bool)
    ensures
        r == is_unit_interval(bits),
{
    bits == NEGATIVE_ZERO || bits <= ONE
}

} // verus!
