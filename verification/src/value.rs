//! Readings carry 64-bit IEEE 754 values. The engine never computes with
//! them; it only needs to know whether a value is finite, and to replace a
//! non-finite value by zero so that no row loses coverage. Both are functions
//! of the bit pattern alone, so values travel through the engine as raw bits.

use vstd::prelude::*;

verus! {

/// The bit pattern of positive zero, the sentinel stored in place of a
/// non-finite reading and of an absent tag.
pub const ZERO_BITS: u64 = 0;

/// A 64-bit IEEE 754 value is finite exactly when its exponent field
/// (bits 52..63) is not all ones.
pub open spec fn is_finite_bits(bits: u64) -> bool {
    (bits / 0x10000000000000) % 0x800 != 0x7ff
}

/// The stored form of a reading's value: the value itself when finite,
/// zero otherwise.
pub open spec fn coerced_bits(bits: u64) -> u64 {
    if is_finite_bits(bits) {
        bits
    } else {
        ZERO_BITS
    }
}

/// Whether the value with this bit pattern is finite (neither an infinity
/// nor a NaN).
pub fn value_is_finite(bits: u64) -> (r: bool)
    ensures
        r == is_finite_bits(bits),
{
    let exponent: u64 = (bits >> 52) & 0x7ff;
    proof {
        assert((bits >> 52) & 0x7ff == (bits / 0x10000000000000) % 0x800) by (bit_vector);
    }
    exponent != 0x7ff
}

/// Replaces a non-finite value by zero and keeps a finite one, so that the
/// reading is stored rather than dropped.
pub fn coerce_value(bits: u64) -> (r: u64)
    ensures
        r == coerced_bits(bits),
        is_finite_bits(r),
{
    proof {
        assert(is_finite_bits(0u64));
    }
    if value_is_finite(bits) {
        bits
    } else {
        ZERO_BITS
    }
}

} // verus!
