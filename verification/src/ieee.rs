//! The order of IEEE 754 numbers, read off their bit patterns.

use vstd::prelude::*;

verus! {

/// Bit pattern of positive infinity in single precision.
pub const INFINITY: u32 = 0x7f80_0000;

/// Bit pattern of negative infinity in single precision.
pub const NEG_INFINITY: u32 = 0xff80_0000;

/// Bit pattern of positive infinity in double precision.
pub const INFINITY_DOUBLE: u64 = 0x7ff0_0000_0000_0000;

/// The bit pattern without its sign bit.
pub open spec fn magnitude(bits: u32) -> int {
    bits as int % 0x8000_0000
}

/// Whether a single-precision pattern is not a number.
pub open spec fn is_nan(bits: u32) -> bool {
    magnitude(bits) > INFINITY
}

/// Place of a single-precision number on an integer scale: numbers compare as
/// their places do, both zeros share place 0, and patterns that are no numbers
/// stand beyond positive infinity.
pub open spec fn place(bits: u32) -> int {
    if is_nan(bits) {
        INFINITY + 1
    } else if bits >= 0x8000_0000 {
        -magnitude(bits)
    } else {
        magnitude(bits)
    }
}

/// `a < b` in single precision: false whenever either side is not a number.
pub open spec fn less(a: u32, b: u32) -> bool {
    !is_nan(a) && !is_nan(b) && place(a) < place(b)
}

/// `a <= b` in single precision: false whenever either side is not a number.
pub open spec fn less_or_equal(a: u32, b: u32) -> bool {
    !is_nan(a) && !is_nan(b) && place(a) <= place(b)
}

/// The place of a single-precision number (see [`place`]).
pub fn place_of(bits: u32) -> (r: i64)
    ensures
        r == place(bits),
{
    let negative: bool = bits >= 0x8000_0000;
    let mag: u32 = if negative {
        bits - 0x8000_0000
    } else {
        bits
    };
    if mag > INFINITY {
        INFINITY as i64 + 1
    } else if negative {
        -(mag as i64)
    } else {
        mag as i64
    }
}

/// Whether a single-precision pattern is not a number.
pub fn nan(bits: u32) -> (r: bool)
    ensures
        r == is_nan(bits),
{
    bits % 0x8000_0000 > INFINITY
}

/// `a < b` on single-precision bit patterns.
pub fn lt(a: u32, b: u32) -> (r: bool)
    ensures
        r == less(a, b),
{
    !nan(a) && !nan(b) && place_of(a) < place_of(b)
}

/// `a <= b` on single-precision bit patterns.
pub fn le(a: u32, b: u32) -> (r: bool)
    ensures
        r == less_or_equal(a, b),
{
    !nan(a) && !nan(b) && place_of(a) <= place_of(b)
}

/// The double-precision bit pattern without its sign bit.
pub open spec fn magnitude_double(bits: u64) -> int {
    bits as int % 0x8000_0000_0000_0000
}

/// Whether a double-precision pattern is not a number.
pub open spec fn is_nan_double(bits: u64) -> bool {
    magnitude_double(bits) > INFINITY_DOUBLE
}

/// Place of a double-precision number on an integer scale, as [`place`].
pub open spec fn place_double(bits: u64) -> int {
    if is_nan_double(bits) {
        INFINITY_DOUBLE + 1
    } else if bits >= 0x8000_0000_0000_0000 {
        -magnitude_double(bits)
    } else {
        magnitude_double(bits)
    }
}

/// `a <= b` in double precision: false whenever either side is not a number.
pub open spec fn less_or_equal_double(a: u64, b: u64) -> bool {
    !is_nan_double(a) && !is_nan_double(b) && place_double(a) <= place_double(b)
}

/// `a <= b` on double-precision bit patterns.
pub fn le_double(a: u64, b: u64) -> (r: bool)
    ensures
        r == less_or_equal_double(a, b),
{
    let a_mag: u64 = a % 0x8000_0000_0000_0000;
    let b_mag: u64 = b % 0x8000_0000_0000_0000;
    if a_mag > INFINITY_DOUBLE || b_mag > INFINITY_DOUBLE {
        false
    } else if a >= 0x8000_0000_0000_0000 {
        b < 0x8000_0000_0000_0000 || b_mag <= a_mag
    } else {
        if b >= 0x8000_0000_0000_0000 {
            a_mag == 0 && b_mag == 0
        } else {
            a_mag <= b_mag
        }
    }
}

} // verus!
