//! Comparison of IEEE floating-point numbers by their bits.

use vstd::prelude::*;

verus! {

/// The bits of a single-precision number that is not a number.
pub open spec fn is_nan(bits: u32) -> bool {
    bits as int % 0x8000_0000 > 0x7F80_0000
}

/// A number by which bits that are no NaN order as the numbers do: the magnitude with its sign.
pub open spec fn signed_magnitude(bits: u32) -> int {
    if bits < 0x8000_0000 {
        bits as int
    } else {
        -(bits - 0x8000_0000)
    }
}

/// `a < b` on single-precision numbers: false if either is a NaN, and zeros are equal.
pub open spec fn less(a: u32, b: u32) -> bool {
    !is_nan(a) && !is_nan(b) && signed_magnitude(a) < signed_magnitude(b)
}

/// Decides `a < b` on single-precision numbers given by their bits.
pub fn less_than(a: u32, b: u32) -> (r: bool)
    ensures
        r == less(a, b),
{
    if a % 0x8000_0000 > 0x7F80_0000 || b % 0x8000_0000 > 0x7F80_0000 {
        return false;
    }
    let x: i64 = if a < 0x8000_0000 {
        a as i64
    } else {
        -((a - 0x8000_0000) as i64)
    };
    let y: i64 = if b < 0x8000_0000 {
        b as i64
    } else {
        -((b - 0x8000_0000) as i64)
    };
    x < y
}

/// A number by which single-precision bits are in the total order: negative NaNs, negative
/// numbers from the largest magnitude down, positive numbers, positive NaNs.
pub open spec fn total_order_32(bits: u32) -> int {
    if bits < 0x8000_0000 {
        bits as int
    } else {
        0x7FFF_FFFF - bits
    }
}

/// A number by which double-precision bits are in the total order.
pub open spec fn total_order_64(bits: u64) -> int {
    if bits < 0x8000_0000_0000_0000 {
        bits as int
    } else {
        0x7FFF_FFFF_FFFF_FFFF - bits
    }
}

/// The place of single-precision bits in the total order.
pub fn total_order_key_32(bits: u32) -> (key: i64)
    ensures
        key == total_order_32(bits),
{
    if bits < 0x8000_0000 {
        bits as i64
    } else {
        0x7FFF_FFFF - bits as i64
    }
}

/// The single-precision bits at a place in the total order.
pub fn bits_of_total_order_32(key: i64) -> (bits: u32)
    requires
        -0x8000_0000 <= key < 0x8000_0000,
    ensures
        total_order_32(bits) == key,
{
    if key >= 0 {
        key as u32
    } else {
        (0x7FFF_FFFF - key) as u32
    }
}

/// The place of double-precision bits in the total order.
pub fn total_order_key_64(bits: u64) -> (key: i64)
    ensures
        key == total_order_64(bits),
{
    if bits < 0x8000_0000_0000_0000 {
        bits as i64
    } else {
        // 2^63 - 1 - bits, within the range of i64
        -((bits - 0x8000_0000_0000_0000) as i64) - 1
    }
}

/// The bits of a number with its sign changed.
pub fn negate_32(bits: u32) -> (r: u32)
    ensures
        r as int == (if bits < 0x8000_0000 {
            bits + 0x8000_0000
        } else {
            bits - 0x8000_0000
        }),
{
    if bits < 0x8000_0000 {
        bits + 0x8000_0000
    } else {
        bits - 0x8000_0000
    }
}

/// Different bits have different places in the total order.
pub proof fn total_order_is_injective(a: u32, b: u32)
    requires
        total_order_32(a) == total_order_32(b),
    ensures
        a == b,
{
}

/// On numbers other than NaNs and zeros, the total order is the order of the numbers.
pub proof fn total_order_extends_less(a: u32, b: u32)
    requires
        less(a, b),
    ensures
        total_order_32(a) < total_order_32(b),
{
}

/// Changing signs reverses the total order.
pub proof fn negation_reverses_total_order(a: u32, b: u32, minus_a: u32, minus_b: u32)
    requires
        minus_a as int == (if a < 0x8000_0000 {
            a + 0x8000_0000
        } else {
            a - 0x8000_0000
        }),
        minus_b as int == (if b < 0x8000_0000 {
            b + 0x8000_0000
        } else {
            b - 0x8000_0000
        }),
        total_order_32(a) < total_order_32(b),
    ensures
        total_order_32(minus_b) < total_order_32(minus_a),
{
}

/// A double-precision number below zero: its sign is set, and it is neither zero nor a NaN.
pub open spec fn below_zero_64(bits: u64) -> bool {
    0x8000_0000_0000_0000 < bits <= 0xFFF0_0000_0000_0000
}

/// Whether a double-precision number is below zero.
pub fn is_below_zero_64(bits: u64) -> (r: bool)
    ensures
        r == below_zero_64(bits),
{
    0x8000_0000_0000_0000 < bits && bits <= 0xFFF0_0000_0000_0000
}

/// The double-precision bits at a place in the total order.
pub fn bits_of_total_order_64(key: i64) -> (bits: u64)
    ensures
        total_order_64(bits) == key,
{
    if key >= 0 {
        key as u64
    } else {
        // 2^63 - 1 - key, within the range of u64
        0x8000_0000_0000_0000 + (-(key + 1)) as u64
    }
}

/// Changing the sign mirrors the place in the total order.
pub proof fn negation_mirrors_total_order(bits: u32, minus: u32)
    requires
        minus as int == (if bits < 0x8000_0000 {
            bits + 0x8000_0000
        } else {
            bits - 0x8000_0000
        }),
    ensures
        total_order_32(minus) == -1 - total_order_32(bits),
{
}

/// The total order of single-precision numbers, read off their bits: what has the sign set comes
/// before what has not; of two with the sign, the one of larger magnitude; of two without it, the
/// one of smaller magnitude.
pub proof fn total_order_32_goes_by_sign_and_magnitude(a: u32, b: u32)
    ensures
        a < 0x8000_0000 && b < 0x8000_0000 ==> (total_order_32(a) < total_order_32(b) <==> a < b),
        a >= 0x8000_0000 && b >= 0x8000_0000 ==> (total_order_32(a) < total_order_32(b) <==> b < a),
        a >= 0x8000_0000 && b < 0x8000_0000 ==> total_order_32(a) < total_order_32(b),
        total_order_32(a) == total_order_32(b) ==> a == b,
        -0x8000_0000 <= total_order_32(a) < 0x8000_0000,
{
}

/// The total order of double-precision numbers, read off their bits.
pub proof fn total_order_64_goes_by_sign_and_magnitude(a: u64, b: u64)
    ensures
        a < 0x8000_0000_0000_0000 && b < 0x8000_0000_0000_0000 ==> (total_order_64(a)
            < total_order_64(b) <==> a < b),
        a >= 0x8000_0000_0000_0000 && b >= 0x8000_0000_0000_0000 ==> (total_order_64(a)
            < total_order_64(b) <==> b < a),
        a >= 0x8000_0000_0000_0000 && b < 0x8000_0000_0000_0000 ==> total_order_64(a)
            < total_order_64(b),
        total_order_64(a) == total_order_64(b) ==> a == b,
        -0x8000_0000_0000_0000 <= total_order_64(a) < 0x8000_0000_0000_0000,
{
}

/// Changing the sign of a double-precision number mirrors its place in the total order.
pub proof fn negation_mirrors_total_order_64(bits: u64, minus: u64)
    requires
        minus as int == (if bits < 0x8000_0000_0000_0000 {
            bits + 0x8000_0000_0000_0000
        } else {
            bits - 0x8000_0000_0000_0000
        }),
    ensures
        total_order_64(minus) == -1 - total_order_64(bits),
{
}

/// `<` on single-precision numbers, read off their bits. What lies past the bits of infinity, with
/// the sign or without it, is no number and less than nothing; zeros are equal, whatever their sign.
pub proof fn less_goes_by_sign_and_magnitude(a: u32, b: u32)
    ensures
        0x7F80_0000 < a < 0x8000_0000 || a > 0xFF80_0000 ==> !less(a, b) && !less(b, a),
        a <= 0x7F80_0000 && b <= 0x7F80_0000 ==> (less(a, b) <==> a < b),
        0x8000_0000 <= a <= 0xFF80_0000 && 0x8000_0000 <= b <= 0xFF80_0000 ==> (less(a, b) <==> b
            < a),
        0x8000_0000 <= a <= 0xFF80_0000 && b <= 0x7F80_0000 ==> (less(a, b) <==> a != 0x8000_0000
            || b != 0),
        0x8000_0000 <= a <= 0xFF80_0000 && b <= 0x7F80_0000 ==> !less(b, a),
        is_nan(a) <==> (0x7F80_0000 < a < 0x8000_0000 || a > 0xFF80_0000),
{
}

/// A double-precision number is below zero where its sign is set and its magnitude lies between
/// zero, left out, and infinity.
pub proof fn numbers_below_zero_have_a_sign_and_a_magnitude(bits: u64)
    ensures
        below_zero_64(bits) <==> bits >= 0x8000_0000_0000_0000 && 0 < bits - 0x8000_0000_0000_0000
            <= 0x7FF0_0000_0000_0000,
{
}

} // verus!
