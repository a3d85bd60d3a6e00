//! Arithmetic modulo the Mersenne prime `P = 2^61 - 1`.

use vstd::prelude::*;

use crate::emvp::params::P;
use crate::math::congruence;

verus! {

/// Folds `x` once at bit 61 and takes off at most one `P`: the remainder of `x`.
pub fn fp_reduce(x: u128) -> (r: u64)
    requires
        x < P as u128 * 0x2000_0000_0000_0000,
    ensures
        r == x as int % P as int,
{
    let lo: u64 = (x & 0x1FFF_FFFF_FFFF_FFFF) as u64;
    let hi: u64 = (x >> 61) as u64;
    assert(x & 0x1FFF_FFFF_FFFF_FFFF == x % 0x2000_0000_0000_0000u128) by (bit_vector);
    assert(x >> 61 == x / 0x2000_0000_0000_0000u128) by (bit_vector);
    let v: u64 = lo + hi;
    proof {
        let h = x as int / 0x2000_0000_0000_0000;
        assert(x == h * 0x2000_0000_0000_0000 + lo);
        assert(h < P);
        congruence::lemma_congruent_by_multiple(x as int, v as int, h, P as int);
        congruence::lemma_congruent_iff_same_remainder(x as int, v as int, P as int);
    }
    if v >= P {
        v - P
    } else {
        v
    }
}

/// `a + b` in the field.
pub fn fp_add(a: u64, b: u64) -> (r: u64)
    requires
        a < P,
        b < P,
    ensures
        r == (a + b) % P as int,
{
    let v: u64 = a + b;
    if v >= P {
        v - P
    } else {
        v
    }
}

/// `a * b` in the field.
pub fn fp_mul(a: u64, b: u64) -> (r: u64)
    requires
        a < P,
        b < P,
    ensures
        r == (a * b) % P as int,
{
    assert(0 <= a * b <= 0x1FFF_FFFF_FFFF_FFFE * 0x1FFF_FFFF_FFFF_FFFE) by (nonlinear_arith)
        requires
            a <= 0x1FFF_FFFF_FFFF_FFFE,
            b <= 0x1FFF_FFFF_FFFF_FFFE,
    ;
    fp_reduce(a as u128 * b as u128)
}

/// `-a` in the field.
pub fn fp_neg(a: u64) -> (r: u64)
    requires
        a < P,
    ensures
        r == (-a) % P as int,
{
    if a == 0 {
        0
    } else {
        P - a
    }
}

/// The field element of a signed integer: its remainder modulo `P`.
///
/// The integer is a vector component that was scaled by `Q` and rounded.
pub fn quantize(scaled: i64) -> (r: u64)
    ensures
        r == scaled as int % P as int,
        r < P,
{
    if scaled >= 0 {
        scaled as u64 % P
    } else {
        // -(scaled + 1) is in range also where -scaled is not
        let below: u64 = (-(scaled + 1)) as u64;
        let r: u64 = P - 1 - below % P;
        proof {
            let k = below as int / P as int;
            assert(below == k * P + below % P);
            assert(scaled - r == (-k - 1) * P) by (nonlinear_arith)
                requires
                    below == k * P + below as int % P as int,
                    r == P - 1 - below as int % P as int,
                    scaled == -below - 1,
            ;
            congruence::lemma_congruent_by_multiple(scaled as int, r as int, -k - 1, P as int);
            congruence::lemma_congruent_iff_same_remainder(scaled as int, r as int, P as int);
        }
        r
    }
}

/// The integer closest to zero that a field element stands for.
pub open spec fn centred(v: int) -> int {
    if v > P / 2 {
        v - P
    } else {
        v
    }
}

/// Reads a field element as a signed integer.
///
/// A score is this integer divided by `Q * Q`.
pub fn decode_field(v: u64) -> (r: i64)
    requires
        v < P,
    ensures
        r == centred(v as int),
{
    if v > P / 2 {
        v as i64 - P as i64
    } else {
        v as i64
    }
}

/// An integer of absolute value at most `P / 2` is what its field element stands for.
pub proof fn decode_inverts_quantize(x: int)
    requires
        -(P / 2) <= x <= P / 2,
    ensures
        centred(x % P as int) == x,
{
    if x >= 0 {
        assert(x % P as int == x) by (nonlinear_arith)
            requires
                0 <= x < P,
        ;
    } else {
        congruence::lemma_congruent_by_multiple(x + P, x, 1, P as int);
        congruence::lemma_remainder_unique(x + P, x, P as int);
    }
}

/// What a field element stands for lies within half the field and is congruent to it.
pub proof fn centred_numbers_are_congruent(x: int)
    ensures
        -(P / 2) <= centred(x % P as int) <= P / 2,
        congruence::congruent(centred(x % P as int), x, P as int),
{
    let r = x % P as int;
    congruence::lemma_congruent_remainder(x, P as int);
    congruence::lemma_congruent_by_multiple(
        centred(r),
        r,
        if r > P / 2 {
            -1
        } else {
            0
        },
        P as int,
    );
    congruence::lemma_congruent_chain(centred(r), r, x, P as int);
}

} // verus!
