//! Arithmetic modulo `2^64`.

use vstd::prelude::*;

use crate::math::congruence;
use crate::math::sums;

verus! {

/// The number of 64-bit values.
pub open spec fn modulus() -> int {
    0x1_0000_0000_0000_0000
}

/// The 64-bit value of an integer: its remainder modulo `2^64`.
pub open spec fn wrap(x: int) -> u64 {
    (x % modulus()) as u64
}

/// Wrapping is congruent, and congruent integers wrap to one value.
pub proof fn lemma_wrap(x: int, y: int)
    ensures
        congruence::congruent(wrap(x) as int, x, modulus()),
        congruence::congruent(x, y, modulus()) <==> wrap(x) == wrap(y),
{
    congruence::lemma_congruent_remainder(x, modulus());
    congruence::lemma_congruent_iff_same_remainder(x, y, modulus());
}

/// `a + b` of wrapped values.
pub fn plus(a: u64, b: u64) -> (r: u64)
    ensures
        r == wrap(a + b),
{
    let r: u64 = a.wrapping_add(b);
    proof {
        if a + b > u64::MAX {
            congruence::lemma_congruent_by_multiple(a + b - modulus(), (a + b) as int, -1, modulus());
            congruence::lemma_remainder_unique(r as int, (a + b) as int, modulus());
        }
    }
    r
}

/// `a - b` of wrapped values.
pub fn minus(a: u64, b: u64) -> (r: u64)
    ensures
        r == wrap(a - b),
{
    let r: u64 = a.wrapping_sub(b);
    proof {
        if a < b {
            congruence::lemma_congruent_by_multiple(a - b + modulus(), a - b, 1, modulus());
            congruence::lemma_remainder_unique(r as int, a - b, modulus());
        }
    }
    r
}

/// `a * b` of wrapped values.
pub fn times(a: u64, b: u64) -> (r: u64)
    ensures
        r == wrap(a * b),
{
    a.wrapping_mul(b)
}

/// The 64-bit value of a signed number.
pub fn from_signed(x: i64) -> (r: u64)
    ensures
        r == wrap(x as int),
{
    if x >= 0 {
        x as u64
    } else {
        // -(x + 1) is in range also where -x is not
        let r: u64 = u64::MAX - (-(x + 1)) as u64;
        proof {
            congruence::lemma_congruent_by_multiple(r as int, x as int, 1, modulus());
            congruence::lemma_remainder_unique(r as int, x as int, modulus());
        }
        r
    }
}

/// The products of two strided runs of numbers, summed modulo `2^64`.
pub fn dot(
    a: &[u64],
    a_from: usize,
    a_step: usize,
    b: &[u64],
    b_from: usize,
    b_step: usize,
    count: usize,
) -> (r: u64)
    requires
        count > 0 ==> a_from + (count - 1) * a_step < a@.len(),
        count > 0 ==> b_from + (count - 1) * b_step < b@.len(),
    ensures
        r == wrap(
            sums::strided_dot(
                a@,
                a_from as int,
                a_step as int,
                b@,
                b_from as int,
                b_step as int,
                count as int,
            ),
        ),
{
    let ghost f = |t: int| a@[a_from + t * a_step] * b@[b_from + t * b_step];
    let mut acc: u64 = 0;
    for t in 0..count
        invariant
            a.len() == a@.len(),
            b.len() == b@.len(),
            count > 0 ==> a_from + (count - 1) * a_step < a@.len(),
            count > 0 ==> b_from + (count - 1) * b_step < b@.len(),
            f == (|t: int| a@[a_from + t * a_step] * b@[b_from + t * b_step]),
            acc == wrap(sums::sum(t as int, f)),
    {
        assert(0 <= t * a_step <= (count - 1) * a_step) by (nonlinear_arith)
            requires
                0 <= t <= count - 1,
                0 <= a_step,
        ;
        assert(0 <= t * b_step <= (count - 1) * b_step) by (nonlinear_arith)
            requires
                0 <= t <= count - 1,
                0 <= b_step,
        ;
        let x: u64 = a[a_from + t * a_step];
        let y: u64 = b[b_from + t * b_step];
        proof {
            lemma_wrap_step(sums::sum(t as int, f), x as int, y as int);
            assert(sums::sum(t + 1, f) == sums::sum(t as int, f) + f(t as int));
        }
        acc = plus(acc, times(x, y));
    }
    acc
}

/// One more product on a wrapped sum.
pub proof fn lemma_wrap_step(before: int, x: int, y: int)
    ensures
        wrap(wrap(before) + wrap(x * y)) == wrap(before + x * y),
{
    lemma_wrap(before, 0);
    lemma_wrap(x * y, 0);
    congruence::lemma_congruent_sum(
        wrap(before) as int,
        before,
        wrap(x * y) as int,
        x * y,
        modulus(),
    );
    lemma_wrap(wrap(before) + wrap(x * y), before + x * y);
}

/// A 64-bit value wraps to itself.
pub proof fn lemma_small(x: int)
    requires
        0 <= x < modulus(),
    ensures
        wrap(x) == x,
{
    congruence::lemma_remainder_unique(x, x, modulus());
}

/// A number more than a wrapped number wraps as that number more.
pub proof fn lemma_wrap_more(x: int, y: int)
    ensures
        wrap(wrap(x) + y) == wrap(x + y),
{
    lemma_wrap(x, 0);
    congruence::lemma_congruent_by_multiple(y, y, 0, modulus());
    congruence::lemma_congruent_sum(wrap(x) as int, x, y, y, modulus());
    lemma_wrap(wrap(x) + y, x + y);
}

/// Wrapping takes off a multiple of `2^64` and leaves numbers below `2^64` as they are.
pub proof fn wrapping_takes_off_multiples(x: int) -> (k: int)
    ensures
        x == wrap(x) + k * 0x1_0000_0000_0000_0000,
        0 <= x < 0x1_0000_0000_0000_0000 ==> wrap(x) == x,
{
    vstd::arithmetic::div_mod::lemma_fundamental_div_mod(x, modulus());
    assert(modulus() * (x / modulus()) == (x / modulus()) * modulus()) by (nonlinear_arith);
    x / modulus()
}

} // verus!
