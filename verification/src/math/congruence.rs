//! Congruence of integers modulo a positive modulus.

use vstd::arithmetic::div_mod::*;
use vstd::prelude::*;

verus! {

/// `a` and `b` leave the same remainder modulo `m`.
pub open spec fn congruent(a: int, b: int, m: int) -> bool {
    (a - b) % m == 0
}

/// Congruence is the same as having one remainder.
pub proof fn lemma_congruent_iff_same_remainder(a: int, b: int, m: int)
    requires
        m > 0,
    ensures
        congruent(a, b, m) <==> a % m == b % m,
{
    lemma_mod_equivalence(a, b, m);
}

/// Numbers that differ by a multiple of the modulus are congruent.
pub proof fn lemma_congruent_by_multiple(a: int, b: int, k: int, m: int)
    requires
        m > 0,
        a - b == k * m,
    ensures
        congruent(a, b, m),
{
    lemma_mod_multiples_basic(k, m);
}

/// A number is congruent to its remainder.
pub proof fn lemma_congruent_remainder(a: int, m: int)
    requires
        m > 0,
    ensures
        congruent(a % m, a, m),
{
    lemma_mod_twice(a, m);
    lemma_congruent_iff_same_remainder(a % m, a, m);
}

/// Congruence is symmetric and transitive.
pub proof fn lemma_congruent_chain(a: int, b: int, c: int, m: int)
    requires
        m > 0,
        congruent(a, b, m),
        congruent(b, c, m),
    ensures
        congruent(a, c, m),
        congruent(b, a, m),
{
    lemma_congruent_iff_same_remainder(a, b, m);
    lemma_congruent_iff_same_remainder(b, c, m);
    lemma_congruent_iff_same_remainder(a, c, m);
    lemma_congruent_iff_same_remainder(b, a, m);
}

/// Congruences may be added and subtracted.
pub proof fn lemma_congruent_sum(a: int, b: int, c: int, d: int, m: int)
    requires
        m > 0,
        congruent(a, b, m),
        congruent(c, d, m),
    ensures
        congruent(a + c, b + d, m),
        congruent(a - c, b - d, m),
{
    let k = (a - b) / m;
    let l = (c - d) / m;
    lemma_fundamental_div_mod(a - b, m);
    lemma_fundamental_div_mod(c - d, m);
    assert(a + c - (b + d) == (k + l) * m) by (nonlinear_arith)
        requires
            a - b == m * k,
            c - d == m * l,
    ;
    assert(a - c - (b - d) == (k - l) * m) by (nonlinear_arith)
        requires
            a - b == m * k,
            c - d == m * l,
    ;
    lemma_congruent_by_multiple(a + c, b + d, k + l, m);
    lemma_congruent_by_multiple(a - c, b - d, k - l, m);
}

/// Congruences may be multiplied.
pub proof fn lemma_congruent_product(a: int, b: int, c: int, d: int, m: int)
    requires
        m > 0,
        congruent(a, b, m),
        congruent(c, d, m),
    ensures
        congruent(a * c, b * d, m),
{
    let k = (a - b) / m;
    let l = (c - d) / m;
    lemma_fundamental_div_mod(a - b, m);
    lemma_fundamental_div_mod(c - d, m);
    assert(a * c - b * d == (k * c + b * l) * m) by (nonlinear_arith)
        requires
            a - b == m * k,
            c - d == m * l,
    ;
    lemma_congruent_by_multiple(a * c, b * d, k * c + b * l, m);
}

/// The remainder is the only number in range that is congruent.
pub proof fn lemma_remainder_unique(r: int, a: int, m: int)
    requires
        0 <= r < m,
        congruent(r, a, m),
    ensures
        r == a % m,
{
    lemma_congruent_iff_same_remainder(r, a, m);
    lemma_small_mod(r as nat, m as nat);
}

/// Congruent numbers differ by a multiple of the modulus, and numbers that do are congruent.
pub proof fn congruent_numbers_differ_by_multiples(a: int, b: int, m: int)
    requires
        m > 0,
    ensures
        congruent(a, b, m) <==> exists|k: int| a - b == #[trigger] (k * m),
{
    if congruent(a, b, m) {
        lemma_fundamental_div_mod(a - b, m);
        let k = (a - b) / m;
        assert(m * k == k * m) by (nonlinear_arith);
        assert(a - b == k * m);
    }
    if exists|k: int| a - b == #[trigger] (k * m) {
        let k = choose|k: int| a - b == #[trigger] (k * m);
        lemma_congruent_by_multiple(a, b, k, m);
    }
}

} // verus!
