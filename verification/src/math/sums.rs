//! Finite sums of integers.

use vstd::prelude::*;

use crate::math::congruence;

verus! {

/// `f(0) + f(1) + .. + f(n - 1)`; zero where `n` is not positive.
pub open spec fn sum(n: int, f: spec_fn(int) -> int) -> int
    decreases n,
{
    if n <= 0 {
        0
    } else {
        sum(n - 1, f) + f(n - 1)
    }
}

/// Sums of terms that agree are equal.
pub proof fn lemma_sum_same(n: int, f: spec_fn(int) -> int, g: spec_fn(int) -> int)
    requires
        forall|i: int| 0 <= i < n ==> #[trigger] f(i) == g(i),
    ensures
        sum(n, f) == sum(n, g),
    decreases n,
{
    if n > 0 {
        lemma_sum_same(n - 1, f, g);
    }
}

/// A sum of zeros is zero.
pub proof fn lemma_sum_zero(n: int, f: spec_fn(int) -> int)
    requires
        forall|i: int| 0 <= i < n ==> #[trigger] f(i) == 0,
    ensures
        sum(n, f) == 0,
    decreases n,
{
    if n > 0 {
        lemma_sum_zero(n - 1, f);
    }
}

/// Sums may be added and subtracted term by term.
pub proof fn lemma_sum_add(n: int, f: spec_fn(int) -> int, g: spec_fn(int) -> int)
    ensures
        sum(n, |i: int| f(i) + g(i)) == sum(n, f) + sum(n, g),
        sum(n, |i: int| f(i) - g(i)) == sum(n, f) - sum(n, g),
    decreases n,
{
    if n > 0 {
        lemma_sum_add(n - 1, f, g);
    }
}

/// A common factor may be taken out of a sum.
pub proof fn lemma_sum_scale(n: int, c: int, f: spec_fn(int) -> int)
    ensures
        sum(n, |i: int| c * f(i)) == c * sum(n, f),
    decreases n,
{
    if n > 0 {
        lemma_sum_scale(n - 1, c, f);
        assert(c * (sum(n - 1, f) + f(n - 1)) == c * sum(n - 1, f) + c * f(n - 1))
            by (nonlinear_arith);
    } else {
        assert(c * 0 == 0) by (nonlinear_arith);
    }
}

/// A double sum may be taken in either order.
pub proof fn lemma_sum_swap(n: int, k: int, f: spec_fn(int, int) -> int)
    ensures
        sum(n, |i: int| sum(k, |j: int| f(i, j))) == sum(k, |j: int| sum(n, |i: int| f(i, j))),
    decreases n,
{
    let by_row = |i: int| sum(k, |j: int| f(i, j));
    let by_column = |j: int| sum(n, |i: int| f(i, j));
    if n > 0 {
        lemma_sum_swap(n - 1, k, f);
        let shorter = |j: int| sum(n - 1, |i: int| f(i, j));
        let last = |j: int| f(n - 1, j);
        lemma_sum_add(k, shorter, last);
        let split = |j: int| shorter(j) + last(j);
        lemma_sum_same(k, by_column, split);
        assert(by_row(n - 1) == sum(k, last)) by {
            lemma_sum_same(k, |j: int| f(n - 1, j), last);
        }
    } else {
        lemma_sum_zero(k, by_column);
    }
}

/// A sum may be cut in two.
pub proof fn lemma_sum_cut(n: int, k: int, f: spec_fn(int) -> int)
    requires
        0 <= n,
        0 <= k,
    ensures
        sum(n + k, f) == sum(n, f) + sum(k, |i: int| f(n + i)),
    decreases k,
{
    if k > 0 {
        lemma_sum_cut(n, k - 1, f);
    }
}

/// A sum over `s * b` terms may be taken in `s` blocks of `b` terms.
pub proof fn lemma_sum_blocks(s: int, b: int, f: spec_fn(int) -> int)
    requires
        0 <= s,
        0 <= b,
    ensures
        sum(s * b, f) == sum(s, |k: int| sum(b, |t: int| f(k * b + t))),
    decreases s,
{
    let block = |k: int| sum(b, |t: int| f(k * b + t));
    if s > 0 {
        lemma_sum_blocks(s - 1, b, f);
        assert(s * b == (s - 1) * b + b) by (nonlinear_arith);
        assert(0 <= (s - 1) * b) by (nonlinear_arith)
            requires
                s > 0,
                0 <= b,
        ;
        lemma_sum_cut((s - 1) * b, b, f);
        lemma_sum_same(b, |i: int| f((s - 1) * b + i), |t: int| f((s - 1) * b + t));
        assert(block(s - 1) == sum(b, |t: int| f((s - 1) * b + t)));
    } else {
        assert(s * b == 0) by (nonlinear_arith)
            requires
                s == 0,
        ;
    }
}

/// A sum with one term that is not zero is that term.
pub proof fn lemma_sum_single(n: int, at: int, f: spec_fn(int) -> int)
    requires
        0 <= at < n,
        forall|i: int| 0 <= i < n && i != at ==> #[trigger] f(i) == 0,
    ensures
        sum(n, f) == f(at),
    decreases n,
{
    if at == n - 1 {
        lemma_sum_zero(n - 1, f);
    } else {
        lemma_sum_single(n - 1, at, f);
        assert(f(n - 1) == 0);
    }
}

/// Sums of congruent terms are congruent.
pub proof fn lemma_sum_congruent(n: int, f: spec_fn(int) -> int, g: spec_fn(int) -> int, m: int)
    requires
        m > 0,
        forall|i: int| 0 <= i < n ==> congruence::congruent(#[trigger] f(i), g(i), m),
    ensures
        congruence::congruent(sum(n, f), sum(n, g), m),
    decreases n,
{
    if n > 0 {
        lemma_sum_congruent(n - 1, f, g, m);
        assert(congruence::congruent(f(n - 1), g(n - 1), m));
        congruence::lemma_congruent_sum(sum(n - 1, f), sum(n - 1, g), f(n - 1), g(n - 1), m);
    } else {
        congruence::lemma_congruent_by_multiple(0, 0, 0, m);
    }
}

/// A sum lies between as many lower bounds and as many upper bounds.
pub proof fn lemma_sum_bounds(n: int, lo: int, hi: int, f: spec_fn(int) -> int)
    requires
        0 <= n,
        forall|i: int| 0 <= i < n ==> lo <= #[trigger] f(i) <= hi,
    ensures
        n * lo <= sum(n, f) <= n * hi,
    decreases n,
{
    if n > 0 {
        lemma_sum_bounds(n - 1, lo, hi, f);
        assert(lo <= f(n - 1) <= hi);
        assert(n * lo == (n - 1) * lo + lo) by (nonlinear_arith);
        assert(n * hi == (n - 1) * hi + hi) by (nonlinear_arith);
    } else {
        assert(0 * lo == 0) by (nonlinear_arith);
        assert(0 * hi == 0) by (nonlinear_arith);
    }
}

/// The sum of `count` products `a[a_from + t * a_step] * b[b_from + t * b_step]`.
pub open spec fn strided_dot(
    a: Seq<u64>,
    a_from: int,
    a_step: int,
    b: Seq<u64>,
    b_from: int,
    b_step: int,
    count: int,
) -> int {
    sum(count, |t: int| a[a_from + t * a_step] * b[b_from + t * b_step])
}

/// A sum takes every one of its terms: it is what folding `+` over the sequence of all terms gives.
pub proof fn sums_take_every_term(n: nat, f: spec_fn(int) -> int)
    ensures
        sum(n as int, f) == Seq::new(n, f).fold_left(0int, |total: int, term: int| total + term),
    decreases n,
{
    let terms = Seq::new(n, f);
    if n > 0 {
        sums_take_every_term((n - 1) as nat, f);
        assert(terms.drop_last() =~= Seq::new((n - 1) as nat, f));
    }
}

/// A dot product of two sequences pairs their elements place by place.
pub proof fn dot_products_pair_elements(a: Seq<u64>, b: Seq<u64>, n: nat)
    requires
        n <= a.len(),
        n <= b.len(),
    ensures
        strided_dot(a, 0, 1, b, 0, 1, n as int) == Seq::new(n, |t: int| a[t] * b[t]).fold_left(
            0int,
            |total: int, term: int| total + term,
        ),
{
    let f = |t: int| a[t] * b[t];
    sums_take_every_term(n, f);
    lemma_sum_same(n as int, |t: int| a[0 + t * 1] * b[0 + t * 1], f);
}

} // verus!
