//! Vector components as residues modulo `P`.
//!
//! A component is multiplied with the magnitude `2^q - 1` and rounded; the result is clamped to
//! `[-(2^q - 1), 2^q - 1]` and reduced modulo `P`. A component that is not a finite number has no
//! such result.

use vstd::arithmetic::power2::pow2;
use vstd::prelude::*;

use crate::math::congruence;
use crate::math::sums;

verus! {

/// Why a vector cannot be encoded.
#[derive(Debug, Clone, Copy, PartialEq, Eq, Structural)]
pub enum EncodingError {
    /// The magnitude does not fit below half the plaintext modulus `2^log2_p`.
    QuantisationOverflow { q: u8, log2_p: u8 },
    /// A component is not a finite number.
    NonFinite { index: usize },
}

/// The largest magnitude, `2^q - 1`.
pub open spec fn magnitude(q: u8) -> int {
    pow2(q as nat) - 1
}

/// Computes the largest magnitude, `2^q - 1`.
pub fn max_magnitude(quantisation_bits: u8) -> (r: i32)
    requires
        quantisation_bits <= 30,
    ensures
        r == magnitude(quantisation_bits),
        0 <= r,
{
    let shift: u32 = quantisation_bits as u32;
    proof {
        lemma_magnitude(quantisation_bits);
        vstd::bits::lemma_u32_shl_is_mul(1, shift);
    }
    let power: u32 = 1u32 << shift;
    (power - 1) as i32
}

/// The magnitude of up to 30 bits is below `2^30`.
pub proof fn lemma_magnitude(q: u8)
    requires
        q <= 30,
    ensures
        0 <= magnitude(q) < 0x4000_0000,
{
    vstd::arithmetic::power2::lemma_pow2_pos(q as nat);
    vstd::arithmetic::power2::lemma2_to64();
    if q < 30 {
        vstd::arithmetic::power2::lemma_pow2_strictly_increases(q as nat, 30);
    }
}

/// Checks that the magnitude of `quantisation_bits` fits below half of `2^log2_p`.
pub fn validate_params(quantisation_bits: u8, log2_p: u8) -> (r: Result<(), EncodingError>)
    ensures
        r is Ok <==> log2_p != 0 && quantisation_bits < log2_p,
        r is Err ==> r == Err::<(), EncodingError>(
            EncodingError::QuantisationOverflow { q: quantisation_bits, log2_p },
        ),
{
    if log2_p == 0 || quantisation_bits >= log2_p {
        return Err(EncodingError::QuantisationOverflow { q: quantisation_bits, log2_p });
    }
    Ok(())
}

/// Inner products of `dim` components of `q` bits stay below half of `2^log2_p`.
pub open spec fn products_fit(q: u8, log2_p: u8, dim: int) -> bool {
    2 * pow2((2 * q) as nat) * dim < pow2(log2_p as nat)
}

/// How many components leave inner products small enough.
proof fn lemma_products_fit(q: u8, log2_p: u8, dim: int)
    requires
        0 <= dim,
    ensures
        dim == 0 ==> products_fit(q, log2_p, dim),
        dim > 0 && log2_p <= 2 * q + 1 ==> !products_fit(q, log2_p, dim),
        log2_p > 2 * q + 1 ==> (products_fit(q, log2_p, dim) <==> dim < pow2(
            (log2_p - (2 * q + 1)) as nat,
        )),
{
    let used = (2 * q + 1) as nat;
    let p = pow2(log2_p as nat) as int;
    let x = pow2(used) as int;
    vstd::arithmetic::power2::lemma_pow2_unfold(used);
    vstd::arithmetic::power2::lemma_pow2_pos(used);
    vstd::arithmetic::power2::lemma_pow2_pos(log2_p as nat);
    assert(2 * pow2((2 * q) as nat) * dim == x * dim);
    if log2_p <= used {
        if (log2_p as nat) < used {
            vstd::arithmetic::power2::lemma_pow2_strictly_increases(log2_p as nat, used);
        }
        assert(dim > 0 ==> x <= x * dim) by (nonlinear_arith)
            requires
                0 < x,
        ;
        assert(x * 0 == 0);
    } else {
        let rest = (log2_p - used) as nat;
        let y = pow2(rest) as int;
        vstd::arithmetic::power2::lemma_pow2_adds(used, rest);
        assert(p == x * y);
        assert(x * dim < x * y <==> dim < y) by (nonlinear_arith)
            requires
                0 < x,
        ;
        vstd::arithmetic::power2::lemma_pow2_pos(rest);
    }
}

/// Checks that inner products of `dim` components stay below half of `2^log2_p`.
pub fn validate_products(quantisation_bits: u8, log2_p: u8, dim: usize) -> (r: Result<
    (),
    EncodingError,
>)
    ensures
        r is Ok <==> products_fit(quantisation_bits, log2_p, dim as int),
        r is Err ==> r == Err::<(), EncodingError>(
            EncodingError::QuantisationOverflow { q: quantisation_bits, log2_p },
        ),
{
    let used: u32 = 2 * quantisation_bits as u32 + 1;
    let has: u32 = log2_p as u32;
    proof {
        lemma_products_fit(quantisation_bits, log2_p, dim as int);
        if has > used {
            let rest = (has - used) as nat;
            if rest >= 64 {
                vstd::arithmetic::power2::lemma2_to64_rest();
                if rest > 64 {
                    vstd::arithmetic::power2::lemma_pow2_strictly_increases(64, rest);
                }
            } else {
                vstd::bits::lemma_u64_pow2_no_overflow(rest);
                vstd::bits::lemma_u64_shl_is_mul(1, rest as u64);
            }
        }
    }
    if dim == 0 {
        return Ok(());
    }
    if has > used && (has - used >= 64 || (dim as u64) < 1u64 << (has - used) as u64) {
        Ok(())
    } else {
        Err(EncodingError::QuantisationOverflow { q: quantisation_bits, log2_p })
    }
}

/// Valid parameters leave the magnitude below half the plaintext modulus.
pub proof fn valid_magnitudes_fit(q: u8, log2_p: u8)
    requires
        log2_p != 0,
        q < log2_p,
    ensures
        2 * magnitude(q) < pow2(log2_p as nat),
{
    let half = (log2_p - 1) as nat;
    vstd::arithmetic::power2::lemma_pow2_unfold(log2_p as nat);
    if (q as nat) < half {
        vstd::arithmetic::power2::lemma_pow2_strictly_increases(q as nat, half);
    }
}

/// A scaled component, clamped to the magnitude.
pub open spec fn clamped(scaled: int, q: u8) -> int {
    if scaled < -magnitude(q) {
        -magnitude(q)
    } else if scaled > magnitude(q) {
        magnitude(q)
    } else {
        scaled
    }
}

/// The residue of a scaled component.
pub open spec fn quantised(scaled: int, q: u8, p: u64) -> u64 {
    (clamped(scaled, q) % p as int) as u64
}

/// The residue modulo `p` of a component that was scaled with the magnitude and rounded.
pub fn quantise_component(scaled: i64, quantisation_bits: u8, p: u64) -> (r: u64)
    requires
        quantisation_bits <= 30,
        0 < p,
    ensures
        r == quantised(scaled as int, quantisation_bits, p),
        r < p,
{
    proof {
        lemma_magnitude(quantisation_bits);
    }
    let mag: i64 = max_magnitude(quantisation_bits) as i64;
    let clamped: i64 = if scaled < -mag {
        -mag
    } else if scaled > mag {
        mag
    } else {
        scaled
    };
    if clamped >= 0 {
        clamped as u64 % p
    } else {
        let below: u64 = (-clamped - 1) as u64;
        let r: u64 = p - 1 - below % p;
        proof {
            let k = below as int / p as int;
            vstd::arithmetic::div_mod::lemma_fundamental_div_mod(below as int, p as int);
            assert(clamped - r == (-k - 1) * p) by (nonlinear_arith)
                requires
                    below == p * k + below as int % p as int,
                    r == p - 1 - below as int % p as int,
                    clamped == -below - 1,
            ;
            congruence::lemma_congruent_by_multiple(clamped as int, r as int, -k - 1, p as int);
            congruence::lemma_congruent_iff_same_remainder(clamped as int, r as int, p as int);
            congruence::lemma_congruent_remainder(r as int, p as int);
            vstd::arithmetic::div_mod::lemma_small_mod(r as nat, p as nat);
        }
        r
    }
}

/// The first component that is not a finite number, or the length.
pub open spec fn first_non_finite(v: Seq<Option<i64>>) -> int
    decreases v.len(),
{
    if v.len() == 0 {
        0
    } else if first_non_finite(v.drop_last()) < v.len() - 1 {
        first_non_finite(v.drop_last())
    } else if v.last() is None {
        v.len() - 1
    } else {
        v.len() as int
    }
}

/// Where the first component that is not finite stands.
pub proof fn lemma_first_non_finite(v: Seq<Option<i64>>)
    ensures
        0 <= first_non_finite(v) <= v.len(),
        forall|i: int| 0 <= i < first_non_finite(v) ==> (#[trigger] v[i]) is Some,
        first_non_finite(v) < v.len() ==> v[first_non_finite(v)] is None,
    decreases v.len(),
{
    if v.len() > 0 {
        lemma_first_non_finite(v.drop_last());
        assert forall|i: int| 0 <= i < first_non_finite(v) implies (#[trigger] v[i]) is Some by {
            if i < v.len() - 1 {
                assert(v[i] == v.drop_last()[i]);
            }
        }
        if first_non_finite(v.drop_last()) < v.len() - 1 {
            assert(v[first_non_finite(v)] == v.drop_last()[first_non_finite(v)]);
        }
    }
}

/// A vector without a component that is not finite has none.
pub proof fn lemma_first_non_finite_is(v: Seq<Option<i64>>, at: int)
    requires
        0 <= at <= v.len(),
        forall|i: int| 0 <= i < at ==> (#[trigger] v[i]) is Some,
        at < v.len() ==> v[at] is None,
    ensures
        first_non_finite(v) == at,
{
    lemma_first_non_finite(v);
    if first_non_finite(v) < at {
        assert(v[first_non_finite(v)] is Some);
    }
    if at < first_non_finite(v) {
        assert(v[at] is Some);
    }
}

/// The residues of a vector of finite components.
pub open spec fn encoded(v: Seq<Option<i64>>, q: u8, p: u64) -> Seq<u64> {
    Seq::new(v.len(), |i: int| quantised(v[i]->Some_0 as int, q, p))
}

/// Encodes a vector of scaled components into `out`, up to the first that is not finite.
pub fn encode_vector(
    v: &[Option<i64>],
    quantisation_bits: u8,
    p: u64,
    out: &mut [u64],
) -> (r: Result<(), EncodingError>)
    requires
        quantisation_bits <= 30,
        0 < p,
        v@.len() == old(out)@.len(),
    ensures
        final(out)@.len() == old(out)@.len(),
        r is Ok <==> first_non_finite(v@) == v@.len(),
        r is Ok ==> final(out)@ == encoded(v@, quantisation_bits, p),
        r matches Err(e) ==> e == (EncodingError::NonFinite {
            index: first_non_finite(v@) as usize,
        }),
        forall|i: int|
            0 <= i < first_non_finite(v@) ==> #[trigger] final(out)@[i] == quantised(
                v@[i]->Some_0 as int,
                quantisation_bits,
                p,
            ),
        forall|i: int|
            first_non_finite(v@) <= i < v@.len() ==> #[trigger] final(out)@[i] == old(out)@[i],
{
    for i in 0..v.len()
        invariant
            quantisation_bits <= 30,
            0 < p,
            v@.len() == out@.len(),
            out@.len() == old(out)@.len(),
            forall|j: int| 0 <= j < i ==> (#[trigger] v@[j]) is Some,
            forall|j: int|
                0 <= j < i ==> #[trigger] out@[j] == quantised(
                    v@[j]->Some_0 as int,
                    quantisation_bits,
                    p,
                ),
            forall|j: int| i <= j < v@.len() ==> #[trigger] out@[j] == old(out)@[j],
    {
        match v[i] {
            None => {
                proof {
                    lemma_first_non_finite_is(v@, i as int);
                }
                return Err(EncodingError::NonFinite { index: i });
            },
            Some(scaled) => {
                out[i] = quantise_component(scaled, quantisation_bits, p);
            },
        }
    }
    proof {
        lemma_first_non_finite_is(v@, v@.len() as int);
        assert(out@ =~= encoded(v@, quantisation_bits, p));
    }
    Ok(())
}

/// The integer that a residue stands for: residues from half the modulus on are negative.
pub open spec fn signed_slot(z: int, p: int) -> int {
    if z >= p / 2 {
        z - p
    } else {
        z
    }
}

/// Reads a residue as a signed integer: the component times the magnitude.
pub fn dequantise_component(z: u64, p: u64) -> (r: i64)
    requires
        z < p,
        p <= i64::MAX,
    ensures
        r == signed_slot(z as int, p as int),
{
    if z >= p / 2 {
        z as i64 - p as i64
    } else {
        z as i64
    }
}

/// Reading a residue undoes encoding: within the magnitude, the scaled component comes back.
pub proof fn dequantising_inverts_quantising(scaled: int, q: u8, log2_p: u8, p: u64)
    requires
        log2_p != 0,
        q < log2_p,
        p == pow2(log2_p as nat),
        -magnitude(q) <= scaled <= magnitude(q),
    ensures
        signed_slot(quantised(scaled, q, p) as int, p as int) == scaled,
{
    valid_magnitudes_fit(q, log2_p);
    vstd::arithmetic::power2::lemma_pow2_unfold(log2_p as nat);
    vstd::arithmetic::power2::lemma_pow2_pos((log2_p - 1) as nat);
    let m = p as int;
    if scaled >= 0 {
        congruence::lemma_congruent_by_multiple(scaled, scaled, 0, m);
        congruence::lemma_remainder_unique(scaled, scaled, m);
    } else {
        congruence::lemma_congruent_by_multiple(scaled + m, scaled, 1, m);
        congruence::lemma_remainder_unique(scaled + m, scaled, m);
    }
}

/// Inner products may be taken of residues: modulo `p`, the inner product of two encoded vectors
/// is the inner product of the clamped components.
pub proof fn encoded_inner_products_agree(
    a: Seq<Option<i64>>,
    b: Seq<Option<i64>>,
    q: u8,
    p: u64,
)
    requires
        0 < p,
        a.len() == b.len(),
    ensures
        congruence::congruent(
            sums::sum(a.len() as int, |i: int| encoded(a, q, p)[i] * encoded(b, q, p)[i]),
            sums::sum(
                a.len() as int,
                |i: int| clamped(a[i]->Some_0 as int, q) * clamped(b[i]->Some_0 as int, q),
            ),
            p as int,
        ),
{
    let n = a.len() as int;
    let m = p as int;
    let residues = |i: int| encoded(a, q, p)[i] * encoded(b, q, p)[i];
    let signed = |i: int| clamped(a[i]->Some_0 as int, q) * clamped(b[i]->Some_0 as int, q);
    assert forall|i: int| 0 <= i < n implies congruence::congruent(
        #[trigger] residues(i),
        signed(i),
        m,
    ) by {
        let x = clamped(a[i]->Some_0 as int, q);
        let y = clamped(b[i]->Some_0 as int, q);
        congruence::lemma_congruent_remainder(x, m);
        congruence::lemma_congruent_remainder(y, m);
        congruence::lemma_congruent_product(x % m, x, y % m, y, m);
    }
    sums::lemma_sum_congruent(n, residues, signed, m);
    sums::lemma_sum_same(n, residues, |i: int| encoded(a, q, p)[i] * encoded(b, q, p)[i]);
    sums::lemma_sum_same(
        n,
        signed,
        |i: int| clamped(a[i]->Some_0 as int, q) * clamped(b[i]->Some_0 as int, q),
    );
}

/// Magnitudes are runs of one bits: one bit more doubles the magnitude and adds one.
pub proof fn magnitudes_are_runs_of_ones(q: u8)
    requires
        q < 255,
    ensures
        magnitude(0) == 0,
        magnitude((q + 1) as u8) == 2 * magnitude(q) + 1,
{
    vstd::arithmetic::power2::lemma2_to64();
    vstd::arithmetic::power2::lemma_pow2_unfold((q + 1) as nat);
}

/// Clamping leaves numbers within the magnitude as they are and takes others to the nearest end.
pub proof fn clamping_goes_to_the_nearest_end(scaled: int, q: u8)
    ensures
        -(pow2(q as nat) - 1) <= clamped(scaled, q) <= pow2(q as nat) - 1,
        -(pow2(q as nat) - 1) <= scaled <= pow2(q as nat) - 1 ==> clamped(scaled, q) == scaled,
        scaled > pow2(q as nat) - 1 ==> clamped(scaled, q) == pow2(q as nat) - 1,
        scaled < -(pow2(q as nat) - 1) ==> clamped(scaled, q) == -(pow2(q as nat) - 1),
{
    vstd::arithmetic::power2::lemma_pow2_pos(q as nat);
}

/// The residues of a vector stand place by place, one for each component: below the modulus, and
/// congruent to the component, or to the nearer end of the magnitude's range where the component is
/// outside of it.
pub proof fn residues_stand_for_their_components(v: Seq<Option<i64>>, q: u8, p: u64, i: int)
    requires
        0 < p,
        0 <= i < v.len(),
        v[i] is Some,
    ensures
        encoded(v, q, p).len() == v.len(),
        encoded(v, q, p)[i] < p,
        ({
            let most = pow2(q as nat) - 1;
            let component = v[i]->Some_0 as int;
            congruence::congruent(
                encoded(v, q, p)[i] as int,
                if component > most {
                    most
                } else if component < -most {
                    -most
                } else {
                    component
                },
                p as int,
            )
        }),
{
    let component = v[i]->Some_0 as int;
    clamping_goes_to_the_nearest_end(component, q);
    congruence::lemma_congruent_remainder(clamped(component, q), p as int);
}

/// What is accepted and what is not: inner products of components of `q` bits, each at most `2^q` in
/// size, stay below half of `2^log2_p`.
pub proof fn accepted_dimensions_leave_room(q: u8, log2_p: u8, dim: nat)
    ensures
        products_fit(q, log2_p, dim as int) <==> dim * (pow2(q as nat) * pow2(q as nat)) * 2
            < pow2(log2_p as nat),
{
    vstd::arithmetic::power2::lemma_pow2_adds(q as nat, q as nat);
    assert((2 * q) as nat == (q as nat + q as nat) as nat);
    let x = pow2((2 * q) as nat) as int;
    assert(2 * x * dim == dim * x * 2) by (nonlinear_arith);
}

/// Residues are read as the integers of half the modulus to either side of zero.
pub proof fn slots_are_read_around_zero(x: int, p: int)
    requires
        0 < p,
        p % 2 == 0,
        -(p / 2) <= x < p / 2,
    ensures
        signed_slot(x % p, p) == x,
{
    if x < 0 {
        vstd::arithmetic::div_mod::lemma_fundamental_div_mod_converse(x, p, -1, x + p);
    } else {
        vstd::arithmetic::div_mod::lemma_small_mod(x as nat, p as nat);
    }
}

} // verus!
