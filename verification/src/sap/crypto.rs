//! Nonces, and the seeds that perturbations are drawn from.

use vstd::prelude::*;

use crate::prng;
use crate::prng::{chacha20_u8s, expand_seed};

verus! {

/// A key: a scale, as the bits of a double-precision number, and the key of the perturbations.
#[derive(Clone, Copy)]
pub struct SapKey {
    /// The bits of the scale.
    pub s: u64,
    /// The key of the perturbations.
    pub prf_key: [u8; 32],
}

/// The nonce of a row: the first bytes of the stream of the seed, changed by the row's number.
pub open spec fn nonce_of(base_seed: u64, number: u64) -> Seq<u8> {
    Seq::new(16, |i: int| prng::chacha20_u8(prng::expanded_seed(base_seed ^ number), i as nat))
}

/// Derives the nonce of a row.
pub fn derive_nonce(base_seed: u64, number: u64) -> (nonce: [u8; 16])
    ensures
        nonce@ == nonce_of(base_seed, number),
{
    let drawn: Vec<u8> = chacha20_u8s(&expand_seed(base_seed ^ number), 16);
    let mut nonce: [u8; 16] = [0u8; 16];
    for i in 0..16
        invariant
            drawn@.len() == 16,
            forall|j: int| 0 <= j < i ==> #[trigger] nonce@[j] == drawn@[j],
    {
        nonce[i] = drawn[i];
    }
    assert(nonce@ =~= nonce_of(base_seed, number));
    nonce
}

/// The seed of a perturbation: the nonce is mixed into both halves of the key.
pub open spec fn seed_of(prf_key: Seq<u8>, nonce: Seq<u8>) -> Seq<u8> {
    Seq::new(32, |i: int| prf_key[i] ^ nonce[i % 16])
}

/// The seed of the generator that a perturbation is drawn from.
pub fn prf_seed(prf_key: &[u8; 32], nonce: &[u8; 16]) -> (seed: [u8; 32])
    ensures
        seed@ == seed_of(prf_key@, nonce@),
{
    let mut seed: [u8; 32] = *prf_key;
    for i in 0..16
        invariant
            forall|j: int| 0 <= j < i ==> #[trigger] seed@[j] == prf_key@[j] ^ nonce@[j],
            forall|j: int|
                16 <= j < 16 + i ==> #[trigger] seed@[j] == prf_key@[j] ^ nonce@[j - 16],
            forall|j: int| i <= j < 16 ==> #[trigger] seed@[j] == prf_key@[j],
            forall|j: int| 16 + i <= j < 32 ==> #[trigger] seed@[j] == prf_key@[j],
    {
        let low: u8 = seed[i] ^ nonce[i];
        seed[i] = low;
        let high: u8 = seed[i + 16] ^ nonce[i];
        seed[i + 16] = high;
    }
    assert(seed@ =~= seed_of(prf_key@, nonce@));
    seed
}

/// Under one key, different nonces give different seeds.
pub proof fn nonces_give_distinct_seeds(prf_key: Seq<u8>, nonce: Seq<u8>, other: Seq<u8>)
    requires
        prf_key.len() == 32,
        nonce.len() == 16,
        other.len() == 16,
        nonce != other,
    ensures
        seed_of(prf_key, nonce) != seed_of(prf_key, other),
{
    if seed_of(prf_key, nonce) == seed_of(prf_key, other) {
        assert forall|i: int| 0 <= i < 16 implies nonce[i] == other[i] by {
            assert(seed_of(prf_key, nonce)[i] == seed_of(prf_key, other)[i]);
            let k = prf_key[i];
            let a = nonce[i];
            let b = other[i];
            assert(a == b) by (bit_vector)
                requires
                    k ^ a == k ^ b,
            ;
        }
        assert(nonce =~= other);
    }
}

/// Under one nonce, different keys give different seeds.
pub proof fn keys_give_distinct_seeds(prf_key: Seq<u8>, other: Seq<u8>, nonce: Seq<u8>)
    requires
        prf_key.len() == 32,
        other.len() == 32,
        nonce.len() == 16,
        prf_key != other,
    ensures
        seed_of(prf_key, nonce) != seed_of(other, nonce),
{
    if seed_of(prf_key, nonce) == seed_of(other, nonce) {
        assert forall|i: int| 0 <= i < 32 implies prf_key[i] == other[i] by {
            assert(seed_of(prf_key, nonce)[i] == seed_of(other, nonce)[i]);
            let a = prf_key[i];
            let b = other[i];
            let n = nonce[i % 16];
            assert(a == b) by (bit_vector)
                requires
                    a ^ n == b ^ n,
            ;
        }
        assert(prf_key =~= other);
    }
}

/// A nonce takes its bytes from the stream of the seed changed by the row's number, so that rows of
/// one upload draw from the streams of different seeds.
pub proof fn nonces_are_drawn_by_number(base_seed: u64, number: u64, other: u64)
    ensures
        nonce_of(base_seed, number).len() == 16,
        forall|i: int|
            0 <= i < 16 ==> (#[trigger] nonce_of(base_seed, number)[i]) as int
                == prng::chacha20_word(
                prng::expanded_seed(base_seed ^ number),
                i as nat,
            ) as int % 256,
        number != other ==> base_seed ^ number != base_seed ^ other,
{
    assert(number != other ==> base_seed ^ number != base_seed ^ other) by (bit_vector);
}

/// The seed of a perturbation with the nonce taken off both halves again is the key.
pub proof fn nonces_come_off_seeds(prf_key: Seq<u8>, nonce: Seq<u8>, i: int)
    requires
        prf_key.len() == 32,
        nonce.len() == 16,
        0 <= i < 16,
    ensures
        seed_of(prf_key, nonce).len() == 32,
        seed_of(prf_key, nonce)[i] ^ nonce[i] == prf_key[i],
        seed_of(prf_key, nonce)[16 + i] ^ nonce[i] == prf_key[16 + i],
{
    let (k, l, n) = (prf_key[i], prf_key[16 + i], nonce[i]);
    assert((k ^ n) ^ n == k) by (bit_vector);
    assert((l ^ n) ^ n == l) by (bit_vector);
}

} // verus!
