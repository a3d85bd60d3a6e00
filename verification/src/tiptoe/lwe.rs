//! Regev encryption with the ciphertext modulus `2^64`.

use rand::rngs::ChaCha20Rng;
use rand::RngExt;
use rand::SeedableRng;
use vstd::arithmetic::power2::pow2;
use vstd::prelude::*;

use crate::math::congruence;
use crate::math::layout;
use crate::math::sums;
use crate::math::wrapping;

verus! {

/// Encryption parameters. The plaintext modulus is the power of two `2^log2_p`.
#[derive(Debug, Clone, Copy, PartialEq, Eq, Structural)]
pub struct Params {
    /// Length of a secret.
    pub n: usize,
    /// Logarithm of the plaintext modulus; from 1 to 63.
    pub log2_p: u8,
    /// Standard deviation of the noise, as the bits of a double-precision number.
    pub sigma_bits: u64,
}

impl Params {
    /// The logarithm of the plaintext modulus is in range.
    pub open spec fn valid(self) -> bool {
        1 <= self.log2_p <= 63
    }

    /// The plaintext modulus.
    pub open spec fn plaintext_modulus(self) -> int {
        pow2(self.log2_p as nat) as int
    }

    /// The distance between neighbouring encoded plaintexts.
    pub open spec fn spacing(self) -> int {
        pow2((64 - self.log2_p) as nat) as int
    }

    /// The plaintext whose encoding is nearest to `x`.
    pub open spec fn nearest(self, x: int) -> u64 {
        (((x + self.spacing() / 2) / self.spacing()) % self.plaintext_modulus()) as u64
    }

    /// The parameters for text search: `n = 2048`, `P = 2^17` and a deviation of 81920.
    pub fn tiptoe_text() -> (params: Self)
        ensures
            params == (Params { n: 2048, log2_p: 17, sigma_bits: 0x40F4_0000_0000_0000 }),
            params.valid(),
            params.plaintext_modulus() == 0x2_0000,
            params.spacing() == 0x8000_0000_0000,
    {
        proof {
            vstd::arithmetic::power2::lemma2_to64();
            vstd::arithmetic::power2::lemma2_to64_rest();
        }
        Params { n: 2048, log2_p: 17, sigma_bits: 0x40F4_0000_0000_0000 }
    }

    /// The plaintext modulus and the spacing multiply to `2^64`, and the spacing is even.
    pub proof fn lemma_moduli(self)
        requires
            self.valid(),
        ensures
            self.plaintext_modulus() * self.spacing() == wrapping::modulus(),
            self.spacing() == 2 * (self.spacing() / 2),
            0 < self.spacing() <= 0x8000_0000_0000_0000,
            0 < self.plaintext_modulus() <= 0x8000_0000_0000_0000,
    {
        let e = self.log2_p as nat;
        let g = (64 - self.log2_p) as nat;
        vstd::arithmetic::power2::lemma_pow2_adds(e, g);
        vstd::arithmetic::power2::lemma2_to64_rest();
        vstd::arithmetic::power2::lemma_pow2_pos(e);
        vstd::arithmetic::power2::lemma_pow2_pos(g);
        vstd::arithmetic::power2::lemma_pow2_unfold(g);
        vstd::arithmetic::power2::lemma_pow2_unfold(e);
        assert(pow2(64) == wrapping::modulus()) by {
            vstd::arithmetic::power2::lemma2_to64();
        }
        if e < 63 {
            vstd::arithmetic::power2::lemma_pow2_strictly_increases(e, 63);
        }
        if g < 63 {
            vstd::arithmetic::power2::lemma_pow2_strictly_increases(g, 63);
        }
    }

    /// A nearest plaintext is below the plaintext modulus.
    pub proof fn lemma_nearest_in_range(self, x: int)
        requires
            self.valid(),
        ensures
            self.nearest(x) < self.plaintext_modulus(),
    {
        self.lemma_moduli();
        let q = (x + self.spacing() / 2) / self.spacing();
        vstd::arithmetic::div_mod::lemma_mod_bound(q, self.plaintext_modulus());
    }

    /// The plaintext modulus `P = 2^log2_p`.
    pub fn p(&self) -> (r: u64)
        requires
            self.valid(),
        ensures
            r == self.plaintext_modulus(),
    {
        proof {
            self.lemma_moduli();
            vstd::bits::lemma_u64_shl_is_mul(1, self.log2_p as u64);
        }
        1u64 << (self.log2_p as u64)
    }

    /// The spacing of encoded plaintexts, `2^64 / P`.
    pub fn delta(&self) -> (r: u64)
        requires
            self.valid(),
        ensures
            r == self.spacing(),
    {
        let shift: u64 = 64 - self.log2_p as u64;
        proof {
            self.lemma_moduli();
            vstd::bits::lemma_u64_shl_is_mul(1, shift);
        }
        1u64 << shift
    }

    /// Rounds to the nearest encoded plaintext. A value just below `2^64` rounds to zero.
    pub fn round(&self, x: u64) -> (r: u64)
        requires
            self.valid(),
        ensures
            r == self.nearest(x as int),
            r < self.plaintext_modulus(),
    {
        let delta: u64 = self.delta();
        let p: u64 = self.p();
        proof {
            self.lemma_moduli();
        }
        let shifted: u64 = wrapping::plus(x, delta / 2);
        let v: u64 = shifted / delta;
        proof {
            let exact = x + delta / 2;
            if exact > u64::MAX {
                assert(shifted == exact - wrapping::modulus()) by {
                    congruence::lemma_congruent_by_multiple(
                        exact - wrapping::modulus(),
                        exact as int,
                        -1,
                        wrapping::modulus(),
                    );
                    congruence::lemma_remainder_unique(
                        exact - wrapping::modulus(),
                        exact as int,
                        wrapping::modulus(),
                    );
                }
                assert(exact == delta * p + shifted) by (nonlinear_arith)
                    requires
                        exact == shifted + wrapping::modulus(),
                        p * delta == wrapping::modulus(),
                ;
                vstd::arithmetic::div_mod::lemma_hoist_over_denominator(
                    shifted as int,
                    p as int,
                    delta as nat,
                );
                assert(p * delta == delta * p) by (nonlinear_arith);
                assert(exact as int / delta as int == v + p);
                congruence::lemma_congruent_by_multiple(v + p, v as int, 1, p as int);
                congruence::lemma_congruent_iff_same_remainder(v + p, v as int, p as int);
            }
        }
        v % p
    }
}

/// Noise of less than half the spacing does not change what is decrypted: an encoded plaintext
/// with such noise rounds to the plaintext.
pub proof fn rounding_removes_noise(params: Params, message: int, noise: int)
    requires
        params.valid(),
        -(params.spacing() / 2) <= noise < params.spacing() / 2,
    ensures
        params.nearest(wrapping::wrap(params.spacing() * message + noise) as int)
            == message % params.plaintext_modulus(),
{
    params.lemma_moduli();
    let d = params.spacing();
    let p = params.plaintext_modulus();
    let exact = d * message + noise;
    let x = wrapping::wrap(exact) as int;
    let k = exact / wrapping::modulus();
    vstd::arithmetic::div_mod::lemma_fundamental_div_mod(exact, wrapping::modulus());
    // x + d / 2 == d * (message - p * k) + (noise + d / 2)
    let q = message - p * k;
    let rest = noise + d / 2;
    assert(x + d / 2 == q * d + rest) by (nonlinear_arith)
        requires
            exact == d * message + noise,
            exact == wrapping::modulus() * k + x,
            p * d == wrapping::modulus(),
            q == message - p * k,
            rest == noise + d / 2,
    ;
    vstd::arithmetic::div_mod::lemma_fundamental_div_mod_converse(x + d / 2, d, q, rest);
    assert(q - message == (-k) * p) by (nonlinear_arith)
        requires
            q == message - p * k,
    ;
    congruence::lemma_congruent_by_multiple(q, message, -k, p);
    congruence::lemma_congruent_iff_same_remainder(q, message, p);
}

/// A generator of pseudorandom numbers.
#[verifier::external_type_specification]
#[verifier::external_body]
pub struct ExChaCha20Rng(rand::rngs::ChaCha20Rng);

/// A secret vector. A fresh one has entries 0, 1 and 2.
#[derive(Clone)]
pub struct SecretKey {
    entries: Vec<u8>,
}

impl View for SecretKey {
    type V = Seq<u8>;

    closed spec fn view(&self) -> Seq<u8> {
        self.entries@
    }
}

impl SecretKey {
    /// The number of entries.
    pub fn len(&self) -> (r: usize)
        ensures
            r == self@.len(),
    {
        self.entries.len()
    }

    /// There are no entries.
    pub fn is_empty(&self) -> (r: bool)
        ensures
            r == (self@.len() == 0),
    {
        self.entries.len() == 0
    }

    /// The entries.
    pub fn as_slice(&self) -> (r: &[u8])
        ensures
            r@ == self@,
    {
        self.entries.as_slice()
    }

    /// The key with given entries.
    pub fn from_entries(entries: Vec<u8>) -> (key: Self)
        ensures
            key@ == entries@,
    {
        SecretKey { entries }
    }

    /// The entries as 64-bit numbers.
    fn widened(&self) -> (r: Vec<u64>)
        ensures
            r@ == wide(self@),
    {
        let n: usize = self.entries.len();
        let mut r: Vec<u64> = Vec::with_capacity(n);
        for i in 0..n
            invariant
                n == self@.len(),
                n == self.entries@.len(),
                self@ == self.entries@,
                r@.len() == i,
                forall|j: int| 0 <= j < i ==> r@[j] == self@[j] as u64,
        {
            r.push(self.entries[i] as u64);
        }
        assert(r@ =~= wide(self@));
        r
    }
}

/// The entries of a secret as 64-bit numbers.
pub open spec fn wide(entries: Seq<u8>) -> Seq<u64> {
    entries.map_values(|e: u8| e as u64)
}

/// The number below three that a generator hands out next, and the generator after that.
pub uninterp spec fn ternary_drawn(rng: ChaCha20Rng) -> (u8, ChaCha20Rng);

/// The generator that is started with a 64-bit seed.
pub uninterp spec fn generator_started(seed: u64) -> ChaCha20Rng;

/// The generator after `n` draws.
pub open spec fn after_draws(rng: ChaCha20Rng, n: nat) -> ChaCha20Rng
    decreases n,
{
    if n == 0 {
        rng
    } else {
        ternary_drawn(after_draws(rng, (n - 1) as nat)).1
    }
}

/// The first `n` draws of a generator.
pub open spec fn ternary_draws(rng: ChaCha20Rng, n: nat) -> Seq<u8> {
    Seq::new(n, |i: int| ternary_drawn(after_draws(rng, i as nat)).0)
}

/// Draws 0, 1 or 2.
///
/// Calls `RngExt::random_range` on `0..3`. Believed of it: the draw lies in the range, and the draw
/// and how the generator goes on depend on the generator alone.
#[verifier::external_body]
fn draw_ternary(rng: &mut ChaCha20Rng) -> (draw: u8)
    ensures
        draw < 3,
        (draw, *final(rng)) == ternary_drawn(*old(rng)),
{
    rng.random_range(0u8..3)
}

/// Draws a fresh secret of `n` entries, each 0, 1 or 2.
pub fn gen_secret(params: &Params, rng: &mut ChaCha20Rng) -> (key: SecretKey)
    ensures
        key@.len() == params.n,
        forall|i: int| 0 <= i < key@.len() ==> #[trigger] key@[i] <= 2,
        key@ == ternary_draws(*old(rng), params.n as nat),
        *final(rng) == after_draws(*old(rng), params.n as nat),
{
    let mut entries: Vec<u8> = Vec::with_capacity(params.n);
    for i in 0..params.n
        invariant
            entries@ == ternary_draws(*old(rng), i as nat),
            *rng == after_draws(*old(rng), i as nat),
            forall|j: int| 0 <= j < i ==> #[trigger] entries@[j] <= 2,
    {
        entries.push(draw_ternary(rng));
    }
    SecretKey::from_entries(entries)
}

/// A generator that is started with a 64-bit seed.
///
/// Calls `ChaCha20Rng::seed_from_u64`. Believed of it: the generator depends on the seed alone.
#[verifier::external_body]
fn seeded_generator(seed: u64) -> (rng: ChaCha20Rng)
    ensures
        rng == generator_started(seed),
{
    ChaCha20Rng::seed_from_u64(seed)
}

/// Draws a secret from a generator that is started with a seed. The generator is given back, so
/// that noise can be drawn from it.
pub fn secret_from_seed(params: &Params, seed: u64) -> (r: (SecretKey, ChaCha20Rng))
    ensures
        r.0@.len() == params.n,
        forall|i: int| 0 <= i < r.0@.len() ==> #[trigger] r.0@[i] <= 2,
        r.0@ == ternary_draws(generator_started(seed), params.n as nat),
        r.1 == after_draws(generator_started(seed), params.n as nat),
{
    let mut rng: ChaCha20Rng = seeded_generator(seed);
    let key: SecretKey = gen_secret(params, &mut rng);
    (key, rng)
}

/// Row `i` of a matrix with as many columns as the secret has entries, times the secret.
pub open spec fn row_times_secret(a: Seq<u64>, s: Seq<u8>, i: int) -> int {
    sums::strided_dot(a, i * s.len(), 1, wide(s), 0, 1, s.len() as int)
}

/// A matrix of `m` rows times the secret, modulo `2^64`.
pub open spec fn matrix_times_secret(a: Seq<u64>, s: Seq<u8>, m: int) -> Seq<u64> {
    Seq::new(m as nat, |i: int| wrapping::wrap(row_times_secret(a, s, i)))
}

/// Multiplies a row-major matrix of `m` rows with the secret, modulo `2^64`.
pub fn compute_a_s(a: &[u64], s: &SecretKey, m: usize) -> (out: Vec<u64>)
    requires
        a@.len() == m * s@.len(),
    ensures
        out@ == matrix_times_secret(a@, s@, m as int),
{
    let n: usize = s.len();
    let secret: Vec<u64> = s.widened();
    let mut out: Vec<u64> = Vec::with_capacity(m);
    for i in 0..m
        invariant
            n == s@.len(),
            secret@ == wide(s@),
            a@.len() == m * s@.len(),
            a.len() == a@.len(),
            out@.len() == i,
            forall|j: int| 0 <= j < i ==> out@[j] == wrapping::wrap(row_times_secret(a@, s@, j)),
    {
        proof {
            if n > 0 {
                layout::lemma_entry_in_range(i as int, n - 1, m as int, n as int);
            }
            assert(0 <= i * n <= m * n) by (nonlinear_arith)
                requires
                    0 <= i <= m,
                    0 <= n,
            ;
        }
        out.push(wrapping::dot(a, i * n, 1, &secret, 0, 1, n));
    }
    assert(out@ =~= matrix_times_secret(a@, s@, m as int));
    out
}

/// Component `i` of the ciphertext of a message: `A * s + e + delta * message`.
pub open spec fn ciphertext_entry(
    a: Seq<u64>,
    s: Seq<u8>,
    message: Seq<u64>,
    noise: Seq<i64>,
    params: Params,
    i: int,
) -> u64 {
    wrapping::wrap(
        row_times_secret(a, s, i) + noise[i] + params.spacing() * (message[i] as int
            % params.plaintext_modulus()),
    )
}

/// The ciphertext of a message under a matrix, a secret and a noise vector.
pub open spec fn ciphertext(
    a: Seq<u64>,
    s: Seq<u8>,
    message: Seq<u64>,
    noise: Seq<i64>,
    params: Params,
) -> Seq<u64> {
    Seq::new(message.len(), |i: int| ciphertext_entry(a, s, message, noise, params, i))
}

/// Adds noise and an encoded message to a product with the secret.
pub(crate) fn encrypt_component(a_s: u64, noise: i64, message: u64, params: &Params, Ghost(exact): Ghost<int>) -> (r: u64)
    requires
        params.valid(),
        a_s == wrapping::wrap(exact),
    ensures
        r == wrapping::wrap(
            exact + noise + params.spacing() * (message as int % params.plaintext_modulus()),
        ),
{
    proof {
        params.lemma_moduli();
    }
    let reduced: u64 = message % params.p();
    let encoded: u64 = wrapping::times(params.delta(), reduced);
    let e: u64 = wrapping::from_signed(noise);
    let r: u64 = wrapping::plus(wrapping::plus(a_s, e), encoded);
    proof {
        let q = wrapping::modulus();
        let plain = params.spacing() * reduced;
        wrapping::lemma_wrap(exact, 0);
        wrapping::lemma_wrap(noise as int, 0);
        wrapping::lemma_wrap(plain, 0);
        congruence::lemma_congruent_sum(a_s as int, exact, e as int, noise as int, q);
        let first = wrapping::wrap(a_s + e);
        wrapping::lemma_wrap(a_s + e, 0);
        congruence::lemma_congruent_chain(first as int, a_s + e, exact + noise, q);
        congruence::lemma_congruent_sum(
            first as int,
            exact + noise,
            encoded as int,
            plain,
            q,
        );
        wrapping::lemma_wrap(first + encoded, exact + noise + plain);
    }
    r
}

/// Encrypts a message of `m` numbers under an `m`-row matrix with the given noise.
pub fn encrypt_vec(
    s: &SecretKey,
    msg: &[u64],
    a: &[u64],
    params: &Params,
    noise: &[i64],
) -> (ct: Vec<u64>)
    requires
        params.valid(),
        a@.len() == msg@.len() * s@.len(),
        noise@.len() == msg@.len(),
    ensures
        ct@ == ciphertext(a@, s@, msg@, noise@, *params),
{
    let m: usize = msg.len();
    let a_s: Vec<u64> = compute_a_s(a, s, m);
    let mut ct: Vec<u64> = Vec::with_capacity(m);
    for i in 0..m
        invariant
            params.valid(),
            m == msg@.len(),
            noise@.len() == m,
            a_s@ == matrix_times_secret(a@, s@, m as int),
            ct@.len() == i,
            forall|j: int|
                0 <= j < i ==> ct@[j] == ciphertext_entry(a@, s@, msg@, noise@, *params, j),
    {
        let ghost exact = row_times_secret(a@, s@, i as int);
        ct.push(encrypt_component(a_s[i], noise[i], msg[i], params, Ghost(exact)));
    }
    assert(ct@ =~= ciphertext(a@, s@, msg@, noise@, *params));
    ct
}

/// What a ciphertext decrypts to when `a_s` is taken off.
pub open spec fn decryption(ct: Seq<u64>, a_s: Seq<u64>, params: Params) -> Seq<u64> {
    Seq::new(ct.len(), |i: int| params.nearest(wrapping::wrap(ct[i] - a_s[i]) as int))
}

/// Decrypts: takes the product with the secret off and rounds each component.
pub fn decrypt_vec(ct: &[u64], a_s: &[u64], params: &Params) -> (message: Vec<u64>)
    requires
        params.valid(),
        ct@.len() == a_s@.len(),
    ensures
        message@ == decryption(ct@, a_s@, *params),
{
    let m: usize = ct.len();
    let mut message: Vec<u64> = Vec::with_capacity(m);
    for i in 0..m
        invariant
            params.valid(),
            m == ct@.len(),
            ct@.len() == a_s@.len(),
            message@.len() == i,
            forall|j: int|
                0 <= j < i ==> message@[j] == params.nearest(
                    wrapping::wrap(ct@[j] - a_s@[j]) as int,
                ),
    {
        message.push(params.round(wrapping::minus(ct[i], a_s[i])));
    }
    assert(message@ =~= decryption(ct@, a_s@, *params));
    message
}

/// Decryption undoes encryption: with noise of less than half the spacing, each component
/// decrypts to the message modulo `P`.
pub proof fn decryption_inverts_encryption(
    a: Seq<u64>,
    s: Seq<u8>,
    message: Seq<u64>,
    noise: Seq<i64>,
    params: Params,
    i: int,
)
    requires
        params.valid(),
        a.len() == message.len() * s.len(),
        noise.len() == message.len(),
        0 <= i < message.len(),
        -(params.spacing() / 2) <= noise[i] < params.spacing() / 2,
    ensures
        decryption(
            ciphertext(a, s, message, noise, params),
            matrix_times_secret(a, s, message.len() as int),
            params,
        )[i] == message[i] as int % params.plaintext_modulus(),
{
    let q = wrapping::modulus();
    let exact = row_times_secret(a, s, i);
    let plain = message[i] as int % params.plaintext_modulus();
    let encoded = params.spacing() * plain + noise[i];
    let ct = ciphertext(a, s, message, noise, params)[i];
    let a_s = matrix_times_secret(a, s, message.len() as int)[i];
    wrapping::lemma_wrap(exact, 0);
    wrapping::lemma_wrap(exact + noise[i] + params.spacing() * plain, 0);
    congruence::lemma_congruent_sum(ct as int, exact + encoded, a_s as int, exact, q);
    wrapping::lemma_wrap(ct - a_s, encoded);
    rounding_removes_noise(params, plain, noise[i] as int);
    params.lemma_moduli();
    vstd::arithmetic::div_mod::lemma_mod_twice(message[i] as int, params.plaintext_modulus());
}

/// Ciphertexts under one matrix and one secret may be added: the sum decrypts, with twice the
/// product with the secret taken off, to the sum of the messages modulo `P`.
pub proof fn sums_of_ciphertexts_decrypt_to_sums(
    a: Seq<u64>,
    s: Seq<u8>,
    first: Seq<u64>,
    second: Seq<u64>,
    first_noise: Seq<i64>,
    second_noise: Seq<i64>,
    params: Params,
    i: int,
)
    requires
        params.valid(),
        first.len() == second.len(),
        a.len() == first.len() * s.len(),
        first_noise.len() == first.len(),
        second_noise.len() == first.len(),
        0 <= i < first.len(),
        -(params.spacing() / 2) <= first_noise[i] + second_noise[i] < params.spacing() / 2,
    ensures
        ({
            let ct1 = ciphertext(a, s, first, first_noise, params);
            let ct2 = ciphertext(a, s, second, second_noise, params);
            let a_s = matrix_times_secret(a, s, first.len() as int);
            let total = Seq::new(first.len(), |j: int| wrapping::wrap(ct1[j] + ct2[j]));
            let twice = Seq::new(first.len(), |j: int| wrapping::wrap(a_s[j] + a_s[j]));
            decryption(total, twice, params)[i] == (first[i] + second[i])
                % params.plaintext_modulus()
        }),
{
    let q = wrapping::modulus();
    let p = params.plaintext_modulus();
    params.lemma_moduli();
    let ct1 = ciphertext(a, s, first, first_noise, params)[i] as int;
    let ct2 = ciphertext(a, s, second, second_noise, params)[i] as int;
    let a_s = matrix_times_secret(a, s, first.len() as int)[i] as int;
    let exact = row_times_secret(a, s, i);
    let plain1 = first[i] as int % p;
    let plain2 = second[i] as int % p;
    let noise = first_noise[i] + second_noise[i];
    let full1 = exact + first_noise[i] + params.spacing() * plain1;
    let full2 = exact + second_noise[i] + params.spacing() * plain2;
    let encoded = params.spacing() * (plain1 + plain2) + noise;
    assert(full1 + full2 - (exact + exact) == encoded) by (nonlinear_arith)
        requires
            full1 == exact + first_noise[i] + params.spacing() * plain1,
            full2 == exact + second_noise[i] + params.spacing() * plain2,
            encoded == params.spacing() * (plain1 + plain2) + noise,
            noise == first_noise[i] + second_noise[i],
    ;
    wrapping::lemma_wrap(full1, 0);
    wrapping::lemma_wrap(full2, 0);
    wrapping::lemma_wrap(exact, 0);
    congruence::lemma_congruent_sum(ct1, full1, ct2, full2, q);
    congruence::lemma_congruent_sum(a_s, exact, a_s, exact, q);
    wrapping::lemma_wrap(ct1 + ct2, 0);
    wrapping::lemma_wrap(a_s + a_s, 0);
    let total = wrapping::wrap(ct1 + ct2) as int;
    let twice = wrapping::wrap(a_s + a_s) as int;
    congruence::lemma_congruent_chain(total, ct1 + ct2, full1 + full2, q);
    congruence::lemma_congruent_chain(twice, a_s + a_s, exact + exact, q);
    congruence::lemma_congruent_sum(total, full1 + full2, twice, exact + exact, q);
    wrapping::lemma_wrap(total - twice, encoded);
    rounding_removes_noise(params, plain1 + plain2, noise);
    congruence::lemma_congruent_remainder(first[i] as int, p);
    congruence::lemma_congruent_remainder(second[i] as int, p);
    congruence::lemma_congruent_sum(plain1, first[i] as int, plain2, second[i] as int, p);
    congruence::lemma_congruent_iff_same_remainder(
        plain1 + plain2,
        (first[i] + second[i]) as int,
        p,
    );
}

/// A matrix times a secret holds, for every row, the sum of the products of the row's numbers with
/// all entries of the secret, modulo `2^64`.
pub proof fn products_take_every_entry(a: Seq<u64>, s: Seq<u8>, m: nat, i: int)
    requires
        0 <= i < m,
    ensures
        matrix_times_secret(a, s, m as int).len() == m,
        congruence::congruent(
            matrix_times_secret(a, s, m as int)[i] as int,
            sums::sum(s.len() as int, |j: int| a[i * s.len() + j] * s[j]),
            0x1_0000_0000_0000_0000,
        ),
{
    let strided = |t: int| a[i * s.len() + t * 1] * wide(s)[0 + t * 1];
    let plain = |j: int| a[i * s.len() + j] * s[j];
    assert forall|t: int| 0 <= t < s.len() implies #[trigger] strided(t) == plain(t) by {
        assert(t * 1 == t);
        assert(wide(s)[t] == s[t]);
    }
    sums::lemma_sum_same(s.len() as int, strided, plain);
    wrapping::lemma_wrap(row_times_secret(a, s, i), 0);
}

/// A ciphertext has a number for every one of the message's. Each is the sum of the products of the
/// matrix's row with all entries of the secret, more by the noise and by the message modulo `P` times
/// `2^64 / P`, modulo `2^64`.
pub proof fn ciphertexts_hold_every_number(
    a: Seq<u64>,
    s: Seq<u8>,
    message: Seq<u64>,
    noise: Seq<i64>,
    params: Params,
    i: int,
)
    requires
        params.valid(),
        0 <= i < message.len(),
    ensures
        ciphertext(a, s, message, noise, params).len() == message.len(),
        congruence::congruent(
            ciphertext(a, s, message, noise, params)[i] as int,
            sums::sum(s.len() as int, |j: int| a[i * s.len() + j] * s[j]) + noise[i] + pow2(
                (64 - params.log2_p) as nat,
            ) * (message[i] as int % pow2(params.log2_p as nat) as int),
            0x1_0000_0000_0000_0000,
        ),
{
    let strided = |t: int| a[i * s.len() + t * 1] * wide(s)[0 + t * 1];
    let plain = |j: int| a[i * s.len() + j] * s[j];
    assert forall|t: int| 0 <= t < s.len() implies #[trigger] strided(t) == plain(t) by {
        assert(t * 1 == t);
        assert(wide(s)[t] == s[t]);
    }
    sums::lemma_sum_same(s.len() as int, strided, plain);
    wrapping::lemma_wrap(
        row_times_secret(a, s, i) + noise[i] + params.spacing() * (message[i] as int
            % params.plaintext_modulus()),
        0,
    );
}

/// Decryption takes the product with the secret off every number and rounds to the nearest multiple
/// of `2^64 / P`: with the plaintext that it gives, the rest is at most half of that, modulo `2^64`.
pub proof fn decryption_finds_the_nearest_plaintext(
    ct: Seq<u64>,
    a_s: Seq<u64>,
    params: Params,
    i: int,
) -> (rest: int)
    requires
        params.valid(),
        ct.len() == a_s.len(),
        0 <= i < ct.len(),
    ensures
        decryption(ct, a_s, params).len() == ct.len(),
        0 <= decryption(ct, a_s, params)[i] < pow2(params.log2_p as nat),
        -(pow2((64 - params.log2_p) as nat) as int) <= 2 * rest < pow2((64 - params.log2_p) as nat),
        congruence::congruent(
            ct[i] - a_s[i],
            pow2((64 - params.log2_p) as nat) * decryption(ct, a_s, params)[i] + rest,
            0x1_0000_0000_0000_0000,
        ),
{
    let x = wrapping::wrap(ct[i] - a_s[i]) as int;
    let spacing = params.spacing();
    let p = params.plaintext_modulus();
    params.lemma_moduli();
    params.lemma_nearest_in_range(x);
    let up = (x + spacing / 2) / spacing;
    let found = params.nearest(x) as int;
    let rest = x - spacing * up;
    vstd::arithmetic::div_mod::lemma_fundamental_div_mod(x + spacing / 2, spacing);
    vstd::arithmetic::div_mod::lemma_mod_bound(x + spacing / 2, spacing);
    vstd::arithmetic::div_mod::lemma_fundamental_div_mod(up, p);
    vstd::arithmetic::div_mod::lemma_mod_bound(up, p);
    let k = up / p;
    assert(x - (spacing * found + rest) == k * wrapping::modulus()) by (nonlinear_arith)
        requires
            rest == x - spacing * up,
            up == p * k + found,
            p * spacing == wrapping::modulus(),
    ;
    congruence::lemma_congruent_by_multiple(x, spacing * found + rest, k, wrapping::modulus());
    wrapping::lemma_wrap(ct[i] - a_s[i], 0);
    congruence::lemma_congruent_iff_same_remainder(x, ct[i] - a_s[i], wrapping::modulus());
    congruence::lemma_congruent_iff_same_remainder(
        x,
        spacing * found + rest,
        wrapping::modulus(),
    );
    congruence::lemma_congruent_iff_same_remainder(
        ct[i] - a_s[i],
        spacing * found + rest,
        wrapping::modulus(),
    );
    rest
}

/// Entry `i` of a secret is what the generator hands out after the `i` draws before it.
pub proof fn secrets_are_drawn_in_order(rng: ChaCha20Rng, n: nat, i: nat)
    requires
        i < n,
    ensures
        ternary_draws(rng, n).len() == n,
        after_draws(rng, 0) == rng,
        (ternary_draws(rng, n)[i as int], after_draws(rng, i + 1)) == ternary_drawn(
            after_draws(rng, i),
        ),
{
}

} // verus!
