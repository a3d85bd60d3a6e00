//! Compression of a hint: the product of the hint with an encrypted secret.
//!
//! Each entry of the hint is cut into sixteen limbs of four bits, of which the top eight are kept.
//! A limb of up to `degree` rows of one column is a polynomial. The server multiplies these with the
//! encrypted entries of the secret and adds up, so that a coefficient of the sum is a limb's share
//! of one row of the product. The client decrypts, scales the limbs and adds them up modulo `2^64`.

use fhe::bfv::{BfvParameters, Plaintext};
use rand_chacha::ChaCha20Rng;
use vstd::arithmetic::power2::pow2;
use vstd::prelude::*;

use crate::math::congruence;
use crate::math::layout;
use crate::math::sums;
use crate::math::wrapping;
use crate::parallel::parallel_map;
use crate::tiptoe::bfv;
use crate::tiptoe::bfv::{
    decrypt, dot_product, encode, encrypt, generator_of, next_seed, BfvCiphertext, BfvContext,
    BfvSecretKey,
};
use crate::tiptoe::lwe;
use crate::tiptoe::lwe::Params;
use crate::tiptoe::lwe::SecretKey;
use crate::tiptoe::simplepir;

verus! {

/// Bits of a limb.
pub const BITS_PER_LIMB: usize = 4;

/// Limbs of a 64-bit number.
pub const MAX_LIMBS_64: usize = 16;

/// Limbs that are kept, from the top.
pub const NUM_LIMBS_64: usize = 8;

/// Limb `index` of a number: four bits, the lowest first.
pub open spec fn limb(v: u64, index: int) -> u64 {
    ((v as int / pow2((4 * index) as nat) as int) % 16) as u64
}

/// Cuts limb `chunk_idx` out of a number.
pub fn get_chunk(v: u64, chunk_idx: usize) -> (r: u64)
    requires
        chunk_idx < MAX_LIMBS_64,
    ensures
        r == limb(v, chunk_idx as int),
        r < 16,
{
    let shift: u64 = 4 * chunk_idx as u64;
    let shifted: u64 = v >> shift;
    proof {
        vstd::bits::lemma_u64_shr_is_div(v, shift);
    }
    assert(shifted & 15 == shifted % 16) by (bit_vector);
    shifted & 15
}

/// The integer closest to zero that a number below the modulus `t` stands for.
pub open spec fn centred(t: int, v: int) -> int {
    if v > t / 2 {
        v - t
    } else {
        v
    }
}

/// Reads a number below the modulus `t` as a signed number.
pub fn from_modulo_p(t: u64, v: u64) -> (r: i64)
    requires
        v < t,
        t <= i64::MAX,
    ensures
        r == centred(t as int, v as int),
{
    if v > t / 2 {
        v as i64 - t as i64
    } else {
        v as i64
    }
}

/// The limbs of a hint as plaintexts: for each kept limb, from the top, the plaintext of every
/// chunk of rows and every column.
pub struct CompressedHint {
    pts: Vec<Vec<Plaintext>>,
    r: usize,
    n_lwe: usize,
    chunks: usize,
}

/// What is wrong with the input of the compression.
#[derive(Debug)]
pub enum CompressError {
    /// The hint does not have `r * n_lwe` entries.
    HintLengthMismatch { actual: usize, expected: usize, r: usize, n_lwe: usize },
    /// There is not one encrypted entry for each entry of the secret.
    EncSecretLengthMismatch { actual: usize, expected: usize },
    /// The answers are not one per kept limb and chunk.
    AnswersShapeMismatch { limbs: usize, expected_limbs: usize, expected_chunks: usize },
    /// An entry of the secret is not 0, 1 or 2.
    LweSecretOutOfRange { index: usize, value: u8 },
    /// The encryption scheme failed.
    Fhe(fhe::Error),
}

/// How many chunks of `degree` rows it takes to hold `r` rows.
pub open spec fn chunk_count(r: int, degree: int) -> int {
    (r + degree - 1) / degree
}

/// Computes how many chunks of `degree` rows it takes to hold `r` rows.
pub fn count_chunks(r: usize, degree: usize) -> (chunks: usize)
    requires
        0 < degree,
    ensures
        chunks == chunk_count(r as int, degree as int),
        r <= chunks * degree < r + degree,
{
    let whole: usize = r / degree;
    let rest: usize = r % degree;
    proof {
        vstd::arithmetic::div_mod::lemma_fundamental_div_mod(r as int, degree as int);
        let d = degree as int;
        assert(whole * degree == degree * whole) by (nonlinear_arith);
        assert((whole + 1) * degree == whole * degree + degree) by (nonlinear_arith);
        if rest == 0 {
            vstd::arithmetic::div_mod::lemma_fundamental_div_mod_converse(
                r + d - 1,
                d,
                whole as int,
                d - 1,
            );
        } else {
            vstd::arithmetic::div_mod::lemma_fundamental_div_mod_converse(
                r + d - 1,
                d,
                whole + 1,
                rest - 1,
            );
            assert(whole < r) by (nonlinear_arith)
                requires
                    r == degree * whole + rest,
                    rest > 0,
                    degree > 0,
                    whole >= 0,
            ;
        }
    }
    if rest == 0 {
        whole
    } else {
        whole + 1
    }
}

/// Coefficient `i` of the polynomial of one limb, chunk and column of a hint.
pub open spec fn plane_entry(
    hint: Seq<u64>,
    r: int,
    n_lwe: int,
    degree: int,
    index: int,
    chunk: int,
    col: int,
    i: int,
) -> u64 {
    if chunk * degree + i < r {
        limb(hint[(chunk * degree + i) * n_lwe + col], index)
    } else {
        0
    }
}

/// The polynomial of one limb, chunk and column of a hint.
pub open spec fn plane(
    hint: Seq<u64>,
    r: int,
    n_lwe: int,
    degree: int,
    index: int,
    chunk: int,
    col: int,
) -> Seq<u64> {
    Seq::new(
        degree as nat,
        |i: int| plane_entry(hint, r, n_lwe, degree, index, chunk, col, i),
    )
}

/// Computes the polynomial of one limb, chunk and column of a hint.
pub fn limb_plane(
    hint: &[u64],
    r: usize,
    n_lwe: usize,
    degree: usize,
    index: usize,
    chunk: usize,
    col: usize,
) -> (values: Vec<u64>)
    requires
        hint@.len() == r * n_lwe,
        r + degree <= usize::MAX,
        index < MAX_LIMBS_64,
        chunk * degree <= r,
        col < n_lwe,
    ensures
        values@ == plane(
            hint@,
            r as int,
            n_lwe as int,
            degree as int,
            index as int,
            chunk as int,
            col as int,
        ),
{
    let row_start: usize = chunk * degree;
    let mut values: Vec<u64> = Vec::with_capacity(degree);
    for i in 0..degree
        invariant
            hint@.len() == r * n_lwe,
            hint.len() == hint@.len(),
            r + degree <= usize::MAX,
            index < MAX_LIMBS_64,
            row_start == chunk * degree,
            row_start <= r,
            col < n_lwe,
            values@.len() == i,
            forall|j: int|
                0 <= j < i ==> #[trigger] values@[j] == plane_entry(
                    hint@,
                    r as int,
                    n_lwe as int,
                    degree as int,
                    index as int,
                    chunk as int,
                    col as int,
                    j,
                ),
    {
        let row: usize = row_start + i;
        if row < r {
            proof {
                layout::lemma_entry_in_range(row as int, col as int, r as int, n_lwe as int);
            }
            values.push(get_chunk(hint[row * n_lwe + col], index));
        } else {
            values.push(0);
        }
    }
    assert(values@ =~= plane(
        hint@,
        r as int,
        n_lwe as int,
        degree as int,
        index as int,
        chunk as int,
        col as int,
    ));
    values
}

impl CompressedHint {
    /// The plaintexts.
    pub closed spec fn spec_pts(&self) -> Seq<Vec<Plaintext>> {
        self.pts@
    }

    /// Rows of the hint.
    pub closed spec fn spec_r(&self) -> int {
        self.r as int
    }

    /// Columns of the hint.
    pub closed spec fn spec_n_lwe(&self) -> int {
        self.n_lwe as int
    }

    /// Chunks of rows.
    pub closed spec fn spec_chunks(&self) -> int {
        self.chunks as int
    }

    /// Every limb has a plaintext for each chunk and column.
    pub open spec fn well_formed(&self) -> bool {
        &&& 0 <= self.spec_chunks() * self.spec_n_lwe() <= usize::MAX
        &&& forall|b: int|
            0 <= b < self.spec_pts().len() ==> (#[trigger] self.spec_pts()[b])@.len()
                == self.spec_chunks() * self.spec_n_lwe()
    }

    /// The plaintexts hold the top limbs of the hint.
    pub open spec fn holds(&self, hint: Seq<u64>, degree: int) -> bool {
        &&& self.well_formed()
        &&& self.spec_pts().len() == NUM_LIMBS_64
        &&& self.spec_chunks() == chunk_count(self.spec_r(), degree)
        &&& forall|b: int, chunk: int, col: int|
            0 <= b < NUM_LIMBS_64 && 0 <= chunk < self.spec_chunks() && 0 <= col
                < self.spec_n_lwe() ==> bfv::plaintext_coefficients(
                #[trigger] self.spec_pts()[b]@[chunk * self.spec_n_lwe() + col],
            ) == plane(
                hint,
                self.spec_r(),
                self.spec_n_lwe(),
                degree,
                MAX_LIMBS_64 - b - 1,
                chunk,
                col,
            )
    }

    /// All plaintexts are for the given parameters.
    pub open spec fn encoded_for(&self, parameters: BfvParameters) -> bool {
        forall|b: int, t: int|
            0 <= b < self.spec_pts().len() && 0 <= t < self.spec_pts()[b]@.len()
                ==> bfv::plaintext_parameters(#[trigger] self.spec_pts()[b]@[t]) == parameters
    }

    /// Rows of the hint.
    pub fn r(&self) -> (r: usize)
        ensures
            r == self.spec_r(),
    {
        self.r
    }

    /// Columns of the hint.
    pub fn n_lwe(&self) -> (r: usize)
        ensures
            r == self.spec_n_lwe(),
    {
        self.n_lwe
    }

    /// Chunks of rows.
    pub fn chunks(&self) -> (r: usize)
        ensures
            r == self.spec_chunks(),
    {
        self.chunks
    }

    /// Limbs that are kept.
    pub fn num_limbs(&self) -> (r: usize)
        ensures
            r == self.spec_pts().len(),
    {
        self.pts.len()
    }

    /// The plaintexts of one limb, chunk by chunk.
    pub fn limb_plaintexts(&self, b: usize) -> (r: &[Plaintext])
        requires
            b < self.spec_pts().len(),
        ensures
            r@ == self.spec_pts()[b as int]@,
    {
        self.pts[b].as_slice()
    }
}

/// A plaintext for given parameters holds plane `t` of a limb: planes are numbered chunk by chunk.
pub open spec fn holds_plane(
    pt: Plaintext,
    parameters: BfvParameters,
    hint: Seq<u64>,
    r: int,
    n_lwe: int,
    degree: int,
    index: int,
    t: usize,
) -> bool {
    &&& bfv::plaintext_parameters(pt) == parameters
    &&& bfv::plaintext_coefficients(pt) == plane(
        hint,
        r,
        n_lwe,
        degree,
        index,
        t as int / n_lwe,
        t as int % n_lwe,
    )
}

/// Encodes plane `t` of a limb of a hint.
fn encode_plane(
    hint: &[u64],
    r: usize,
    n_lwe: usize,
    params: &BfvContext,
    index: usize,
    t: usize,
) -> (pt: Plaintext)
    requires
        hint@.len() == r * n_lwe,
        r + params.spec_degree() <= usize::MAX,
        0 < params.spec_degree(),
        index < MAX_LIMBS_64,
        t < chunk_count(r as int, params.spec_degree()) * n_lwe,
    ensures
        holds_plane(
            pt,
            *params.spec_handle(),
            hint@,
            r as int,
            n_lwe as int,
            params.spec_degree(),
            index as int,
            t,
        ),
{
    let degree: usize = params.degree();
    proof {
        let chunks = chunk_count(r as int, degree as int);
        assert(0 < n_lwe) by (nonlinear_arith)
            requires
                0 <= t < chunks * n_lwe,
                0 <= n_lwe,
        ;
        layout::lemma_row_major(t as int, chunks, n_lwe as int);
        vstd::arithmetic::div_mod::lemma_fundamental_div_mod(r + degree - 1, degree as int);
        assert((t as int / n_lwe as int) * degree <= r) by (nonlinear_arith)
            requires
                t as int / n_lwe as int <= chunks - 1,
                r + degree - 1 == degree * chunks + (r + degree - 1) % degree as int,
                0 <= (r + degree - 1) % degree as int,
                0 < degree,
        ;
    }
    let values: Vec<u64> = limb_plane(hint, r, n_lwe, degree, index, t / n_lwe, t % n_lwe);
    assert(bfv::padded(values@, degree as int) =~= values@);
    encode(params, &values).unwrap()
}

/// Cuts a hint of `r` rows and `n_lwe` columns into the plaintexts of its top limbs.
pub fn decompose_hint(hint: &[u64], r: usize, n_lwe: usize, params: &BfvContext) -> (res: Result<
    CompressedHint,
    CompressError,
>)
    requires
        r * n_lwe <= usize::MAX,
        r + params.spec_degree() <= usize::MAX,
        0 < params.spec_degree(),
    ensures
        res is Ok <==> hint@.len() == r * n_lwe,
        res matches Ok(compressed) ==> compressed.spec_r() == r && compressed.spec_n_lwe() == n_lwe
            && compressed.holds(hint@, params.spec_degree()) && compressed.encoded_for(
            *params.spec_handle(),
        ),
        res matches Err(e) ==> e == (CompressError::HintLengthMismatch {
            actual: hint.len(),
            expected: (r * n_lwe) as usize,
            r,
            n_lwe,
        }),
{
    if hint.len() != r * n_lwe {
        return Err(
            CompressError::HintLengthMismatch {
                actual: hint.len(),
                expected: r * n_lwe,
                r,
                n_lwe,
            },
        );
    }
    let degree: usize = params.degree();
    let chunks: usize = count_chunks(r, degree);
    proof {
        // chunks is at most r, as a chunk holds at least one row
        assert(chunks <= r) by (nonlinear_arith)
            requires
                chunks * degree < r + degree,
                degree >= 1,
                r >= 0,
                chunks >= 0,
        ;
        assert(chunks * n_lwe <= r * n_lwe) by (nonlinear_arith)
            requires
                chunks <= r,
                0 <= n_lwe,
        ;
        assert(0 <= chunks * n_lwe) by (nonlinear_arith)
            requires
                0 <= chunks,
                0 <= n_lwe,
        ;
    }
    let mut pts: Vec<Vec<Plaintext>> = Vec::with_capacity(NUM_LIMBS_64);
    for b in 0..NUM_LIMBS_64
        invariant
            hint@.len() == r * n_lwe,
            degree == params.spec_degree(),
            r + degree <= usize::MAX,
            0 < degree,
            chunks == chunk_count(r as int, degree as int),
            0 <= chunks * n_lwe <= usize::MAX,
            pts@.len() == b,
            forall|a: int| 0 <= a < b ==> (#[trigger] pts@[a])@.len() == chunks * n_lwe,
            forall|a: int, t: int|
                0 <= a < b && 0 <= t < pts@[a]@.len() ==> bfv::plaintext_parameters(
                    #[trigger] pts@[a]@[t],
                ) == *params.spec_handle(),
            forall|a: int, chunk: int, col: int|
                0 <= a < b && 0 <= chunk < chunks && 0 <= col < n_lwe
                    ==> bfv::plaintext_coefficients(#[trigger] pts@[a]@[chunk * n_lwe + col])
                    == plane(
                    hint@,
                    r as int,
                    n_lwe as int,
                    degree as int,
                    MAX_LIMBS_64 - a - 1,
                    chunk,
                    col,
                ),
    {
        let index: usize = MAX_LIMBS_64 - b - 1;
        let count: usize = chunks * n_lwe;
        let limb_pts: Vec<Plaintext> = parallel_map(
            count,
            |t: usize| -> (pt: Plaintext)
                requires
                    count > t,
                ensures
                    holds_plane(
                        pt,
                        *params.spec_handle(),
                        hint@,
                        r as int,
                        n_lwe as int,
                        degree as int,
                        index as int,
                        t,
                    )
                { encode_plane(hint, r, n_lwe, params, index, t) },
        );
        assert forall|t: int| 0 <= t < count implies holds_plane(
            #[trigger] limb_pts@[t],
            *params.spec_handle(),
            hint@,
            r as int,
            n_lwe as int,
            degree as int,
            index as int,
            t as usize,
        ) by {
            assert(limb_pts@[t] == limb_pts@[(t as usize) as int]);
        }
        proof {
            assert forall|chunk: int, col: int|
                0 <= chunk < chunks && 0 <= col < n_lwe implies bfv::plaintext_coefficients(
                #[trigger] limb_pts@[chunk * n_lwe + col],
            ) == plane(
                hint@,
                r as int,
                n_lwe as int,
                degree as int,
                index as int,
                chunk,
                col,
            ) by {
                layout::lemma_entry_in_range(chunk, col, chunks as int, n_lwe as int);
                let t = chunk * n_lwe + col;
                assert(holds_plane(
                    limb_pts@[t],
                    *params.spec_handle(),
                    hint@,
                    r as int,
                    n_lwe as int,
                    degree as int,
                    index as int,
                    t as usize,
                ));
            }
        }
        pts.push(limb_pts);
    }
    Ok(CompressedHint { pts, r, n_lwe, chunks })
}

/// The polynomial that stands for an entry of a secret: the entry, then zeros.
pub fn secret_polynomial(entry: u8, degree: usize) -> (values: Vec<u64>)
    requires
        0 < degree,
    ensures
        values@ == bfv::padded(seq![entry as u64], degree as int),
{
    let mut values: Vec<u64> = Vec::with_capacity(degree);
    values.push(entry as u64);
    for i in 1..degree
        invariant
            values@.len() == i,
            values@[0] == entry,
            forall|j: int| 1 <= j < i ==> values@[j] == 0,
    {
        values.push(0);
    }
    assert(values@ =~= bfv::padded(seq![entry as u64], degree as int));
    values
}

/// All entries of a secret are 0, 1 or 2.
pub open spec fn is_ternary(secret: Seq<u8>) -> bool {
    forall|j: int| 0 <= j < secret.len() ==> #[trigger] secret[j] <= 2
}

/// All ciphertexts are for the given parameters.
pub open spec fn made_under(cts: Seq<BfvCiphertext>, parameters: BfvParameters) -> bool {
    forall|j: int|
        0 <= j < cts.len() ==> bfv::ciphertext_parameters(#[trigger] cts[j]) == parameters
}

/// Ciphertexts that decrypt to the entries of a secret, each as the constant coefficient of a
/// polynomial.
pub open spec fn holds_secret(key: BfvSecretKey, token: Seq<BfvCiphertext>, secret: Seq<u8>) -> bool {
    &&& token.len() == secret.len()
    &&& forall|j: int|
        0 <= j < token.len() ==> bfv::bfv_decryption(key.spec_key(), #[trigger] token[j]) == Some(
            bfv::padded(seq![secret[j] as u64], key.spec_degree()),
        )
}

/// What the encryption of one entry of a secret may be: a ciphertext for the key's parameters, and
/// where these leave room for the noise, one that decrypts to the entry.
pub open spec fn may_encrypt(
    key: &BfvSecretKey,
    entry: u8,
    r: Result<BfvCiphertext, fhe::Error>,
) -> bool {
    &&& r is Ok
    &&& bfv::ciphertext_parameters(r->Ok_0) == *key.spec_handle()
    &&& key.leaves_room() ==> bfv::bfv_decryption(key.spec_key(), r->Ok_0) == Some(
        bfv::padded(seq![entry as u64], key.spec_degree()),
    )
}

/// What the encryption of entry `j` of a secret may be.
pub open spec fn may_encrypt_entry(
    key: &BfvSecretKey,
    secret: Seq<u8>,
    j: int,
    r: Result<BfvCiphertext, fhe::Error>,
) -> bool {
    may_encrypt(key, secret[j], r)
}

/// Encrypts one entry of a secret, with noise of a generator of its own.
fn encrypt_entry(bfv_sk: &BfvSecretKey, entry: u8, degree: usize, seed: &[u8; 32]) -> (r: Result<
    BfvCiphertext,
    fhe::Error,
>)
    requires
        degree == bfv_sk.spec_degree(),
        0 < degree,
        entry < bfv_sk.spec_plaintext(),
    ensures
        may_encrypt(bfv_sk, entry, r),
{
    let values: Vec<u64> = secret_polynomial(entry, degree);
    assert(bfv::padded(values@, degree as int) =~= values@);
    let mut rng: ChaCha20Rng = generator_of(seed);
    encrypt(bfv_sk, &values, &mut rng)
}

/// The error is that of the first entry of a secret that is not 0, 1 or 2.
pub open spec fn is_range_error(secret: Seq<u8>, e: CompressError) -> bool {
    e matches CompressError::LweSecretOutOfRange { index, value } && index < secret.len() && value
        == secret[index as int] && value > 2 && is_ternary(secret.take(index as int))
}

/// Encrypts each entry of a secret as the constant coefficient of a polynomial.
///
/// What is handed to the encryption is [`secret_polynomial`] of each entry. Under parameters that
/// leave room for the noise the ciphertexts decrypt to these. The entries are encrypted in
/// parallel, each with a generator that is seeded from `rng`.
pub fn encrypt_secret_under_bfv(
    lwe_secret: &SecretKey,
    bfv_sk: &BfvSecretKey,
    params: &BfvContext,
    rng: &mut ChaCha20Rng,
) -> (res: Result<Vec<BfvCiphertext>, CompressError>)
    requires
        bfv_sk.spec_degree() == params.spec_degree(),
        0 < params.spec_degree(),
        2 < bfv_sk.spec_plaintext(),
    ensures
        res matches Ok(token) ==> token@.len() == lwe_secret@.len(),
        res matches Ok(token) ==> bfv_sk.leaves_room() ==> holds_secret(
            *bfv_sk,
            token@,
            lwe_secret@,
        ),
        res matches Ok(token) ==> made_under(token@, *bfv_sk.spec_handle()),
        res is Ok <==> is_ternary(lwe_secret@),
        res matches Err(e) ==> is_range_error(lwe_secret@, e),
{
    let degree: usize = params.degree();
    let entries: &[u8] = lwe_secret.as_slice();
    let n: usize = entries.len();
    let mut seeds: Vec<[u8; 32]> = Vec::with_capacity(n);
    for j in 0..n
        invariant
            entries@ == lwe_secret@,
            n == entries@.len(),
            seeds@.len() == j,
            forall|a: int| 0 <= a < j ==> #[trigger] lwe_secret@[a] <= 2,
    {
        let entry: u8 = entries[j];
        if entry > 2 {
            assert(lwe_secret@[j as int] > 2);
            assert(is_ternary(lwe_secret@.take(j as int)));
            return Err(CompressError::LweSecretOutOfRange { index: j, value: entry });
        }
        seeds.push(next_seed(rng));
    }
    let encrypted: Vec<Result<BfvCiphertext, fhe::Error>> = parallel_map(
        n,
        |j: usize| -> (r: Result<BfvCiphertext, fhe::Error>)
            requires
                n > j,
            ensures
                may_encrypt_entry(bfv_sk, entries@, j as int, r)
            { encrypt_entry(bfv_sk, entries[j], degree, &seeds[j]) },
    );
    assert forall|j: int| 0 <= j < n implies may_encrypt_entry(
        bfv_sk,
        entries@,
        j,
        #[trigger] encrypted@[j],
    ) by {
        assert(encrypted@[j] == encrypted@[(j as usize) as int]);
    }
    let ghost all = encrypted@;
    assert(is_ternary(lwe_secret@));
    let mut token: Vec<BfvCiphertext> = Vec::with_capacity(n);
    for r in iter: encrypted.into_iter()
        invariant
            entries@ == lwe_secret@,
            n == entries@.len(),
            iter.seq() == all,
            all.len() == n,
            forall|j: int|
                0 <= j < n ==> may_encrypt_entry(bfv_sk, entries@, j, #[trigger] all[j]),
            forall|j: int| 0 <= j < n ==> #[trigger] lwe_secret@[j] <= 2,
            token@.len() == iter.index(),
            forall|j: int|
                0 <= j < token@.len() ==> Ok::<BfvCiphertext, fhe::Error>(#[trigger] token@[j])
                    == all[j],
    {
        assert(may_encrypt_entry(bfv_sk, entries@, iter.index(), all[iter.index()]));
        match r {
            Ok(ct) => token.push(ct),
            Err(e) => {
                return Err(CompressError::Fhe(e));
            },
        }
    }
    proof {
        assert forall|j: int| 0 <= j < token@.len() implies bfv::ciphertext_parameters(
            #[trigger] token@[j],
        ) == *bfv_sk.spec_handle() by {
            assert(may_encrypt_entry(bfv_sk, entries@, j, all[j]));
        }
        if bfv_sk.leaves_room() {
            assert forall|j: int| 0 <= j < token@.len() implies bfv::bfv_decryption(
                bfv_sk.spec_key(),
                #[trigger] token@[j],
            ) == Some(bfv::padded(seq![lwe_secret@[j] as u64], bfv_sk.spec_degree())) by {
                assert(may_encrypt_entry(bfv_sk, entries@, j, all[j]));
            }
        }
    }
    Ok(token)
}

/// The product of an encrypted secret with one limb of one chunk of a compressed hint.
pub open spec fn limb_answer(
    compressed: CompressedHint,
    enc_secret: Seq<BfvCiphertext>,
    b: int,
    chunk: int,
) -> Option<BfvCiphertext> {
    bfv::bfv_dot_product(
        enc_secret,
        compressed.spec_pts()[b]@.subrange(
            chunk * compressed.spec_n_lwe(),
            (chunk + 1) * compressed.spec_n_lwe(),
        ),
    )
}

/// A compressed hint and an encrypted secret are for the same parameters, and the secret has an
/// entry.
pub open spec fn fit_together(compressed: CompressedHint, enc_secret: Seq<BfvCiphertext>) -> bool {
    &&& 0 < enc_secret.len()
    &&& made_under(enc_secret, bfv::ciphertext_parameters(enc_secret[0]))
    &&& compressed.encoded_for(bfv::ciphertext_parameters(enc_secret[0]))
}

/// Multiplies every limb and chunk of a compressed hint with an encrypted secret. This can be done
/// where hint and secret are for the same parameters.
pub fn apply_hint(compressed: &CompressedHint, enc_secret: &[BfvCiphertext]) -> (res: Result<
    Vec<Vec<BfvCiphertext>>,
    CompressError,
>)
    requires
        compressed.well_formed(),
    ensures
        enc_secret@.len() != compressed.spec_n_lwe() ==> res == Err::<
            Vec<Vec<BfvCiphertext>>,
            CompressError,
        >(
            CompressError::EncSecretLengthMismatch {
                actual: enc_secret.len(),
                expected: compressed.spec_n_lwe() as usize,
            },
        ),
        enc_secret@.len() == compressed.spec_n_lwe() ==> (res is Ok <==> forall|b: int, chunk: int|
            0 <= b < compressed.spec_pts().len() && 0 <= chunk < compressed.spec_chunks()
                ==> #[trigger] limb_answer(*compressed, enc_secret@, b, chunk) is Some),
        enc_secret@.len() == compressed.spec_n_lwe() && res is Err ==> res->Err_0 is Fhe,
        enc_secret@.len() == compressed.spec_n_lwe() && fit_together(*compressed, enc_secret@)
            ==> res is Ok,
        res matches Ok(out) ==> forall|b: int|
            0 <= b < out@.len() ==> made_under(
                (#[trigger] out@[b])@,
                bfv::ciphertext_parameters(enc_secret@[0]),
            ),
        res matches Ok(out) ==> out@.len() == compressed.spec_pts().len(),
        res matches Ok(out) ==> forall|b: int|
            0 <= b < out@.len() ==> (#[trigger] out@[b])@.len() == compressed.spec_chunks(),
        res matches Ok(out) ==> forall|b: int, chunk: int|
            0 <= b < out@.len() && 0 <= chunk < compressed.spec_chunks() ==> Some(
                #[trigger] out@[b]@[chunk],
            ) == limb_answer(*compressed, enc_secret@, b, chunk),
{
    let n_lwe: usize = compressed.n_lwe;
    let chunks: usize = compressed.chunks;
    if enc_secret.len() != n_lwe {
        return Err(
            CompressError::EncSecretLengthMismatch {
                actual: enc_secret.len(),
                expected: n_lwe,
            },
        );
    }
    let mut out: Vec<Vec<BfvCiphertext>> = Vec::with_capacity(compressed.pts.len());
    for b in 0..compressed.pts.len()
        invariant
            compressed.well_formed(),
            n_lwe == compressed.spec_n_lwe(),
            chunks == compressed.spec_chunks(),
            compressed.pts@ == compressed.spec_pts(),
            enc_secret@.len() == n_lwe,
            out@.len() == b,
            forall|a: int| 0 <= a < b ==> (#[trigger] out@[a])@.len() == chunks,
            forall|a: int|
                0 <= a < b ==> made_under(
                    (#[trigger] out@[a])@,
                    bfv::ciphertext_parameters(enc_secret@[0]),
                ),
            forall|a: int, chunk: int|
                0 <= a < b && 0 <= chunk < chunks ==> Some(#[trigger] out@[a]@[chunk])
                    == limb_answer(*compressed, enc_secret@, a, chunk),
    {
        let limb_pts: &Vec<Plaintext> = &compressed.pts[b];
        let mut chunk_out: Vec<BfvCiphertext> = Vec::with_capacity(chunks);
        for chunk in 0..chunks
            invariant
                n_lwe == compressed.spec_n_lwe(),
                chunks == compressed.spec_chunks(),
                0 <= chunks * n_lwe <= usize::MAX,
                b < compressed.spec_pts().len(),
                limb_pts@ == compressed.spec_pts()[b as int]@,
                limb_pts@.len() == chunks * n_lwe,
                enc_secret@.len() == n_lwe,
                chunk_out@.len() == chunk,
                made_under(chunk_out@, bfv::ciphertext_parameters(enc_secret@[0])),
                forall|c: int|
                    0 <= c < chunk ==> Some(#[trigger] chunk_out@[c]) == limb_answer(
                        *compressed,
                        enc_secret@,
                        b as int,
                        c,
                    ),
        {
            assert(0 <= chunk * n_lwe <= (chunk + 1) * n_lwe <= chunks * n_lwe) by (nonlinear_arith)
                requires
                    0 <= chunk < chunks,
                    0 <= n_lwe,
            ;
            assert((chunk + 1) * n_lwe == chunk * n_lwe + n_lwe) by (nonlinear_arith);
            let from: usize = chunk * n_lwe;
            let part: &[Plaintext] = vstd::slice::slice_subrange(
                limb_pts.as_slice(),
                from,
                from + n_lwe,
            );
            proof {
                if fit_together(*compressed, enc_secret@) {
                    assert forall|i: int| 0 <= i < part@.len() implies bfv::plaintext_parameters(
                        #[trigger] part@[i],
                    ) == bfv::ciphertext_parameters(enc_secret@[0]) by {
                        assert(part@[i] == compressed.spec_pts()[b as int]@[from + i]);
                    }
                    assert(bfv::are_for_same(
                        enc_secret@,
                        part@,
                        bfv::ciphertext_parameters(enc_secret@[0]),
                    ));
                }
            }
            match dot_product(enc_secret, part) {
                Ok(ct) => chunk_out.push(ct),
                Err(e) => {
                    assert(limb_answer(*compressed, enc_secret@, b as int, chunk as int) is None);
                    return Err(CompressError::Fhe(e));
                },
            }
        }
        out.push(chunk_out);
    }
    proof {
        assert forall|b: int, chunk: int|
            0 <= b < compressed.spec_pts().len() && 0 <= chunk < compressed.spec_chunks() implies
            #[trigger] limb_answer(*compressed, enc_secret@, b, chunk) is Some by {
            assert(Some(out@[b]@[chunk]) == limb_answer(*compressed, enc_secret@, b, chunk));
        }
    }
    Ok(out)
}

/// The coefficients of every limb and chunk.
pub open spec fn coefficients_of(coeffs: Seq<Vec<Vec<u64>>>) -> Seq<Seq<Seq<u64>>> {
    coeffs.map_values(|limb: Vec<Vec<u64>>| limb@.map_values(|chunk: Vec<u64>| chunk@))
}

/// The scaled share of limb `b` (from the top) in row `row`.
pub open spec fn limb_share(
    coeffs: Seq<Seq<Seq<u64>>>,
    degree: int,
    t: int,
    row: int,
    b: int,
) -> int {
    centred(t, coeffs[b][row / degree][row % degree] as int) * pow2(
        (4 * (MAX_LIMBS_64 - b - 1)) as nat,
    )
}

/// Row `row` of the product that the limbs add up to, modulo `2^64`.
pub open spec fn recombined(coeffs: Seq<Seq<Seq<u64>>>, degree: int, t: int, row: int) -> u64 {
    wrapping::wrap(
        sums::sum(NUM_LIMBS_64 as int, |b: int| limb_share(coeffs, degree, t, row, b)),
    )
}

/// Adds up the scaled limbs of `r` rows, modulo `2^64`.
pub fn recombine(coeffs: &[Vec<Vec<u64>>], r: usize, degree: usize, t: u64) -> (h_s: Vec<u64>)
    requires
        0 < degree,
        t <= i64::MAX,
        coeffs@.len() == NUM_LIMBS_64,
        forall|b: int|
            0 <= b < NUM_LIMBS_64 ==> (#[trigger] coeffs@[b])@.len() == chunk_count(
                r as int,
                degree as int,
            ),
        forall|b: int, c: int|
            0 <= b < NUM_LIMBS_64 && 0 <= c < chunk_count(r as int, degree as int)
                ==> (#[trigger] coeffs@[b]@[c])@.len() == degree,
        forall|b: int, c: int, i: int|
            0 <= b < NUM_LIMBS_64 && 0 <= c < chunk_count(r as int, degree as int) && 0 <= i
                < degree ==> #[trigger] coeffs@[b]@[c]@[i] < t,
    ensures
        h_s@.len() == r,
        forall|row: int|
            0 <= row < r ==> #[trigger] h_s@[row] == recombined(
                coefficients_of(coeffs@),
                degree as int,
                t as int,
                row,
            ),
{
    let ghost all = coefficients_of(coeffs@);
    let mut h_s: Vec<u64> = Vec::with_capacity(r);
    for row in 0..r
        invariant
            0 < degree,
            t <= i64::MAX,
            all == coefficients_of(coeffs@),
            coeffs@.len() == NUM_LIMBS_64,
            forall|b: int|
                0 <= b < NUM_LIMBS_64 ==> (#[trigger] coeffs@[b])@.len() == chunk_count(
                    r as int,
                    degree as int,
                ),
            forall|b: int, c: int|
                0 <= b < NUM_LIMBS_64 && 0 <= c < chunk_count(r as int, degree as int)
                    ==> (#[trigger] coeffs@[b]@[c])@.len() == degree,
            forall|b: int, c: int, i: int|
                0 <= b < NUM_LIMBS_64 && 0 <= c < chunk_count(r as int, degree as int) && 0 <= i
                    < degree ==> #[trigger] coeffs@[b]@[c]@[i] < t,
            h_s@.len() == row,
            forall|a: int|
                0 <= a < row ==> #[trigger] h_s@[a] == recombined(
                    all,
                    degree as int,
                    t as int,
                    a,
                ),
    {
        let chunk: usize = row / degree;
        let i: usize = row % degree;
        proof {
            let chunks = chunk_count(r as int, degree as int);
            let d = degree as int;
            vstd::arithmetic::div_mod::lemma_fundamental_div_mod(row as int, d);
            vstd::arithmetic::div_mod::lemma_fundamental_div_mod(r + d - 1, d);
            assert(chunk < chunks) by (nonlinear_arith)
                requires
                    row == d * chunk + i,
                    0 <= i,
                    row < r,
                    r + d - 1 == d * chunks + (r + d - 1) % d,
                    (r + d - 1) % d < d,
                    0 < d,
            ;
        }
        let ghost share = |b: int| limb_share(all, degree as int, t as int, row as int, b);
        let mut acc: u64 = 0;
        for b in 0..NUM_LIMBS_64
            invariant
                0 < degree,
                t <= i64::MAX,
                all == coefficients_of(coeffs@),
                coeffs@.len() == NUM_LIMBS_64,
                chunk == row / degree,
                i == row % degree,
                i < degree,
                chunk < chunk_count(r as int, degree as int),
                forall|b: int|
                    0 <= b < NUM_LIMBS_64 ==> (#[trigger] coeffs@[b])@.len() == chunk_count(
                        r as int,
                        degree as int,
                    ),
                forall|b: int, c: int|
                    0 <= b < NUM_LIMBS_64 && 0 <= c < chunk_count(r as int, degree as int)
                        ==> (#[trigger] coeffs@[b]@[c])@.len() == degree,
                forall|b: int, c: int, i: int|
                    0 <= b < NUM_LIMBS_64 && 0 <= c < chunk_count(r as int, degree as int) && 0
                        <= i < degree ==> #[trigger] coeffs@[b]@[c]@[i] < t,
                share == (|b: int| limb_share(all, degree as int, t as int, row as int, b)),
                acc == wrapping::wrap(sums::sum(b as int, share)),
        {
            let index: usize = MAX_LIMBS_64 - b - 1;
            let shift: u64 = 4 * index as u64;
            let limb_chunks: &Vec<Vec<u64>> = &coeffs[b];
            let values: &Vec<u64> = &limb_chunks[chunk];
            assert(coeffs@[b as int]@[chunk as int]@[i as int] < t);
            let signed: i64 = from_modulo_p(t, values[i]);
            proof {
                vstd::bits::lemma_u64_pow2_no_overflow(shift as nat);
                vstd::bits::lemma_u64_shl_is_mul(1, shift);
            }
            let scale: u64 = 1u64 << shift;
            let digit: u64 = wrapping::from_signed(signed);
            proof {
                let q = wrapping::modulus();
                assert(all[b as int][chunk as int] =~= values@);
                wrapping::lemma_wrap(signed as int, 0);
                congruence::lemma_congruent_by_multiple(scale as int, scale as int, 0, q);
                congruence::lemma_congruent_product(
                    digit as int,
                    signed as int,
                    scale as int,
                    scale as int,
                    q,
                );
                wrapping::lemma_wrap(digit * scale, signed * scale);
                wrapping::lemma_wrap_step(
                    sums::sum(b as int, share),
                    signed as int,
                    scale as int,
                );
                assert(share(b as int) == signed * scale);
                assert(sums::sum(b + 1, share) == sums::sum(b as int, share) + share(b as int));
            }
            acc = wrapping::plus(acc, wrapping::times(digit, scale));
        }
        proof {
            sums::lemma_sum_same(
                NUM_LIMBS_64 as int,
                share,
                |b: int| limb_share(all, degree as int, t as int, row as int, b),
            );
        }
        h_s.push(acc);
    }
    h_s
}

/// What the answers decrypt to, limb by limb and chunk by chunk.
pub open spec fn decrypted_answers(answers: Seq<Vec<BfvCiphertext>>, key: BfvSecretKey) -> Seq<
    Seq<Seq<u64>>,
> {
    answers.map_values(
        |limb: Vec<BfvCiphertext>|
            limb@.map_values(|ct: BfvCiphertext| bfv::bfv_decryption(key.spec_key(), ct)->Some_0),
    )
}

/// There is one answer per kept limb and chunk.
pub open spec fn answers_fit(answers: Seq<Vec<BfvCiphertext>>, chunks: int) -> bool {
    &&& answers.len() == NUM_LIMBS_64
    &&& forall|b: int| 0 <= b < answers.len() ==> (#[trigger] answers[b])@.len() == chunks
}

/// Decrypts the answers and adds the limbs up to the product of the hint with the secret.
pub fn recover_h_s(
    bfv_answers: &[Vec<BfvCiphertext>],
    bfv_sk: &BfvSecretKey,
    r: usize,
    params: &BfvContext,
) -> (res: Result<Vec<u64>, CompressError>)
    requires
        bfv_sk.spec_degree() == params.spec_degree(),
        bfv_sk.spec_plaintext() == params.spec_plaintext(),
        0 < params.spec_degree(),
        params.spec_plaintext() <= i64::MAX,
    ensures
        !answers_fit(bfv_answers@, chunk_count(r as int, params.spec_degree())) ==> (res matches Err(
            CompressError::AnswersShapeMismatch { limbs, expected_limbs, expected_chunks },
        ) && limbs == bfv_answers@.len() && expected_limbs == NUM_LIMBS_64 && expected_chunks
            == chunk_count(r as int, params.spec_degree())),
        answers_fit(bfv_answers@, chunk_count(r as int, params.spec_degree())) ==> (res is Ok
            <==> forall|b: int, c: int|
            0 <= b < NUM_LIMBS_64 && 0 <= c < chunk_count(r as int, params.spec_degree())
                ==> bfv::bfv_decryption(
                bfv_sk.spec_key(),
                #[trigger] bfv_answers@[b]@[c],
            ) is Some),
        answers_fit(bfv_answers@, chunk_count(r as int, params.spec_degree())) && res is Err
            ==> res->Err_0 is Fhe,
        answers_fit(bfv_answers@, chunk_count(r as int, params.spec_degree())) && (forall|b: int|
            0 <= b < bfv_answers@.len() ==> made_under(
                (#[trigger] bfv_answers@[b])@,
                *bfv_sk.spec_handle(),
            )) ==> res is Ok,
        res matches Ok(h_s) ==> h_s@.len() == r && forall|row: int|
            0 <= row < r ==> #[trigger] h_s@[row] == recombined(
                decrypted_answers(bfv_answers@, *bfv_sk),
                params.spec_degree(),
                params.spec_plaintext() as int,
                row,
            ),
{
    let degree: usize = params.degree();
    let t: u64 = params.plaintext();
    let chunks: usize = count_chunks(r, degree);
    let mut fits: bool = bfv_answers.len() == NUM_LIMBS_64;
    for b in 0..bfv_answers.len()
        invariant
            fits ==> bfv_answers@.len() == NUM_LIMBS_64,
            fits ==> forall|a: int| 0 <= a < b ==> (#[trigger] bfv_answers@[a])@.len() == chunks,
            !fits ==> !answers_fit(bfv_answers@, chunks as int),
    {
        if bfv_answers[b].len() != chunks {
            fits = false;
        }
    }
    if !fits {
        return Err(
            CompressError::AnswersShapeMismatch {
                limbs: bfv_answers.len(),
                expected_limbs: NUM_LIMBS_64,
                expected_chunks: chunks,
            },
        );
    }
    let mut coeffs: Vec<Vec<Vec<u64>>> = Vec::with_capacity(NUM_LIMBS_64);
    for b in 0..NUM_LIMBS_64
        invariant
            answers_fit(bfv_answers@, chunks as int),
            chunks == chunk_count(r as int, params.spec_degree()),
            degree == params.spec_degree(),
            t == params.spec_plaintext(),
            bfv_sk.spec_degree() == degree,
            bfv_sk.spec_plaintext() == t,
            coeffs@.len() == b,
            forall|a: int| 0 <= a < b ==> (#[trigger] coeffs@[a])@.len() == chunks,
            forall|a: int, c: int|
                0 <= a < b && 0 <= c < chunks ==> Some((#[trigger] coeffs@[a]@[c])@)
                    == bfv::bfv_decryption(bfv_sk.spec_key(), bfv_answers@[a]@[c]),
            forall|a: int, c: int|
                0 <= a < b && 0 <= c < chunks ==> (#[trigger] coeffs@[a]@[c])@.len() == degree,
            forall|a: int, c: int, i: int|
                0 <= a < b && 0 <= c < chunks && 0 <= i < degree
                    ==> #[trigger] coeffs@[a]@[c]@[i] < t,
    {
        let limb_cts: &Vec<BfvCiphertext> = &bfv_answers[b];
        let mut limb_coeffs: Vec<Vec<u64>> = Vec::with_capacity(chunks);
        for c in 0..chunks
            invariant
                answers_fit(bfv_answers@, chunks as int),
                chunks == chunk_count(r as int, params.spec_degree()),
                degree == params.spec_degree(),
                t == params.spec_plaintext(),
                bfv_sk.spec_degree() == degree,
                bfv_sk.spec_plaintext() == t,
                b < NUM_LIMBS_64,
                limb_cts@ == bfv_answers@[b as int]@,
                limb_cts@.len() == chunks,
                limb_coeffs@.len() == c,
                forall|d: int|
                    0 <= d < c ==> Some((#[trigger] limb_coeffs@[d])@) == bfv::bfv_decryption(
                        bfv_sk.spec_key(),
                        bfv_answers@[b as int]@[d],
                    ),
                forall|d: int| 0 <= d < c ==> (#[trigger] limb_coeffs@[d])@.len() == degree,
                forall|d: int, i: int|
                    0 <= d < c && 0 <= i < degree ==> #[trigger] limb_coeffs@[d]@[i] < t,
        {
            match decrypt(bfv_sk, &limb_cts[c]) {
                Ok(values) => limb_coeffs.push(values),
                Err(e) => {
                    assert(bfv::bfv_decryption(
                        bfv_sk.spec_key(),
                        bfv_answers@[b as int]@[c as int],
                    ) is None);
                    assert(!made_under(bfv_answers@[b as int]@, *bfv_sk.spec_handle()));
                    return Err(CompressError::Fhe(e));
                },
            }
        }
        coeffs.push(limb_coeffs);
    }
    proof {
        let all = coefficients_of(coeffs@);
        let named = decrypted_answers(bfv_answers@, *bfv_sk);
        assert forall|b: int| 0 <= b < NUM_LIMBS_64 implies #[trigger] all[b] == named[b] by {
            assert forall|c: int| 0 <= c < chunks implies #[trigger] all[b][c] == named[b][c] by {
                assert(Some(coeffs@[b]@[c]@) == bfv::bfv_decryption(
                    bfv_sk.spec_key(),
                    bfv_answers@[b]@[c],
                ));
            }
            assert(all[b] =~= named[b]);
        }
        assert(all =~= named);
        assert forall|b: int, c: int|
            0 <= b < NUM_LIMBS_64 && 0 <= c < chunks implies bfv::bfv_decryption(
            bfv_sk.spec_key(),
            #[trigger] bfv_answers@[b]@[c],
        ) is Some by {
            assert(Some(coeffs@[b]@[c]@) == bfv::bfv_decryption(
                bfv_sk.spec_key(),
                bfv_answers@[b]@[c],
            ));
        }
    }
    Ok(recombine(&coeffs, r, degree, t))
}

/// The top limbs of a number add up to the number without the bits below them.
proof fn lemma_limbs_from_top(v: u64, n: int)
    requires
        0 <= n <= MAX_LIMBS_64,
    ensures
        sums::sum(n, |b: int| limb(v, 15 - b) * pow2((4 * (15 - b)) as nat)) == (v as int / pow2(
            (4 * (16 - n)) as nat,
        ) as int) * pow2((4 * (16 - n)) as nat),
    decreases n,
{
    let term = |b: int| limb(v, 15 - b) * pow2((4 * (15 - b)) as nat);
    if n == 0 {
        vstd::arithmetic::power2::lemma2_to64();
        vstd::arithmetic::power2::lemma2_to64_rest();
        assert(pow2(64) == 0x1_0000_0000_0000_0000);
        assert(v as int / 0x1_0000_0000_0000_0000 == 0);
        assert((4 * (16 - n)) as nat == 64);
        assert(0 * pow2(64) == 0) by (nonlinear_arith);
    } else {
        lemma_limbs_from_top(v, n - 1);
        let low = (4 * (16 - n)) as nat;
        let high = (4 * (16 - (n - 1))) as nat;
        let step = pow2(low) as int;
        vstd::arithmetic::power2::lemma_pow2_pos(low);
        vstd::arithmetic::power2::lemma_pow2_adds(low, 4);
        vstd::arithmetic::power2::lemma2_to64();
        assert(pow2(high) == step * 16);
        let x = v as int / step;
        vstd::arithmetic::div_mod::lemma_div_denominator(v as int, step, 16);
        assert(v as int / pow2(high) as int == x / 16);
        vstd::arithmetic::div_mod::lemma_fundamental_div_mod(x, 16);
        assert((x / 16) * (step * 16) + (x % 16) * step == x * step) by (nonlinear_arith)
            requires
                x == 16 * (x / 16) + x % 16,
        ;
        assert(term(n - 1) == (x % 16) * step);
        sums::lemma_sum_same(
            n - 1,
            term,
            |b: int| limb(v, 15 - b) * pow2((4 * (15 - b)) as nat),
        );
        assert(sums::sum(n, term) == sums::sum(n - 1, term) + term(n - 1));
        assert(sums::sum(n - 1, term) == (x / 16) * (step * 16));
        sums::lemma_sum_same(n, term, |b: int| limb(v, 15 - b) * pow2((4 * (15 - b)) as nat));
    }
}

/// The kept limbs of a number, scaled and added up, are the number with its low 32 bits cleared.
pub proof fn kept_limbs_are_the_top_half(v: u64)
    ensures
        sums::sum(
            NUM_LIMBS_64 as int,
            |b: int| limb(v, MAX_LIMBS_64 - b - 1) * pow2((4 * (MAX_LIMBS_64 - b - 1)) as nat),
        ) == v - v % 0x1_0000_0000,
{
    let from_top = |b: int| limb(v, 15 - b) * pow2((4 * (15 - b)) as nat);
    let kept = |b: int|
        limb(v, MAX_LIMBS_64 - b - 1) * pow2((4 * (MAX_LIMBS_64 - b - 1)) as nat);
    lemma_limbs_from_top(v, 8);
    sums::lemma_sum_same(8, from_top, kept);
    vstd::arithmetic::power2::lemma2_to64();
    let e = (4 * (16 - 8int)) as nat;
    assert(e == 32);
    assert(sums::sum(8, from_top) == (v as int / pow2(e) as int) * pow2(e));
    vstd::arithmetic::div_mod::lemma_fundamental_div_mod(v as int, pow2(e) as int);
    assert((v as int / pow2(e) as int) * pow2(e) == pow2(e) * (v as int / pow2(e) as int))
        by (nonlinear_arith);
}

/// The share of limb `index` of row `row` of a hint in the product with a secret.
pub open spec fn limb_dot(hint: Seq<u64>, s: Seq<u8>, row: int, index: int) -> int {
    sums::sum(s.len() as int, |j: int| s[j] * limb(hint[row * s.len() + j], index))
}

/// What the bits below the kept limbs would add to row `row` of the product with a secret.
pub open spec fn dropped(hint: Seq<u64>, s: Seq<u8>, row: int) -> int {
    sums::sum(s.len() as int, |j: int| s[j] * (hint[row * s.len() + j] % 0x1_0000_0000) as int)
}

/// Coefficients that are the limbs' shares of a product and lie in the lower half of the modulus.
pub open spec fn coefficients_are_shares(
    coeffs: Seq<Seq<Seq<u64>>>,
    hint: Seq<u64>,
    s: Seq<u8>,
    degree: int,
    t: int,
    row: int,
) -> bool {
    forall|b: int|
        0 <= b < NUM_LIMBS_64 ==> (#[trigger] coeffs[b])[row / degree][row % degree] == limb_dot(
            hint,
            s,
            row,
            MAX_LIMBS_64 - b - 1,
        ) && limb_dot(hint, s, row, MAX_LIMBS_64 - b - 1) <= t / 2
}

/// Recombining the limbs' shares of a product gives the product of the hint with the secret, less
/// what the dropped bits would add, modulo `2^64`.
pub proof fn recombining_gives_the_product(
    coeffs: Seq<Seq<Seq<u64>>>,
    hint: Seq<u64>,
    s: Seq<u8>,
    degree: int,
    t: int,
    row: int,
)
    requires
        coefficients_are_shares(coeffs, hint, s, degree, t, row),
    ensures
        congruence::congruent(
            recombined(coeffs, degree, t, row) as int,
            lwe::row_times_secret(hint, s, row) - dropped(hint, s, row),
            wrapping::modulus(),
        ),
{
    let q = wrapping::modulus();
    let n = s.len() as int;
    let w = lwe::wide(s);
    let scale = |b: int| pow2((4 * (MAX_LIMBS_64 - b - 1)) as nat) as int;
    let share = |b: int| limb_share(coeffs, degree, t, row, b);
    let cell = |b: int, j: int|
        s[j] * (limb(hint[row * n + j], MAX_LIMBS_64 - b - 1) * scale(b));
    let by_limb = |b: int| sums::sum(n, |j: int| cell(b, j));
    let by_entry = |j: int| sums::sum(8, |b: int| cell(b, j));
    assert forall|b: int| 0 <= b < 8 implies #[trigger] share(b) == by_limb(b) by {
        assert(coeffs[b][row / degree][row % degree] == limb_dot(
            hint,
            s,
            row,
            MAX_LIMBS_64 - b - 1,
        ));
        let line = |j: int| s[j] * limb(hint[row * n + j], MAX_LIMBS_64 - b - 1);
        sums::lemma_sum_scale(n, scale(b), line);
        let scaled = |j: int| scale(b) * line(j);
        assert forall|j: int| 0 <= j < n implies #[trigger] scaled(j) == cell(b, j) by {
            let l = limb(hint[row * n + j], MAX_LIMBS_64 - b - 1);
            assert(scale(b) * (s[j] * l) == s[j] * (l * scale(b))) by (nonlinear_arith);
        }
        sums::lemma_sum_same(n, scaled, |j: int| cell(b, j));
        sums::lemma_sum_same(n, |j: int| scale(b) * line(j), scaled);
        sums::lemma_sum_same(
            n,
            line,
            |j: int| s[j] * limb(hint[row * s.len() + j], MAX_LIMBS_64 - b - 1),
        );
        let d = limb_dot(hint, s, row, MAX_LIMBS_64 - b - 1);
        assert(scale(b) * d == d * scale(b)) by (nonlinear_arith);
    }
    sums::lemma_sum_same(8, share, by_limb);
    sums::lemma_sum_swap(8, n, cell);
    sums::lemma_sum_same(8, by_limb, |b: int| sums::sum(n, |j: int| cell(b, j)));
    sums::lemma_sum_same(n, by_entry, |j: int| sums::sum(8, |b: int| cell(b, j)));
    let whole = |t: int| hint[row * n + t * 1] * w[0 + t * 1];
    let low = |j: int| s[j] * (hint[row * n + j] % 0x1_0000_0000) as int;
    let kept = |j: int| whole(j) - low(j);
    assert forall|j: int| 0 <= j < n implies #[trigger] by_entry(j) == kept(j) by {
        let v = hint[row * n + j];
        let top = |b: int| limb(v, MAX_LIMBS_64 - b - 1) * scale(b);
        kept_limbs_are_the_top_half(v);
        sums::lemma_sum_same(
            8,
            top,
            |b: int| limb(v, MAX_LIMBS_64 - b - 1) * pow2((4 * (MAX_LIMBS_64 - b - 1)) as nat),
        );
        sums::lemma_sum_scale(8, s[j] as int, top);
        sums::lemma_sum_same(8, |b: int| cell(b, j), |b: int| s[j] as int * top(b));
        assert(s[j] * (v - v % 0x1_0000_0000) == v * s[j] - s[j] * (v % 0x1_0000_0000))
            by (nonlinear_arith);
        assert(w[j] == s[j]);
    }
    sums::lemma_sum_same(n, by_entry, kept);
    sums::lemma_sum_add(n, whole, low);
    sums::lemma_sum_same(n, kept, |j: int| whole(j) - low(j));
    sums::lemma_sum_same(n, whole, |t: int| hint[row * s.len() + t * 1] * w[0 + t * 1]);
    sums::lemma_sum_same(
        n,
        low,
        |j: int| s[j] * (hint[row * s.len() + j] % 0x1_0000_0000) as int,
    );
    sums::lemma_sum_same(8, share, |b: int| limb_share(coeffs, degree, t, row, b));
    wrapping::lemma_wrap(sums::sum(8, share), 0);
}

/// The dropped bits add less than `2^33` per entry of a secret of 0, 1 and 2.
pub proof fn dropped_bits_are_bounded(hint: Seq<u64>, s: Seq<u8>, row: int)
    requires
        forall|j: int| 0 <= j < s.len() ==> #[trigger] s[j] <= 2,
    ensures
        0 <= dropped(hint, s, row) <= s.len() * 0x1_FFFF_FFFE,
{
    let low = |j: int| s[j] * (hint[row * s.len() + j] % 0x1_0000_0000) as int;
    assert forall|j: int| 0 <= j < s.len() implies 0 <= #[trigger] low(j) <= 0x1_FFFF_FFFE by {
        let l = (hint[row * s.len() + j] % 0x1_0000_0000) as int;
        assert(0 <= s[j] * l <= 0x1_FFFF_FFFE) by (nonlinear_arith)
            requires
                0 <= s[j] <= 2,
                0 <= l <= 0xFFFF_FFFF,
        ;
    }
    sums::lemma_sum_bounds(s.len() as int, 0, 0x1_FFFF_FFFE, low);
    sums::lemma_sum_same(
        s.len() as int,
        low,
        |j: int| s[j] * (hint[row * s.len() + j] % 0x1_0000_0000) as int,
    );
}

/// The compressed hint serves: if the answers decrypt to the limbs' shares of the product of the
/// hint with the secret, and noise and dropped bits together stay below half the spacing, then
/// taking the recombined limbs off the server's answer and rounding gives the product of the
/// matrix with the query modulo `P`.
pub proof fn compressed_answers_give_matrix_vector_product(
    m_db: Seq<u64>,
    r: int,
    c: int,
    seed: Seq<u8>,
    s: Seq<u8>,
    query: Seq<u64>,
    noise: Seq<i64>,
    params: Params,
    coeffs: Seq<Seq<Seq<u64>>>,
    degree: int,
    t: int,
    i: int,
)
    requires
        params.valid(),
        0 <= c,
        m_db.len() == r * c,
        query.len() == c,
        noise.len() == c,
        0 <= i < r,
        coefficients_are_shares(
            coeffs,
            simplepir::matrix_product(
                m_db,
                r,
                c,
                simplepir::public_matrix(seed, c, s.len() as int),
                s.len() as int,
            ),
            s,
            degree,
            t,
            i,
        ),
        ({
            let hint = simplepir::matrix_product(
                m_db,
                r,
                c,
                simplepir::public_matrix(seed, c, s.len() as int),
                s.len() as int,
            );
            -(params.spacing() / 2) <= simplepir::row_times_noise(m_db, c, noise, i) + dropped(
                hint,
                s,
                i,
            ) < params.spacing() / 2
        }),
    ensures
        ({
            let a = simplepir::public_matrix(seed, c, s.len() as int);
            let ans = simplepir::answer(m_db, r, c, lwe::ciphertext(a, s, query, noise, params));
            params.nearest(
                wrapping::wrap(ans[i] - recombined(coeffs, degree, t, i)) as int,
            ) == simplepir::row_times_query(m_db, c, query, i) % params.plaintext_modulus()
        }),
{
    let hint = simplepir::matrix_product(
        m_db,
        r,
        c,
        simplepir::public_matrix(seed, c, s.len() as int),
        s.len() as int,
    );
    recombining_gives_the_product(coeffs, hint, s, degree, t, i);
    simplepir::answers_decrypt_up_to_a_loss(
        m_db,
        r,
        c,
        seed,
        s,
        query,
        noise,
        params,
        i,
        recombined(coeffs, degree, t, i),
        dropped(hint, s, i),
    );
}

/// The sixteen limbs of a number, scaled and added up, are the number, and each is below sixteen.
pub proof fn limbs_make_up_the_number(v: u64, index: int)
    requires
        0 <= index < MAX_LIMBS_64,
    ensures
        limb(v, index) < 16,
        sums::sum(
            MAX_LIMBS_64 as int,
            |b: int| limb(v, 15 - b) * pow2((4 * (15 - b)) as nat),
        ) == v,
{
    let from_top = |b: int| limb(v, 15 - b) * pow2((4 * (15 - b)) as nat);
    lemma_limbs_from_top(v, 16);
    vstd::arithmetic::power2::lemma2_to64();
    let e = (4 * (16 - 16int)) as nat;
    assert(e == 0 && pow2(e) == 1);
    let whole = v as int / 1;
    assert(whole == v && whole * 1 == v);
    assert(sums::sum(16, from_top) == (v as int / pow2(e) as int) * pow2(e));
    vstd::arithmetic::div_mod::lemma_mod_bound(v as int / pow2((4 * index) as nat) as int, 16);
}

/// Numbers below a modulus are read as the integers closest to zero.
pub proof fn centred_numbers_are_closest_to_zero(t: int, x: int)
    requires
        2 < t,
        t % 2 == 1,
        -(t / 2) <= x <= t / 2,
    ensures
        centred(t, x % t) == x,
{
    if x < 0 {
        vstd::arithmetic::div_mod::lemma_fundamental_div_mod_converse(x, t, -1, x + t);
    } else {
        vstd::arithmetic::div_mod::lemma_small_mod(x as nat, t as nat);
    }
}

/// Every row of a hint stands in the polynomials of its column: the coefficient of a row in the
/// polynomial of a limb is below sixteen, the coefficients of all sixteen limbs make up the entry of
/// that row, those of the top eight make up its top 32 bits, and past the last row there are zeros.
pub proof fn planes_hold_every_row(
    hint: Seq<u64>,
    r: int,
    n_lwe: int,
    degree: int,
    chunk: int,
    col: int,
    i: int,
)
    requires
        0 <= i < degree,
        0 <= chunk,
    ensures
        forall|index: int|
            0 <= index < MAX_LIMBS_64 ==> (#[trigger] plane(
                hint,
                r,
                n_lwe,
                degree,
                index,
                chunk,
                col,
            )).len() == degree,
        forall|index: int|
            0 <= index < MAX_LIMBS_64 ==> (#[trigger] plane(
                hint,
                r,
                n_lwe,
                degree,
                index,
                chunk,
                col,
            ))[i] < 16,
        chunk * degree + i < r ==> sums::sum(
            MAX_LIMBS_64 as int,
            |b: int|
                plane(hint, r, n_lwe, degree, 15 - b, chunk, col)[i] * pow2((4 * (15 - b)) as nat),
        ) == hint[(chunk * degree + i) * n_lwe + col],
        chunk * degree + i < r ==> sums::sum(
            NUM_LIMBS_64 as int,
            |b: int|
                plane(hint, r, n_lwe, degree, 15 - b, chunk, col)[i] * pow2((4 * (15 - b)) as nat),
        ) == hint[(chunk * degree + i) * n_lwe + col] - hint[(chunk * degree + i) * n_lwe + col]
            % 0x1_0000_0000,
        chunk * degree + i >= r ==> forall|index: int|
            (#[trigger] plane(hint, r, n_lwe, degree, index, chunk, col))[i] == 0,
{
    let v = hint[(chunk * degree + i) * n_lwe + col];
    let whole = |b: int|
        plane(hint, r, n_lwe, degree, 15 - b, chunk, col)[i] * pow2((4 * (15 - b)) as nat);
    limbs_make_up_the_number(v, 0);
    kept_limbs_are_the_top_half(v);
    if chunk * degree + i < r {
        sums::lemma_sum_same(
            MAX_LIMBS_64 as int,
            whole,
            |b: int| limb(v, 15 - b) * pow2((4 * (15 - b)) as nat),
        );
        sums::lemma_sum_same(
            NUM_LIMBS_64 as int,
            whole,
            |b: int| limb(v, MAX_LIMBS_64 - b - 1) * pow2((4 * (MAX_LIMBS_64 - b - 1)) as nat),
        );
    }
}

/// A compressed hint holds every entry of the hint: for every row and column, the coefficients at that
/// row of the plaintexts of the column, scaled and added up, are the entry with its low 32 bits
/// cleared.
pub proof fn compressed_hints_hold_every_entry(
    compressed: CompressedHint,
    hint: Seq<u64>,
    degree: int,
    row: int,
    col: int,
)
    requires
        compressed.holds(hint, degree),
        0 < degree,
        0 <= row < compressed.spec_r(),
        0 <= col < compressed.spec_n_lwe(),
    ensures
        ({
            let at = (row / degree) * compressed.spec_n_lwe() + col;
            let v = hint[row * compressed.spec_n_lwe() + col];
            &&& compressed.spec_pts().len() == NUM_LIMBS_64
            &&& forall|b: int|
                0 <= b < NUM_LIMBS_64 ==> 0 <= at < (#[trigger] compressed.spec_pts()[b])@.len()
            &&& sums::sum(
                NUM_LIMBS_64 as int,
                |b: int|
                    bfv::plaintext_coefficients(compressed.spec_pts()[b]@[at])[row % degree]
                        * pow2((4 * (15 - b)) as nat),
            ) == v - v % 0x1_0000_0000
        }),
{
    let n = compressed.spec_n_lwe();
    let chunk = row / degree;
    let i = row % degree;
    let at = chunk * n + col;
    lemma_row_place(compressed.spec_r(), degree, row);
    layout::lemma_entry_in_range(chunk, col, compressed.spec_chunks(), n);
    planes_hold_every_row(hint, compressed.spec_r(), n, degree, chunk, col, i);
    let held = |b: int|
        bfv::plaintext_coefficients(compressed.spec_pts()[b]@[at])[row % degree] * pow2(
            (4 * (15 - b)) as nat,
        );
    let plane_at = |b: int|
        plane(hint, compressed.spec_r(), n, degree, 15 - b, chunk, col)[i] * pow2(
            (4 * (15 - b)) as nat,
        );
    assert forall|b: int| 0 <= b < NUM_LIMBS_64 implies #[trigger] held(b) == plane_at(b) by {
        assert(bfv::plaintext_coefficients(compressed.spec_pts()[b]@[chunk * n + col]) == plane(
            hint,
            compressed.spec_r(),
            n,
            degree,
            MAX_LIMBS_64 - b - 1,
            chunk,
            col,
        ));
    }
    sums::lemma_sum_same(NUM_LIMBS_64 as int, held, plane_at);
}

/// Where a row stands among the chunks.
proof fn lemma_row_place(r: int, degree: int, row: int)
    requires
        0 < degree,
        0 <= row < r,
    ensures
        0 <= row / degree < chunk_count(r, degree),
        0 <= row % degree < degree,
        (row / degree) * degree + row % degree == row,
{
    vstd::arithmetic::div_mod::lemma_fundamental_div_mod(row, degree);
    assert(degree * (row / degree) == (row / degree) * degree) by (nonlinear_arith);
    assert(0 <= row / degree) by (nonlinear_arith)
        requires
            0 <= row,
            0 < degree,
    ;
    let chunks = chunk_count(r, degree);
    vstd::arithmetic::div_mod::lemma_fundamental_div_mod(r + degree - 1, degree);
    assert(row / degree < chunks) by (nonlinear_arith)
        requires
            (row / degree) * degree <= row,
            row < r,
            r + degree - 1 < degree * chunks + degree,
            0 < degree,
    ;
}

/// A ciphertext decrypts to the sum of the entries of a secret times plaintexts, coefficient by
/// coefficient, modulo `t`.
pub open spec fn decrypts_to_sum(
    key: BfvSecretKey,
    ct: BfvCiphertext,
    secret: Seq<u8>,
    pts: Seq<Plaintext>,
    t: int,
) -> bool {
    &&& bfv::bfv_decryption(key.spec_key(), ct) is Some
    &&& forall|i: int|
        0 <= i < key.spec_degree() ==> (#[trigger] bfv::bfv_decryption(
            key.spec_key(),
            ct,
        )->Some_0[i]) as int == sums::sum(
            secret.len() as int,
            |j: int| secret[j] * bfv::plaintext_coefficients(pts[j])[i],
        ) % t
}

/// The compressed hint serves, row by row: if each answer decrypts to the sum of the secret's entries
/// times the plaintexts that it was formed of, and the limbs' shares of a row stay within half the
/// modulus, then what is recovered for the row is the hint's row times the secret, modulo `2^64`, less
/// what the low 32 bits of the row's entries would add. No row is left out.
pub proof fn recovered_rows_are_the_hint_times_the_secret(
    compressed: &CompressedHint,
    hint: Seq<u64>,
    key: BfvSecretKey,
    secret: Seq<u8>,
    answers: Seq<Vec<BfvCiphertext>>,
    t: int,
    row: int,
)
    requires
        compressed.holds(hint, key.spec_degree()),
        0 < key.spec_degree(),
        0 < t,
        secret.len() == compressed.spec_n_lwe(),
        answers_fit(answers, compressed.spec_chunks()),
        forall|b: int, chunk: int|
            0 <= b < NUM_LIMBS_64 && 0 <= chunk < compressed.spec_chunks() ==> decrypts_to_sum(
                key,
                #[trigger] answers[b]@[chunk],
                secret,
                compressed.spec_pts()[b]@.subrange(
                    chunk * compressed.spec_n_lwe(),
                    (chunk + 1) * compressed.spec_n_lwe(),
                ),
                t,
            ),
        0 <= row < compressed.spec_r(),
        forall|index: int|
            8 <= index < MAX_LIMBS_64 ==> #[trigger] limb_dot(hint, secret, row, index) <= t / 2,
    ensures
        coefficients_are_shares(
            decrypted_answers(answers, key),
            hint,
            secret,
            key.spec_degree(),
            t,
            row,
        ),
        congruence::congruent(
            recombined(decrypted_answers(answers, key), key.spec_degree(), t, row) as int,
            sums::sum(
                secret.len() as int,
                |j: int| hint[row * secret.len() + j] * secret[j],
            ) - sums::sum(
                secret.len() as int,
                |j: int| secret[j] * (hint[row * secret.len() + j] as int % 0x1_0000_0000),
            ),
            wrapping::modulus(),
        ),
{
    let degree = key.spec_degree();
    let n = compressed.spec_n_lwe();
    let chunk = row / degree;
    let i = row % degree;
    let coeffs = decrypted_answers(answers, key);
    lemma_row_place(compressed.spec_r(), degree, row);
    assert forall|b: int| 0 <= b < NUM_LIMBS_64 implies (#[trigger] coeffs[b])[chunk][i]
        == limb_dot(hint, secret, row, MAX_LIMBS_64 - b - 1) && limb_dot(
        hint,
        secret,
        row,
        MAX_LIMBS_64 - b - 1,
    ) <= t / 2 by {
        let index = MAX_LIMBS_64 - b - 1;
        let ct = answers[b]@[chunk];
        let pts = compressed.spec_pts()[b]@.subrange(chunk * n, (chunk + 1) * n);
        assert(decrypts_to_sum(key, ct, secret, pts, t));
        assert(coeffs[b][chunk] == bfv::bfv_decryption(key.spec_key(), ct)->Some_0);
        let share = |j: int| secret[j] * limb(hint[row * secret.len() + j], index);
        assert((chunk + 1) * n == chunk * n + n) by (nonlinear_arith);
        assert forall|j: int| 0 <= j < n implies #[trigger] share(j) == secret[j]
            * bfv::plaintext_coefficients(pts[j])[i] by {
            layout::lemma_entry_in_range(chunk, j, compressed.spec_chunks(), n);
            layout::lemma_entry_in_range(chunk, n - 1, compressed.spec_chunks(), n);
            assert(compressed.spec_pts()[b]@.len() == compressed.spec_chunks() * n);
            assert(pts[j] == compressed.spec_pts()[b]@[chunk * n + j]);
            assert(bfv::plaintext_coefficients(compressed.spec_pts()[b]@[chunk * n + j]) == plane(
                hint,
                compressed.spec_r(),
                n,
                degree,
                index,
                chunk,
                j,
            ));
        }
        sums::lemma_sum_same(
            n,
            share,
            |j: int| secret[j] * bfv::plaintext_coefficients(pts[j])[i],
        );
        let total = limb_dot(hint, secret, row, index);
        sums::lemma_sum_same(
            n,
            share,
            |j: int| secret[j] * limb(hint[row * secret.len() + j], index),
        );
        let most: int = 255 * u64::MAX;
        assert forall|j: int| 0 <= j < n implies 0 <= #[trigger] share(j) <= most by {
            let (x, y) = (secret[j] as int, limb(hint[row * secret.len() + j], index) as int);
            assert(0 <= x * y <= 255 * u64::MAX) by (nonlinear_arith)
                requires
                    0 <= x <= 255,
                    0 <= y <= u64::MAX,
            ;
        }
        sums::lemma_sum_bounds(n, 0, most, share);
        assert(n * 0 == 0);
        assert(total < t) by (nonlinear_arith)
            requires
                total <= t / 2,
                0 < t,
        ;
        vstd::arithmetic::div_mod::lemma_small_mod(total as nat, t as nat);
    }
    recombining_gives_the_product(coeffs, hint, secret, degree, t, row);
    sums::lemma_sum_same(
        secret.len() as int,
        |j: int| hint[row * secret.len() + j * 1] * lwe::wide(secret)[0 + j * 1],
        |j: int| hint[row * secret.len() + j] * secret[j],
    );
    sums::lemma_sum_same(
        secret.len() as int,
        |j: int| secret[j] * (hint[row * secret.len() + j] % 0x1_0000_0000) as int,
        |j: int| secret[j] * (hint[row * secret.len() + j] as int % 0x1_0000_0000),
    );
}

/// Chunks hold all rows, and no chunk is without a row.
pub proof fn chunks_hold_all_rows(r: int, degree: int)
    requires
        0 <= r,
        0 < degree,
    ensures
        r <= chunk_count(r, degree) * degree < r + degree,
{
    let chunks = chunk_count(r, degree);
    vstd::arithmetic::div_mod::lemma_fundamental_div_mod(r + degree - 1, degree);
    assert(degree * chunks == chunks * degree) by (nonlinear_arith);
}

/// A token decrypts to the secret: there is a ciphertext for every entry, which decrypts to a
/// polynomial that has the entry as its constant coefficient and no others.
pub proof fn tokens_decrypt_to_every_entry(
    key: BfvSecretKey,
    token: Seq<BfvCiphertext>,
    secret: Seq<u8>,
    j: int,
    i: int,
)
    requires
        holds_secret(key, token, secret),
        0 <= j < secret.len(),
        0 <= i < key.spec_degree(),
    ensures
        token.len() == secret.len(),
        bfv::bfv_decryption(key.spec_key(), token[j]) is Some,
        ({
            let polynomial = bfv::bfv_decryption(key.spec_key(), token[j])->Some_0;
            &&& polynomial.len() == key.spec_degree()
            &&& polynomial[i] == (if i == 0 {
                secret[j] as int
            } else {
                0
            })
        }),
{
    assert(bfv::bfv_decryption(key.spec_key(), token[j]) is Some);
}

/// The coefficients of limbs and chunks stand where they were given.
pub proof fn coefficients_stay_in_their_places(
    coeffs: Seq<Vec<Vec<u64>>>,
    b: int,
    chunk: int,
    i: int,
)
    requires
        0 <= b < coeffs.len(),
        0 <= chunk < coeffs[b]@.len(),
        0 <= i < coeffs[b]@[chunk]@.len(),
    ensures
        coefficients_of(coeffs).len() == coeffs.len(),
        coefficients_of(coeffs)[b].len() == coeffs[b]@.len(),
        coefficients_of(coeffs)[b][chunk].len() == coeffs[b]@[chunk]@.len(),
        coefficients_of(coeffs)[b][chunk][i] == coeffs[b]@[chunk]@[i],
{
}

/// A secret is refused for its first entry that is not 0, 1 or 2, which the error names.
pub proof fn errors_name_the_first_bad_entry(secret: Seq<u8>, e: CompressError)
    requires
        is_range_error(secret, e),
    ensures
        e is LweSecretOutOfRange,
        e->LweSecretOutOfRange_index < secret.len(),
        e->LweSecretOutOfRange_value == secret[e->LweSecretOutOfRange_index as int],
        secret[e->LweSecretOutOfRange_index as int] > 2,
        forall|j: int| 0 <= j < e->LweSecretOutOfRange_index ==> #[trigger] secret[j] <= 2,
        !is_ternary(secret),
{
    let index = e->LweSecretOutOfRange_index as int;
    assert forall|j: int| 0 <= j < index implies #[trigger] secret[j] <= 2 by {
        assert(secret.take(index)[j] == secret[j]);
    }
}

} // verus!
