//! Scoring of a query, from routing to the ranking.

use std::sync::Arc;

use rand_chacha::ChaCha20Rng;
use vstd::arithmetic::power2::pow2;
use vstd::prelude::*;

use crate::hits;
use crate::hits::{rank, Hit};
use crate::math::congruence;
use crate::math::sums;
use crate::math::wrapping;
use crate::tiptoe::bfv;
use crate::tiptoe::bfv::{seeded_generator, BfvCiphertext, BfvContext, BfvSecretKey};
use crate::tiptoe::cluster;
use crate::tiptoe::cluster::{EncodedClusters, ScaledVector};
use crate::tiptoe::compress;
use crate::tiptoe::compress::{
    apply_hint, encrypt_secret_under_bfv, recover_h_s, CompressError, CompressedHint, NUM_LIMBS_64,
};
use crate::tiptoe::encoding;
use crate::tiptoe::encoding::{dequantise_component, EncodingError};
use crate::tiptoe::lwe;
use crate::tiptoe::lwe::{decrypt_vec, Params, SecretKey};
use crate::tiptoe::routing;
use crate::tiptoe::routing::{build_augmented_query, route};
use crate::tiptoe::simplepir;
use crate::tiptoe::simplepir::{encrypt_lhe, server_answer, PirSetup};

verus! {

/// Why vectors could not be uploaded or scored.
#[derive(Debug)]
pub enum TiptoeError {
    /// There is no vector.
    EmptyCorpus,
    /// A cluster has no vector.
    EmptyCluster,
    /// There is no cluster, or there are more than vectors.
    TooManyCentroids(usize),
    /// A query has another number of components than the vectors.
    DimensionMismatch {
        /// Components of the query.
        query_dim: usize,
        /// Components of the vectors.
        index_dim: usize,
    },
    /// A vector cannot be encoded.
    QuantisationOverflow(EncodingError),
    /// The hint could not be compressed, applied or recovered.
    BfvCompositionFailed(CompressError),
    /// The work could not be done.
    SpawnPanic,
}

/// How long the steps of a query took.
#[derive(Debug, Clone, Copy, Default)]
pub struct TiptoeTiming {
    /// Microseconds for picking the cluster.
    pub route_us: u64,
    /// Microseconds for encoding and encrypting the query.
    pub lwe_encrypt_us: u64,
    /// Microseconds for the answer.
    pub server_us: u64,
    /// Microseconds for applying the hint and recovering its product with the secret.
    pub bfv_decompress_us: u64,
    /// Microseconds for decoding and ranking.
    pub decode_us: u64,
}

/// Encoded clusters, with what is needed to score them. No key is kept.
pub struct TiptoeHandle {
    /// The encoded clusters.
    pub encoded: Arc<EncodedClusters>,
    /// What was computed of their matrix.
    pub pir_setup: Arc<PirSetup>,
    /// The hint, cut into limbs.
    pub compressed_hint: Arc<CompressedHint>,
    /// Parameters of the encryption of queries.
    pub lwe_params: Params,
    /// Parameters of the encryption of secrets.
    pub bfv_params: BfvContext,
    /// Bits of a component's magnitude.
    pub quantisation_bits: u8,
    /// Components of the vectors.
    pub dim: usize,
}

impl TiptoeHandle {
    /// Queries can be encoded for the clusters.
    pub open spec fn takes_queries(&self) -> bool {
        &&& self.encoded.well_formed()
        &&& self.encoded.spec_d() == self.dim
        &&& 0 < self.encoded.spec_n_centroids()
        &&& self.lwe_params.valid()
        &&& self.quantisation_bits <= 30
        &&& self.lwe_params.log2_p <= 62
    }

    /// The parts of the handle fit together.
    pub open spec fn well_formed(&self) -> bool {
        &&& self.takes_queries()
        &&& self.pir_setup.r == self.encoded.spec_m_max()
        &&& self.pir_setup.c == self.encoded.spec_width()
        &&& self.pir_setup.n == self.lwe_params.n
        &&& 2 * self.pir_setup.c * self.pir_setup.n <= usize::MAX
        &&& self.compressed_hint.well_formed()
        &&& self.compressed_hint.spec_pts().len() == NUM_LIMBS_64
        &&& self.compressed_hint.spec_n_lwe() == self.lwe_params.n
        &&& self.compressed_hint.encoded_for(*self.bfv_params.spec_handle())
        &&& 0 < self.lwe_params.n
        &&& self.compressed_hint.spec_chunks() == compress::chunk_count(
            self.encoded.spec_m_max(),
            self.bfv_params.spec_degree(),
        )
        &&& 0 < self.bfv_params.spec_degree()
        &&& 2 < self.bfv_params.spec_plaintext() <= i64::MAX
    }

    /// The encoded clusters.
    pub fn encoded(&self) -> (r: &EncodedClusters)
        ensures
            *r == *self.encoded,
    {
        &self.encoded
    }

    /// Bits of a component's magnitude.
    pub fn quantisation_bits(&self) -> (r: u8)
        ensures
            r == self.quantisation_bits,
    {
        self.quantisation_bits
    }
}

/// A query that is routed and encoded.
pub struct PreparedQuery {
    /// The cluster that it asks for.
    pub cluster_idx: usize,
    /// The query in the columns of that cluster, and zeros elsewhere.
    pub q_tilde: Vec<u64>,
}

/// Routes a query to the nearest cluster and encodes it for that cluster's columns.
///
/// Components are given scaled and rounded, and absent where they are not finite; the distances
/// from the centroids, as the bits of single-precision numbers.
pub fn prepare_query(handle: &TiptoeHandle, query: &[Option<i64>], distances: &[u32]) -> (r: Result<
    PreparedQuery,
    TiptoeError,
>)
    requires
        handle.takes_queries(),
        distances@.len() == handle.encoded.spec_n_centroids(),
    ensures
        query@.len() != handle.dim ==> r == Err::<PreparedQuery, TiptoeError>(
            TiptoeError::DimensionMismatch { query_dim: query.len(), index_dim: handle.dim },
        ),
        query@.len() == handle.dim && encoding::first_non_finite(query@) < query@.len() ==> r
            == Err::<PreparedQuery, TiptoeError>(
            TiptoeError::QuantisationOverflow(
                EncodingError::NonFinite { index: encoding::first_non_finite(query@) as usize },
            ),
        ),
        query@.len() == handle.dim && encoding::first_non_finite(query@) == query@.len() ==> r is Ok
            && r->Ok_0.cluster_idx == routing::chosen(distances@, distances@.len() as int)
            && r->Ok_0.cluster_idx < handle.encoded.spec_n_centroids() && r->Ok_0.q_tilde@
            == encoded_query(*handle, query@, r->Ok_0.cluster_idx as int),
{
    if query.len() != handle.dim {
        return Err(
            TiptoeError::DimensionMismatch { query_dim: query.len(), index_dim: handle.dim },
        );
    }
    proof {
        encoding::lemma_first_non_finite(query@);
        handle.lwe_params.lemma_moduli();
    }
    let cluster_idx: usize = route(distances);
    let p: u64 = handle.lwe_params.p();
    match build_augmented_query(query, cluster_idx, &handle.encoded, handle.quantisation_bits, p) {
        Ok(q_tilde) => Ok(PreparedQuery { cluster_idx, q_tilde }),
        Err(e) => Err(TiptoeError::QuantisationOverflow(e)),
    }
}

/// A query in the columns of a cluster.
pub open spec fn encoded_query(handle: TiptoeHandle, query: Seq<Option<i64>>, c: int) -> Seq<u64> {
    routing::augmented(
        encoding::encoded(
            query,
            handle.quantisation_bits,
            handle.lwe_params.plaintext_modulus() as u64,
        ),
        c,
        handle.encoded.spec_d(),
        handle.encoded.spec_width(),
    )
}

/// Answers to a hint are those for an encrypted secret.
pub open spec fn answers_token(
    compressed: CompressedHint,
    token: Seq<BfvCiphertext>,
    answers: Seq<Vec<BfvCiphertext>>,
) -> bool {
    &&& compress::answers_fit(answers, compressed.spec_chunks())
    &&& forall|b: int, chunk: int|
        0 <= b < answers.len() && 0 <= chunk < compressed.spec_chunks() ==> Some(
            #[trigger] answers[b]@[chunk],
        ) == compress::limb_answer(compressed, token, b, chunk)
}

/// The product of the hint with a secret, as it is recovered from answers under a key.
pub open spec fn recovered_from(
    handle: TiptoeHandle,
    key: BfvSecretKey,
    answers: Seq<Vec<BfvCiphertext>>,
) -> Seq<u64> {
    Seq::new(
        handle.encoded.spec_m_max() as nat,
        |row: int|
            compress::recombined(
                compress::decrypted_answers(answers, key),
                handle.bfv_params.spec_degree(),
                handle.bfv_params.spec_plaintext() as int,
                row,
            ),
    )
}

/// The key that is drawn with a seed for the parameters of a handle.
pub open spec fn is_key(handle: TiptoeHandle, bfv_seed: u64, key: BfvSecretKey) -> bool {
    &&& key.spec_key() == bfv::key_drawn(
        *handle.bfv_params.spec_handle(),
        bfv::generator_started(bfv_seed),
    ).0
    &&& key.spec_handle() == handle.bfv_params.spec_handle()
    &&& key.spec_degree() == handle.bfv_params.spec_degree()
    &&& key.spec_plaintext() == handle.bfv_params.spec_plaintext()
    &&& key.spec_moduli_sizes() == handle.bfv_params.spec_moduli_sizes()
}

/// A token that encrypts a secret under a key. Under parameters that leave room for the noise it
/// decrypts to the secret.
pub open spec fn is_token(
    key: BfvSecretKey,
    token: Seq<BfvCiphertext>,
    secret: Seq<u8>,
) -> bool {
    &&& token.len() == secret.len()
    &&& compress::made_under(token, *key.spec_handle())
    &&& key.leaves_room() ==> compress::holds_secret(key, token, secret)
}

/// The product of the hint with a secret, as it is recovered under the key of a seed from one token
/// or another.
pub open spec fn is_recovered(
    handle: TiptoeHandle,
    secret: Seq<u8>,
    bfv_seed: u64,
    h_s: Seq<u64>,
) -> bool {
    exists|key: BfvSecretKey, token: Seq<BfvCiphertext>, answers: Seq<Vec<BfvCiphertext>>|
        is_key(handle, bfv_seed, key) && is_token(key, token, secret) && #[trigger] answers_token(
            *handle.compressed_hint,
            token,
            answers,
        ) && h_s == #[trigger] recovered_from(handle, key, answers)
}

/// The error is that of the first entry of a secret that is not 0, 1 or 2.
pub open spec fn is_secret_error(secret: Seq<u8>, e: TiptoeError) -> bool {
    e matches TiptoeError::BfvCompositionFailed(cause) && compress::is_range_error(secret, cause)
}

/// Encrypts a secret under a fresh key, applies the hint to it, and recovers the hint times the
/// secret. This fails only on a secret with an entry that is not 0, 1 or 2.
pub fn decompress(handle: &TiptoeHandle, secret: &SecretKey, bfv_seed: u64) -> (r: Result<
    Vec<u64>,
    TiptoeError,
>)
    requires
        handle.well_formed(),
        secret@.len() == handle.lwe_params.n,
    ensures
        r is Ok <==> compress::is_ternary(secret@),
        r matches Ok(h_s) ==> h_s@.len() == handle.encoded.spec_m_max() && is_recovered(
            *handle,
            secret@,
            bfv_seed,
            h_s@,
        ),
        r matches Err(e) ==> is_secret_error(secret@, e),
{
    let mut rng: ChaCha20Rng = seeded_generator(bfv_seed);
    let bfv_sk: BfvSecretKey = BfvSecretKey::random(&handle.bfv_params, &mut rng);
    let token: Vec<BfvCiphertext> = match encrypt_secret_under_bfv(
        secret,
        &bfv_sk,
        &handle.bfv_params,
        &mut rng,
    ) {
        Ok(token) => token,
        Err(e) => {
            return Err(TiptoeError::BfvCompositionFailed(e));
        },
    };
    proof {
        assert(bfv::ciphertext_parameters(token@[0]) == *bfv_sk.spec_handle());
        assert(compress::fit_together(*handle.compressed_hint, token@));
    }
    let answers: Vec<Vec<BfvCiphertext>> = match apply_hint(&handle.compressed_hint, &token) {
        Ok(answers) => answers,
        Err(e) => {
            return Err(TiptoeError::BfvCompositionFailed(e));
        },
    };
    match recover_h_s(&answers, &bfv_sk, handle.encoded.m_max(), &handle.bfv_params) {
        Ok(h_s) => {
            proof {
                assert(is_key(*handle, bfv_seed, bfv_sk));
                assert(is_token(bfv_sk, token@, secret@));
                assert(answers_token(*handle.compressed_hint, token@, answers@));
                assert(h_s@ =~= recovered_from(*handle, bfv_sk, answers@));
            }
            Ok(h_s)
        },
        Err(e) => Err(TiptoeError::BfvCompositionFailed(e)),
    }
}

/// The score of row `i`: its answer without the hint times the secret, rounded, as a signed number.
pub open spec fn row_score(handle: TiptoeHandle, ans: Seq<u64>, h_s: Seq<u64>, i: int) -> int {
    encoding::signed_slot(
        handle.lwe_params.nearest(wrapping::wrap(ans[i] - h_s[i]) as int) as int,
        handle.lwe_params.plaintext_modulus(),
    )
}

/// The hits of a cluster.
pub open spec fn cluster_hits(handle: TiptoeHandle, c: int, ans: Seq<u64>, h_s: Seq<u64>) -> Seq<Hit> {
    let membership = handle.encoded.spec_membership()[c]@;
    Seq::new(
        membership.len(),
        |i: int| Hit { id: membership[i], score: row_score(handle, ans, h_s, i) as i64 },
    )
}

/// Decodes an answer and returns the best `k` hits of a cluster.
pub fn decode_hits(handle: &TiptoeHandle, cluster_idx: usize, ans: &[u64], h_s: &[u64], k: usize) -> (r:
    Vec<Hit>)
    requires
        handle.well_formed(),
        cluster_idx < handle.encoded.spec_n_centroids(),
        ans@.len() == handle.encoded.spec_m_max(),
        h_s@.len() == handle.encoded.spec_m_max(),
    ensures
        r@ == hits::best(cluster_hits(*handle, cluster_idx as int, ans@, h_s@), k as int),
{
    proof {
        handle.lwe_params.lemma_moduli();
        vstd::arithmetic::power2::lemma2_to64_rest();
        if handle.lwe_params.log2_p < 62 {
            vstd::arithmetic::power2::lemma_pow2_strictly_increases(
                handle.lwe_params.log2_p as nat,
                62,
            );
        }
    }
    let p: u64 = handle.lwe_params.p();
    let plain: Vec<u64> = decrypt_vec(ans, h_s, &handle.lwe_params);
    let membership: &[u32] = handle.encoded.cluster_membership(cluster_idx);
    let mut scored: Vec<Hit> = Vec::with_capacity(membership.len());
    assert(membership@.len() <= plain@.len());
    for i in 0..membership.len()
        invariant
            handle.well_formed(),
            p == handle.lwe_params.plaintext_modulus(),
            p <= i64::MAX,
            plain@ == lwe::decryption(ans@, h_s@, handle.lwe_params),
            membership@ == handle.encoded.spec_membership()[cluster_idx as int]@,
            membership@.len() <= plain@.len(),
            scored@.len() == i,
            forall|t: int|
                0 <= t < i ==> #[trigger] scored@[t] == cluster_hits(
                    *handle,
                    cluster_idx as int,
                    ans@,
                    h_s@,
                )[t],
    {
        proof {
            handle.lwe_params.lemma_nearest_in_range(
                wrapping::wrap(ans@[i as int] - h_s@[i as int]) as int,
            );
        }
        let score: i64 = dequantise_component(plain[i], p);
        scored.push(Hit { id: membership[i], score });
    }
    assert(scored@ =~= cluster_hits(*handle, cluster_idx as int, ans@, h_s@));
    rank(&scored, k)
}

/// The answer to a query that is encrypted under a secret with given noise.
pub open spec fn answer_to(
    handle: TiptoeHandle,
    query: Seq<Option<i64>>,
    c: int,
    secret: Seq<u8>,
    noise: Seq<i64>,
) -> Seq<u64> {
    simplepir::answer(
        handle.encoded.spec_matrix(),
        handle.encoded.spec_m_max(),
        handle.encoded.spec_width(),
        lwe::ciphertext(
            simplepir::public_matrix(
                handle.pir_setup.seed@,
                handle.pir_setup.c as int,
                handle.pir_setup.n as int,
            ),
            secret,
            encoded_query(handle, query, c),
            noise,
            handle.lwe_params,
        ),
    )
}

/// The best `k` hits of a query, with the hint times the secret recovered under the key of a seed.
pub open spec fn is_result(
    handle: TiptoeHandle,
    query: Seq<Option<i64>>,
    c: int,
    secret: Seq<u8>,
    noise: Seq<i64>,
    bfv_seed: u64,
    k: int,
    found: Seq<Hit>,
) -> bool {
    exists|h_s: Seq<u64>| #[trigger]
        is_recovered(handle, secret, bfv_seed, h_s) && found == hits::best(
            cluster_hits(handle, c, answer_to(handle, query, c, secret, noise), h_s),
            k,
        )
}

/// Scores a query end to end: routes and encodes it, encrypts it under a secret with given noise,
/// answers it, recovers the hint times the secret, and returns the best `k` hits of the cluster.
///
/// A query of the right dimension whose components are finite is scored whenever the entries of the
/// secret are 0, 1 or 2.
pub fn score_query(
    handle: &TiptoeHandle,
    query: &[Option<i64>],
    distances: &[u32],
    k: usize,
    secret: &SecretKey,
    noise: &[i64],
    bfv_seed: u64,
) -> (r: Result<Vec<Hit>, TiptoeError>)
    requires
        handle.well_formed(),
        distances@.len() == handle.encoded.spec_n_centroids(),
        secret@.len() == handle.lwe_params.n,
        noise@.len() == handle.pir_setup.c,
    ensures
        query@.len() != handle.dim ==> r == Err::<Vec<Hit>, TiptoeError>(
            TiptoeError::DimensionMismatch { query_dim: query.len(), index_dim: handle.dim },
        ),
        query@.len() == handle.dim && encoding::first_non_finite(query@) < query@.len() ==> r
            == Err::<Vec<Hit>, TiptoeError>(
            TiptoeError::QuantisationOverflow(
                EncodingError::NonFinite { index: encoding::first_non_finite(query@) as usize },
            ),
        ),
        query@.len() == handle.dim && encoding::first_non_finite(query@) == query@.len() ==> (
        match r {
            Ok(found) => compress::is_ternary(secret@) && is_result(
                *handle,
                query@,
                routing::chosen(distances@, distances@.len() as int),
                secret@,
                noise@,
                bfv_seed,
                k as int,
                found@,
            ),
            Err(e) => !compress::is_ternary(secret@) && is_secret_error(secret@, e),
        }),
{
    proof {
        encoding::lemma_first_non_finite(query@);
    }
    let prepared: PreparedQuery = match prepare_query(handle, query, distances) {
        Ok(prepared) => prepared,
        Err(e) => {
            return Err(e);
        },
    };
    let ct: Vec<u64> = encrypt_lhe(
        &handle.pir_setup,
        secret,
        &prepared.q_tilde,
        &handle.lwe_params,
        noise,
    );
    let ans: Vec<u64> = server_answer(
        handle.encoded.matrix(),
        handle.encoded.m_max(),
        handle.encoded.width(),
        &ct,
    );
    let h_s: Vec<u64> = match decompress(handle, secret, bfv_seed) {
        Ok(h_s) => h_s,
        Err(e) => {
            return Err(e);
        },
    };
    Ok(decode_hits(handle, prepared.cluster_idx, &ans, &h_s, k))
}

/// The inner product of the clamped components of a vector and a query.
pub open spec fn clamped_product(v: Seq<Option<i64>>, query: Seq<Option<i64>>, q: u8) -> int {
    sums::sum(
        v.len() as int,
        |t: int|
            encoding::clamped(v[t]->Some_0 as int, q) * encoding::clamped(
                query[t]->Some_0 as int,
                q,
            ),
    )
}

/// What is taken off row `i` of an answer falls short of the hint times the secret by `lost`, which
/// together with the noise is below half the spacing.
pub open spec fn decrypts_up_to(
    handle: TiptoeHandle,
    secret: Seq<u8>,
    noise: Seq<i64>,
    h_s: Seq<u64>,
    i: int,
    lost: int,
) -> bool {
    &&& congruence::congruent(
        h_s[i] as int,
        lwe::row_times_secret(handle.pir_setup.hint@, secret, i) - lost,
        wrapping::modulus(),
    )
    &&& -(handle.lwe_params.spacing() / 2) <= simplepir::row_times_noise(
        handle.encoded.spec_matrix(),
        handle.encoded.spec_width(),
        noise,
        i,
    ) + lost < handle.lwe_params.spacing() / 2
}

/// What is taken off an answer lets row `i` decrypt.
pub open spec fn decrypts_row(
    handle: TiptoeHandle,
    secret: Seq<u8>,
    noise: Seq<i64>,
    h_s: Seq<u64>,
    i: int,
) -> bool {
    exists|lost: int| #[trigger] decrypts_up_to(handle, secret, noise, h_s, i, lost)
}

/// What is taken off an answer lets its first rows decrypt.
pub open spec fn decrypts(
    handle: TiptoeHandle,
    secret: Seq<u8>,
    noise: Seq<i64>,
    h_s: Seq<u64>,
    rows: int,
) -> bool {
    forall|i: int| 0 <= i < rows ==> #[trigger] decrypts_row(handle, secret, noise, h_s, i)
}

/// The score of a row that decrypts.
proof fn lemma_row_score(
    handle: TiptoeHandle,
    clusters: Seq<Vec<ScaledVector>>,
    query: Seq<Option<i64>>,
    c: int,
    secret: Seq<u8>,
    noise: Seq<i64>,
    h_s: Seq<u64>,
    i: int,
    lost: int,
)
    requires
        handle.well_formed(),
        handle.encoded.holds(
            clusters,
            handle.dim as int,
            handle.quantisation_bits,
            handle.lwe_params.plaintext_modulus() as u64,
        ),
        simplepir::is_setup_of(
            *handle.pir_setup,
            handle.encoded.spec_matrix(),
            handle.encoded.spec_m_max(),
            handle.encoded.spec_width(),
            handle.pir_setup.seed@,
            handle.lwe_params.n as int,
        ),
        query.len() == handle.dim,
        0 <= c < clusters.len(),
        0 <= i < clusters[c]@.len(),
        clusters[c]@[i].components@.len() == handle.dim,
        secret.len() == handle.lwe_params.n,
        noise.len() == handle.pir_setup.c,
        decrypts_up_to(handle, secret, noise, h_s, i, lost),
    ensures
        row_score(handle, answer_to(handle, query, c, secret, noise), h_s, i)
            == encoding::signed_slot(
            clamped_product(clusters[c]@[i].components@, query, handle.quantisation_bits)
                % handle.lwe_params.plaintext_modulus(),
            handle.lwe_params.plaintext_modulus(),
        ),
{
    let m_db = handle.encoded.spec_matrix();
    let m_max = handle.encoded.spec_m_max();
    let width = handle.encoded.spec_width();
    let params = handle.lwe_params;
    let p = params.plaintext_modulus();
    let q = handle.quantisation_bits;
    let d = handle.dim as int;
    let q_tilde = encoded_query(handle, query, c);
    let enc_query = encoding::encoded(query, q, p as u64);
    let row = clusters[c]@[i].components@;
    params.lemma_moduli();
    assert(handle.encoded.spec_membership()[c]@.len() == clusters[c]@.len());
    assert(i < m_max);
    simplepir::answers_decrypt_up_to_a_loss(
        m_db,
        m_max,
        width,
        handle.pir_setup.seed@,
        secret,
        q_tilde,
        noise,
        params,
        i,
        h_s[i],
        lost,
    );
    routing::augmented_query_selects_a_cluster(
        &*handle.encoded,
        clusters,
        enc_query,
        c,
        q,
        p as u64,
        i,
    );
    let block = |t: int| cluster::block_entry(clusters, q, p as u64, c, i, t) * enc_query[t];
    let slots = |t: int| encoding::encoded(row, q, p as u64)[t] * enc_query[t];
    sums::lemma_sum_same(d, block, slots);
    encoding::encoded_inner_products_agree(row, query, q, p as u64);
    let product = sums::sum(d, slots);
    congruence::lemma_congruent_iff_same_remainder(
        product,
        clamped_product(row, query, q),
        p,
    );
    assert(simplepir::row_times_query(m_db, width, q_tilde, i) == product);
}

/// Where the recovered limb products are small and the noise with the dropped bits is below half
/// the spacing, the score of a vector is the inner product of its clamped components with those of
/// the query, read modulo `P`.
pub proof fn scores_are_inner_products(
    handle: TiptoeHandle,
    clusters: Seq<Vec<ScaledVector>>,
    query: Seq<Option<i64>>,
    c: int,
    secret: Seq<u8>,
    noise: Seq<i64>,
    key: BfvSecretKey,
    answers: Seq<Vec<BfvCiphertext>>,
    i: int,
)
    requires
        handle.well_formed(),
        handle.encoded.holds(
            clusters,
            handle.dim as int,
            handle.quantisation_bits,
            handle.lwe_params.plaintext_modulus() as u64,
        ),
        simplepir::is_setup_of(
            *handle.pir_setup,
            handle.encoded.spec_matrix(),
            handle.encoded.spec_m_max(),
            handle.encoded.spec_width(),
            handle.pir_setup.seed@,
            handle.lwe_params.n as int,
        ),
        query.len() == handle.dim,
        0 <= c < clusters.len(),
        0 <= i < clusters[c]@.len(),
        clusters[c]@[i].components@.len() == handle.dim,
        secret.len() == handle.lwe_params.n,
        noise.len() == handle.pir_setup.c,
        compress::coefficients_are_shares(
            compress::decrypted_answers(answers, key),
            handle.pir_setup.hint@,
            secret,
            handle.bfv_params.spec_degree(),
            handle.bfv_params.spec_plaintext() as int,
            i,
        ),
        -(handle.lwe_params.spacing() / 2) <= simplepir::row_times_noise(
            handle.encoded.spec_matrix(),
            handle.encoded.spec_width(),
            noise,
            i,
        ) + compress::dropped(handle.pir_setup.hint@, secret, i) < handle.lwe_params.spacing() / 2,
    ensures
        row_score(
            handle,
            answer_to(handle, query, c, secret, noise),
            recovered_from(handle, key, answers),
            i,
        ) == encoding::signed_slot(
            clamped_product(clusters[c]@[i].components@, query, handle.quantisation_bits)
                % handle.lwe_params.plaintext_modulus(),
            handle.lwe_params.plaintext_modulus(),
        ),
{
    let h_s = recovered_from(handle, key, answers);
    assert(handle.encoded.spec_membership()[c]@.len() == clusters[c]@.len());
    assert(i < handle.encoded.spec_m_max());
    compress::recombining_gives_the_product(
        compress::decrypted_answers(answers, key),
        handle.pir_setup.hint@,
        secret,
        handle.bfv_params.spec_degree(),
        handle.bfv_params.spec_plaintext() as int,
        i,
    );
    lemma_row_score(
        handle,
        clusters,
        query,
        c,
        secret,
        noise,
        h_s,
        i,
        compress::dropped(handle.pir_setup.hint@, secret, i),
    );
}

/// A clamped inner product within half the plaintext modulus is read as it is.
pub proof fn small_inner_products_are_the_scores(x: int, p: int)
    requires
        0 < p,
        p % 2 == 0,
        -(p / 2) <= x < p / 2,
    ensures
        encoding::signed_slot(x % p, p) == x,
{
    if x >= 0 {
        vstd::arithmetic::div_mod::lemma_small_mod(x as nat, p as nat);
    } else {
        vstd::arithmetic::div_mod::lemma_small_mod((x + p) as nat, p as nat);
        vstd::arithmetic::div_mod::lemma_mod_add_multiples_vanish(x, p);
    }
}

/// Inner products of vectors that can be uploaded are within half the plaintext modulus.
pub proof fn accepted_inner_products_are_small(
    v: Seq<Option<i64>>,
    query: Seq<Option<i64>>,
    q: u8,
    params: Params,
)
    requires
        params.valid(),
        v.len() == query.len(),
        encoding::products_fit(q, params.log2_p, v.len() as int),
    ensures
        -(params.plaintext_modulus() / 2) < clamped_product(v, query, q)
            < params.plaintext_modulus() / 2,
{
    let n = v.len() as int;
    let mag = encoding::magnitude(q);
    let base = pow2(q as nat) as int;
    let term = |t: int|
        encoding::clamped(v[t]->Some_0 as int, q) * encoding::clamped(
            query[t]->Some_0 as int,
            q,
        );
    vstd::arithmetic::power2::lemma_pow2_pos(q as nat);
    vstd::arithmetic::power2::lemma_pow2_adds(q as nat, q as nat);
    assert(pow2((2 * q) as nat) == base * base);
    assert forall|t: int| 0 <= t < n implies -(mag * mag) <= #[trigger] term(t) <= mag * mag by {
        let x = encoding::clamped(v[t]->Some_0 as int, q);
        let y = encoding::clamped(query[t]->Some_0 as int, q);
        assert(-(mag * mag) <= x * y <= mag * mag) by (nonlinear_arith)
            requires
                -mag <= x <= mag,
                -mag <= y <= mag,
        ;
    }
    sums::lemma_sum_bounds(n, -(mag * mag), mag * mag, term);
    sums::lemma_sum_same(
        n,
        term,
        |t: int|
            encoding::clamped(v[t]->Some_0 as int, q) * encoding::clamped(
                query[t]->Some_0 as int,
                q,
            ),
    );
    params.lemma_moduli();
    let half = params.plaintext_modulus() / 2;
    vstd::arithmetic::power2::lemma_pow2_unfold(params.log2_p as nat);
    assert(params.plaintext_modulus() == 2 * half);
    assert(n * (base * base) < half) by (nonlinear_arith)
        requires
            2 * (base * base) * n < 2 * half,
    ;
    assert(n * (mag * mag) <= n * (base * base)) by (nonlinear_arith)
        requires
            0 <= n,
            0 <= mag < base,
    ;
    assert(n * -(mag * mag) == -(n * (mag * mag))) by (nonlinear_arith);
}

/// The hits of a cluster in the clear: the inner products of its clamped components with those of
/// the query.
pub open spec fn clear_hits(cluster: Seq<ScaledVector>, query: Seq<Option<i64>>, q: u8) -> Seq<Hit> {
    Seq::new(
        cluster.len(),
        |i: int|
            Hit {
                id: cluster[i].id,
                score: clamped_product(cluster[i].components@, query, q) as i64,
            },
    )
}

/// Where decryption does not fail and inner products are within half the plaintext modulus, a query
/// finds the best vectors of its cluster by inner product, whatever its secret, its noise and its
/// seed are.
pub proof fn queries_find_the_best_inner_products(
    handle: TiptoeHandle,
    clusters: Seq<Vec<ScaledVector>>,
    query: Seq<Option<i64>>,
    c: int,
    secret: Seq<u8>,
    noise: Seq<i64>,
    bfv_seed: u64,
    k: int,
    found: Seq<Hit>,
)
    requires
        handle.well_formed(),
        handle.encoded.holds(
            clusters,
            handle.dim as int,
            handle.quantisation_bits,
            handle.lwe_params.plaintext_modulus() as u64,
        ),
        simplepir::is_setup_of(
            *handle.pir_setup,
            handle.encoded.spec_matrix(),
            handle.encoded.spec_m_max(),
            handle.encoded.spec_width(),
            handle.pir_setup.seed@,
            handle.lwe_params.n as int,
        ),
        query.len() == handle.dim,
        0 <= c < clusters.len(),
        forall|i: int|
            0 <= i < clusters[c]@.len() ==> (#[trigger] clusters[c]@[i]).components@.len()
                == handle.dim,
        forall|i: int|
            0 <= i < clusters[c]@.len() ==> -(handle.lwe_params.plaintext_modulus() / 2)
                <= clamped_product(
                (#[trigger] clusters[c]@[i]).components@,
                query,
                handle.quantisation_bits,
            ) < handle.lwe_params.plaintext_modulus() / 2,
        secret.len() == handle.lwe_params.n,
        noise.len() == handle.pir_setup.c,
        forall|h_s: Seq<u64>| #[trigger]
            is_recovered(handle, secret, bfv_seed, h_s) ==> decrypts(
                handle,
                secret,
                noise,
                h_s,
                clusters[c]@.len() as int,
            ),
        is_result(handle, query, c, secret, noise, bfv_seed, k, found),
    ensures
        found == hits::best(clear_hits(clusters[c]@, query, handle.quantisation_bits), k),
{
    let ans = answer_to(handle, query, c, secret, noise);
    let h_s = choose|h_s: Seq<u64>| #[trigger]
        is_recovered(handle, secret, bfv_seed, h_s) && found == hits::best(
            cluster_hits(handle, c, ans, h_s),
            k,
        );
    let q = handle.quantisation_bits;
    let p = handle.lwe_params.plaintext_modulus();
    let members = clusters[c]@;
    handle.lwe_params.lemma_moduli();
    vstd::arithmetic::power2::lemma_pow2_unfold(handle.lwe_params.log2_p as nat);
    assert(handle.encoded.spec_membership()[c]@.len() == members.len());
    assert forall|i: int| 0 <= i < members.len() implies #[trigger] cluster_hits(
        handle,
        c,
        ans,
        h_s,
    )[i] == clear_hits(members, query, q)[i] by {
        assert(decrypts_row(handle, secret, noise, h_s, i));
        let lost = choose|lost: int| #[trigger]
            decrypts_up_to(handle, secret, noise, h_s, i, lost);
        lemma_row_score(handle, clusters, query, c, secret, noise, h_s, i, lost);
        let x = clamped_product(members[i].components@, query, q);
        small_inner_products_are_the_scores(x, p);
        assert(handle.encoded.spec_membership()[c]@[i] == members[i].id);
    }
    assert(cluster_hits(handle, c, ans, h_s) =~= clear_hits(members, query, q));
}

/// All components of a vector are finite and within the magnitude of `q` bits.
pub open spec fn is_within(v: Seq<Option<i64>>, q: u8) -> bool {
    forall|t: int|
        0 <= t < v.len() ==> (#[trigger] v[t]) is Some && -(pow2(q as nat) - 1) <= v[t]->Some_0
            <= pow2(q as nat) - 1
}

/// Within the magnitude nothing is clamped: the inner product of two vectors pairs all their
/// components as they are.
pub proof fn inner_products_pair_all_components(
    v: Seq<Option<i64>>,
    query: Seq<Option<i64>>,
    q: u8,
)
    requires
        v.len() == query.len(),
        is_within(v, q),
        is_within(query, q),
    ensures
        clamped_product(v, query, q) == sums::sum(
            v.len() as int,
            |t: int| v[t]->Some_0 * query[t]->Some_0,
        ),
{
    let clamped = |t: int|
        encoding::clamped(v[t]->Some_0 as int, q) * encoding::clamped(
            query[t]->Some_0 as int,
            q,
        );
    let exact = |t: int| v[t]->Some_0 * query[t]->Some_0;
    assert forall|t: int| 0 <= t < v.len() implies #[trigger] clamped(t) == exact(t) by {
        assert(v[t] is Some && query[t] is Some);
        encoding::clamping_goes_to_the_nearest_end(v[t]->Some_0 as int, q);
        encoding::clamping_goes_to_the_nearest_end(query[t]->Some_0 as int, q);
    }
    sums::lemma_sum_same(v.len() as int, clamped, exact);
}

/// What a vector scores end to end: if every answer to the token decrypts to the sum of the secret's
/// entries times the plaintexts that it was formed of, the limbs' shares of the vector's row stay
/// within half the modulus, and the noise with the dropped bits stays below half the spacing, then
/// the score of a vector of the cluster, whichever row it stands in, is the sum of the products of
/// its components with those of the query.
pub proof fn rows_score_their_sums_of_products(
    handle: TiptoeHandle,
    clusters: Seq<Vec<ScaledVector>>,
    query: Seq<Option<i64>>,
    c: int,
    secret: Seq<u8>,
    noise: Seq<i64>,
    key: BfvSecretKey,
    answers: Seq<Vec<BfvCiphertext>>,
    i: int,
)
    requires
        handle.well_formed(),
        handle.encoded.holds(
            clusters,
            handle.dim as int,
            handle.quantisation_bits,
            handle.lwe_params.plaintext_modulus() as u64,
        ),
        simplepir::is_setup_of(
            *handle.pir_setup,
            handle.encoded.spec_matrix(),
            handle.encoded.spec_m_max(),
            handle.encoded.spec_width(),
            handle.pir_setup.seed@,
            handle.lwe_params.n as int,
        ),
        handle.compressed_hint.spec_r() == handle.encoded.spec_m_max(),
        handle.compressed_hint.holds(handle.pir_setup.hint@, handle.bfv_params.spec_degree()),
        key.spec_degree() == handle.bfv_params.spec_degree(),
        compress::answers_fit(answers, handle.compressed_hint.spec_chunks()),
        forall|b: int, chunk: int|
            0 <= b < NUM_LIMBS_64 && 0 <= chunk < handle.compressed_hint.spec_chunks()
                ==> compress::decrypts_to_sum(
                key,
                #[trigger] answers[b]@[chunk],
                secret,
                handle.compressed_hint.spec_pts()[b]@.subrange(
                    chunk * handle.compressed_hint.spec_n_lwe(),
                    (chunk + 1) * handle.compressed_hint.spec_n_lwe(),
                ),
                handle.bfv_params.spec_plaintext() as int,
            ),
        query.len() == handle.dim,
        0 <= c < clusters.len(),
        0 <= i < clusters[c]@.len(),
        clusters[c]@[i].components@.len() == handle.dim,
        secret.len() == handle.lwe_params.n,
        noise.len() == handle.pir_setup.c,
        forall|index: int|
            8 <= index < 16 ==> #[trigger] compress::limb_dot(
                handle.pir_setup.hint@,
                secret,
                i,
                index,
            ) <= handle.bfv_params.spec_plaintext() as int / 2,
        -(handle.lwe_params.spacing() / 2) <= simplepir::row_times_noise(
            handle.encoded.spec_matrix(),
            handle.encoded.spec_width(),
            noise,
            i,
        ) + compress::dropped(handle.pir_setup.hint@, secret, i) < handle.lwe_params.spacing() / 2,
        is_within(clusters[c]@[i].components@, handle.quantisation_bits),
        is_within(query, handle.quantisation_bits),
        ({
            let product = sums::sum(
                handle.dim as int,
                |t: int| clusters[c]@[i].components@[t]->Some_0 * query[t]->Some_0,
            );
            -(handle.lwe_params.plaintext_modulus() / 2) <= product
                < handle.lwe_params.plaintext_modulus() / 2
        }),
    ensures
        cluster_hits(
            handle,
            c,
            answer_to(handle, query, c, secret, noise),
            recovered_from(handle, key, answers),
        )[i].id == clusters[c]@[i].id,
        row_score(
            handle,
            answer_to(handle, query, c, secret, noise),
            recovered_from(handle, key, answers),
            i,
        ) == sums::sum(
            handle.dim as int,
            |t: int| clusters[c]@[i].components@[t]->Some_0 * query[t]->Some_0,
        ),
{
    let v = clusters[c]@[i].components@;
    let p = handle.lwe_params.plaintext_modulus();
    assert(handle.encoded.spec_membership()[c]@.len() == clusters[c]@.len());
    assert(handle.encoded.spec_membership()[c]@[i] == clusters[c]@[i].id);
    assert(i < handle.encoded.spec_m_max());
    compress::recovered_rows_are_the_hint_times_the_secret(
        &handle.compressed_hint,
        handle.pir_setup.hint@,
        key,
        secret,
        answers,
        handle.bfv_params.spec_plaintext() as int,
        i,
    );
    scores_are_inner_products(handle, clusters, query, c, secret, noise, key, answers, i);
    inner_products_pair_all_components(v, query, handle.quantisation_bits);
    handle.lwe_params.lemma_moduli();
    lemma_even_modulus(handle.lwe_params);
    encoding::slots_are_read_around_zero(
        clamped_product(v, query, handle.quantisation_bits),
        p,
    );
}

/// The plaintext modulus is even.
proof fn lemma_even_modulus(params: Params)
    requires
        params.valid(),
    ensures
        params.plaintext_modulus() % 2 == 0,
{
    vstd::arithmetic::power2::lemma_pow2_unfold(params.log2_p as nat);
}

/// A query finds the vectors of its cluster with the largest inner products, where decryption does
/// not fail and inner products are within half the plaintext modulus: `k` of them or all; each hit
/// stands for a vector of the cluster, with its number and the sum of the products of its components
/// with those of the query; larger ones come first; and a vector whose sum is larger than a score
/// that is returned is returned too.
pub proof fn queries_find_the_largest_sums_of_products(
    handle: TiptoeHandle,
    clusters: Seq<Vec<ScaledVector>>,
    query: Seq<Option<i64>>,
    c: int,
    secret: Seq<u8>,
    noise: Seq<i64>,
    bfv_seed: u64,
    k: nat,
    found: Seq<Hit>,
)
    requires
        handle.well_formed(),
        handle.encoded.holds(
            clusters,
            handle.dim as int,
            handle.quantisation_bits,
            handle.lwe_params.plaintext_modulus() as u64,
        ),
        simplepir::is_setup_of(
            *handle.pir_setup,
            handle.encoded.spec_matrix(),
            handle.encoded.spec_m_max(),
            handle.encoded.spec_width(),
            handle.pir_setup.seed@,
            handle.lwe_params.n as int,
        ),
        query.len() == handle.dim,
        is_within(query, handle.quantisation_bits),
        0 <= c < clusters.len(),
        forall|i: int|
            0 <= i < clusters[c]@.len() ==> {
                let v = (#[trigger] clusters[c]@[i]).components@;
                &&& v.len() == handle.dim
                &&& is_within(v, handle.quantisation_bits)
                &&& -(handle.lwe_params.plaintext_modulus() / 2) <= sums::sum(
                    handle.dim as int,
                    |t: int| v[t]->Some_0 * query[t]->Some_0,
                ) < handle.lwe_params.plaintext_modulus() / 2
            },
        secret.len() == handle.lwe_params.n,
        noise.len() == handle.pir_setup.c,
        forall|h_s: Seq<u64>| #[trigger]
            is_recovered(handle, secret, bfv_seed, h_s) ==> decrypts(
                handle,
                secret,
                noise,
                h_s,
                clusters[c]@.len() as int,
            ),
        is_result(handle, query, c, secret, noise, bfv_seed, k as int, found),
    ensures
        found.len() == (if k < clusters[c]@.len() {
            k
        } else {
            clusters[c]@.len()
        }),
        forall|h: Hit| #[trigger]
            found.contains(h) ==> exists|i: int|
                0 <= i < clusters[c]@.len() && h.id == (#[trigger] clusters[c]@[i]).id && h.score
                    == sums::sum(
                    handle.dim as int,
                    |t: int| clusters[c]@[i].components@[t]->Some_0 * query[t]->Some_0,
                ),
        forall|i: int, j: int|
            0 <= i < j < found.len() ==> (#[trigger] found[i]).score >= (#[trigger] found[j]).score,
        forall|i: int, t: int|
            0 <= i < clusters[c]@.len() && 0 <= t < found.len() && {
                let v = (#[trigger] clusters[c]@[i]).components@;
                sums::sum(handle.dim as int, |t: int| v[t]->Some_0 * query[t]->Some_0)
            } > (#[trigger] found[t]).score ==> exists|h: Hit| #[trigger]
                found.contains(h) && h.id == clusters[c]@[i].id,
{
    let all = clear_hits(clusters[c]@, query, handle.quantisation_bits);
    handle.lwe_params.lemma_moduli();
    assert forall|i: int| 0 <= i < clusters[c]@.len() implies {
        let v = (#[trigger] clusters[c]@[i]).components@;
        let product = clamped_product(v, query, handle.quantisation_bits);
        &&& product == sums::sum(handle.dim as int, |t: int| v[t]->Some_0 * query[t]->Some_0)
        &&& -(handle.lwe_params.plaintext_modulus() / 2) <= product
            < handle.lwe_params.plaintext_modulus() / 2
        &&& all[i].id == clusters[c]@[i].id
        &&& all[i].score == product
    } by {
        let v = clusters[c]@[i].components@;
        assert(v.len() == handle.dim);
        inner_products_pair_all_components(v, query, handle.quantisation_bits);
    }
    queries_find_the_best_inner_products(
        handle,
        clusters,
        query,
        c,
        secret,
        noise,
        bfv_seed,
        k as int,
        found,
    );
    hits::returned_hits_are_the_top(all, k);
    hits::nothing_better_is_left_out(all, k);
    assert forall|h: Hit| #[trigger] found.contains(h) implies exists|i: int|
        0 <= i < clusters[c]@.len() && h.id == (#[trigger] clusters[c]@[i]).id && h.score
            == sums::sum(
            handle.dim as int,
            |t: int| clusters[c]@[i].components@[t]->Some_0 * query[t]->Some_0,
        ) by {
        let t = choose|t: int| 0 <= t < found.len() && found[t] == h;
        assert(all.contains(found[t]));
        let i = choose|i: int| 0 <= i < all.len() && all[i] == h;
        let v = clusters[c]@[i].components@;
        sums::lemma_sum_same(
            handle.dim as int,
            |t: int| v[t]->Some_0 * query[t]->Some_0,
            |t: int| clusters[c]@[i].components@[t]->Some_0 * query[t]->Some_0,
        );
        assert(h.id == clusters[c]@[i].id);
    }
    assert forall|i: int, t: int|
        0 <= i < clusters[c]@.len() && 0 <= t < found.len() && {
            let v = (#[trigger] clusters[c]@[i]).components@;
            sums::sum(handle.dim as int, |t: int| v[t]->Some_0 * query[t]->Some_0)
        } > (#[trigger] found[t]).score implies exists|h: Hit| #[trigger]
        found.contains(h) && h.id == clusters[c]@[i].id by {
        assert(all[i].score > found[t].score);
        assert(found.contains(all[i]));
    }
}

/// What is recovered for a token, for every row: the answers are the products of the token with the
/// plaintexts of the hint, and if each of these decrypts to the sum of the secret's entries times the
/// plaintexts, and the limbs' shares stay within half the modulus, then every row that is recovered is
/// the sum of the products of the hint's row with the secret, less what the low 32 bits of the hint's
/// numbers add to it, modulo `2^64`.
pub proof fn recovered_rows_are_the_hint_times_the_secret(
    handle: TiptoeHandle,
    key: BfvSecretKey,
    token: Seq<BfvCiphertext>,
    secret: Seq<u8>,
    answers: Seq<Vec<BfvCiphertext>>,
    row: int,
)
    requires
        0 < handle.bfv_params.spec_degree(),
        0 < handle.bfv_params.spec_plaintext(),
        key.spec_degree() == handle.bfv_params.spec_degree(),
        handle.compressed_hint.holds(handle.pir_setup.hint@, handle.bfv_params.spec_degree()),
        handle.compressed_hint.spec_r() == handle.encoded.spec_m_max(),
        secret.len() == handle.compressed_hint.spec_n_lwe(),
        answers_token(*handle.compressed_hint, token, answers),
        forall|b: int, chunk: int, ct: BfvCiphertext|
            0 <= b < NUM_LIMBS_64 && 0 <= chunk < handle.compressed_hint.spec_chunks()
                && #[trigger] bfv::bfv_dot_product(
                token,
                handle.compressed_hint.spec_pts()[b]@.subrange(
                    chunk * secret.len(),
                    (chunk + 1) * secret.len(),
                ),
            ) == Some(ct) ==> #[trigger] compress::decrypts_to_sum(
                key,
                ct,
                secret,
                handle.compressed_hint.spec_pts()[b]@.subrange(
                    chunk * secret.len(),
                    (chunk + 1) * secret.len(),
                ),
                handle.bfv_params.spec_plaintext() as int,
            ),
        0 <= row < handle.encoded.spec_m_max(),
        forall|index: int|
            8 <= index < 16 ==> #[trigger] compress::limb_dot(
                handle.pir_setup.hint@,
                secret,
                row,
                index,
            ) <= handle.bfv_params.spec_plaintext() as int / 2,
    ensures
        recovered_from(handle, key, answers).len() == handle.encoded.spec_m_max(),
        congruence::congruent(
            recovered_from(handle, key, answers)[row] as int,
            sums::sum(
                secret.len() as int,
                |j: int| handle.pir_setup.hint@[row * secret.len() + j] * secret[j],
            ) - sums::sum(
                secret.len() as int,
                |j: int|
                    secret[j] * (handle.pir_setup.hint@[row * secret.len() + j] as int
                        % 0x1_0000_0000),
            ),
            0x1_0000_0000_0000_0000,
        ),
{
    let hint = handle.pir_setup.hint@;
    assert forall|b: int, chunk: int|
        0 <= b < NUM_LIMBS_64 && 0 <= chunk
            < handle.compressed_hint.spec_chunks() implies compress::decrypts_to_sum(
        key,
        #[trigger] answers[b]@[chunk],
        secret,
        handle.compressed_hint.spec_pts()[b]@.subrange(
            chunk * handle.compressed_hint.spec_n_lwe(),
            (chunk + 1) * handle.compressed_hint.spec_n_lwe(),
        ),
        handle.bfv_params.spec_plaintext() as int,
    ) by {
        assert(Some(answers[b]@[chunk]) == compress::limb_answer(
            *handle.compressed_hint,
            token,
            b,
            chunk,
        ));
        assert(bfv::bfv_dot_product(
            token,
            handle.compressed_hint.spec_pts()[b]@.subrange(
                chunk * secret.len(),
                (chunk + 1) * secret.len(),
            ),
        ) == Some(answers[b]@[chunk]));
    }
    compress::recovered_rows_are_the_hint_times_the_secret(
        &handle.compressed_hint,
        hint,
        key,
        secret,
        answers,
        handle.bfv_params.spec_plaintext() as int,
        row,
    );
    sums::lemma_sum_same(
        secret.len() as int,
        |j: int| hint[row * secret.len() + j] * secret[j],
        |j: int| handle.pir_setup.hint@[row * secret.len() + j] * secret[j],
    );
    sums::lemma_sum_same(
        secret.len() as int,
        |j: int| secret[j] * (hint[row * secret.len() + j] as int % 0x1_0000_0000),
        |j: int|
            secret[j] * (handle.pir_setup.hint@[row * secret.len() + j] as int % 0x1_0000_0000),
    );
}

/// A query is refused for the first entry of its secret that is not 0, 1 or 2, which the error names.
pub proof fn errors_name_the_first_bad_entry(secret: Seq<u8>, e: TiptoeError) -> (index: int)
    requires
        is_secret_error(secret, e),
    ensures
        0 <= index < secret.len(),
        secret[index] > 2,
        forall|j: int| 0 <= j < index ==> #[trigger] secret[j] <= 2,
        e == TiptoeError::BfvCompositionFailed(
            CompressError::LweSecretOutOfRange { index: index as usize, value: secret[index] },
        ),
{
    let cause = e->BfvCompositionFailed_0;
    compress::errors_name_the_first_bad_entry(secret, cause);
    cause->LweSecretOutOfRange_index as int
}

} // verus!
