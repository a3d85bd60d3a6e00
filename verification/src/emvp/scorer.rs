//! Scoring of a single encrypted cluster.

use std::sync::Arc;

use vstd::prelude::*;

use crate::bytes;
use crate::bytes::{copy, get_seed, get_u64, get_u64s, number, put_u64, put_u64s, text};
use crate::cache::KeyedCache;
use crate::emvp::crypto;
use crate::emvp::crypto::{
    cluster_response_bytes, compute_products, compute_products_batch, decode_scores, encode_query,
    encrypt_cluster, generate_d, setup_bytes,
};
use crate::emvp::field;
use crate::emvp::params::{ELL0, FIELD_BYTES, K, N, P, S};
use crate::hits;
use crate::hits::{rank, Hit};
use crate::math::congruence;
use crate::math::layout;
use crate::math::sums;
use crate::prng::{draw_seed, draw_u64s};
use crate::scoring::{CommunicationCost, Device};

verus! {

/// What a cluster is encrypted and scored with.
pub struct EmvpConfig {
    /// Seed of the matrix `D`.
    pub key_seed: [u8; 32],
    /// Where products are computed.
    pub device: Device,
    /// Bytes of a graphics card's memory to use; found out if absent.
    pub vram_budget_bytes: Option<u64>,
}

/// Why a cluster could not be uploaded or scored.
#[derive(Debug)]
pub enum EmvpError {
    /// A vector has more components than can be encrypted.
    DimensionTooLarge {
        /// Components of the vector.
        actual: usize,
        /// Components that can be encrypted.
        ell0: usize,
    },
    /// The work could not be done.
    SpawnPanic,
    /// A graphics card was asked for and cannot be used.
    GpuFeatureNotEnabled,
    /// The graphics card reported an error.
    Gpu(String),
}

/// How long the steps of a query took.
#[derive(Debug, Clone, Copy, Default)]
pub struct EmvpTiming {
    /// Microseconds for encoding the query.
    pub encode_us: u64,
    /// Microseconds for the products.
    pub server_us: u64,
    /// Microseconds for decoding and ranking.
    pub decode_us: u64,
}

/// An encrypted cluster, with what is needed to score it.
pub struct EmvpHandle {
    m_hat: Arc<Vec<u64>>,
    r_seed: [u8; 32],
    m: usize,
    d_mat: Arc<Vec<u64>>,
    dim: usize,
}

impl EmvpHandle {
    /// The ciphertext, row by row.
    pub closed spec fn spec_m_hat(&self) -> Seq<u64> {
        self.m_hat@
    }

    /// Seed of the masks.
    pub closed spec fn spec_r_seed(&self) -> Seq<u8> {
        self.r_seed@
    }

    /// Number of vectors.
    pub closed spec fn spec_m(&self) -> int {
        self.m as int
    }

    /// The matrix `D`.
    pub closed spec fn spec_d(&self) -> Seq<u64> {
        self.d_mat@
    }

    /// Components of the vectors.
    pub closed spec fn spec_dim(&self) -> int {
        self.dim as int
    }

    /// The ciphertext has a row of field elements per vector, and `D` is of the right form.
    pub open spec fn well_formed(&self) -> bool {
        &&& is_ciphertext(self.spec_m_hat(), self.spec_m())
        &&& crypto::is_d_matrix(self.spec_d())
        &&& self.spec_m() * N * FIELD_BYTES <= usize::MAX
    }

    /// The cluster is the encryption of these vectors.
    pub open spec fn encrypts(&self, rows: Seq<Seq<i64>>) -> bool {
        &&& rows.len() == self.spec_m()
        &&& crypto::is_encryption(self.spec_m_hat(), self.spec_d(), self.spec_r_seed(), rows)
    }

    /// The ciphertext, row by row.
    pub fn m_hat(&self) -> (r: &[u64])
        ensures
            r@ == self.spec_m_hat(),
    {
        self.m_hat.as_slice()
    }

    /// Number of vectors.
    pub fn m(&self) -> (r: usize)
        ensures
            r == self.spec_m(),
    {
        self.m
    }

    /// Components of the vectors.
    pub fn dim(&self) -> (r: usize)
        ensures
            r == self.spec_dim(),
    {
        self.dim
    }

    /// Seed of the masks.
    pub fn r_seed(&self) -> (r: &[u8; 32])
        ensures
            r@ == self.spec_r_seed(),
    {
        &self.r_seed
    }
}

/// A ciphertext of `m` rows.
pub open spec fn is_ciphertext(m_hat: Seq<u64>, m: int) -> bool {
    m_hat.len() == m * N && crypto::in_field(m_hat)
}

/// A query with zeros up to `ELL0` components.
pub open spec fn padded(query: Seq<i64>) -> Seq<i64> {
    Seq::new(ELL0 as nat, |l: int| crypto::component(query, l) as i64)
}

/// The mask that random numbers give.
pub open spec fn mask_of(draws: Seq<u64>) -> Seq<u64> {
    draws.map_values(|x: u64| (x % P) as u64)
}

/// An encoded query.
pub open spec fn encoding(d: Seq<u64>, query: Seq<i64>, draws: Seq<u64>) -> Seq<u64> {
    Seq::new(N as nat, |j: int| crypto::encoded_entry(d, padded(query), mask_of(draws), j))
}

/// Appends zeros to a query until it has `ELL0` components.
fn pad(query: &[i64]) -> (r: Vec<i64>)
    requires
        query@.len() <= ELL0,
    ensures
        r@ == padded(query@),
{
    let mut r: Vec<i64> = Vec::with_capacity(ELL0);
    for l in 0..ELL0
        invariant
            query@.len() <= ELL0,
            r@.len() == l,
            forall|t: int| 0 <= t < l ==> #[trigger] r@[t] == crypto::component(query@, t),
    {
        if l < query.len() {
            r.push(query[l]);
        } else {
            r.push(0);
        }
    }
    assert(r@ =~= padded(query@));
    r
}

/// Reduces random numbers to field elements.
fn reduce(draws: &[u64]) -> (r: Vec<u64>)
    ensures
        r@ == mask_of(draws@),
        crypto::in_field(r@),
{
    let mut r: Vec<u64> = Vec::with_capacity(draws.len());
    for i in 0..draws.len()
        invariant
            r@.len() == i,
            forall|t: int| 0 <= t < i ==> #[trigger] r@[t] == draws@[t] % P,
    {
        r.push(draws[i] % P);
    }
    assert(r@ =~= mask_of(draws@));
    r
}

/// Encodes a query under a mask of random numbers.
pub fn encode(d_mat: &[u64], query: &[i64], draws: &[u64]) -> (q_hat: Vec<u64>)
    requires
        d_mat@.len() == ELL0 * N,
        crypto::in_field(d_mat@),
        query@.len() <= ELL0,
        draws@.len() == K,
    ensures
        q_hat@ == encoding(d_mat@, query@, draws@),
        crypto::in_field(q_hat@),
{
    let full: Vec<i64> = pad(query);
    let u: Vec<u64> = reduce(draws);
    let q_hat: Vec<u64> = encode_query(d_mat, &full, &u);
    assert(q_hat@ =~= encoding(d_mat@, query@, draws@));
    q_hat
}

/// Hits for scores: vectors are numbered by their place.
pub open spec fn numbered(scores: Seq<i64>) -> Seq<Hit> {
    Seq::new(scores.len(), |i: int| Hit { id: i as u32, score: scores[i] })
}

/// Ranks scores and keeps the best `k`.
pub fn top_k_from_scores(scores: &[i64], k: usize) -> (r: Vec<Hit>)
    ensures
        r@ == hits::best(numbered(scores@), k as int),
{
    let mut indexed: Vec<Hit> = Vec::with_capacity(scores.len());
    for i in 0..scores.len()
        invariant
            indexed@ == numbered(scores@).take(i as int),
    {
        indexed.push(Hit { id: i as u32, score: scores[i] });
        assert(indexed@ =~= numbered(scores@).take(i + 1));
    }
    assert(indexed@ =~= numbered(scores@));
    rank(&indexed, k)
}

/// The scores that block products with an encoded query decode to.
pub open spec fn scores_of_products(
    m: int,
    r_seed: Seq<u8>,
    q_hat: Seq<u64>,
    products: Seq<u64>,
) -> Seq<i64> {
    Seq::new(m as nat, |i: int| crypto::decoded(m, r_seed, q_hat, products, i) as i64)
}

/// The scores that an encoded query decodes to.
pub open spec fn decoded_scores(m_hat: Seq<u64>, m: int, r_seed: Seq<u8>, q_hat: Seq<u64>) -> Seq<i64> {
    scores_of_products(m, r_seed, q_hat, crypto::block_products(m_hat, m, q_hat))
}

/// The hits of a query that is scored under a mask of random numbers.
pub open spec fn masked_hits(handle: EmvpHandle, query: Seq<i64>, draws: Seq<u64>) -> Seq<Hit> {
    numbered(
        decoded_scores(
            handle.spec_m_hat(),
            handle.spec_m(),
            handle.spec_r_seed(),
            encoding(handle.spec_d(), query, draws),
        ),
    )
}

/// The hits of a query on vectors: their inner products, read off the field.
pub open spec fn inner_product_hits(rows: Seq<Seq<i64>>, query: Seq<i64>) -> Seq<Hit> {
    Seq::new(
        rows.len(),
        |i: int|
            Hit {
                id: i as u32,
                score: field::centred(crypto::inner_product(rows[i], query) % P as int) as i64,
            },
    )
}

/// Whatever the mask, an encrypted cluster scores as its vectors do in the clear.
pub proof fn scores_are_inner_products(
    handle: EmvpHandle,
    rows: Seq<Seq<i64>>,
    query: Seq<i64>,
    draws: Seq<u64>,
)
    requires
        handle.well_formed(),
        handle.encrypts(rows),
        query.len() <= ELL0,
        draws.len() == K,
    ensures
        masked_hits(handle, query, draws) == inner_product_hits(rows, query),
{
    let d = handle.spec_d();
    let q_hat = encoding(d, query, draws);
    let u = mask_of(draws);
    let full = padded(query);
    lemma_encoding(d, query, draws);
    assert forall|i: int| 0 <= i < rows.len() implies #[trigger] masked_hits(
        handle,
        query,
        draws,
    )[i] == inner_product_hits(rows, query)[i] by {
        crypto::decoding_gives_inner_products(
            d,
            handle.spec_r_seed(),
            rows,
            full,
            u,
            handle.spec_m_hat(),
            q_hat,
            i,
        );
        sums::lemma_sum_same(
            ELL0 as int,
            |l: int| crypto::component(rows[i], l) * crypto::component(full, l),
            |l: int| crypto::component(rows[i], l) * crypto::component(query, l),
        );
    }
    assert(masked_hits(handle, query, draws) =~= inner_product_hits(rows, query));
}

/// An encoded query is one.
pub proof fn lemma_encoding(d: Seq<u64>, query: Seq<i64>, draws: Seq<u64>)
    requires
        query.len() <= ELL0,
        draws.len() == K,
    ensures
        crypto::is_encoding(encoding(d, query, draws), d, padded(query), mask_of(draws)),
{
    let q_hat = encoding(d, query, draws);
    assert forall|j: int| 0 <= j < q_hat.len() implies #[trigger] q_hat[j] < P by {
        if j >= ELL0 {
            assert(mask_of(draws)[j - ELL0] < P);
        }
    }
}

/// Where inner products are within half the field, they are the scores.
pub proof fn small_inner_products_are_the_scores(
    rows: Seq<Seq<i64>>,
    query: Seq<i64>,
    i: int,
)
    requires
        0 <= i < rows.len(),
        -(P / 2) <= crypto::inner_product(rows[i], query) <= P / 2,
    ensures
        inner_product_hits(rows, query)[i].score == crypto::inner_product(rows[i], query),
{
    field::decode_inverts_quantize(crypto::inner_product(rows[i], query));
}

/// Encodes a query for a cluster under a mask of random numbers.
pub fn encode_masked(handle: &EmvpHandle, query: &[i64], draws: &[u64]) -> (r: Result<
    Vec<u64>,
    EmvpError,
>)
    requires
        handle.well_formed(),
        draws@.len() == K,
    ensures
        query@.len() > ELL0 ==> r == Err::<Vec<u64>, EmvpError>(
            EmvpError::DimensionTooLarge { actual: query.len(), ell0: ELL0 },
        ),
        query@.len() <= ELL0 ==> r is Ok && r->Ok_0@ == encoding(handle.spec_d(), query@, draws@)
            && crypto::in_field(r->Ok_0@),
{
    if query.len() > ELL0 {
        return Err(EmvpError::DimensionTooLarge { actual: query.len(), ell0: ELL0 });
    }
    Ok(encode(&handle.d_mat, query, draws))
}

/// The server's work on an encoded query: the block products of the ciphertext with it.
pub fn products(handle: &EmvpHandle, q_hat: &[u64]) -> (r: Vec<u64>)
    requires
        handle.well_formed(),
        0 < handle.spec_m(),
        q_hat@.len() >= N,
        crypto::in_field(q_hat@),
    ensures
        r@ == crypto::block_products(handle.spec_m_hat(), handle.spec_m(), q_hat@),
        crypto::in_field(r@),
{
    proof {
        lemma_products_fit(handle.spec_m());
    }
    compute_products(&handle.m_hat, handle.m, q_hat)
}

/// Decodes the block products with an encoded query and returns the best `k` hits.
pub fn decode_best(handle: &EmvpHandle, q_hat: &[u64], products: &[u64], k: usize) -> (r: Vec<Hit>)
    requires
        handle.well_formed(),
        q_hat@.len() >= N,
        crypto::in_field(q_hat@),
        products@.len() == S * handle.spec_m(),
        crypto::in_field(products@),
    ensures
        r@ == hits::best(
            numbered(
                scores_of_products(handle.spec_m(), handle.spec_r_seed(), q_hat@, products@),
            ),
            k as int,
        ),
{
    let scores: Vec<i64> = decode_scores(handle.m, &handle.r_seed, q_hat, products);
    assert(scores@ =~= scores_of_products(
        handle.spec_m(),
        handle.spec_r_seed(),
        q_hat@,
        products@,
    ));
    top_k_from_scores(&scores, k)
}

/// Scores a query under a mask of random numbers and returns the best `k` hits.
///
/// A cluster without vectors has no products, so that work on it fails.
pub fn score_masked(handle: &EmvpHandle, query: &[i64], draws: &[u64], k: usize) -> (r: Result<
    Vec<Hit>,
    EmvpError,
>)
    requires
        handle.well_formed(),
        draws@.len() == K,
    ensures
        query@.len() > ELL0 ==> r == Err::<Vec<Hit>, EmvpError>(
            EmvpError::DimensionTooLarge { actual: query.len(), ell0: ELL0 },
        ),
        query@.len() <= ELL0 && handle.spec_m() == 0 ==> r == Err::<Vec<Hit>, EmvpError>(
            EmvpError::SpawnPanic,
        ),
        query@.len() <= ELL0 && handle.spec_m() > 0 ==> r is Ok && r->Ok_0@ == hits::best(
            masked_hits(*handle, query@, draws@),
            k as int,
        ),
{
    let q_hat: Vec<u64> = match encode_masked(handle, query, draws) {
        Ok(q_hat) => q_hat,
        Err(e) => {
            return Err(e);
        },
    };
    if handle.m == 0 {
        return Err(EmvpError::SpawnPanic);
    }
    let partials: Vec<u64> = products(handle, &q_hat);
    Ok(decode_best(handle, &q_hat, &partials, k))
}

/// The products of a ciphertext that fits in memory fit too.
pub proof fn lemma_products_fit(m: int)
    requires
        0 <= m,
        m * N * FIELD_BYTES <= usize::MAX,
    ensures
        0 <= S * m <= m * N <= usize::MAX,
        S * m * FIELD_BYTES <= usize::MAX,
{
    assert(m * N * FIELD_BYTES == m * 10336) by (nonlinear_arith);
}

/// The best `k` hits of a query under one mask or another.
pub open spec fn scored_under_some_mask(
    handle: EmvpHandle,
    query: Seq<i64>,
    k: int,
    found: Seq<Hit>,
) -> bool {
    exists|draws: Seq<u64>|
        draws.len() == K && found == hits::best(#[trigger] masked_hits(handle, query, draws), k)
}

/// Results do not depend on the mask: a query that is scored twice on an encrypted cluster, alone or
/// among others, has the same hits.
pub proof fn results_do_not_depend_on_the_mask(
    handle: EmvpHandle,
    rows: Seq<Seq<i64>>,
    query: Seq<i64>,
    k: int,
    found: Seq<Hit>,
    found_again: Seq<Hit>,
)
    requires
        handle.well_formed(),
        handle.encrypts(rows),
        query.len() <= ELL0,
        scored_under_some_mask(handle, query, k, found),
        scored_under_some_mask(handle, query, k, found_again),
    ensures
        found == found_again,
{
    let one = choose|draws: Seq<u64>|
        draws.len() == K && found == hits::best(#[trigger] masked_hits(handle, query, draws), k);
    let other = choose|draws: Seq<u64>|
        draws.len() == K && found_again == hits::best(
            #[trigger] masked_hits(handle, query, draws),
            k,
        );
    scores_are_inner_products(handle, rows, query, one);
    scores_are_inner_products(handle, rows, query, other);
}

/// Scores a query under a fresh mask and returns the best `k` hits.
pub fn score(handle: &EmvpHandle, query: &[i64], k: usize) -> (r: Result<Vec<Hit>, EmvpError>)
    requires
        handle.well_formed(),
    ensures
        query@.len() > ELL0 ==> r == Err::<Vec<Hit>, EmvpError>(
            EmvpError::DimensionTooLarge { actual: query.len(), ell0: ELL0 },
        ),
        query@.len() <= ELL0 && handle.spec_m() == 0 ==> r == Err::<Vec<Hit>, EmvpError>(
            EmvpError::SpawnPanic,
        ),
        query@.len() <= ELL0 && handle.spec_m() > 0 ==> r is Ok && scored_under_some_mask(
            *handle,
            query@,
            k as int,
            r->Ok_0@,
        ),
        query@.len() <= ELL0 && handle.spec_m() > 0 ==> forall|rows: Seq<Seq<i64>>| #[trigger]
            handle.encrypts(rows) ==> r->Ok_0@ == hits::best(
                inner_product_hits(rows, query@),
                k as int,
            ),
{
    let draws: Vec<u64> = draw_u64s(K);
    proof {
        if query@.len() <= ELL0 {
            assert forall|rows: Seq<Seq<i64>>| #[trigger]
                handle.encrypts(rows) implies masked_hits(*handle, query@, draws@)
                == inner_product_hits(rows, query@) by {
                scores_are_inner_products(*handle, rows, query@, draws@);
            }
        }
    }
    score_masked(handle, query, &draws, k)
}

/// What a query on a cluster costs.
pub open spec fn flat_cost(m: int) -> CommunicationCost {
    CommunicationCost {
        query_bytes: (N * FIELD_BYTES) as u64,
        response_bytes: (S * m * FIELD_BYTES) as u64,
        cluster_response_bytes: (S * m * FIELD_BYTES) as u64,
        setup_bytes: (m * N * FIELD_BYTES) as u64,
        pre_query_offline_up_bytes: 0,
        pre_query_offline_down_bytes: 0,
        effective_bytes_per_query: (m * N * FIELD_BYTES) as u64,
    }
}

/// What a query costs: the client sends an encoded query and gets the products of every block; the
/// server reads the whole ciphertext.
pub fn communication_cost(handle: &EmvpHandle) -> (cost: CommunicationCost)
    requires
        handle.well_formed(),
    ensures
        cost == flat_cost(handle.spec_m()),
{
    proof {
        lemma_products_fit(handle.m as int);
    }
    let response: u64 = cluster_response_bytes(handle.m);
    let setup: u64 = setup_bytes(handle.m);
    CommunicationCost {
        query_bytes: (N * FIELD_BYTES) as u64,
        response_bytes: response,
        cluster_response_bytes: response,
        setup_bytes: setup,
        pre_query_offline_up_bytes: 0,
        pre_query_offline_down_bytes: 0,
        effective_bytes_per_query: setup,
    }
}

/// The first query that has more components than can be encrypted, or the number of queries.
pub open spec fn first_too_long(queries: Seq<Vec<i64>>, n: int) -> int
    decreases n,
{
    if n <= 0 {
        0
    } else if first_too_long(queries, n - 1) < n - 1 {
        first_too_long(queries, n - 1)
    } else if queries[n - 1]@.len() > ELL0 {
        n - 1
    } else {
        n
    }
}

/// Scores several queries, each under its own mask. The ciphertext is read once.
pub fn score_batch_masked(
    handle: &EmvpHandle,
    queries: &[Vec<i64>],
    draws: &[Vec<u64>],
    k: usize,
) -> (r: Result<Vec<Vec<Hit>>, EmvpError>)
    requires
        handle.well_formed(),
        draws@.len() == queries@.len(),
        forall|q: int| 0 <= q < draws@.len() ==> (#[trigger] draws@[q])@.len() == K,
        handle.spec_m() * queries@.len() <= usize::MAX,
    ensures
        ({
            let bad = first_too_long(queries@, queries@.len() as int);
            &&& bad < queries@.len() ==> r == Err::<Vec<Vec<Hit>>, EmvpError>(
                EmvpError::DimensionTooLarge { actual: queries@[bad].len(), ell0: ELL0 },
            )
            &&& bad == queries@.len() ==> r is Ok && r->Ok_0@.len() == queries@.len()
                && forall|q: int|
                0 <= q < queries@.len() ==> (#[trigger] r->Ok_0@[q])@ == hits::best(
                    masked_hits(*handle, queries@[q]@, draws@[q]@),
                    k as int,
                )
        }),
{
    for q in 0..queries.len()
        invariant
            first_too_long(queries@, q as int) == q,
            forall|t: int| 0 <= t < q ==> (#[trigger] queries@[t])@.len() <= ELL0,
    {
        if queries[q].len() > ELL0 {
            proof {
                lemma_first_too_long(queries@, q as int, queries@.len() as int);
            }
            return Err(
                EmvpError::DimensionTooLarge { actual: queries[q].len(), ell0: ELL0 },
            );
        }
    }
    let m: usize = handle.m;
    let mut q_hats: Vec<Vec<u64>> = Vec::with_capacity(queries.len());
    for q in 0..queries.len()
        invariant
            handle.well_formed(),
            draws@.len() == queries@.len(),
            forall|t: int| 0 <= t < draws@.len() ==> (#[trigger] draws@[t])@.len() == K,
            forall|t: int| 0 <= t < queries@.len() ==> (#[trigger] queries@[t])@.len() <= ELL0,
            q_hats@.len() == q,
            forall|t: int|
                0 <= t < q ==> (#[trigger] q_hats@[t])@ == encoding(
                    handle.spec_d(),
                    queries@[t]@,
                    draws@[t]@,
                ) && crypto::in_field(q_hats@[t]@),
    {
        q_hats.push(encode(&handle.d_mat, &queries[q], &draws[q]));
    }
    let mut refs: Vec<&[u64]> = Vec::with_capacity(queries.len());
    for q in 0..q_hats.len()
        invariant
            refs@.len() == q,
            forall|t: int| 0 <= t < q ==> (#[trigger] refs@[t])@ == q_hats@[t]@,
    {
        refs.push(q_hats[q].as_slice());
    }
    proof {
        lemma_products_fit(m as int);
        assert forall|q: int| 0 <= q < refs@.len() implies (#[trigger] refs@[q])@.len() >= N
            && crypto::in_field(refs@[q]@) by {
            assert(refs@[q]@ == q_hats@[q]@);
        }
    }
    let partials: Vec<Vec<u64>> = compute_products_batch(&handle.m_hat, m, &refs);
    let mut out: Vec<Vec<Hit>> = Vec::with_capacity(queries.len());
    for q in 0..queries.len()
        invariant
            handle.well_formed(),
            m == handle.spec_m(),
            0 <= S * m,
            q_hats@.len() == queries@.len(),
            partials@.len() == queries@.len(),
            forall|t: int|
                0 <= t < queries@.len() ==> (#[trigger] q_hats@[t])@ == encoding(
                    handle.spec_d(),
                    queries@[t]@,
                    draws@[t]@,
                ) && crypto::in_field(q_hats@[t]@),
            forall|t: int|
                0 <= t < queries@.len() ==> (#[trigger] partials@[t])@ == crypto::block_products(
                    handle.spec_m_hat(),
                    m as int,
                    q_hats@[t]@,
                ),
            out@.len() == q,
            forall|t: int|
                0 <= t < q ==> (#[trigger] out@[t])@ == hits::best(
                    masked_hits(*handle, queries@[t]@, draws@[t]@),
                    k as int,
                ),
    {
        proof {
            crypto::lemma_products_in_field(handle.spec_m_hat(), m as int, q_hats@[q as int]@);
        }
        let scores: Vec<i64> = decode_scores(m, &handle.r_seed, &q_hats[q], &partials[q]);
        assert(scores@ =~= decoded_scores(
            handle.spec_m_hat(),
            m as int,
            handle.spec_r_seed(),
            q_hats@[q as int]@,
        ));
        out.push(top_k_from_scores(&scores, k));
    }
    Ok(out)
}

/// The first query that is too long stays the first if more follow.
proof fn lemma_first_too_long(queries: Seq<Vec<i64>>, at: int, n: int)
    requires
        0 <= at < n <= queries.len(),
        first_too_long(queries, at) == at,
        queries[at]@.len() > ELL0,
    ensures
        first_too_long(queries, n) == at,
    decreases n,
{
    if n > at + 1 {
        lemma_first_too_long(queries, at, n - 1);
    }
}

/// Scores several queries, each under a fresh mask.
pub fn score_batch(handle: &EmvpHandle, queries: &[Vec<i64>], k: usize) -> (r: Result<
    Vec<Vec<Hit>>,
    EmvpError,
>)
    requires
        handle.well_formed(),
        handle.spec_m() * queries@.len() <= usize::MAX,
    ensures
        ({
            let bad = first_too_long(queries@, queries@.len() as int);
            &&& bad < queries@.len() ==> r == Err::<Vec<Vec<Hit>>, EmvpError>(
                EmvpError::DimensionTooLarge { actual: queries@[bad].len(), ell0: ELL0 },
            )
            &&& bad == queries@.len() ==> r is Ok && r->Ok_0@.len() == queries@.len()
            &&& bad == queries@.len() ==> forall|q: int|
                0 <= q < queries@.len() ==> scored_under_some_mask(
                    *handle,
                    queries@[q]@,
                    k as int,
                    (#[trigger] r->Ok_0@[q])@,
                )
            &&& bad == queries@.len() ==> forall|q: int, rows: Seq<Seq<i64>>|
                0 <= q < queries@.len() && #[trigger] handle.encrypts(rows) ==> (
                #[trigger] r->Ok_0@[q])@ == hits::best(
                    inner_product_hits(rows, queries@[q]@),
                    k as int,
                )
        }),
{
    let mut draws: Vec<Vec<u64>> = Vec::with_capacity(queries.len());
    for q in 0..queries.len()
        invariant
            draws@.len() == q,
            forall|t: int| 0 <= t < q ==> (#[trigger] draws@[t])@.len() == K,
    {
        draws.push(draw_u64s(K));
    }
    let r: Result<Vec<Vec<Hit>>, EmvpError> = score_batch_masked(handle, queries, &draws, k);
    proof {
        let n = queries@.len() as int;
        if first_too_long(queries@, n) == n {
            lemma_none_too_long(queries@, n);
            assert forall|q: int, rows: Seq<Seq<i64>>| 0 <= q < n && #[trigger]
                handle.encrypts(rows) implies (#[trigger] r->Ok_0@[q])@ == hits::best(
                inner_product_hits(rows, queries@[q]@),
                k as int,
            ) by {
                scores_are_inner_products(*handle, rows, queries@[q]@, draws@[q]@);
            }
            assert forall|q: int| 0 <= q < n implies scored_under_some_mask(
                *handle,
                queries@[q]@,
                k as int,
                (#[trigger] r->Ok_0@[q])@,
            ) by {
                let used = draws@[q]@;
                assert(r->Ok_0@[q]@ == hits::best(
                    masked_hits(*handle, queries@[q]@, used),
                    k as int,
                ));
            }
        }
        lemma_first_is_counted(queries@, n);
    }
    r
}

/// If no query is the first that is too long, none is.
proof fn lemma_none_too_long(queries: Seq<Vec<i64>>, n: int)
    requires
        0 <= n <= queries.len(),
        first_too_long(queries, n) == n,
    ensures
        forall|t: int| 0 <= t < n ==> (#[trigger] queries[t])@.len() <= ELL0,
    decreases n,
{
    if n > 0 {
        lemma_none_too_long(queries, n - 1);
    }
}

/// The first query that is too long is a query, or their number.
proof fn lemma_first_is_counted(queries: Seq<Vec<i64>>, n: int)
    requires
        0 <= n,
    ensures
        0 <= first_too_long(queries, n) <= n,
    decreases n,
{
    if n > 0 {
        lemma_first_is_counted(queries, n - 1);
    }
}

/// The bytes of a stored ciphertext: its rows and columns, the seed of the masks, and its elements.
pub open spec fn stored_bytes(m_hat: Seq<u64>, r_seed: Seq<u8>, n: int) -> Seq<u8> {
    bytes::le64((m_hat.len() as int / n) as u64) + bytes::le64(n as u64) + r_seed + bytes::run64(
        m_hat,
    )
}

/// Lays a ciphertext of `n` columns out for storage.
pub fn save_emvp_cache(m_hat: &[u64], r_seed: &[u8; 32], n: usize) -> (out: Vec<u8>)
    requires
        0 < n,
    ensures
        out@ == stored_bytes(m_hat@, r_seed@, n as int),
{
    let mut out: Vec<u8> = Vec::new();
    put_u64(&mut out, (m_hat.len() / n) as u64);
    put_u64(&mut out, n as u64);
    out.extend_from_slice(r_seed.as_slice());
    put_u64s(&mut out, m_hat);
    assert(out@ =~= stored_bytes(m_hat@, r_seed@, n as int));
    out
}

/// Bytes hold a stored ciphertext of `n` columns, in full.
pub open spec fn holds_ciphertext(stored: Seq<u8>, n: int) -> bool {
    &&& stored.len() >= 48
    &&& bytes::u64_at(stored, 8) == n
    &&& 48 + 8 * (bytes::u64_at(stored, 0) * n) <= stored.len()
}

/// The elements of a stored ciphertext of `n` columns.
pub open spec fn stored_elements(stored: Seq<u8>, n: int) -> Seq<u64> {
    bytes::words_at(stored, 48, bytes::u64_at(stored, 0) * n)
}

/// Reads a stored ciphertext of `n` columns and the seed of its masks.
pub fn load_emvp_cache(stored: &[u8], n: usize) -> (r: Option<(Vec<u64>, [u8; 32])>)
    ensures
        r is Some <==> holds_ciphertext(stored@, n as int),
        r matches Some((m_hat, r_seed)) ==> m_hat@ == stored_elements(stored@, n as int) && r_seed@
            == stored@.subrange(16, 48),
{
    assert(stored.len() == stored@.len());
    let m: u64 = match get_u64(stored, 0) {
        None => {
            return None;
        },
        Some(m) => m,
    };
    let stored_n: u64 = match get_u64(stored, 8) {
        None => {
            return None;
        },
        Some(stored_n) => stored_n,
    };
    if stored_n != n as u64 {
        return None;
    }
    let r_seed: [u8; 32] = match get_seed(stored, 16) {
        None => {
            return None;
        },
        Some(r_seed) => r_seed,
    };
    assert(m * n <= u64::MAX * u64::MAX && 0 <= m * n) by (nonlinear_arith)
        requires
            0 <= m <= u64::MAX,
            0 <= n <= u64::MAX,
    ;
    let elements: u128 = m as u128 * n as u128;
    if elements > stored.len() as u128 {
        return None;
    }
    match get_u64s(stored, 48, elements as usize) {
        None => None,
        Some(m_hat) => Some((m_hat, r_seed)),
    }
}

/// A ciphertext that was stored is read back.
pub proof fn loading_gives_back_what_was_saved(m_hat: Seq<u64>, r_seed: Seq<u8>, n: usize, m: u64)
    requires
        0 < n,
        m_hat.len() == m * n,
        r_seed.len() == 32,
    ensures
        ({
            let stored = stored_bytes(m_hat, r_seed, n as int);
            &&& holds_ciphertext(stored, n as int)
            &&& stored_elements(stored, n as int) == m_hat
            &&& stored.subrange(16, 48) == r_seed
        }),
{
    bytes::lemma_numbers();
    let stored = stored_bytes(m_hat, r_seed, n as int);
    assert((m * n) / n as int == m) by (nonlinear_arith)
        requires
            0 < n,
    ;
    assert(stored.subrange(0, 8) =~= bytes::le64(m));
    assert(bytes::has_at(stored, 0, bytes::le64(m)));
    assert(stored.subrange(8, 16) =~= bytes::le64(n as u64));
    assert(bytes::has_at(stored, 8, bytes::le64(n as u64)));
    assert(stored.subrange(16, 48) =~= r_seed);
    let run = bytes::run64(m_hat);
    assert(run.len() == m_hat.len() * 8);
    assert(stored.subrange(48, 48 + run.len() as int) =~= run);
    bytes::lemma_words_of_run(stored, 48, m_hat);
}

/// What a ciphertext is fingerprinted by.
pub open spec fn cache_parts_of(m: usize, dim: usize, key_seed: Seq<u8>) -> Seq<Seq<u8>> {
    seq![
        bytes::text_bytes("emvp-flat"@),
        bytes::le64(m as u64),
        bytes::le64(dim as u64),
        key_seed,
    ]
}

/// The parts that a stored ciphertext is fingerprinted by: a tag, the number of vectors, their
/// dimension and the seed of `D`.
pub fn cache_parts(m: usize, dim: usize, key_seed: &[u8; 32]) -> (parts: Vec<Vec<u8>>)
    ensures
        bytes::contents(parts@) == cache_parts_of(m, dim, key_seed@),
{
    let mut parts: Vec<Vec<u8>> = Vec::with_capacity(4);
    parts.push(text("emvp-flat"));
    parts.push(number(m as u64));
    parts.push(number(dim as u64));
    parts.push(copy(key_seed.as_slice()));
    assert(bytes::contents(parts@) =~= cache_parts_of(m, dim, key_seed@));
    parts
}

/// A ciphertext that is kept for later uploads.
pub struct FlatEntry {
    m_hat: Arc<Vec<u64>>,
    r_seed: [u8; 32],
    m: usize,
    d_mat: Arc<Vec<u64>>,
}

impl FlatEntry {
    /// The ciphertext, row by row.
    pub closed spec fn spec_m_hat(&self) -> Seq<u64> {
        self.m_hat@
    }

    /// Seed of the masks.
    pub closed spec fn spec_r_seed(&self) -> Seq<u8> {
        self.r_seed@
    }

    /// Number of vectors.
    pub closed spec fn spec_m(&self) -> int {
        self.m as int
    }

    /// The matrix `D`.
    pub closed spec fn spec_d(&self) -> Seq<u64> {
        self.d_mat@
    }

    /// The entry can be scored, and stands under a key with the number of its vectors.
    pub open spec fn fits(&self, key: Seq<u8>) -> bool {
        &&& is_ciphertext(self.spec_m_hat(), self.spec_m())
        &&& crypto::is_d_matrix(self.spec_d())
        &&& 0 <= self.spec_m() <= u64::MAX
        &&& bytes::has_at(key, 0, bytes::le64(self.spec_m() as u64))
    }
}

/// Builds and scores encrypted clusters, and keeps those it built.
pub struct EmvpScorer {
    cache: KeyedCache<FlatEntry>,
}

/// The key of a ciphertext: the number of vectors, their dimension and a fingerprint.
pub open spec fn cache_key_of(m: usize, dim: usize, fingerprint: Seq<u8>) -> Seq<u8> {
    bytes::le64(m as u64) + bytes::le64(dim as u64) + fingerprint
}

/// The key of a ciphertext.
fn cache_key(m: usize, dim: usize, fingerprint: &[u8]) -> (key: Vec<u8>)
    ensures
        key@ == cache_key_of(m, dim, fingerprint@),
{
    let mut key: Vec<u8> = Vec::new();
    put_u64(&mut key, m as u64);
    put_u64(&mut key, dim as u64);
    key.extend_from_slice(fingerprint);
    assert(key@ =~= cache_key_of(m, dim, fingerprint@));
    key
}

/// Components of the first vector; none if there is no vector.
pub open spec fn dimension(vectors: Seq<Vec<i64>>) -> usize {
    if vectors.len() == 0 {
        0
    } else {
        vectors[0].len()
    }
}

/// `D` is the matrix of a seed.
pub open spec fn is_d_of(d: Seq<u64>, key_seed: Seq<u8>) -> bool {
    &&& crypto::is_d_matrix(d)
    &&& forall|i: int, j: int|
        0 <= i < ELL0 && 0 <= j < N ==> #[trigger] d[i * N + j] == crypto::d_entry(key_seed, i, j)
}

/// Stored bytes hold a ciphertext of `m` rows.
pub open spec fn stored_fits(stored: Option<Seq<u8>>, m: int) -> bool {
    &&& stored is Some
    &&& holds_ciphertext(stored->Some_0, N as int)
    &&& is_ciphertext(stored_elements(stored->Some_0, N as int), m)
}

/// Bytes that may be there.
pub open spec fn optional(stored: Option<&[u8]>) -> Option<Seq<u8>> {
    match stored {
        None => None,
        Some(part) => Some(part@),
    }
}

/// What an upload keeps if nothing is kept under its key: the stored ciphertext if there is one,
/// else the encryption of the vectors.
pub open spec fn is_new_entry(
    entry: FlatEntry,
    config: EmvpConfig,
    vectors: Seq<Vec<i64>>,
    stored: Option<Seq<u8>>,
    r_seed: Seq<u8>,
) -> bool {
    &&& entry.spec_m() == vectors.len()
    &&& is_d_of(entry.spec_d(), config.key_seed@)
    &&& stored_fits(stored, vectors.len() as int) ==> entry.spec_m_hat() == stored_elements(
        stored->Some_0,
        N as int,
    ) && entry.spec_r_seed() == stored->Some_0.subrange(16, 48)
    &&& !stored_fits(stored, vectors.len() as int) ==> entry.spec_r_seed() == r_seed
        && crypto::is_encryption(
        entry.spec_m_hat(),
        entry.spec_d(),
        r_seed,
        crypto::rows_of(vectors),
    )
}

/// A handle holds what an entry holds.
pub open spec fn handle_of(handle: EmvpHandle, entry: FlatEntry, dim: usize) -> bool {
    &&& handle.spec_m_hat() == entry.spec_m_hat()
    &&& handle.spec_r_seed() == entry.spec_r_seed()
    &&& handle.spec_m() == entry.spec_m()
    &&& handle.spec_d() == entry.spec_d()
    &&& handle.spec_dim() == dim
}

/// An upload: what is kept before and after it, the handle that it gives, and whether the ciphertext
/// was kept or stored before.
pub open spec fn is_upload(
    before: Map<Seq<u8>, FlatEntry>,
    after: Map<Seq<u8>, FlatEntry>,
    config: EmvpConfig,
    vectors: Seq<Vec<i64>>,
    fingerprint: Seq<u8>,
    stored: Option<Seq<u8>>,
    r_seed: Seq<u8>,
    handle: EmvpHandle,
    hit: bool,
) -> bool {
    let dim = dimension(vectors);
    let key = cache_key_of(vectors.len() as usize, dim, fingerprint);
    let kept = before.contains_key(key);
    &&& kept ==> after == before
    &&& !kept ==> after == before.insert(key, after[key]) && is_new_entry(
        after[key],
        config,
        vectors,
        stored,
        r_seed,
    )
    &&& handle_of(handle, after[key], dim)
    &&& hit == (kept || stored_fits(stored, vectors.len() as int))
}

/// Vectors that are uploaded again under the same fingerprint are found kept, and the ciphertext is
/// the one of the upload before.
pub proof fn repeated_uploads_are_hits(
    first: Map<Seq<u8>, FlatEntry>,
    second: Map<Seq<u8>, FlatEntry>,
    third: Map<Seq<u8>, FlatEntry>,
    config: EmvpConfig,
    config_again: EmvpConfig,
    vectors: Seq<Vec<i64>>,
    fingerprint: Seq<u8>,
    stored: Option<Seq<u8>>,
    stored_again: Option<Seq<u8>>,
    r_seed: Seq<u8>,
    r_seed_again: Seq<u8>,
    handle: EmvpHandle,
    handle_again: EmvpHandle,
    hit: bool,
    hit_again: bool,
)
    requires
        is_upload(first, second, config, vectors, fingerprint, stored, r_seed, handle, hit),
        is_upload(
            second,
            third,
            config_again,
            vectors,
            fingerprint,
            stored_again,
            r_seed_again,
            handle_again,
            hit_again,
        ),
    ensures
        hit_again,
        third == second,
        handle_again.spec_m_hat() == handle.spec_m_hat(),
        handle_again.spec_r_seed() == handle.spec_r_seed(),
        handle_again.spec_d() == handle.spec_d(),
        handle_again.spec_m() == handle.spec_m(),
        handle_again.spec_dim() == handle.spec_dim(),
{
}

/// A handle of vectors that were encrypted by the upload encrypts these vectors.
pub proof fn fresh_uploads_encrypt_their_vectors(
    handle: EmvpHandle,
    entry: FlatEntry,
    config: EmvpConfig,
    vectors: Seq<Vec<i64>>,
    stored: Option<Seq<u8>>,
    r_seed: Seq<u8>,
)
    requires
        is_new_entry(entry, config, vectors, stored, r_seed),
        !stored_fits(stored, vectors.len() as int),
        handle_of(handle, entry, dimension(vectors)),
    ensures
        handle.encrypts(crypto::rows_of(vectors)),
{
}

/// The matrix `D` is determined by its seed.
proof fn lemma_same_d(d: Seq<u64>, other: Seq<u64>, key_seed: Seq<u8>)
    requires
        is_d_of(d, key_seed),
        is_d_of(other, key_seed),
    ensures
        d == other,
{
    assert forall|p: int| 0 <= p < d.len() implies d[p] == other[p] by {
        layout::lemma_row_major(p, ELL0 as int, N as int);
        let i = p / (N as int);
        let j = p % (N as int);
        assert(d[i * N + j] == crypto::d_entry(key_seed, i, j));
        assert(other[i * N + j] == crypto::d_entry(key_seed, i, j));
    }
    assert(d =~= other);
}

/// A handle of vectors whose ciphertext was stored by an earlier upload, under the same seed of
/// `D`, encrypts these vectors.
pub proof fn stored_uploads_encrypt_their_vectors(
    handle: EmvpHandle,
    entry: FlatEntry,
    before: FlatEntry,
    config: EmvpConfig,
    vectors: Seq<Vec<i64>>,
    r_seed: Seq<u8>,
    r_seed_before: Seq<u8>,
)
    requires
        r_seed_before.len() == 32,
        vectors.len() <= u64::MAX,
        is_new_entry(before, config, vectors, None, r_seed_before),
        is_new_entry(
            entry,
            config,
            vectors,
            Some(stored_bytes(before.spec_m_hat(), before.spec_r_seed(), N as int)),
            r_seed,
        ),
        handle_of(handle, entry, dimension(vectors)),
    ensures
        handle.encrypts(crypto::rows_of(vectors)),
{
    loading_gives_back_what_was_saved(
        before.spec_m_hat(),
        before.spec_r_seed(),
        N,
        vectors.len() as u64,
    );
    lemma_same_d(entry.spec_d(), before.spec_d(), config.key_seed@);
}

/// Every element is a field element.
fn all_in_field(v: &[u64]) -> (r: bool)
    ensures
        r == crypto::in_field(v@),
{
    for i in 0..v.len()
        invariant
            forall|t: int| 0 <= t < i ==> #[trigger] v@[t] < P,
    {
        if v[i] >= P {
            assert(v@[i as int] >= P);
            return false;
        }
    }
    true
}

impl EmvpScorer {
    /// What is kept, by key.
    pub closed spec fn view(&self) -> Map<Seq<u8>, FlatEntry> {
        self.cache.view()
    }

    /// Everything that is kept can be scored.
    pub open spec fn well_formed(&self) -> bool {
        forall|key: Seq<u8>| #[trigger]
            self.view().contains_key(key) ==> self.view()[key].fits(key)
    }

    /// A scorer that keeps nothing yet.
    pub fn new() -> (scorer: Self)
        ensures
            scorer.view() == Map::<Seq<u8>, FlatEntry>::empty(),
            scorer.well_formed(),
    {
        EmvpScorer { cache: KeyedCache::new() }
    }

    /// Whether an upload will find its ciphertext kept, so that nothing need be read from storage.
    pub fn keeps(&self, m: usize, dim: usize, fingerprint: &[u8]) -> (r: bool)
        ensures
            r == self.view().contains_key(cache_key_of(m, dim, fingerprint@)),
    {
        let key: Vec<u8> = cache_key(m, dim, fingerprint);
        self.cache.get(&key).is_some()
    }

    /// Uploads a cluster, with the masks drawn from `r_seed` if it has to be encrypted: gives a
    /// handle, and whether the ciphertext was kept or stored before.
    pub fn upload_with_seed<F: Fn(usize) + Sync + Send>(
        &mut self,
        config: &EmvpConfig,
        vectors: &[Vec<i64>],
        fingerprint: &[u8],
        stored: Option<&[u8]>,
        gpu_enabled: bool,
        r_seed: [u8; 32],
        on_row: F,
    ) -> (r: Result<(EmvpHandle, bool), EmvpError>)
        requires
            old(self).well_formed(),
            vectors@.len() * N * FIELD_BYTES <= usize::MAX,
            forall|i: usize| i < vectors@.len() ==> call_requires(on_row, (i,)),
        ensures
            final(self).well_formed(),
            ({
                let m = vectors@.len() as usize;
                let dim = dimension(vectors@);
                let key = cache_key_of(m, dim, fingerprint@);
                let kept = old(self).view().contains_key(key);
                &&& dim > ELL0 ==> final(self).view() == old(self).view() && r == Err::<
                    (EmvpHandle, bool),
                    EmvpError,
                >(EmvpError::DimensionTooLarge { actual: dim, ell0: ELL0 })
                &&& dim <= ELL0 && kept ==> final(self).view() == old(self).view()
                &&& dim <= ELL0 && !kept ==> final(self).view() == old(self).view().insert(
                    key,
                    final(self).view()[key],
                ) && is_new_entry(
                    final(self).view()[key],
                    *config,
                    vectors@,
                    optional(stored),
                    r_seed@,
                )
                &&& dim <= ELL0 && config.device == Device::Gpu && !gpu_enabled ==> r == Err::<
                    (EmvpHandle, bool),
                    EmvpError,
                >(EmvpError::GpuFeatureNotEnabled)
                &&& dim <= ELL0 && (config.device == Device::Cpu || gpu_enabled) ==> r is Ok
                    && r->Ok_0.0.well_formed() && is_upload(
                    old(self).view(),
                    final(self).view(),
                    *config,
                    vectors@,
                    fingerprint@,
                    optional(stored),
                    r_seed@,
                    r->Ok_0.0,
                    r->Ok_0.1,
                )
            }),
    {
        let m: usize = vectors.len();
        let dim: usize = if vectors.len() == 0 {
            0
        } else {
            vectors[0].len()
        };
        if dim > ELL0 {
            return Err(EmvpError::DimensionTooLarge { actual: dim, ell0: ELL0 });
        }
        proof {
            lemma_products_fit(m as int);
            bytes::lemma_numbers();
        }
        let key: Vec<u8> = cache_key(m, dim, fingerprint);
        let ghost key_bytes = key@;
        proof {
            assert(key@.subrange(0, 8) =~= bytes::le64(m as u64));
            assert(bytes::has_at(key@, 0, bytes::le64(m as u64)));
        }
        let mut hit: bool = true;
        if !self.keeps(m, dim, fingerprint) {
            let d_mat: Vec<u64> = generate_d(&config.key_seed);
            let loaded: Option<(Vec<u64>, [u8; 32])> = match stored {
                None => None,
                Some(part) => load_emvp_cache(part, N),
            };
            let usable: Option<(Vec<u64>, [u8; 32])> = match loaded {
                None => None,
                Some((m_hat, seed)) => if m_hat.len() == m * N && all_in_field(&m_hat) {
                    Some((m_hat, seed))
                } else {
                    None
                },
            };
            let (m_hat, seed): (Vec<u64>, [u8; 32]) = match usable {
                Some(found) => found,
                None => {
                    hit = false;
                    (encrypt_cluster(&d_mat, &r_seed, vectors, on_row), r_seed)
                },
            };
            let entry: FlatEntry = FlatEntry {
                m_hat: Arc::new(m_hat),
                r_seed: seed,
                m,
                d_mat: Arc::new(d_mat),
            };
            assert(entry.fits(key@));
            self.cache.insert(key, entry);
        }
        let handle: EmvpHandle = self.handle(m, dim, fingerprint);
        match config.device {
            Device::Cpu => Ok((handle, hit)),
            Device::Gpu => if gpu_enabled {
                Ok((handle, hit))
            } else {
                Err(EmvpError::GpuFeatureNotEnabled)
            },
        }
    }

    /// A handle for a ciphertext that is kept.
    fn handle(&self, m: usize, dim: usize, fingerprint: &[u8]) -> (handle: EmvpHandle)
        requires
            self.well_formed(),
            self.view().contains_key(cache_key_of(m, dim, fingerprint@)),
            m * N * FIELD_BYTES <= usize::MAX,
        ensures
            handle.well_formed(),
            handle_of(handle, self.view()[cache_key_of(m, dim, fingerprint@)], dim),
    {
        let key: Vec<u8> = cache_key(m, dim, fingerprint);
        let found: Option<&FlatEntry> = self.cache.get(&key);
        let entry: &FlatEntry = found.unwrap();
        proof {
            bytes::lemma_numbers();
            assert(key@.subrange(0, 8) =~= bytes::le64(m as u64));
            assert(bytes::has_at(key@, 0, bytes::le64(m as u64)));
            assert(entry.fits(key@));
            assert(bytes::u64_at(key@, 0) == m);
            assert(entry.m == m);
        }
        EmvpHandle {
            m_hat: Arc::clone(&entry.m_hat),
            r_seed: entry.r_seed,
            m: entry.m,
            d_mat: Arc::clone(&entry.d_mat),
            dim,
        }
    }

    /// Uploads a cluster under a fresh seed for the masks: gives a handle, and whether the
    /// ciphertext was kept or stored before.
    pub fn upload_cluster<F: Fn(usize) + Sync + Send>(
        &mut self,
        config: &EmvpConfig,
        vectors: &[Vec<i64>],
        fingerprint: &[u8],
        stored: Option<&[u8]>,
        gpu_enabled: bool,
        on_row: F,
    ) -> (r: Result<(EmvpHandle, bool), EmvpError>)
        requires
            old(self).well_formed(),
            vectors@.len() * N * FIELD_BYTES <= usize::MAX,
            forall|i: usize| i < vectors@.len() ==> call_requires(on_row, (i,)),
        ensures
            final(self).well_formed(),
            ({
                let m = vectors@.len() as usize;
                let dim = dimension(vectors@);
                let key = cache_key_of(m, dim, fingerprint@);
                let kept = old(self).view().contains_key(key);
                &&& dim > ELL0 ==> final(self).view() == old(self).view() && r == Err::<
                    (EmvpHandle, bool),
                    EmvpError,
                >(EmvpError::DimensionTooLarge { actual: dim, ell0: ELL0 })
                &&& dim <= ELL0 && kept ==> final(self).view() == old(self).view()
                &&& dim <= ELL0 && !kept ==> final(self).view() == old(self).view().insert(
                    key,
                    final(self).view()[key],
                ) && exists|r_seed: Seq<u8>| #[trigger]
                    is_new_entry(
                        final(self).view()[key],
                        *config,
                        vectors@,
                        optional(stored),
                        r_seed,
                    )
                &&& dim <= ELL0 && config.device == Device::Gpu && !gpu_enabled ==> r == Err::<
                    (EmvpHandle, bool),
                    EmvpError,
                >(EmvpError::GpuFeatureNotEnabled)
                &&& dim <= ELL0 && (config.device == Device::Cpu || gpu_enabled) ==> r is Ok
                    && r->Ok_0.0.well_formed() && exists|r_seed: Seq<u8>| #[trigger]
                    is_upload(
                        old(self).view(),
                        final(self).view(),
                        *config,
                        vectors@,
                        fingerprint@,
                        optional(stored),
                        r_seed,
                        r->Ok_0.0,
                        r->Ok_0.1,
                    )
            }),
    {
        let r_seed: [u8; 32] = draw_seed();
        self.upload_with_seed(
            config,
            vectors,
            fingerprint,
            stored,
            gpu_enabled,
            r_seed,
            on_row,
        )
    }
}

/// The score of a vector, whatever the mask: a number within half the field that is, modulo `P`, the
/// sum of the products of the vector's components with those of the query, all of them taken. Where
/// that sum lies within half the field itself, it is the score.
pub proof fn scores_are_sums_of_products(
    handle: EmvpHandle,
    rows: Seq<Seq<i64>>,
    query: Seq<i64>,
    draws: Seq<u64>,
    i: int,
)
    requires
        handle.well_formed(),
        handle.encrypts(rows),
        query.len() <= ELL0,
        draws.len() == K,
        0 <= i < rows.len(),
    ensures
        ({
            let n = if rows[i].len() < query.len() {
                rows[i].len() as int
            } else {
                query.len() as int
            };
            let product = sums::sum(n, |l: int| rows[i][l] * query[l]);
            let hit = masked_hits(handle, query, draws)[i];
            &&& masked_hits(handle, query, draws).len() == rows.len()
            &&& hit.id == i as u32
            &&& -(P / 2) <= hit.score <= P / 2
            &&& congruence::congruent(hit.score as int, product, P as int)
            &&& -(P / 2) <= product <= P / 2 ==> hit.score == product
        }),
{
    let product = crypto::inner_product(rows[i], query);
    scores_are_inner_products(handle, rows, query, draws);
    crypto::inner_products_pair_all_components(rows[i], query);
    field::centred_numbers_are_congruent(product);
    if -(P / 2) <= product <= P / 2 {
        field::decode_inverts_quantize(product);
    }
}

/// A query finds the vectors with the largest inner products: `k` of them or all; each hit stands for
/// a vector, with its number and the sum of the products of its components with those of the query;
/// larger ones come first; and a vector whose sum is larger than a score that is returned is returned
/// too.
pub proof fn queries_find_the_largest_sums_of_products(
    handle: EmvpHandle,
    rows: Seq<Seq<i64>>,
    query: Seq<i64>,
    k: nat,
    found: Seq<Hit>,
)
    requires
        handle.well_formed(),
        handle.encrypts(rows),
        query.len() <= ELL0,
        scored_under_some_mask(handle, query, k as int, found),
        forall|i: int|
            0 <= i < rows.len() ==> (#[trigger] rows[i]).len() == query.len() && -(P / 2)
                <= sums::sum(query.len() as int, |l: int| rows[i][l] * query[l]) <= P / 2,
    ensures
        found.len() == (if k < rows.len() {
            k
        } else {
            rows.len()
        }),
        forall|h: Hit| #[trigger]
            found.contains(h) ==> exists|i: int|
                0 <= i < rows.len() && (#[trigger] rows[i]).len() == query.len() && h.id == i as u32
                    && h.score == sums::sum(query.len() as int, |l: int| rows[i][l] * query[l]),
        forall|i: int, j: int|
            0 <= i < j < found.len() ==> (#[trigger] found[i]).score >= (#[trigger] found[j]).score,
        forall|i: int, t: int|
            0 <= i < rows.len() && 0 <= t < found.len() && (#[trigger] rows[i]).len() == query.len()
                && sums::sum(query.len() as int, |l: int| rows[i][l] * query[l]) > (
            #[trigger] found[t]).score ==> exists|h: Hit| #[trigger]
                found.contains(h) && h.id == i as u32,
{
    let draws = choose|draws: Seq<u64>|
        draws.len() == K && found == hits::best(
            #[trigger] masked_hits(handle, query, draws),
            k as int,
        );
    let all = masked_hits(handle, query, draws);
    hits::returned_hits_are_the_top(all, k);
    hits::nothing_better_is_left_out(all, k);
    assert forall|i: int| 0 <= i < rows.len() implies (#[trigger] all[i]).id == i as u32
        && all[i].score == sums::sum(
        query.len() as int,
        |l: int| rows[i][l] * query[l],
    ) by {
        assert(rows[i].len() == query.len());
        scores_are_sums_of_products(handle, rows, query, draws, i);
    }
    assert(all.len() == rows.len());
    assert forall|h: Hit| #[trigger] found.contains(h) implies exists|i: int|
        0 <= i < rows.len() && (#[trigger] rows[i]).len() == query.len() && h.id == i as u32
            && h.score == sums::sum(query.len() as int, |l: int| rows[i][l] * query[l]) by {
        let t = choose|t: int| 0 <= t < found.len() && found[t] == h;
        assert(all.contains(found[t]));
        let i = choose|i: int| 0 <= i < all.len() && all[i] == h;
        assert(h.score == sums::sum(query.len() as int, |l: int| rows[i][l] * query[l]));
    }
    assert forall|i: int, t: int|
        0 <= i < rows.len() && 0 <= t < found.len() && (#[trigger] rows[i]).len() == query.len()
            && sums::sum(query.len() as int, |l: int| rows[i][l] * query[l]) > (
        #[trigger] found[t]).score implies exists|h: Hit| #[trigger]
        found.contains(h) && h.id == i as u32 by {
        assert(all[i].score > found[t].score);
        assert(found.contains(all[i]));
    }
}

/// What a vector that was uploaded scores: whatever the seeds and the mask are, the sum of the
/// products of its own components with those of the query, read modulo `P`.
pub proof fn uploaded_vectors_score_their_sums_of_products(
    before: Map<Seq<u8>, FlatEntry>,
    after: Map<Seq<u8>, FlatEntry>,
    config: EmvpConfig,
    vectors: Seq<Vec<i64>>,
    fingerprint: Seq<u8>,
    stored: Option<Seq<u8>>,
    r_seed: Seq<u8>,
    handle: EmvpHandle,
    query: Seq<i64>,
    draws: Seq<u64>,
    i: int,
)
    requires
        handle.well_formed(),
        is_upload(before, after, config, vectors, fingerprint, stored, r_seed, handle, false),
        draws.len() == K,
        query.len() <= ELL0,
        0 <= i < vectors.len(),
        vectors[i]@.len() == query.len(),
    ensures
        ({
            let product = sums::sum(query.len() as int, |l: int| vectors[i]@[l] * query[l]);
            let hit = masked_hits(handle, query, draws)[i];
            &&& masked_hits(handle, query, draws).len() == vectors.len()
            &&& hit.id == i as u32
            &&& -(P / 2) <= hit.score <= P / 2
            &&& congruence::congruent(hit.score as int, product, P as int)
            &&& -(P / 2) <= product <= P / 2 ==> hit.score == product
        }),
{
    let rows = crypto::rows_of(vectors);
    let dim = dimension(vectors);
    let key = cache_key_of(vectors.len() as usize, dim, fingerprint);
    assert(rows[i] == vectors[i]@);
    fresh_uploads_encrypt_their_vectors(handle, after[key], config, vectors, stored, r_seed);
    scores_are_sums_of_products(handle, rows, query, draws, i);
    sums::lemma_sum_same(
        query.len() as int,
        |l: int| rows[i][l] * query[l],
        |l: int| vectors[i]@[l] * query[l],
    );
}

/// Scores become hits place by place: the hit of a score has the number of its place.
pub proof fn scores_are_numbered_by_their_place(scores: Seq<i64>, i: int)
    requires
        0 <= i < scores.len(),
    ensures
        numbered(scores).len() == scores.len(),
        numbered(scores)[i].score == scores[i],
        numbered(scores)[i].id == i as u32,
{
}

/// A batch is refused for the first of its queries that has more components than can be encrypted,
/// and for no other.
pub proof fn batches_are_refused_for_the_first_long_query(queries: Seq<Vec<i64>>)
    ensures
        ({
            let first = first_too_long(queries, queries.len() as int);
            &&& 0 <= first <= queries.len()
            &&& forall|t: int| 0 <= t < first ==> (#[trigger] queries[t])@.len() <= ELL0
            &&& first < queries.len() ==> queries[first]@.len() > ELL0
        }),
{
    lemma_first_long(queries, queries.len() as int);
}

/// Where the first of some queries that is too long stands.
proof fn lemma_first_long(queries: Seq<Vec<i64>>, n: int)
    requires
        0 <= n <= queries.len(),
    ensures
        0 <= first_too_long(queries, n) <= n,
        forall|t: int|
            0 <= t < first_too_long(queries, n) ==> (#[trigger] queries[t])@.len() <= ELL0,
        first_too_long(queries, n) < n ==> queries[first_too_long(queries, n)]@.len() > ELL0,
    decreases n,
{
    if n > 0 {
        lemma_first_long(queries, n - 1);
    }
}

/// A query sends as many elements as a row of the ciphertext has; the server reads all rows, sends
/// the products of all blocks of all rows back, and the ciphertext is sent once: each element takes
/// eight bytes.
pub proof fn queries_cost_a_row_and_all_products(m: int)
    requires
        0 <= m,
        m * N * FIELD_BYTES <= u64::MAX,
    ensures
        flat_cost(m).query_bytes == 8 * N,
        flat_cost(m).response_bytes == 8 * S * m,
        flat_cost(m).cluster_response_bytes == flat_cost(m).response_bytes,
        flat_cost(m).setup_bytes == m * flat_cost(m).query_bytes,
        flat_cost(m).effective_bytes_per_query == flat_cost(m).setup_bytes,
        flat_cost(m).pre_query_offline_up_bytes == 0,
        flat_cost(m).pre_query_offline_down_bytes == 0,
{
    assert(m * N * FIELD_BYTES == m * 10336) by (nonlinear_arith);
    assert(S * m * FIELD_BYTES == m * 608) by (nonlinear_arith);
    assert(8 * S * m == m * 608) by (nonlinear_arith);
}

/// Stored and kept ciphertexts are told apart by everything that they depend on: the number of
/// vectors, their dimension, and the seed or the fingerprint.
pub proof fn keys_tell_ciphertexts_apart(
    m: usize,
    dim: usize,
    one: Seq<u8>,
    m_other: usize,
    dim_other: usize,
    other: Seq<u8>,
)
    ensures
        cache_parts_of(m, dim, one) == cache_parts_of(m_other, dim_other, other) <==> m == m_other
            && dim == dim_other && one == other,
        cache_key_of(m, dim, one) == cache_key_of(m_other, dim_other, other) <==> m == m_other
            && dim == dim_other && one == other,
{
    bytes::lemma_numbers();
    let a = cache_parts_of(m, dim, one);
    let b = cache_parts_of(m_other, dim_other, other);
    if a == b {
        assert(a[1] == b[1] && a[2] == b[2] && a[3] == b[3]);
    }
    let x = cache_key_of(m, dim, one);
    let y = cache_key_of(m_other, dim_other, other);
    if x == y {
        assert(x.subrange(0, 8) =~= bytes::le64(m as u64));
        assert(y.subrange(0, 8) =~= bytes::le64(m_other as u64));
        assert(x.subrange(8, 16) =~= bytes::le64(dim as u64));
        assert(y.subrange(8, 16) =~= bytes::le64(dim_other as u64));
        assert(x.subrange(16, x.len() as int) =~= one);
        assert(y.subrange(16, y.len() as int) =~= other);
    }
}

/// A stored ciphertext starts with its rows, its columns and the seed of its masks; its elements stand
/// from byte 48 on, eight bytes each, the lowest first.
pub proof fn stored_ciphertexts_have_a_fixed_layout(
    m_hat: Seq<u64>,
    r_seed: Seq<u8>,
    n: usize,
    m: u64,
    i: int,
)
    requires
        0 < n,
        m_hat.len() == m * n,
        r_seed.len() == 32,
        0 <= i < m_hat.len(),
    ensures
        ({
            let stored = stored_bytes(m_hat, r_seed, n as int);
            &&& stored.len() == 48 + 8 * m_hat.len()
            &&& stored.subrange(0, 8) == vstd::bytes::spec_u64_to_le_bytes(m)
            &&& stored.subrange(8, 16) == vstd::bytes::spec_u64_to_le_bytes(n as u64)
            &&& stored.subrange(16, 48) == r_seed
            &&& stored.subrange(48 + 8 * i, 56 + 8 * i) == vstd::bytes::spec_u64_to_le_bytes(
                m_hat[i],
            )
        }),
{
    let stored = stored_bytes(m_hat, r_seed, n as int);
    bytes::lemma_numbers();
    bytes::runs_hold_each_number(m_hat, i);
    assert(m_hat.len() as int / n as int == m) by (nonlinear_arith)
        requires
            m_hat.len() == m * n,
            0 < n,
    ;
    assert(stored.subrange(0, 8) =~= bytes::le64(m));
    assert(stored.subrange(8, 16) =~= bytes::le64(n as u64));
    assert(stored.subrange(16, 48) =~= r_seed);
    assert(stored.subrange(48 + 8 * i, 56 + 8 * i) =~= bytes::run64(m_hat).subrange(
        8 * i,
        8 * i + 8,
    ));
}

/// An encoded query has every random number that was drawn for it at its end, modulo `P`. Before
/// them it has, for each of `ELL0` places, the query's component or zero, less the sum of the
/// products of the mask with the key's numbers in that row of `D`, modulo `P`.
pub proof fn encoded_queries_are_masked_by_every_draw(
    d: Seq<u64>,
    query: Seq<i64>,
    draws: Seq<u64>,
    j: int,
    t: int,
)
    requires
        draws.len() == K,
        0 <= j < ELL0,
        0 <= t < K,
    ensures
        encoding(d, query, draws).len() == ELL0 + K,
        encoding(d, query, draws)[ELL0 + t] as int == draws[t] as int % P as int,
        congruence::congruent(
            encoding(d, query, draws)[j] as int,
            (if j < query.len() {
                query[j] as int
            } else {
                0
            }) - sums::sum(
                K as int,
                |x: int| d[j * N + ELL0 + x] * (draws[x] as int % P as int),
            ),
            P as int,
        ),
{
    let u = mask_of(draws);
    let strided = |x: int| d[(j * N + ELL0) + x * 1] * u[0 + x * 1];
    let plain = |x: int| d[j * N + ELL0 + x] * (draws[x] as int % P as int);
    assert forall|x: int| 0 <= x < K implies #[trigger] strided(x) == plain(x) by {
        assert(x * 1 == x);
        assert(u[x] == draws[x] % P);
    }
    sums::lemma_sum_same(K as int, strided, plain);
    assert(u[t] == draws[t] % P);
    let exact = padded(query)[j] - crypto::times_mask(d, u, j);
    congruence::lemma_congruent_remainder(exact, P as int);
    congruence::lemma_congruent_iff_same_remainder(exact % P as int, exact, P as int);
}

} // verus!
