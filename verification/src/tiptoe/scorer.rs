//! Uploads of vectors: their checks, what is built of them, what is stored, and what queries cost.

use std::sync::Arc;

use vstd::prelude::*;

use crate::bytes;
use crate::bytes::{
    copy, get_seed, get_u32, get_u64, get_u64s, number, put_u32, put_u64, put_u64s, text,
};
use crate::cache::KeyedCache;
use crate::ivf;
use crate::ivf::{read_index, write_index, IvfIndex};
use crate::math::layout;
use crate::math::sums;
use crate::scoring;
use crate::scoring::CommunicationCost;
use crate::tiptoe::bfv::BfvContext;
use crate::tiptoe::cluster;
use crate::tiptoe::cluster::{encode_ivf, EncodedClusters, ScaledVector};
use crate::tiptoe::compress;
use crate::tiptoe::compress::{
    count_chunks, decompose_hint, CompressError, CompressedHint, NUM_LIMBS_64,
};
use crate::tiptoe::encoding;
use crate::tiptoe::encoding::{validate_params, validate_products, EncodingError};
use crate::tiptoe::lwe::Params;
use crate::tiptoe::ranking::{TiptoeError, TiptoeHandle};
use crate::tiptoe::simplepir;
use crate::tiptoe::simplepir::{preprocess_with_progress, PirSetup};

verus! {

/// What vectors are clustered and encoded with.
#[derive(Debug, Clone, Copy, PartialEq, Eq, Structural)]
pub struct TiptoeConfig {
    /// Number of clusters.
    pub n_centroids: usize,
    /// Seed of the training.
    pub train_seed: u64,
    /// Rounds of the training.
    pub max_iter: usize,
    /// Bits of a component's magnitude.
    pub quantisation_bits: u8,
}

impl Default for TiptoeConfig {
    /// One cluster, 25 rounds and components of four bits.
    fn default() -> (config: Self)
        ensures
            config == (TiptoeConfig {
                n_centroids: 1,
                train_seed: 42,
                max_iter: 25,
                quantisation_bits: 4,
            }),
    {
        TiptoeConfig { n_centroids: 1, train_seed: 42, max_iter: 25, quantisation_bits: 4 }
    }
}

/// Whether vectors can be uploaded: components must fit in the slots, inner products of as many as
/// the vectors have must not wrap, there must be vectors, and at least one cluster and no more than
/// there are vectors.
pub fn validate_upload(
    config: &TiptoeConfig,
    lwe_params: &Params,
    n_vectors: usize,
    dim: usize,
) -> (r: Result<(), TiptoeError>)
    ensures
        ({
            let encodable = lwe_params.log2_p != 0 && config.quantisation_bits < lwe_params.log2_p
                && encoding::products_fit(config.quantisation_bits, lwe_params.log2_p, dim as int);
            let clustered = 0 < config.n_centroids <= n_vectors;
            &&& !encodable ==> r == Err::<(), TiptoeError>(
                TiptoeError::QuantisationOverflow(
                    EncodingError::QuantisationOverflow {
                        q: config.quantisation_bits,
                        log2_p: lwe_params.log2_p,
                    },
                ),
            )
            &&& encodable && n_vectors == 0 ==> r == Err::<(), TiptoeError>(
                TiptoeError::EmptyCorpus,
            )
            &&& encodable && n_vectors > 0 && !clustered ==> r == Err::<(), TiptoeError>(
                TiptoeError::TooManyCentroids(config.n_centroids),
            )
            &&& r is Ok <==> encodable && n_vectors > 0 && clustered
        }),
{
    match validate_params(config.quantisation_bits, lwe_params.log2_p) {
        Ok(()) => {},
        Err(e) => {
            return Err(TiptoeError::QuantisationOverflow(e));
        },
    }
    match validate_products(config.quantisation_bits, lwe_params.log2_p, dim) {
        Ok(()) => {},
        Err(e) => {
            return Err(TiptoeError::QuantisationOverflow(e));
        },
    }
    if n_vectors == 0 {
        return Err(TiptoeError::EmptyCorpus);
    }
    if config.n_centroids == 0 || config.n_centroids > n_vectors {
        return Err(TiptoeError::TooManyCentroids(config.n_centroids));
    }
    Ok(())
}

/// The bytes that the encryption of queries is fingerprinted by.
pub fn lwe_fingerprint_bytes(p: &Params) -> (v: Vec<u8>)
    ensures
        v@ == bytes::le64(p.n as u64) + bytes::le64(p.log2_p as u64) + bytes::le64(p.sigma_bits),
{
    let mut v: Vec<u8> = Vec::with_capacity(24);
    put_u64(&mut v, p.n as u64);
    put_u64(&mut v, p.log2_p as u64);
    put_u64(&mut v, p.sigma_bits);
    assert(v@ =~= bytes::le64(p.n as u64) + bytes::le64(p.log2_p as u64) + bytes::le64(
        p.sigma_bits,
    ));
    v
}

/// Sizes as 64-bit numbers.
pub open spec fn sizes_as_words(sizes: Seq<usize>) -> Seq<u64> {
    sizes.map_values(|s: usize| s as u64)
}

/// The bytes that the encryption of secrets is fingerprinted by.
pub fn bfv_fingerprint_bytes(p: &BfvContext) -> (v: Vec<u8>)
    ensures
        v@ == bytes::le64(p.spec_degree() as u64) + bytes::le64(p.spec_plaintext())
            + bytes::run64(sizes_as_words(p.spec_moduli_sizes())),
{
    let sizes: &[usize] = p.moduli_sizes();
    let mut words: Vec<u64> = Vec::with_capacity(sizes.len());
    for i in 0..sizes.len()
        invariant
            words@ == sizes_as_words(sizes@).take(i as int),
    {
        words.push(sizes[i] as u64);
        assert(words@ =~= sizes_as_words(sizes@).take(i + 1));
    }
    assert(words@ =~= sizes_as_words(sizes@));
    let mut v: Vec<u8> = Vec::new();
    put_u64(&mut v, p.degree() as u64);
    put_u64(&mut v, p.plaintext());
    put_u64s(&mut v, &words);
    assert(v@ =~= bytes::le64(p.spec_degree() as u64) + bytes::le64(p.spec_plaintext())
        + bytes::run64(sizes_as_words(p.spec_moduli_sizes())));
    v
}

/// What an index is fingerprinted by.
pub open spec fn cache_parts_of(
    config: TiptoeConfig,
    n: usize,
    dim: usize,
    lwe_fp: Seq<u8>,
    bfv_fp: Seq<u8>,
) -> Seq<Seq<u8>> {
    seq![
        bytes::text_bytes("tiptoe-v1"@),
        bytes::le64(config.n_centroids as u64),
        bytes::le64(config.train_seed),
        bytes::le64(config.max_iter as u64),
        bytes::le64(n as u64),
        bytes::le64(dim as u64),
        bytes::le64(config.quantisation_bits as u64),
        lwe_fp,
        bfv_fp,
    ]
}

/// The parts that a stored index is fingerprinted by.
pub fn cache_parts(
    config: &TiptoeConfig,
    n: usize,
    dim: usize,
    lwe_fp: &[u8],
    bfv_fp: &[u8],
) -> (parts: Vec<Vec<u8>>)
    ensures
        bytes::contents(parts@) == cache_parts_of(*config, n, dim, lwe_fp@, bfv_fp@),
{
    let mut parts: Vec<Vec<u8>> = Vec::with_capacity(9);
    parts.push(text("tiptoe-v1"));
    parts.push(number(config.n_centroids as u64));
    parts.push(number(config.train_seed));
    parts.push(number(config.max_iter as u64));
    parts.push(number(n as u64));
    parts.push(number(dim as u64));
    parts.push(number(config.quantisation_bits as u64));
    parts.push(copy(lwe_fp));
    parts.push(copy(bfv_fp));
    assert(bytes::contents(parts@) =~= cache_parts_of(*config, n, dim, lwe_fp@, bfv_fp@));
    parts
}

/// The seed of the public matrix: the seed of the training and zeros.
pub open spec fn pir_seed(train_seed: u64) -> Seq<u8> {
    bytes::le64(train_seed) + Seq::new(24, |i: int| 0u8)
}

/// Derives the seed of the public matrix from the seed of the training.
pub fn derive_pir_seed(train_seed: u64) -> (s: [u8; 32])
    ensures
        s@ == pir_seed(train_seed),
{
    let start: Vec<u8> = number(train_seed);
    let mut s: [u8; 32] = [0u8; 32];
    proof {
        bytes::lemma_numbers();
    }
    for i in 0..8
        invariant
            start@ == bytes::le64(train_seed),
            start@.len() == 8,
            forall|j: int| 0 <= j < i ==> #[trigger] s@[j] == start@[j],
            forall|j: int| i <= j < 32 ==> #[trigger] s@[j] == 0,
    {
        s[i] = start[i];
    }
    assert(s@ =~= pir_seed(train_seed));
    s
}

/// What is built of clustered vectors.
pub struct TiptoeParts {
    /// The encoded clusters.
    pub encoded: EncodedClusters,
    /// What was computed of their matrix.
    pub pir_setup: PirSetup,
    /// The hint, cut into limbs.
    pub compressed_hint: CompressedHint,
}

/// Clustered vectors of `dim` components can be encoded in memory.
pub open spec fn fits_in_memory(
    clusters: Seq<Vec<ScaledVector>>,
    dim: usize,
    n_lwe: usize,
    degree: int,
) -> bool {
    let rows = cluster::largest(clusters, clusters.len() as int);
    let width = clusters.len() * dim;
    &&& cluster::has_dimension(clusters, dim as int)
    &&& width <= usize::MAX
    &&& rows * width <= usize::MAX
    &&& 0 < n_lwe
    &&& 2 * width * n_lwe <= usize::MAX
    &&& rows * n_lwe <= usize::MAX
    &&& rows + degree <= usize::MAX
    &&& 0 < degree
}

/// The parts are those of clustered vectors.
pub open spec fn are_parts_of(
    parts: TiptoeParts,
    clusters: Seq<Vec<ScaledVector>>,
    dim: usize,
    q: u8,
    lwe_params: Params,
    bfv_params: BfvContext,
    seed: Seq<u8>,
) -> bool {
    &&& parts.encoded.holds(clusters, dim as int, q, lwe_params.plaintext_modulus() as u64)
    &&& simplepir::is_setup_of(
        parts.pir_setup,
        parts.encoded.spec_matrix(),
        parts.encoded.spec_m_max(),
        parts.encoded.spec_width(),
        seed,
        lwe_params.n as int,
    )
    &&& parts.compressed_hint.spec_r() == parts.encoded.spec_m_max()
    &&& parts.compressed_hint.spec_n_lwe() == lwe_params.n
    &&& parts.compressed_hint.holds(parts.pir_setup.hint@, bfv_params.spec_degree())
    &&& parts.compressed_hint.encoded_for(*bfv_params.spec_handle())
}

/// Some cluster has no vector.
pub open spec fn some_empty(clusters: Seq<Vec<ScaledVector>>) -> bool {
    exists|c: int| 0 <= c < clusters.len() && (#[trigger] clusters[c])@.len() == 0
}

/// The error is that of the first row with a component that is not finite.
pub open spec fn is_first_bad_error(clusters: Seq<Vec<ScaledVector>>, e: TiptoeError) -> bool {
    exists|c: int, r: int| #[trigger]
        cluster::is_first_bad(clusters, c, r) && e == TiptoeError::QuantisationOverflow(
            EncodingError::NonFinite {
                index: encoding::first_non_finite(clusters[c]@[r].components@) as usize,
            },
        )
}

/// Encodes clustered vectors, computes the hint and cuts it into limbs. Every row of the hint is
/// reported.
pub fn build_parts<F: Fn(usize) + Sync + Send>(
    clusters: &[Vec<ScaledVector>],
    dim: usize,
    quantisation_bits: u8,
    train_seed: u64,
    lwe_params: &Params,
    bfv_params: &BfvContext,
    on_row: F,
) -> (r: Result<TiptoeParts, TiptoeError>)
    requires
        quantisation_bits <= 30,
        lwe_params.valid(),
        fits_in_memory(clusters@, dim, lwe_params.n, bfv_params.spec_degree()),
        forall|i: usize| call_requires(on_row, (i,)),
    ensures
        some_empty(clusters@) ==> r == Err::<TiptoeParts, TiptoeError>(TiptoeError::EmptyCluster),
        !some_empty(clusters@) && !cluster::all_finite(clusters@) ==> r is Err
            && is_first_bad_error(clusters@, r->Err_0),
        !some_empty(clusters@) && cluster::all_finite(clusters@) ==> r is Ok && are_parts_of(
            r->Ok_0,
            clusters@,
            dim,
            quantisation_bits,
            *lwe_params,
            *bfv_params,
            pir_seed(train_seed),
        ),
{
    for c in 0..clusters.len()
        invariant
            forall|t: int| 0 <= t < c ==> (#[trigger] clusters@[t])@.len() != 0,
    {
        if clusters[c].len() == 0 {
            assert(clusters@[c as int]@.len() == 0);
            return Err(TiptoeError::EmptyCluster);
        }
    }
    proof {
        lwe_params.lemma_moduli();
    }
    let p: u64 = lwe_params.p();
    let encoded: EncodedClusters = match encode_ivf(clusters, dim, quantisation_bits, p) {
        Ok(encoded) => encoded,
        Err(e) => {
            return Err(TiptoeError::QuantisationOverflow(e));
        },
    };
    let pir_setup: PirSetup = preprocess_with_progress(
        encoded.matrix(),
        encoded.m_max(),
        encoded.width(),
        derive_pir_seed(train_seed),
        lwe_params,
        on_row,
    );
    proof {
        assert(pir_setup.hint@.len() == encoded.spec_m_max() * lwe_params.n);
    }
    match decompose_hint(&pir_setup.hint, encoded.m_max(), lwe_params.n, bfv_params) {
        Ok(compressed_hint) => Ok(TiptoeParts { encoded, pir_setup, compressed_hint }),
        Err(e) => Err(TiptoeError::BfvCompositionFailed(e)),
    }
}

/// A stored setup is for a matrix of the shape of encoded clusters.
pub open spec fn setup_fits(setup: PirSetup, rows: int, width: int) -> bool {
    setup.r == rows && setup.c == width
}

/// Encodes clustered vectors anew beside a setup that was stored, and cuts its hint into limbs.
///
/// A setup for a matrix of another shape cannot be worked with, and a hint that does not have as
/// many numbers per row as the secret cannot be cut. The setup's own length of secrets is not looked
/// at: queries can be made only where it is that of the parameters.
pub fn restore_parts(
    clusters: &[Vec<ScaledVector>],
    dim: usize,
    quantisation_bits: u8,
    pir_setup: PirSetup,
    lwe_params: &Params,
    bfv_params: &BfvContext,
) -> (r: Result<TiptoeParts, TiptoeError>)
    requires
        quantisation_bits <= 30,
        lwe_params.valid(),
        fits_in_memory(clusters@, dim, lwe_params.n, bfv_params.spec_degree()),
    ensures
        ({
            let rows = cluster::largest(clusters@, clusters@.len() as int);
            let shaped = setup_fits(pir_setup, rows, clusters@.len() * dim);
            let whole = pir_setup.hint@.len() == rows * lwe_params.n;
            &&& !cluster::all_finite(clusters@) ==> r is Err && is_first_bad_error(
                clusters@,
                r->Err_0,
            )
            &&& cluster::all_finite(clusters@) && !shaped ==> r == Err::<TiptoeParts, TiptoeError>(
                TiptoeError::SpawnPanic,
            )
            &&& cluster::all_finite(clusters@) && shaped && !whole ==> r == Err::<
                TiptoeParts,
                TiptoeError,
            >(
                TiptoeError::BfvCompositionFailed(
                    CompressError::HintLengthMismatch {
                        actual: pir_setup.hint.len(),
                        expected: (rows * lwe_params.n) as usize,
                        r: rows as usize,
                        n_lwe: lwe_params.n,
                    },
                ),
            )
            &&& cluster::all_finite(clusters@) && shaped && whole ==> {
                &&& r is Ok
                &&& r->Ok_0.pir_setup == pir_setup
                &&& r->Ok_0.encoded.holds(
                    clusters@,
                    dim as int,
                    quantisation_bits,
                    lwe_params.plaintext_modulus() as u64,
                )
                &&& r->Ok_0.compressed_hint.spec_r() == rows
                &&& r->Ok_0.compressed_hint.spec_n_lwe() == lwe_params.n
                &&& r->Ok_0.compressed_hint.holds(pir_setup.hint@, bfv_params.spec_degree())
                &&& r->Ok_0.compressed_hint.encoded_for(*bfv_params.spec_handle())
            }
        }),
{
    proof {
        lwe_params.lemma_moduli();
    }
    let p: u64 = lwe_params.p();
    let encoded: EncodedClusters = match encode_ivf(clusters, dim, quantisation_bits, p) {
        Ok(encoded) => encoded,
        Err(e) => {
            return Err(TiptoeError::QuantisationOverflow(e));
        },
    };
    if encoded.m_max() != pir_setup.r || encoded.width() != pir_setup.c {
        return Err(TiptoeError::SpawnPanic);
    }
    match decompose_hint(&pir_setup.hint, encoded.m_max(), lwe_params.n, bfv_params) {
        Ok(compressed_hint) => Ok(TiptoeParts { encoded, pir_setup, compressed_hint }),
        Err(e) => Err(TiptoeError::BfvCompositionFailed(e)),
    }
}

/// What is kept of an upload.
pub struct TiptoeEntry {
    /// The encoded clusters.
    pub encoded: Arc<EncodedClusters>,
    /// What was computed of their matrix.
    pub pir_setup: Arc<PirSetup>,
    /// The hint, cut into limbs.
    pub compressed_hint: Arc<CompressedHint>,
}

/// Uploads vectors and keeps what was built of them.
pub struct TiptoeScorer {
    cache: KeyedCache<TiptoeEntry>,
}

impl TiptoeScorer {
    /// What is kept, by fingerprint.
    pub closed spec fn view(&self) -> Map<Seq<u8>, TiptoeEntry> {
        self.cache.view()
    }

    /// A scorer that keeps nothing yet.
    pub fn new() -> (scorer: Self)
        ensures
            scorer.view() == Map::<Seq<u8>, TiptoeEntry>::empty(),
    {
        TiptoeScorer { cache: KeyedCache::new() }
    }

    /// A handle for what is kept under a fingerprint.
    pub fn recall(
        &self,
        fingerprint: &[u8],
        lwe_params: Params,
        bfv_params: BfvContext,
        quantisation_bits: u8,
        dim: usize,
    ) -> (r: Option<TiptoeHandle>)
        ensures
            r is Some <==> self.view().contains_key(fingerprint@),
            r matches Some(handle) ==> handle == (TiptoeHandle {
                encoded: self.view()[fingerprint@].encoded,
                pir_setup: self.view()[fingerprint@].pir_setup,
                compressed_hint: self.view()[fingerprint@].compressed_hint,
                lwe_params,
                bfv_params,
                quantisation_bits,
                dim,
            }),
    {
        match self.cache.get(fingerprint) {
            None => None,
            Some(entry) => Some(
                TiptoeHandle {
                    encoded: Arc::clone(&entry.encoded),
                    pir_setup: Arc::clone(&entry.pir_setup),
                    compressed_hint: Arc::clone(&entry.compressed_hint),
                    lwe_params,
                    bfv_params,
                    quantisation_bits,
                    dim,
                },
            ),
        }
    }

    /// Keeps what was built or restored under a fingerprint.
    pub fn keep(&mut self, fingerprint: &[u8], parts: TiptoeParts)
        ensures
            final(self).view() == old(self).view().insert(
                fingerprint@,
                TiptoeEntry {
                    encoded: Arc::new(parts.encoded),
                    pir_setup: Arc::new(parts.pir_setup),
                    compressed_hint: Arc::new(parts.compressed_hint),
                },
            ),
    {
        let entry: TiptoeEntry = TiptoeEntry {
            encoded: Arc::new(parts.encoded),
            pir_setup: Arc::new(parts.pir_setup),
            compressed_hint: Arc::new(parts.compressed_hint),
        };
        self.cache.insert(copy(fingerprint), entry);
    }
}

/// Parts that were built make a handle that can be scored.
pub proof fn built_handles_are_well_formed(
    handle: TiptoeHandle,
    parts: TiptoeParts,
    clusters: Seq<Vec<ScaledVector>>,
    seed: Seq<u8>,
)
    requires
        *handle.encoded == parts.encoded,
        *handle.pir_setup == parts.pir_setup,
        *handle.compressed_hint == parts.compressed_hint,
        0 < clusters.len(),
        handle.quantisation_bits <= 30,
        handle.lwe_params.valid(),
        handle.lwe_params.log2_p <= 62,
        2 < handle.bfv_params.spec_plaintext() <= i64::MAX,
        fits_in_memory(
            clusters,
            handle.dim,
            handle.lwe_params.n,
            handle.bfv_params.spec_degree(),
        ),
        are_parts_of(
            parts,
            clusters,
            handle.dim,
            handle.quantisation_bits,
            handle.lwe_params,
            handle.bfv_params,
            seed,
        ),
    ensures
        handle.well_formed(),
{
}

/// The matrix is determined by the clusters.
proof fn lemma_same_matrix(
    encoded: EncodedClusters,
    other: EncodedClusters,
    clusters: Seq<Vec<ScaledVector>>,
    d: int,
    q: u8,
    p: u64,
)
    requires
        encoded.holds(clusters, d, q, p),
        other.holds(clusters, d, q, p),
    ensures
        encoded.spec_matrix() == other.spec_matrix(),
{
    let width = encoded.spec_width();
    let rows = encoded.spec_m_max();
    assert forall|x: int| 0 <= x < rows * width implies #[trigger] encoded.spec_matrix()[x]
        == other.spec_matrix()[x] by {
        assert(0 < width) by (nonlinear_arith)
            requires
                0 <= x < rows * width,
                0 <= rows,
        ;
        layout::lemma_row_major(x, rows, width);
        let y = x % width;
        assert(0 < d) by (nonlinear_arith)
            requires
                0 <= y < clusters.len() * d,
                0 <= d,
        ;
        layout::lemma_row_major(y, clusters.len() as int, d);
        let (r, c, t) = (x / width, y / d, y % d);
        assert(encoded.spec_matrix()[r * width + (c * d + t)] == cluster::block_entry(
            clusters,
            q,
            p,
            c,
            r,
            t,
        ));
        assert(other.spec_matrix()[r * other.spec_width() + (c * d + t)] == cluster::block_entry(
            clusters,
            q,
            p,
            c,
            r,
            t,
        ));
    }
    assert(encoded.spec_matrix() =~= other.spec_matrix());
}

/// Parts that are restored beside the setup of an upload are parts of its vectors, as if they had
/// been built.
pub proof fn restored_parts_are_as_built(
    built: TiptoeParts,
    restored: TiptoeParts,
    clusters: Seq<Vec<ScaledVector>>,
    dim: usize,
    q: u8,
    lwe_params: Params,
    bfv_params: BfvContext,
    seed: Seq<u8>,
)
    requires
        are_parts_of(built, clusters, dim, q, lwe_params, bfv_params, seed),
        restored.pir_setup == built.pir_setup,
        restored.encoded.holds(clusters, dim as int, q, lwe_params.plaintext_modulus() as u64),
        restored.compressed_hint.spec_r() == restored.encoded.spec_m_max(),
        restored.compressed_hint.spec_n_lwe() == lwe_params.n,
        restored.compressed_hint.holds(restored.pir_setup.hint@, bfv_params.spec_degree()),
        restored.compressed_hint.encoded_for(*bfv_params.spec_handle()),
    ensures
        are_parts_of(restored, clusters, dim, q, lwe_params, bfv_params, seed),
{
    lemma_same_matrix(
        built.encoded,
        restored.encoded,
        clusters,
        dim as int,
        q,
        lwe_params.plaintext_modulus() as u64,
    );
}

/// Bytes of a ciphertext of the scheme for secrets: two polynomials, with the bits of all moduli per
/// coefficient rounded up to bytes.
pub open spec fn bfv_ciphertext_bytes(bfv_params: BfvContext) -> int {
    let sizes = bfv_params.spec_moduli_sizes();
    2 * bfv_params.spec_degree() * ((scoring::total(sizes, sizes.len() as int) + 7) / 8)
}

/// What a query costs.
pub open spec fn cost_of(
    m_max: int,
    width: int,
    lwe_params: Params,
    bfv_params: BfvContext,
) -> CommunicationCost {
    let ct = bfv_ciphertext_bytes(bfv_params);
    CommunicationCost {
        query_bytes: (width * 8) as u64,
        response_bytes: (m_max * 8) as u64,
        cluster_response_bytes: (m_max * 8) as u64,
        setup_bytes: (m_max * lwe_params.n * 8) as u64,
        pre_query_offline_up_bytes: (lwe_params.n * ct) as u64,
        pre_query_offline_down_bytes: (compress::chunk_count(m_max, bfv_params.spec_degree())
            * NUM_LIMBS_64 * ct) as u64,
        effective_bytes_per_query: (m_max * lwe_params.n * 8) as u64,
    }
}

/// The numbers of a cost fit in 64 bits, and those of sizes in memory.
pub open spec fn cost_fits(
    m_max: int,
    width: int,
    lwe_params: Params,
    bfv_params: BfvContext,
) -> bool {
    let sizes = bfv_params.spec_moduli_sizes();
    let ct = bfv_ciphertext_bytes(bfv_params);
    &&& width * 8 <= usize::MAX
    &&& m_max * lwe_params.n * 8 <= usize::MAX
    &&& m_max * 8 <= usize::MAX
    &&& scoring::total(sizes, sizes.len() as int) + 7 <= usize::MAX
    &&& ct <= usize::MAX
    &&& 2 * bfv_params.spec_degree() <= usize::MAX
    &&& lwe_params.n * ct <= u64::MAX
    &&& compress::chunk_count(m_max, bfv_params.spec_degree()) * NUM_LIMBS_64 <= u64::MAX
    &&& compress::chunk_count(m_max, bfv_params.spec_degree()) * NUM_LIMBS_64 * ct <= u64::MAX
}

/// What a query costs. Before it, the client sends its secret under encryption and gets the hint
/// times it; with it, a slot per column and one per row; and once, the hint.
pub fn communication_cost(handle: &TiptoeHandle) -> (cost: CommunicationCost)
    requires
        handle.well_formed(),
        cost_fits(
            handle.encoded.spec_m_max(),
            handle.encoded.spec_width(),
            handle.lwe_params,
            handle.bfv_params,
        ),
    ensures
        cost == cost_of(
            handle.encoded.spec_m_max(),
            handle.encoded.spec_width(),
            handle.lwe_params,
            handle.bfv_params,
        ),
{
    let sizes: &[usize] = handle.bfv_params.moduli_sizes();
    let mut bits: usize = 0;
    for i in 0..sizes.len()
        invariant
            scoring::total(sizes@, sizes@.len() as int) + 7 <= usize::MAX,
            bits == scoring::total(sizes@, i as int),
    {
        proof {
            scoring::lemma_totals(sizes@, 0, i + 1, sizes@.len() as int);
        }
        bits = bits + sizes[i];
    }
    let coeff_bytes: usize = (bits + 7) / 8;
    let degree: usize = handle.bfv_params.degree();
    let ct: u64 = (2 * degree * coeff_bytes) as u64;
    let m_max: usize = handle.encoded.m_max();
    let width: usize = handle.encoded.width();
    let n: usize = handle.lwe_params.n;
    let chunks: u64 = count_chunks(m_max, degree) as u64;
    proof {
        assert(0 <= m_max * n <= m_max * n * 8) by (nonlinear_arith)
            requires
                0 <= m_max,
                0 <= n,
        ;
    }
    let hint: u64 = (m_max * n * 8) as u64;
    CommunicationCost {
        query_bytes: (width * 8) as u64,
        response_bytes: (m_max * 8) as u64,
        cluster_response_bytes: (m_max * 8) as u64,
        setup_bytes: hint,
        pre_query_offline_up_bytes: n as u64 * ct,
        pre_query_offline_down_bytes: chunks * NUM_LIMBS_64 as u64 * ct,
        effective_bytes_per_query: hint,
    }
}

/// Version of the layout of stored indexes.
pub const CACHE_SCHEMA_VERSION: u32 = 1;

/// The bytes of a stored index: the version, the index, the rows of the hint and its columns, the
/// seed of the public matrix, and the hint.
pub open spec fn stored_bytes(index: IvfIndex, dim: int, setup: PirSetup) -> Seq<u8> {
    bytes::le32(CACHE_SCHEMA_VERSION) + ivf::index_bytes(index, dim) + bytes::le64(setup.r as u64)
        + bytes::le64(setup.n as u64) + setup.seed@ + bytes::run64(setup.hint@)
}

/// Lays an index and its setup out for storage.
pub fn save_tiptoe_cache(index: &IvfIndex, dim: usize, setup: &PirSetup) -> (out: Vec<u8>)
    requires
        index.has_dim(dim as int),
    ensures
        out@ == stored_bytes(*index, dim as int, *setup),
{
    let mut out: Vec<u8> = Vec::new();
    put_u32(&mut out, CACHE_SCHEMA_VERSION);
    write_index(index, dim, &mut out);
    put_u64(&mut out, setup.r as u64);
    put_u64(&mut out, setup.n as u64);
    out.extend_from_slice(setup.seed.as_slice());
    put_u64s(&mut out, &setup.hint);
    assert(out@ =~= stored_bytes(*index, dim as int, *setup));
    out
}

/// Components of the first centroid; none if there is no centroid.
pub open spec fn centroid_dim(index: IvfIndex) -> int {
    if index.centroids@.len() == 0 {
        0
    } else {
        index.centroids@[0]@.len() as int
    }
}

/// Where the rows of the hint stand.
pub open spec fn shape_at(stored: Seq<u8>) -> int {
    ivf::index_end(stored, 4)
}

/// How many numbers the stored hint has.
pub open spec fn hint_len(stored: Seq<u8>) -> int {
    bytes::u64_at(stored, shape_at(stored)) * bytes::u64_at(stored, shape_at(stored) + 8)
}

/// Bytes hold a stored index, in full.
pub open spec fn holds_setup(stored: Seq<u8>) -> bool {
    &&& 4 <= stored.len()
    &&& bytes::u32_at(stored, 0) == CACHE_SCHEMA_VERSION
    &&& shape_at(stored) + 48 <= stored.len()
    &&& shape_at(stored) + 48 + 8 * hint_len(stored) <= stored.len()
    &&& bytes::u64_at(stored, shape_at(stored)) <= usize::MAX
    &&& bytes::u64_at(stored, shape_at(stored) + 8) <= usize::MAX
}

/// Reads a stored index with its setup. The setup has a column per cluster and component.
pub fn load_tiptoe_cache(stored: &[u8]) -> (r: Option<(IvfIndex, usize, PirSetup)>)
    ensures
        r is Some ==> holds_setup(stored@),
        r matches Some((index, dim, setup)) ==> {
            let at = shape_at(stored@);
            &&& index.has_dim(dim as int)
            &&& stored@.subrange(4, at) == ivf::index_bytes(index, dim as int)
            &&& setup.r == bytes::u64_at(stored@, at)
            &&& setup.n == bytes::u64_at(stored@, at + 8)
            &&& setup.seed@ == stored@.subrange(at + 16, at + 48)
            &&& setup.hint@ == bytes::words_at(stored@, at + 48, hint_len(stored@))
            &&& setup.c == index.clusters@.len() * centroid_dim(index)
        },
        r is None ==> !holds_setup(stored@) || exists|index: IvfIndex, dim: usize|
            index.has_dim(dim as int) && stored@.subrange(4, shape_at(stored@))
                == #[trigger] ivf::index_bytes(index, dim as int) && index.clusters@.len()
                * centroid_dim(index) > usize::MAX,
{
    assert(stored.len() == stored@.len());
    let version: u32 = match get_u32(stored, 0) {
        None => {
            return None;
        },
        Some(version) => version,
    };
    if version != CACHE_SCHEMA_VERSION {
        return None;
    }
    let (index, dim, at): (IvfIndex, usize, usize) = match read_index(stored, 4) {
        None => {
            return None;
        },
        Some(x) => x,
    };
    let rows: u64 = match get_u64(stored, at) {
        None => {
            return None;
        },
        Some(x) => x,
    };
    let columns: u64 = match get_u64(stored, at + 8) {
        None => {
            return None;
        },
        Some(x) => x,
    };
    let seed: [u8; 32] = match get_seed(stored, at + 16) {
        None => {
            return None;
        },
        Some(x) => x,
    };
    if rows > usize::MAX as u64 || columns > usize::MAX as u64 {
        return None;
    }
    assert(rows * columns <= u64::MAX * u64::MAX && 0 <= rows * columns) by (nonlinear_arith)
        requires
            0 <= rows <= u64::MAX,
            0 <= columns <= u64::MAX,
    ;
    let elements: u128 = rows as u128 * columns as u128;
    if elements > stored.len() as u128 {
        return None;
    }
    assert(seed@ =~= stored@.subrange(at + 16, at + 48));
    let hint: Vec<u64> = match get_u64s(stored, at + 48, elements as usize) {
        None => {
            return None;
        },
        Some(x) => x,
    };
    let first: usize = if index.centroids.len() == 0 {
        0
    } else {
        index.centroids[0].len()
    };
    let n_clusters: usize = index.clusters.len();
    assert(n_clusters * first <= u64::MAX * u64::MAX && 0 <= n_clusters * first)
        by (nonlinear_arith)
        requires
            0 <= n_clusters <= u64::MAX,
            0 <= first <= u64::MAX,
    ;
    let width: u128 = n_clusters as u128 * first as u128;
    if width > usize::MAX as u128 {
        return None;
    }
    let setup: PirSetup = PirSetup {
        seed,
        hint,
        r: rows as usize,
        c: width as usize,
        n: columns as usize,
    };
    Some((index, dim, setup))
}

/// An index that was stored with its setup is read back with it.
pub proof fn loading_gives_back_what_was_saved(
    index: IvfIndex,
    dim: usize,
    setup: PirSetup,
    read: IvfIndex,
    read_dim: usize,
)
    requires
        index.has_dim(dim as int),
        setup.hint@.len() == setup.r * setup.n,
        read.has_dim(read_dim as int),
        ({
            let stored = stored_bytes(index, dim as int, setup);
            stored.subrange(4, shape_at(stored)) == ivf::index_bytes(read, read_dim as int)
        }),
    ensures
        ({
            let stored = stored_bytes(index, dim as int, setup);
            let at = shape_at(stored);
            &&& holds_setup(stored)
            &&& read_dim == dim
            &&& ivf::same_index(read, index)
            &&& bytes::u64_at(stored, at) == setup.r
            &&& bytes::u64_at(stored, at + 8) == setup.n
            &&& stored.subrange(at + 16, at + 48) == setup.seed@
            &&& bytes::words_at(stored, at + 48, hint_len(stored)) == setup.hint@
        }),
{
    bytes::lemma_numbers();
    let stored = stored_bytes(index, dim as int, setup);
    let body = ivf::index_bytes(index, dim as int);
    let run = bytes::run64(setup.hint@);
    assert(stored.subrange(0, 4) =~= bytes::le32(CACHE_SCHEMA_VERSION));
    assert(bytes::has_at(stored, 0, bytes::le32(CACHE_SCHEMA_VERSION)));
    assert(stored.subrange(4, 4 + body.len() as int) =~= body);
    assert(bytes::has_at(stored, 4, body));
    ivf::reading_gives_back_what_was_written(stored, 4, index, dim, read, read_dim);
    let at = 4 + body.len() as int;
    assert(shape_at(stored) == at);
    assert(stored.subrange(at, at + 8) =~= bytes::le64(setup.r as u64));
    assert(bytes::has_at(stored, at, bytes::le64(setup.r as u64)));
    assert(stored.subrange(at + 8, at + 16) =~= bytes::le64(setup.n as u64));
    assert(bytes::has_at(stored, at + 8, bytes::le64(setup.n as u64)));
    assert(stored.subrange(at + 16, at + 48) =~= setup.seed@);
    assert(run.len() == setup.hint@.len() * 8);
    assert(stored.subrange(at + 48, at + 48 + run.len()) =~= run);
    bytes::lemma_words_of_run(stored, at + 48, setup.hint@);
}

/// The parts that an index is fingerprinted by are the same exactly if the clustering, the number and
/// the dimension of the vectors, the bits of a component and both encryptions' bytes are.
pub proof fn parts_tell_indexes_apart(
    one: TiptoeConfig,
    other: TiptoeConfig,
    n: usize,
    m: usize,
    dim: usize,
    other_dim: usize,
    lwe_fp: Seq<u8>,
    other_lwe_fp: Seq<u8>,
    bfv_fp: Seq<u8>,
    other_bfv_fp: Seq<u8>,
)
    ensures
        cache_parts_of(one, n, dim, lwe_fp, bfv_fp) == cache_parts_of(
            other,
            m,
            other_dim,
            other_lwe_fp,
            other_bfv_fp,
        ) <==> one.n_centroids == other.n_centroids && one.train_seed == other.train_seed
            && one.max_iter == other.max_iter && n == m && dim == other_dim
            && one.quantisation_bits == other.quantisation_bits && lwe_fp == other_lwe_fp && bfv_fp
            == other_bfv_fp,
{
    let a = cache_parts_of(one, n, dim, lwe_fp, bfv_fp);
    let b = cache_parts_of(other, m, other_dim, other_lwe_fp, other_bfv_fp);
    bytes::lemma_numbers();
    if a == b {
        assert(a[1] == b[1] && a[2] == b[2] && a[3] == b[3] && a[4] == b[4] && a[5] == b[5]
            && a[6] == b[6] && a[7] == b[7] && a[8] == b[8]);
    }
}

/// The bytes that the encryption of secrets is fingerprinted by hold every size of a modulus, in its
/// place.
pub proof fn sizes_are_words_in_their_places(sizes: Seq<usize>, i: int)
    requires
        0 <= i < sizes.len(),
    ensures
        sizes_as_words(sizes).len() == sizes.len(),
        sizes_as_words(sizes)[i] == sizes[i],
{
}

/// The seed of the public matrix has 32 bytes, the first eight of which are those of the training's
/// seed and the others zeros: indexes with different seeds of the training have different ones.
pub proof fn seeds_of_matrices_come_off_the_training(train_seed: u64, other: u64)
    ensures
        pir_seed(train_seed).len() == 32,
        pir_seed(train_seed).subrange(0, 8) == vstd::bytes::spec_u64_to_le_bytes(train_seed),
        forall|i: int| 8 <= i < 32 ==> #[trigger] pir_seed(train_seed)[i] == 0,
        pir_seed(train_seed) == pir_seed(other) <==> train_seed == other,
{
    bytes::lemma_numbers();
    assert(pir_seed(train_seed).subrange(0, 8) =~= bytes::le64(train_seed));
    assert(pir_seed(other).subrange(0, 8) =~= bytes::le64(other));
}

/// A query costs a 64-bit number for every column and gets one for every row; the hint, sent once,
/// has a row of the secret's length for every row. Before a query, each entry of the secret is sent
/// as a ciphertext, and the eight limbs of each chunk of rows come back as one. A ciphertext has two
/// polynomials of as many coefficients as the degree, each of whole bytes that hold the bits of all
/// moduli, and of no byte more.
pub proof fn queries_cost_a_row_and_a_column(
    m_max: int,
    width: int,
    lwe_params: Params,
    bfv_params: BfvContext,
) -> (coefficient_bytes: int)
    requires
        0 <= m_max,
        0 <= width,
        0 < bfv_params.spec_degree(),
        cost_fits(m_max, width, lwe_params, bfv_params),
    ensures
        ({
            let cost = cost_of(m_max, width, lwe_params, bfv_params);
            let sizes = bfv_params.spec_moduli_sizes();
            let bits = sums::sum(sizes.len() as int, |i: int| sizes[i] as int);
            let ct = 2 * bfv_params.spec_degree() * coefficient_bytes;
            &&& bits <= 8 * coefficient_bytes < bits + 8
            &&& cost.query_bytes == 8 * width
            &&& cost.response_bytes == 8 * m_max
            &&& cost.cluster_response_bytes == cost.response_bytes
            &&& cost.setup_bytes == 8 * (m_max * lwe_params.n)
            &&& cost.effective_bytes_per_query == cost.setup_bytes
            &&& cost.pre_query_offline_up_bytes == lwe_params.n * ct
            &&& cost.pre_query_offline_down_bytes == compress::chunk_count(
                m_max,
                bfv_params.spec_degree(),
            ) * 8 * ct
        }),
{
    let sizes = bfv_params.spec_moduli_sizes();
    scoring::totals_take_every_size(sizes, sizes.len());
    let bits = scoring::total(sizes, sizes.len() as int);
    let coefficient_bytes = (bits + 7) / 8;
    let ct = bfv_ciphertext_bytes(bfv_params);
    let chunks = compress::chunk_count(m_max, bfv_params.spec_degree());
    sums::lemma_sum_bounds(sizes.len() as int, 0, usize::MAX as int, |i: int| sizes[i] as int);
    vstd::arithmetic::div_mod::lemma_div_pos_is_pos(
        m_max + bfv_params.spec_degree() - 1,
        bfv_params.spec_degree(),
    );
    assert(0 <= m_max * lwe_params.n * 8) by (nonlinear_arith)
        requires
            0 <= m_max,
            0 <= lwe_params.n,
    ;
    assert(0 <= 2 * bfv_params.spec_degree() * coefficient_bytes) by (nonlinear_arith)
        requires
            0 < bfv_params.spec_degree(),
            0 <= coefficient_bytes,
    ;
    assert(0 <= lwe_params.n * ct) by (nonlinear_arith)
        requires
            0 <= lwe_params.n,
            0 <= ct,
    ;
    assert(0 <= chunks * NUM_LIMBS_64 * ct) by (nonlinear_arith)
        requires
            0 <= chunks,
            0 <= ct,
            0 <= NUM_LIMBS_64,
    ;
    coefficient_bytes
}

/// Vectors are refused for the first component, in the order of clusters, vectors and components,
/// that is not finite: the error names its place in its vector.
pub proof fn errors_name_the_first_component_that_is_not_finite(
    clusters: Seq<Vec<ScaledVector>>,
    e: TiptoeError,
) -> (at: (int, int, int))
    requires
        is_first_bad_error(clusters, e),
        forall|c: int, r: int|
            0 <= c < clusters.len() && 0 <= r < clusters[c]@.len() ==> (
            #[trigger] clusters[c]@[r]).components@.len() <= usize::MAX,
    ensures
        0 <= at.0 < clusters.len(),
        0 <= at.1 < clusters[at.0]@.len(),
        0 <= at.2 < clusters[at.0]@[at.1].components@.len(),
        e == TiptoeError::QuantisationOverflow(EncodingError::NonFinite { index: at.2 as usize }),
        clusters[at.0]@[at.1].components@[at.2] is None,
        forall|c: int, r: int, t: int|
            0 <= c < clusters.len() && 0 <= r < clusters[c]@.len() && 0 <= t
                < clusters[c]@[r].components@.len() && (c < at.0 || (c == at.0 && (r < at.1 || (r
                == at.1 && t < at.2)))) ==> (#[trigger] clusters[c]@[r].components@[t]) is Some,
{
    let (c0, r0) = choose|c: int, r: int| #[trigger]
        cluster::is_first_bad(clusters, c, r) && e == TiptoeError::QuantisationOverflow(
            EncodingError::NonFinite {
                index: encoding::first_non_finite(clusters[c]@[r].components@) as usize,
            },
        );
    let v = clusters[c0]@[r0].components@;
    let t0 = encoding::first_non_finite(v);
    encoding::lemma_first_non_finite(v);
    assert forall|c: int, r: int, t: int|
        0 <= c < clusters.len() && 0 <= r < clusters[c]@.len() && 0 <= t
            < clusters[c]@[r].components@.len() && (c < c0 || (c == c0 && (r < r0 || (r == r0 && t
            < t0)))) implies (#[trigger] clusters[c]@[r].components@[t]) is Some by {
        if c < c0 || r < r0 {
            assert(cluster::row_is_finite(clusters[c]@[r]));
            encoding::lemma_first_non_finite(clusters[c]@[r].components@);
        }
    }
    (c0, r0, t0)
}

/// The setup that is read with a stored index has a column for each component of each cluster.
pub proof fn read_setups_have_a_column_per_component(index: IvfIndex, dim: int)
    requires
        index.has_dim(dim),
        0 < index.centroids@.len(),
    ensures
        index.clusters@.len() * centroid_dim(index) == index.clusters@.len() * dim,
{
    assert(index.centroids@[0]@.len() == dim);
}

/// A stored setup is worked with exactly if it has the matrix's rows and columns, and clusters are
/// refused exactly if one has no vectors.
pub proof fn shapes_decide_what_is_worked_with(
    setup: PirSetup,
    rows: int,
    width: int,
    clusters: Seq<Vec<ScaledVector>>,
)
    ensures
        setup_fits(setup, rows, width) <==> setup.r == rows && setup.c == width,
        some_empty(clusters) <==> clusters.map_values(
            |c: Vec<ScaledVector>| c@.len() as int,
        ).contains(0),
{
    let sizes = clusters.map_values(|c: Vec<ScaledVector>| c@.len() as int);
    if some_empty(clusters) {
        let c = choose|c: int| 0 <= c < clusters.len() && (#[trigger] clusters[c])@.len() == 0;
        assert(sizes[c] == 0);
    }
    if sizes.contains(0) {
        let c = choose|c: int| 0 <= c < sizes.len() && sizes[c] == 0;
        assert(clusters[c]@.len() == 0);
    }
}

/// How an index is stored: a version of one, in four bytes; the index; the rows and the columns of
/// the hint, eight bytes each; the 32 bytes of the matrix's seed; and every number of the hint, eight
/// bytes each. The lowest byte comes first.
pub proof fn stored_indexes_have_a_fixed_layout(index: IvfIndex, dim: int, setup: PirSetup, i: int)
    requires
        0 <= i < setup.hint@.len(),
    ensures
        ({
            let stored = stored_bytes(index, dim, setup);
            let at = 4 + ivf::index_bytes(index, dim).len() as int;
            &&& stored.len() == at + 48 + 8 * setup.hint@.len()
            &&& stored.subrange(0, 4) == vstd::bytes::spec_u32_to_le_bytes(1)
            &&& stored.subrange(4, at) == ivf::index_bytes(index, dim)
            &&& stored.subrange(at, at + 8) == vstd::bytes::spec_u64_to_le_bytes(setup.r as u64)
            &&& stored.subrange(at + 8, at + 16) == vstd::bytes::spec_u64_to_le_bytes(
                setup.n as u64,
            )
            &&& stored.subrange(at + 16, at + 48) == setup.seed@
            &&& stored.subrange(at + 48 + 8 * i, at + 56 + 8 * i)
                == vstd::bytes::spec_u64_to_le_bytes(setup.hint@[i])
        }),
{
    let stored = stored_bytes(index, dim, setup);
    let at = 4 + ivf::index_bytes(index, dim).len() as int;
    bytes::lemma_numbers();
    bytes::runs_hold_each_number(setup.hint@, i);
    assert(stored.subrange(0, 4) =~= bytes::le32(1));
    assert(stored.subrange(4, at) =~= ivf::index_bytes(index, dim));
    assert(stored.subrange(at, at + 8) =~= bytes::le64(setup.r as u64));
    assert(stored.subrange(at + 8, at + 16) =~= bytes::le64(setup.n as u64));
    assert(stored.subrange(at + 16, at + 48) =~= setup.seed@);
    assert(stored.subrange(at + 48 + 8 * i, at + 56 + 8 * i) =~= bytes::run64(
        setup.hint@,
    ).subrange(8 * i, 8 * i + 8));
}

} // verus!
