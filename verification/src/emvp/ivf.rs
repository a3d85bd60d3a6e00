//! Scoring of encrypted clusters, of which a query probes the nearest.

use std::sync::Arc;

use vstd::prelude::*;

use crate::bytes;
use crate::bytes::{copy, number, put_u64, text};
use crate::cache::KeyedCache;
use crate::emvp::crypto;
use crate::emvp::crypto::{
    compute_products, compute_products_batch, decode_scores, encrypt_cluster,
};
use crate::emvp::field;
use crate::emvp::params::{ELL0, FIELD_BYTES, K, N, P, S};
use crate::emvp::scorer;
use crate::emvp::scorer::encode;
use crate::hits;
use crate::hits::{rank, Hit};
use crate::ivf;
use crate::ivf::probe_route;
use crate::math::sums;
use crate::parallel::parallel_map;
use crate::prng;
use crate::prng::{chacha20_u8s, draw_u64s};
use crate::scoring;
use crate::scoring::{sum_sizes, CommunicationCost, Device, Obtained};

verus! {

/// What clusters are built, encrypted and scored with.
pub struct EmvpIvfConfig {
    /// Number of clusters.
    pub n_centroids: usize,
    /// Clusters that a query probes.
    pub nprobe: usize,
    /// Seed of the training.
    pub train_seed: u64,
    /// Rounds of the training.
    pub max_iter: usize,
    /// Seed of the matrix `D`.
    pub key_seed: [u8; 32],
    /// Seed of the seeds of the masks.
    pub upload_seed: u64,
    /// Where products are computed.
    pub device: Device,
    /// Bytes of a graphics card's memory to use; found out if absent.
    pub vram_budget_bytes: Option<u64>,
}

/// Why clusters could not be uploaded or scored.
#[derive(Debug)]
pub enum EmvpIvfError {
    /// There is no vector.
    EmptyCorpus,
    /// A cluster has no vector.
    EmptyCluster,
    /// There are more clusters than vectors.
    TooManyCentroids(usize),
    /// A query would probe no cluster, or more than there are.
    InvalidNprobe {
        /// Clusters to probe.
        nprobe: usize,
        /// Number of clusters.
        n_centroids: usize,
    },
    /// A vector has more components than can be encrypted.
    DimensionTooLarge {
        /// Components of the vector.
        actual: usize,
        /// Components that can be encrypted.
        ell0: usize,
    },
    /// A query has another number of components than the vectors.
    DimensionMismatch {
        /// Components of the query.
        query_dim: usize,
        /// Components of the vectors.
        index_dim: usize,
    },
    /// The work could not be done.
    SpawnPanic,
    /// A graphics card was asked for and cannot be used.
    GpuFeatureNotEnabled,
    /// The graphics card reported an error.
    Gpu(String),
}

/// How long the steps of a query took.
#[derive(Debug, Clone, Copy, Default)]
pub struct EmvpIvfTiming {
    /// Microseconds for picking the clusters.
    pub route_us: u64,
    /// Microseconds for encoding the query.
    pub encode_us: u64,
    /// Microseconds for the products.
    pub server_us: u64,
    /// Microseconds for decoding.
    pub decode_us: u64,
    /// Microseconds for ranking.
    pub merge_us: u64,
}

/// Whether vectors can be uploaded: there must be some, no fewer than clusters; a query must probe
/// at least one cluster and no more than there are; and the vectors must not be too long.
pub fn validate_upload(config: &EmvpIvfConfig, n_vectors: usize, dim: usize) -> (r: Result<
    (),
    EmvpIvfError,
>)
    ensures
        n_vectors == 0 ==> r == Err::<(), EmvpIvfError>(EmvpIvfError::EmptyCorpus),
        0 < n_vectors < config.n_centroids ==> r == Err::<(), EmvpIvfError>(
            EmvpIvfError::TooManyCentroids(config.n_centroids),
        ),
        0 < n_vectors && config.n_centroids <= n_vectors && !(1 <= config.nprobe
            <= config.n_centroids) ==> r == Err::<(), EmvpIvfError>(
            EmvpIvfError::InvalidNprobe {
                nprobe: config.nprobe,
                n_centroids: config.n_centroids,
            },
        ),
        0 < n_vectors && config.n_centroids <= n_vectors && 1 <= config.nprobe
            <= config.n_centroids && dim > ELL0 ==> r == Err::<(), EmvpIvfError>(
            EmvpIvfError::DimensionTooLarge { actual: dim, ell0: ELL0 },
        ),
        r is Ok <==> 0 < n_vectors && config.n_centroids <= n_vectors && 1 <= config.nprobe
            <= config.n_centroids && dim <= ELL0,
{
    if n_vectors == 0 {
        return Err(EmvpIvfError::EmptyCorpus);
    }
    if config.n_centroids > n_vectors {
        return Err(EmvpIvfError::TooManyCentroids(config.n_centroids));
    }
    if config.nprobe == 0 || config.nprobe > config.n_centroids {
        return Err(
            EmvpIvfError::InvalidNprobe {
                nprobe: config.nprobe,
                n_centroids: config.n_centroids,
            },
        );
    }
    if dim > ELL0 {
        return Err(EmvpIvfError::DimensionTooLarge { actual: dim, ell0: ELL0 });
    }
    Ok(())
}

/// What an index is fingerprinted by.
pub open spec fn cache_parts_of(config: EmvpIvfConfig, n_vectors: usize) -> Seq<Seq<u8>> {
    seq![
        bytes::text_bytes("emvp-ivf"@),
        bytes::le64(config.n_centroids as u64),
        bytes::le64(config.train_seed),
        bytes::le64(config.max_iter as u64),
        bytes::le64(n_vectors as u64),
        bytes::le64(config.upload_seed),
        config.key_seed@,
    ]
}

/// The parts that a stored index is fingerprinted by.
pub fn cache_parts(config: &EmvpIvfConfig, n_vectors: usize) -> (parts: Vec<Vec<u8>>)
    ensures
        bytes::contents(parts@) == cache_parts_of(*config, n_vectors),
{
    let mut parts: Vec<Vec<u8>> = Vec::with_capacity(7);
    parts.push(text("emvp-ivf"));
    parts.push(number(config.n_centroids as u64));
    parts.push(number(config.train_seed));
    parts.push(number(config.max_iter as u64));
    parts.push(number(n_vectors as u64));
    parts.push(number(config.upload_seed));
    parts.push(copy(config.key_seed.as_slice()));
    assert(bytes::contents(parts@) =~= cache_parts_of(*config, n_vectors));
    parts
}

/// The seed that a cluster's seed is drawn from: the seed of the upload, the number of the cluster,
/// and zeros.
pub open spec fn seed_of_seed(upload_seed: u64, cluster_idx: usize) -> Seq<u8> {
    bytes::le64(upload_seed) + bytes::le64(cluster_idx as u64) + Seq::new(16, |i: int| 0u8)
}

/// The seed of a cluster's masks.
pub open spec fn cluster_seed(upload_seed: u64, cluster_idx: usize) -> Seq<u8> {
    Seq::new(
        32,
        |i: int| prng::chacha20_u8(seed_of_seed(upload_seed, cluster_idx), i as nat),
    )
}

/// Derives the seed of a cluster's masks.
pub fn derive_r_seed(upload_seed: u64, cluster_idx: usize) -> (seed: [u8; 32])
    ensures
        seed@ == cluster_seed(upload_seed, cluster_idx),
{
    let mut start: Vec<u8> = Vec::with_capacity(16);
    put_u64(&mut start, upload_seed);
    put_u64(&mut start, cluster_idx as u64);
    let mut from: [u8; 32] = [0u8; 32];
    proof {
        bytes::lemma_numbers();
    }
    for i in 0..16
        invariant
            start@ == bytes::le64(upload_seed) + bytes::le64(cluster_idx as u64),
            start@.len() == 16,
            forall|j: int| 0 <= j < i ==> #[trigger] from@[j] == start@[j],
            forall|j: int| i <= j < 32 ==> #[trigger] from@[j] == 0,
    {
        from[i] = start[i];
    }
    assert(from@ =~= seed_of_seed(upload_seed, cluster_idx));
    let drawn: Vec<u8> = chacha20_u8s(&from, 32);
    let mut seed: [u8; 32] = [0u8; 32];
    for i in 0..32
        invariant
            drawn@.len() == 32,
            forall|j: int| 0 <= j < i ==> #[trigger] seed@[j] == drawn@[j],
    {
        seed[i] = drawn[i];
    }
    assert(seed@ =~= cluster_seed(upload_seed, cluster_idx));
    seed
}

/// An encrypted cluster.
#[derive(Clone, Copy)]
pub struct EncryptedCluster<'a> {
    /// The ciphertext, row by row.
    pub m_hat: &'a [u64],
    /// Seed of the masks.
    pub r_seed: [u8; 32],
    /// Number of vectors.
    pub m: usize,
}

impl EncryptedCluster<'_> {
    /// The ciphertext has a row of field elements per vector.
    pub open spec fn well_formed(&self) -> bool {
        &&& scorer::is_ciphertext(self.m_hat@, self.m as int)
        &&& self.m * N * FIELD_BYTES <= usize::MAX
    }

    /// The cluster is the encryption of these vectors.
    pub open spec fn encrypts(&self, d: Seq<u64>, rows: Seq<Seq<i64>>) -> bool {
        &&& rows.len() == self.m
        &&& crypto::is_encryption(self.m_hat@, d, self.r_seed@, rows)
    }
}

/// Encrypts cluster number `cluster_idx`: gives the ciphertext and the seed of the masks.
pub fn encrypt_numbered_cluster(
    d_mat: &[u64],
    upload_seed: u64,
    cluster_idx: usize,
    vectors: &[Vec<i64>],
) -> (r: (Vec<u64>, [u8; 32]))
    requires
        crypto::is_d_matrix(d_mat@),
        vectors@.len() * N <= usize::MAX,
    ensures
        r.1@ == cluster_seed(upload_seed, cluster_idx),
        crypto::is_encryption(r.0@, d_mat@, r.1@, crypto::rows_of(vectors@)),
{
    let r_seed: [u8; 32] = derive_r_seed(upload_seed, cluster_idx);
    if vectors.len() == 0 {
        let empty: Vec<u64> = Vec::new();
        return (empty, r_seed);
    }
    let m_hat: Vec<u64> = encrypt_cluster(d_mat, &r_seed, vectors, |i: usize| {  });
    (m_hat, r_seed)
}

/// Encrypts clusters one after the other, and reports each.
pub fn encrypt_clusters<F: Fn(usize)>(
    d_mat: &[u64],
    upload_seed: u64,
    clusters: &[Vec<Vec<i64>>],
    on_encrypt: F,
) -> (r: Vec<(Vec<u64>, [u8; 32])>)
    requires
        crypto::is_d_matrix(d_mat@),
        forall|c: int|
            0 <= c < clusters@.len() ==> (#[trigger] clusters@[c])@.len() * N <= usize::MAX,
        forall|c: usize| c < clusters@.len() ==> call_requires(on_encrypt, (c,)),
    ensures
        r@.len() == clusters@.len(),
        forall|c: int|
            0 <= c < clusters@.len() ==> (#[trigger] r@[c]).1@ == cluster_seed(
                upload_seed,
                c as usize,
            ) && crypto::is_encryption(
                r@[c].0@,
                d_mat@,
                r@[c].1@,
                crypto::rows_of(clusters@[c]@),
            ),
{
    let mut r: Vec<(Vec<u64>, [u8; 32])> = Vec::with_capacity(clusters.len());
    for c in 0..clusters.len()
        invariant
            crypto::is_d_matrix(d_mat@),
            forall|t: int|
                0 <= t < clusters@.len() ==> (#[trigger] clusters@[t])@.len() * N <= usize::MAX,
            forall|t: usize| t < clusters@.len() ==> call_requires(on_encrypt, (t,)),
            r@.len() == c,
            forall|t: int|
                0 <= t < c ==> (#[trigger] r@[t]).1@ == cluster_seed(upload_seed, t as usize)
                    && crypto::is_encryption(
                    r@[t].0@,
                    d_mat@,
                    r@[t].1@,
                    crypto::rows_of(clusters@[t]@),
                ),
    {
        r.push(encrypt_numbered_cluster(d_mat, upload_seed, c, &clusters[c]));
        on_encrypt(c);
    }
    r
}

/// Whether some cluster has no vector.
pub fn any_empty(sizes: &[usize]) -> (r: bool)
    ensures
        r == exists|c: int| 0 <= c < sizes@.len() && #[trigger] sizes@[c] == 0,
{
    for c in 0..sizes.len()
        invariant
            forall|t: int| 0 <= t < c ==> #[trigger] sizes@[t] != 0,
    {
        if sizes[c] == 0 {
            assert(sizes@[c as int] == 0);
            return true;
        }
    }
    false
}

/// Encrypted clusters, with what is needed to score them.
pub struct EmvpIvfHandle<'a> {
    /// The clusters.
    pub clusters: &'a [EncryptedCluster<'a>],
    /// The numbers in the corpus of the vectors of each cluster.
    pub membership: &'a [Vec<u32>],
    /// The matrix `D`.
    pub d_mat: &'a [u64],
    /// Clusters that a query probes.
    pub nprobe: usize,
    /// Components of the vectors.
    pub dim: usize,
}

impl EmvpIvfHandle<'_> {
    /// Every cluster can be scored, and its vectors have numbers.
    pub open spec fn well_formed(&self) -> bool {
        &&& self.clusters@.len() == self.membership@.len()
        &&& forall|c: int|
            0 <= c < self.clusters@.len() ==> (#[trigger] self.clusters@[c]).well_formed()
        &&& forall|c: int|
            0 <= c < self.clusters@.len() ==> (#[trigger] self.membership@[c])@.len()
                == self.clusters@[c].m
        &&& crypto::is_d_matrix(self.d_mat@)
        &&& self.dim <= ELL0
    }

    /// The sizes of clusters fit in memory together.
    pub open spec fn sizes(&self) -> Seq<usize> {
        self.clusters@.map_values(|c: EncryptedCluster| c.m)
    }
}

/// The hits that the block products of a cluster with an encoded query decode to.
pub open spec fn hits_of_products(
    handle: EmvpIvfHandle,
    c: int,
    q_hat: Seq<u64>,
    products: Seq<u64>,
) -> Seq<Hit> {
    let cluster = handle.clusters@[c];
    let scores = scorer::scores_of_products(cluster.m as int, cluster.r_seed@, q_hat, products);
    Seq::new(scores.len(), |i: int| Hit { id: handle.membership@[c]@[i], score: scores[i] })
}

/// The block products of a cluster with an encoded query.
pub open spec fn cluster_products(handle: EmvpIvfHandle, c: int, q_hat: Seq<u64>) -> Seq<u64> {
    let cluster = handle.clusters@[c];
    crypto::block_products(cluster.m_hat@, cluster.m as int, q_hat)
}

/// The hits of an encoded query in one cluster.
pub open spec fn cluster_hits(handle: EmvpIvfHandle, c: int, q_hat: Seq<u64>) -> Seq<Hit> {
    hits_of_products(handle, c, q_hat, cluster_products(handle, c, q_hat))
}

/// The hits of an encoded query in the first `n` of the clusters that it probes.
pub open spec fn probed_hits(
    handle: EmvpIvfHandle,
    probes: Seq<usize>,
    q_hat: Seq<u64>,
    n: int,
) -> Seq<Hit>
    decreases n,
{
    if n <= 0 {
        Seq::empty()
    } else {
        probed_hits(handle, probes, q_hat, n - 1) + cluster_hits(
            handle,
            probes[n - 1] as int,
            q_hat,
        )
    }
}

/// The best `k` hits of a query under a mask of random numbers.
pub open spec fn masked_result(
    handle: EmvpIvfHandle,
    query: Seq<i64>,
    probes: Seq<usize>,
    draws: Seq<u64>,
    k: int,
) -> Seq<Hit> {
    hits::best(
        probed_hits(
            handle,
            probes,
            scorer::encoding(handle.d_mat@, query, draws),
            probes.len() as int,
        ),
        k,
    )
}

/// The server's work on one cluster: the block products with an encoded query. A cluster without
/// vectors has none.
pub fn products_in_cluster(handle: &EmvpIvfHandle, c: usize, q_hat: &[u64]) -> (r: Vec<u64>)
    requires
        handle.well_formed(),
        c < handle.clusters@.len(),
        q_hat@.len() >= N,
        crypto::in_field(q_hat@),
    ensures
        r@ == cluster_products(*handle, c as int, q_hat@),
{
    let cluster: &EncryptedCluster = &handle.clusters[c];
    let m: usize = cluster.m;
    if m == 0 {
        let none: Vec<u64> = Vec::new();
        assert(none@ =~= cluster_products(*handle, c as int, q_hat@));
        return none;
    }
    proof {
        scorer::lemma_products_fit(m as int);
    }
    compute_products(cluster.m_hat, m, q_hat)
}

/// Decodes the block products of one cluster with an encoded query, and numbers the scores by the
/// vectors of the cluster.
pub fn decode_cluster(handle: &EmvpIvfHandle, c: usize, q_hat: &[u64], products: &[u64]) -> (found:
    Vec<Hit>)
    requires
        handle.well_formed(),
        c < handle.clusters@.len(),
        q_hat@.len() >= N,
        crypto::in_field(q_hat@),
        products@.len() == S * handle.clusters@[c as int].m,
        crypto::in_field(products@),
    ensures
        found@ == hits_of_products(*handle, c as int, q_hat@, products@),
{
    let cluster: &EncryptedCluster = &handle.clusters[c];
    let membership: &Vec<u32> = &handle.membership[c];
    let scores: Vec<i64> = decode_scores(cluster.m, &cluster.r_seed, q_hat, products);
    let mut found: Vec<Hit> = Vec::with_capacity(scores.len());
    for i in 0..scores.len()
        invariant
            scores@.len() == membership@.len(),
            found@.len() == i,
            forall|t: int|
                0 <= t < i ==> #[trigger] found@[t] == (Hit {
                    id: membership@[t],
                    score: scores@[t],
                }),
    {
        found.push(Hit { id: membership[i], score: scores[i] });
    }
    assert(found@ =~= hits_of_products(*handle, c as int, q_hat@, products@));
    found
}

/// There are as many block products as there are blocks, and all are field elements.
proof fn lemma_cluster_products(handle: EmvpIvfHandle, c: int, q_hat: Seq<u64>)
    requires
        handle.well_formed(),
        0 <= c < handle.clusters@.len(),
    ensures
        cluster_products(handle, c, q_hat).len() == S * handle.clusters@[c].m,
        crypto::in_field(cluster_products(handle, c, q_hat)),
{
    let cluster = handle.clusters@[c];
    assert(cluster.well_formed());
    scorer::lemma_products_fit(cluster.m as int);
    crypto::lemma_products_in_field(cluster.m_hat@, cluster.m as int, q_hat);
}

/// The block products with an encoded query of the `i`-th cluster that it probes.
pub open spec fn is_probe_product(
    products: Seq<u64>,
    handle: EmvpIvfHandle,
    probes: Seq<usize>,
    q_hat: Seq<u64>,
    i: usize,
) -> bool {
    products == cluster_products(handle, probes[i as int] as int, q_hat)
}

/// The server's work on a query: the block products of each cluster that it probes. The clusters
/// are worked on in parallel.
pub fn products_of_probed(handle: &EmvpIvfHandle, probes: &[usize], q_hat: &[u64]) -> (r: Vec<
    Vec<u64>,
>)
    requires
        handle.well_formed(),
        forall|i: int| 0 <= i < probes@.len() ==> #[trigger] probes@[i] < handle.clusters@.len(),
        q_hat@.len() >= N,
        crypto::in_field(q_hat@),
    ensures
        r@.len() == probes@.len(),
        forall|i: int|
            0 <= i < probes@.len() ==> (#[trigger] r@[i])@ == cluster_products(
                *handle,
                probes@[i] as int,
                q_hat@,
            ),
{
    let n: usize = probes.len();
    let r: Vec<Vec<u64>> = parallel_map(
        n,
        |i: usize| -> (products: Vec<u64>)
            requires
                n > i,
            ensures
                is_probe_product(products@, *handle, probes@, q_hat@, i)
            { products_in_cluster(handle, probes[i], q_hat) },
    );
    assert forall|i: int| 0 <= i < n implies (#[trigger] r@[i])@ == cluster_products(
        *handle,
        probes@[i] as int,
        q_hat@,
    ) by {
        assert(is_probe_product(r@[(i as usize) as int]@, *handle, probes@, q_hat@, i as usize));
    }
    r
}

/// There are block products of each cluster that a query probes.
pub open spec fn are_products_of_probed(
    handle: EmvpIvfHandle,
    probes: Seq<usize>,
    products: Seq<Vec<u64>>,
) -> bool {
    &&& products.len() == probes.len()
    &&& forall|i: int|
        0 <= i < probes.len() ==> (#[trigger] products[i])@.len()
            == S * handle.clusters@[probes[i] as int].m && crypto::in_field(products[i]@)
}

/// The hits that the block products of the first `n` of the clusters that a query probes decode to.
pub open spec fn hits_of_probed(
    handle: EmvpIvfHandle,
    probes: Seq<usize>,
    q_hat: Seq<u64>,
    products: Seq<Vec<u64>>,
    n: int,
) -> Seq<Hit>
    decreases n,
{
    if n <= 0 {
        Seq::empty()
    } else {
        hits_of_probed(handle, probes, q_hat, products, n - 1) + hits_of_products(
            handle,
            probes[n - 1] as int,
            q_hat,
            products[n - 1]@,
        )
    }
}

/// The hits that the block products of the `i`-th cluster that a query probes decode to.
pub open spec fn is_probe_result(
    found: Seq<Hit>,
    handle: EmvpIvfHandle,
    probes: Seq<usize>,
    q_hat: Seq<u64>,
    products: Seq<Vec<u64>>,
    i: usize,
) -> bool {
    found == hits_of_products(
        handle,
        probes[i as int] as int,
        q_hat,
        products[i as int]@,
    )
}

/// Decodes the block products of the clusters that a query probes. The clusters are worked on in
/// parallel, and their hits come one cluster after the other.
pub fn decode_probed(
    handle: &EmvpIvfHandle,
    probes: &[usize],
    q_hat: &[u64],
    products: &[Vec<u64>],
) -> (found: Vec<Hit>)
    requires
        handle.well_formed(),
        forall|i: int| 0 <= i < probes@.len() ==> #[trigger] probes@[i] < handle.clusters@.len(),
        q_hat@.len() >= N,
        crypto::in_field(q_hat@),
        are_products_of_probed(*handle, probes@, products@),
    ensures
        found@ == hits_of_probed(*handle, probes@, q_hat@, products@, probes@.len() as int),
{
    let n: usize = probes.len();
    let per_cluster: Vec<Vec<Hit>> = parallel_map(
        n,
        |i: usize| -> (found: Vec<Hit>)
            requires
                n > i,
            ensures
                is_probe_result(found@, *handle, probes@, q_hat@, products@, i)
            { decode_cluster(handle, probes[i], q_hat, &products[i]) },
    );
    let mut all: Vec<Hit> = Vec::new();
    for i in 0..n
        invariant
            n == probes@.len(),
            per_cluster@.len() == n,
            forall|t: usize|
                t < n ==> is_probe_result(
                    (#[trigger] per_cluster@[t as int])@,
                    *handle,
                    probes@,
                    q_hat@,
                    products@,
                    t,
                ),
            all@ == hits_of_probed(*handle, probes@, q_hat@, products@, i as int),
    {
        assert(is_probe_result(
            per_cluster@[i as int]@,
            *handle,
            probes@,
            q_hat@,
            products@,
            i,
        ));
        all.extend_from_slice(&per_cluster[i]);
        assert(all@ =~= hits_of_probed(*handle, probes@, q_hat@, products@, i + 1));
    }
    all
}

/// What the server computes for a query decodes to the hits of the query.
proof fn lemma_hits_of_probed(
    handle: EmvpIvfHandle,
    probes: Seq<usize>,
    q_hat: Seq<u64>,
    products: Seq<Vec<u64>>,
    n: int,
)
    requires
        0 <= n <= probes.len(),
        forall|i: int|
            0 <= i < probes.len() ==> (#[trigger] products[i])@ == cluster_products(
                handle,
                probes[i] as int,
                q_hat,
            ),
    ensures
        hits_of_probed(handle, probes, q_hat, products, n) == probed_hits(
            handle,
            probes,
            q_hat,
            n,
        ),
    decreases n,
{
    if n > 0 {
        lemma_hits_of_probed(handle, probes, q_hat, products, n - 1);
        assert(products[n - 1]@ == cluster_products(handle, probes[n - 1] as int, q_hat));
    }
}

/// Scores an encoded query in the clusters that it probes, and returns the best `k` hits.
pub fn score_probed(handle: &EmvpIvfHandle, probes: &[usize], q_hat: &[u64], k: usize) -> (r: Vec<
    Hit,
>)
    requires
        handle.well_formed(),
        forall|i: int| 0 <= i < probes@.len() ==> #[trigger] probes@[i] < handle.clusters@.len(),
        q_hat@.len() >= N,
        crypto::in_field(q_hat@),
    ensures
        r@ == hits::best(
            probed_hits(*handle, probes@, q_hat@, probes@.len() as int),
            k as int,
        ),
{
    let products: Vec<Vec<u64>> = products_of_probed(handle, probes, q_hat);
    proof {
        assert forall|i: int| 0 <= i < probes@.len() implies (#[trigger] products@[i])@.len() == S
            * handle.clusters@[probes@[i] as int].m && crypto::in_field(products@[i]@) by {
            lemma_cluster_products(*handle, probes@[i] as int, q_hat@);
        }
        lemma_hits_of_probed(*handle, probes@, q_hat@, products@, probes@.len() as int);
    }
    let found: Vec<Hit> = decode_probed(handle, probes, q_hat, &products);
    rank(&found, k)
}

/// Scores a query under a mask of random numbers and returns the best `k` hits.
///
/// The distances of the query from the centroids are given as the bits of single-precision numbers.
pub fn score_masked(
    handle: &EmvpIvfHandle,
    query: &[i64],
    distances: &[u32],
    draws: &[u64],
    k: usize,
) -> (r: Result<Vec<Hit>, EmvpIvfError>)
    requires
        handle.well_formed(),
        distances@.len() == handle.clusters@.len(),
        draws@.len() == K,
    ensures
        query@.len() != handle.dim ==> r == Err::<Vec<Hit>, EmvpIvfError>(
            EmvpIvfError::DimensionMismatch { query_dim: query.len(), index_dim: handle.dim },
        ),
        query@.len() == handle.dim ==> r is Ok && r->Ok_0@ == masked_result(
            *handle,
            query@,
            ivf::routed(distances@, handle.nprobe as int),
            draws@,
            k as int,
        ),
{
    if query.len() != handle.dim {
        return Err(
            EmvpIvfError::DimensionMismatch { query_dim: query.len(), index_dim: handle.dim },
        );
    }
    let probes: Vec<usize> = probe_route(distances, handle.nprobe);
    let q_hat: Vec<u64> = encode(handle.d_mat, query, draws);
    Ok(score_probed(handle, &probes, &q_hat, k))
}

/// Every cluster is the encryption of its vectors.
pub open spec fn all_encrypt(handle: EmvpIvfHandle, rows: Seq<Seq<Seq<i64>>>) -> bool {
    &&& rows.len() == handle.clusters@.len()
    &&& forall|c: int|
        0 <= c < rows.len() ==> (#[trigger] handle.clusters@[c]).encrypts(handle.d_mat@, rows[c])
}

/// The hits of a query on the vectors of a cluster: their inner products, read off the field.
pub open spec fn clear_cluster_hits(
    membership: Seq<u32>,
    rows: Seq<Seq<i64>>,
    query: Seq<i64>,
) -> Seq<Hit> {
    Seq::new(
        rows.len(),
        |i: int|
            Hit {
                id: membership[i],
                score: field::centred(crypto::inner_product(rows[i], query) % P as int) as i64,
            },
    )
}

/// The hits of a query on the vectors of the first `n` of the clusters that it probes.
pub open spec fn clear_hits(
    handle: EmvpIvfHandle,
    rows: Seq<Seq<Seq<i64>>>,
    probes: Seq<usize>,
    query: Seq<i64>,
    n: int,
) -> Seq<Hit>
    decreases n,
{
    if n <= 0 {
        Seq::empty()
    } else {
        clear_hits(handle, rows, probes, query, n - 1) + clear_cluster_hits(
            handle.membership@[probes[n - 1] as int]@,
            rows[probes[n - 1] as int],
            query,
        )
    }
}

/// Whatever the mask, encrypted clusters score as their vectors do in the clear.
pub proof fn probed_clusters_score_in_the_clear(
    handle: EmvpIvfHandle,
    rows: Seq<Seq<Seq<i64>>>,
    probes: Seq<usize>,
    query: Seq<i64>,
    draws: Seq<u64>,
    n: int,
)
    requires
        handle.well_formed(),
        all_encrypt(handle, rows),
        query.len() <= ELL0,
        draws.len() == K,
        0 <= n <= probes.len(),
        forall|i: int| 0 <= i < probes.len() ==> #[trigger] probes[i] < handle.clusters@.len(),
    ensures
        probed_hits(handle, probes, scorer::encoding(handle.d_mat@, query, draws), n)
            == clear_hits(handle, rows, probes, query, n),
    decreases n,
{
    if n > 0 {
        probed_clusters_score_in_the_clear(handle, rows, probes, query, draws, n - 1);
        let c = probes[n - 1] as int;
        let cluster = handle.clusters@[c];
        let d = handle.d_mat@;
        let q_hat = scorer::encoding(d, query, draws);
        let full = scorer::padded(query);
        let found = cluster_hits(handle, c, q_hat);
        let clear = clear_cluster_hits(handle.membership@[c]@, rows[c], query);
        scorer::lemma_encoding(d, query, draws);
        assert(cluster.encrypts(d, rows[c]));
        assert forall|i: int| 0 <= i < rows[c].len() implies #[trigger] found[i] == clear[i] by {
            crypto::decoding_gives_inner_products(
                d,
                cluster.r_seed@,
                rows[c],
                full,
                scorer::mask_of(draws),
                cluster.m_hat@,
                q_hat,
                i,
            );
            sums::lemma_sum_same(
                ELL0 as int,
                |l: int| crypto::component(rows[c][i], l) * crypto::component(full, l),
                |l: int| crypto::component(rows[c][i], l) * crypto::component(query, l),
            );
        }
        assert(found =~= clear);
    }
}

/// The best `k` hits of a query under one mask or another.
pub open spec fn scored_under_some_mask(
    handle: EmvpIvfHandle,
    query: Seq<i64>,
    probes: Seq<usize>,
    k: int,
    found: Seq<Hit>,
) -> bool {
    exists|draws: Seq<u64>|
        draws.len() == K && found == #[trigger] masked_result(handle, query, probes, draws, k)
}

/// The best `k` hits of a query on the vectors of the clusters that it probes.
pub open spec fn clear_result(
    handle: EmvpIvfHandle,
    rows: Seq<Seq<Seq<i64>>>,
    query: Seq<i64>,
    probes: Seq<usize>,
    k: int,
) -> Seq<Hit> {
    hits::best(clear_hits(handle, rows, probes, query, probes.len() as int), k)
}

/// A masked result is the result in the clear.
proof fn lemma_masked_is_clear(
    handle: EmvpIvfHandle,
    query: Seq<i64>,
    probes: Seq<usize>,
    draws: Seq<u64>,
    k: int,
)
    requires
        handle.well_formed(),
        query.len() <= ELL0,
        draws.len() == K,
        forall|i: int| 0 <= i < probes.len() ==> #[trigger] probes[i] < handle.clusters@.len(),
    ensures
        forall|rows: Seq<Seq<Seq<i64>>>| #[trigger]
            all_encrypt(handle, rows) ==> masked_result(handle, query, probes, draws, k)
                == clear_result(handle, rows, query, probes, k),
{
    assert forall|rows: Seq<Seq<Seq<i64>>>| #[trigger]
        all_encrypt(handle, rows) implies masked_result(handle, query, probes, draws, k)
        == clear_result(handle, rows, query, probes, k) by {
        probed_clusters_score_in_the_clear(
            handle,
            rows,
            probes,
            query,
            draws,
            probes.len() as int,
        );
    }
}

/// Results do not depend on the mask: a query that is scored twice on encrypted clusters, alone or
/// among others, has the same hits.
pub proof fn results_do_not_depend_on_the_mask(
    handle: EmvpIvfHandle,
    rows: Seq<Seq<Seq<i64>>>,
    query: Seq<i64>,
    probes: Seq<usize>,
    k: int,
    found: Seq<Hit>,
    found_again: Seq<Hit>,
)
    requires
        handle.well_formed(),
        all_encrypt(handle, rows),
        query.len() <= ELL0,
        forall|i: int| 0 <= i < probes.len() ==> #[trigger] probes[i] < handle.clusters@.len(),
        scored_under_some_mask(handle, query, probes, k, found),
        scored_under_some_mask(handle, query, probes, k, found_again),
    ensures
        found == found_again,
{
    let one = choose|draws: Seq<u64>|
        draws.len() == K && found == #[trigger] masked_result(handle, query, probes, draws, k);
    let other = choose|draws: Seq<u64>|
        draws.len() == K && found_again == #[trigger] masked_result(
            handle,
            query,
            probes,
            draws,
            k,
        );
    lemma_masked_is_clear(handle, query, probes, one, k);
    lemma_masked_is_clear(handle, query, probes, other, k);
}

/// Scores a query under a fresh mask and returns the best `k` hits, with the sizes of the clusters
/// that were probed.
pub fn score_with_sizes(handle: &EmvpIvfHandle, query: &[i64], distances: &[u32], k: usize) -> (r:
    Result<(Vec<Hit>, Vec<usize>), EmvpIvfError>)
    requires
        handle.well_formed(),
        distances@.len() == handle.clusters@.len(),
    ensures
        query@.len() != handle.dim ==> r == Err::<(Vec<Hit>, Vec<usize>), EmvpIvfError>(
            EmvpIvfError::DimensionMismatch { query_dim: query.len(), index_dim: handle.dim },
        ),
        ({
            let probes = ivf::routed(distances@, handle.nprobe as int);
            query@.len() == handle.dim ==> {
                &&& r is Ok
                &&& scored_under_some_mask(*handle, query@, probes, k as int, r->Ok_0.0@)
                &&& forall|rows: Seq<Seq<Seq<i64>>>| #[trigger]
                    all_encrypt(*handle, rows) ==> r->Ok_0.0@ == clear_result(
                        *handle,
                        rows,
                        query@,
                        probes,
                        k as int,
                    )
                &&& r->Ok_0.1@ == probed_sizes(*handle, probes)
            }
        }),
{
    if query.len() != handle.dim {
        return Err(
            EmvpIvfError::DimensionMismatch { query_dim: query.len(), index_dim: handle.dim },
        );
    }
    let probes: Vec<usize> = probe_route(distances, handle.nprobe);
    let draws: Vec<u64> = draw_u64s(K);
    let q_hat: Vec<u64> = encode(handle.d_mat, query, &draws);
    let found: Vec<Hit> = score_probed(handle, &probes, &q_hat, k);
    proof {
        assert(found@ == masked_result(*handle, query@, probes@, draws@, k as int));
        lemma_masked_is_clear(*handle, query@, probes@, draws@, k as int);
    }
    let sizes: Vec<usize> = sizes_of(handle, &probes);
    Ok((found, sizes))
}

/// Scores a query under a fresh mask and returns the best `k` hits.
pub fn score(handle: &EmvpIvfHandle, query: &[i64], distances: &[u32], k: usize) -> (r: Result<
    Vec<Hit>,
    EmvpIvfError,
>)
    requires
        handle.well_formed(),
        distances@.len() == handle.clusters@.len(),
    ensures
        query@.len() != handle.dim ==> r == Err::<Vec<Hit>, EmvpIvfError>(
            EmvpIvfError::DimensionMismatch { query_dim: query.len(), index_dim: handle.dim },
        ),
        ({
            let probes = ivf::routed(distances@, handle.nprobe as int);
            query@.len() == handle.dim ==> {
                &&& r is Ok
                &&& scored_under_some_mask(*handle, query@, probes, k as int, r->Ok_0@)
                &&& forall|rows: Seq<Seq<Seq<i64>>>| #[trigger]
                    all_encrypt(*handle, rows) ==> r->Ok_0@ == clear_result(
                        *handle,
                        rows,
                        query@,
                        probes,
                        k as int,
                    )
            }
        }),
{
    match score_with_sizes(handle, query, distances, k) {
        Ok((found, sizes)) => Ok(found),
        Err(e) => Err(e),
    }
}

/// The sizes of the clusters that a query probes.
pub open spec fn probed_sizes(handle: EmvpIvfHandle, probes: Seq<usize>) -> Seq<usize> {
    Seq::new(probes.len(), |i: int| handle.clusters@[probes[i] as int].m)
}

/// Collects the sizes of the clusters that a query probes.
pub fn sizes_of(handle: &EmvpIvfHandle, probes: &[usize]) -> (sizes: Vec<usize>)
    requires
        forall|i: int| 0 <= i < probes@.len() ==> #[trigger] probes@[i] < handle.clusters@.len(),
    ensures
        sizes@ == probed_sizes(*handle, probes@),
{
    let mut sizes: Vec<usize> = Vec::with_capacity(probes.len());
    for i in 0..probes.len()
        invariant
            forall|t: int|
                0 <= t < probes@.len() ==> #[trigger] probes@[t] < handle.clusters@.len(),
            sizes@ == probed_sizes(*handle, probes@).take(i as int),
    {
        sizes.push(handle.clusters[probes[i]].m);
        assert(sizes@ =~= probed_sizes(*handle, probes@).take(i + 1));
    }
    assert(sizes@ =~= probed_sizes(*handle, probes@));
    sizes
}

/// What a query costs, as an estimate. The mean response of a cluster and the mean size of a
/// cluster are given, each rounded.
pub open spec fn estimated_cost(
    sizes: Seq<usize>,
    nprobe: usize,
    mean_response: u64,
    mean_size: u64,
) -> CommunicationCost {
    CommunicationCost {
        query_bytes: (N * FIELD_BYTES) as u64,
        response_bytes: (nprobe * mean_response) as u64,
        cluster_response_bytes: mean_response,
        setup_bytes: (scoring::total(sizes, sizes.len() as int) * (N * FIELD_BYTES)) as u64,
        pre_query_offline_up_bytes: 0,
        pre_query_offline_down_bytes: 0,
        effective_bytes_per_query: (nprobe * mean_size * (N * FIELD_BYTES)) as u64,
    }
}

/// Estimates what a query costs: per probed cluster, a response and a ciphertext of mean size; and
/// all ciphertexts once.
pub fn communication_cost(sizes: &[usize], nprobe: usize, mean_response: u64, mean_size: u64) -> (cost:
    CommunicationCost)
    requires
        nprobe * mean_response <= u64::MAX,
        scoring::total(sizes@, sizes@.len() as int) * (N * FIELD_BYTES) <= u64::MAX,
        nprobe * mean_size * (N * FIELD_BYTES) <= u64::MAX,
    ensures
        cost == estimated_cost(sizes@, nprobe, mean_response, mean_size),
{
    proof {
        let members = scoring::total(sizes@, sizes@.len() as int);
        assert(0 <= nprobe * mean_size) by (nonlinear_arith)
            requires
                0 <= nprobe,
                0 <= mean_size,
        ;
        assert(members * (N * FIELD_BYTES) == members * 10336);
        assert(nprobe * mean_size * (N * FIELD_BYTES) == nprobe * mean_size * 10336);
        scoring::lemma_totals(sizes@, 0, 0, sizes@.len() as int);
    }
    let members: u64 = sum_sizes(sizes);
    CommunicationCost {
        query_bytes: (N * FIELD_BYTES) as u64,
        response_bytes: nprobe as u64 * mean_response,
        cluster_response_bytes: mean_response,
        setup_bytes: members * (N * FIELD_BYTES) as u64,
        pre_query_offline_up_bytes: 0,
        pre_query_offline_down_bytes: 0,
        effective_bytes_per_query: nprobe as u64 * mean_size * (N * FIELD_BYTES) as u64,
    }
}

/// What a query cost that probed clusters of the given sizes.
pub open spec fn realised_cost(estimate: CommunicationCost, probed: Seq<usize>) -> CommunicationCost {
    let members = scoring::total(probed, probed.len() as int);
    CommunicationCost {
        response_bytes: (members * (S * FIELD_BYTES)) as u64,
        cluster_response_bytes: if probed.len() == 0 {
            0
        } else {
            ((members * (S * FIELD_BYTES)) / probed.len() as int) as u64
        },
        effective_bytes_per_query: (members * (N * FIELD_BYTES)) as u64,
        ..estimate
    }
}

/// Replaces the estimated response and work by those of the clusters that were probed.
pub fn realise_cost(estimate: CommunicationCost, probed: &[usize]) -> (cost: CommunicationCost)
    requires
        scoring::total(probed@, probed@.len() as int) * (N * FIELD_BYTES) <= u64::MAX,
    ensures
        cost == realised_cost(estimate, probed@),
{
    proof {
        let members = scoring::total(probed@, probed@.len() as int);
        assert(members * (N * FIELD_BYTES) == members * 10336);
        assert(members * (S * FIELD_BYTES) == members * 608);
        scoring::lemma_totals(probed@, 0, 0, probed@.len() as int);
    }
    let members: u64 = sum_sizes(probed);
    let response: u64 = members * (S * FIELD_BYTES) as u64;
    CommunicationCost {
        query_bytes: estimate.query_bytes,
        response_bytes: response,
        cluster_response_bytes: if probed.len() == 0 {
            0
        } else {
            response / probed.len() as u64
        },
        setup_bytes: estimate.setup_bytes,
        pre_query_offline_up_bytes: estimate.pre_query_offline_up_bytes,
        pre_query_offline_down_bytes: estimate.pre_query_offline_down_bytes,
        effective_bytes_per_query: members * (N * FIELD_BYTES) as u64,
    }
}

/// Where a cluster is probed: by which query, and as which of its clusters.
pub open spec fn is_place(probe_sets: Seq<Vec<usize>>, place: (usize, usize), c: int) -> bool {
    &&& place.0 < probe_sets.len()
    &&& place.1 < probe_sets[place.0 as int]@.len()
    &&& probe_sets[place.0 as int]@[place.1 as int] == c
}

/// Lists for each cluster hold the places where it is probed, before position `pos` of query `q`.
pub open spec fn places_until(
    probe_sets: Seq<Vec<usize>>,
    lists: Seq<Vec<(usize, usize)>>,
    q: int,
    pos: int,
) -> bool {
    &&& forall|c: int, i: int|
        0 <= c < lists.len() && 0 <= i < lists[c]@.len() ==> is_place(
            probe_sets,
            #[trigger] lists[c]@[i],
            c,
        )
    &&& forall|a: usize, b: usize|
        a < probe_sets.len() && (a < q || (a == q && b < pos)) && b
            < probe_sets[a as int]@.len() ==> (
        #[trigger] lists[probe_sets[a as int]@[b as int] as int]@.contains((a, b)))
    &&& forall|c: int|
        0 <= c < lists.len() ==> (#[trigger] lists[c])@.len() <= q + (if q < probe_sets.len()
            && probe_sets[q]@.take(pos).contains(c as usize) {
            1int
        } else {
            0
        })
}

/// Lists for each cluster the places where it is probed.
fn invert_probes(probe_sets: &[Vec<usize>], n_clusters: usize) -> (lists: Vec<Vec<(usize, usize)>>)
    requires
        forall|q: int, i: int|
            0 <= q < probe_sets@.len() && 0 <= i < probe_sets@[q]@.len()
                ==> #[trigger] probe_sets@[q]@[i] < n_clusters,
        forall|q: int| 0 <= q < probe_sets@.len() ==> (#[trigger] probe_sets@[q])@.no_duplicates(),
    ensures
        lists@.len() == n_clusters,
        places_until(probe_sets@, lists@, probe_sets@.len() as int, 0),
{
    let mut lists: Vec<Vec<(usize, usize)>> = Vec::with_capacity(n_clusters);
    for c in 0..n_clusters
        invariant
            lists@.len() == c,
            forall|t: int| 0 <= t < c ==> (#[trigger] lists@[t])@.len() == 0,
    {
        lists.push(Vec::new());
    }
    for q in 0..probe_sets.len()
        invariant
            lists@.len() == n_clusters,
            forall|a: int, i: int|
                0 <= a < probe_sets@.len() && 0 <= i < probe_sets@[a]@.len()
                    ==> #[trigger] probe_sets@[a]@[i] < n_clusters,
            forall|a: int|
                0 <= a < probe_sets@.len() ==> (#[trigger] probe_sets@[a])@.no_duplicates(),
            places_until(probe_sets@, lists@, q as int, 0),
    {
        let probes: &Vec<usize> = &probe_sets[q];
        for pos in 0..probes.len()
            invariant
                q < probe_sets@.len(),
                *probes == probe_sets@[q as int],
                probes@.no_duplicates(),
                lists@.len() == n_clusters,
                forall|a: int, i: int|
                    0 <= a < probe_sets@.len() && 0 <= i < probe_sets@[a]@.len()
                        ==> #[trigger] probe_sets@[a]@[i] < n_clusters,
                places_until(probe_sets@, lists@, q as int, pos as int),
        {
            let c: usize = probes[pos];
            assert(probe_sets@[q as int]@[pos as int] < n_clusters);
            let ghost before = lists@;
            lists[c].push((q, pos));
            proof {
                assert(lists@ =~= before.update(c as int, lists@[c as int]));
                assert(lists@[c as int]@ == before[c as int]@.push((q, pos)));
                assert forall|x: int, i: int| 0 <= x < lists@.len() && 0 <= i
                    < lists@[x]@.len() implies is_place(
                    probe_sets@,
                    #[trigger] lists@[x]@[i],
                    x,
                ) by {
                    if x == c && i == before[x]@.len() {
                        assert(lists@[x]@[i] == (q, pos));
                    } else {
                        assert(lists@[x]@[i] == before[x]@[i]);
                    }
                }
                assert forall|a: usize, b: usize|
                    a < probe_sets@.len() && (a < q || (a == q && b < pos + 1)) && b
                        < probe_sets@[a as int]@.len() implies (
                #[trigger] lists@[probe_sets@[a as int]@[b as int] as int]@.contains((a, b))) by {
                    let x = probe_sets@[a as int]@[b as int] as int;
                    assert(x < n_clusters);
                    if a == q && b == pos {
                        assert(lists@[x]@[before[x]@.len() as int] == (a, b));
                    } else {
                        assert(before[x]@.contains((a, b)));
                        let i = choose|i: int|
                            0 <= i < before[x]@.len() && before[x]@[i] == (a, b);
                        assert(lists@[x]@[i] == (a, b));
                    }
                }
                let done = probes@.take(pos as int);
                let next = probes@.take(pos + 1);
                assert(next =~= done.push(c));
                assert forall|x: int| 0 <= x < lists@.len() implies (#[trigger] lists@[x])@.len()
                    <= q + (if next.contains(x as usize) {
                    1int
                } else {
                    0
                }) by {
                    if x == c {
                        assert(next[pos as int] == c);
                        assert(!done.contains(c)) by {
                            if done.contains(c) {
                                let i = choose|i: int| 0 <= i < done.len() && done[i] == c;
                                assert(probes@[i] == probes@[pos as int]);
                            }
                        }
                        assert(before[x]@.len() <= q);
                    } else {
                        assert(lists@[x] == before[x]);
                        if done.contains(x as usize) {
                            let i = choose|i: int| 0 <= i < done.len() && done[i] == x as usize;
                            assert(next[i] == x as usize);
                        }
                    }
                }
            }
        }
        proof {
            assert forall|x: int| 0 <= x < lists@.len() implies (#[trigger] lists@[x])@.len() <= q
                + 1 + (if q + 1 < probe_sets@.len() && probe_sets@[q + 1]@.take(0).contains(
                x as usize,
            ) {
                1int
            } else {
                0
            }) by {}
            assert(places_until(probe_sets@, lists@, q + 1, 0));
        }
    }
    lists
}

/// Scores in one cluster the queries that probe it. The ciphertext is read once.
fn batch_cluster(
    handle: &EmvpIvfHandle,
    c: usize,
    places: &[(usize, usize)],
    q_hats: &[Vec<u64>],
) -> (found: Vec<Vec<Hit>>)
    requires
        handle.well_formed(),
        c < handle.clusters@.len(),
        handle.clusters@[c as int].m * places@.len() <= usize::MAX,
        forall|i: int| 0 <= i < places@.len() ==> (#[trigger] places@[i]).0 < q_hats@.len(),
        forall|q: int|
            0 <= q < q_hats@.len() ==> (#[trigger] q_hats@[q])@.len() == N && crypto::in_field(
                q_hats@[q]@,
            ),
    ensures
        is_batch_result(found@, *handle, c as int, places@, q_hats@),
{
    let cluster: &EncryptedCluster = &handle.clusters[c];
    let m: usize = cluster.m;
    let mut refs: Vec<&[u64]> = Vec::with_capacity(places.len());
    for i in 0..places.len()
        invariant
            forall|t: int| 0 <= t < places@.len() ==> (#[trigger] places@[t]).0 < q_hats@.len(),
            refs@.len() == i,
            forall|t: int|
                0 <= t < i ==> (#[trigger] refs@[t])@ == q_hats@[places@[t].0 as int]@,
    {
        let q: usize = places[i].0;
        refs.push(q_hats[q].as_slice());
    }
    proof {
        scorer::lemma_products_fit(m as int);
        assert forall|t: int| 0 <= t < refs@.len() implies (#[trigger] refs@[t])@.len() >= N
            && crypto::in_field(refs@[t]@) by {
            assert(places@[t].0 < q_hats@.len());
            assert(refs@[t]@ == q_hats@[places@[t].0 as int]@);
        }
        assert(handle.membership@[c as int]@.len() == m);
    }
    let partials: Vec<Vec<u64>> = compute_products_batch(cluster.m_hat, m, &refs);
    let mut found: Vec<Vec<Hit>> = Vec::with_capacity(places.len());
    for i in 0..places.len()
        invariant
            handle.well_formed(),
            c < handle.clusters@.len(),
            *cluster == handle.clusters@[c as int],
            m == cluster.m,
            handle.membership@[c as int]@.len() == m,
            0 <= S * m,
            forall|t: int| 0 <= t < places@.len() ==> (#[trigger] places@[t]).0 < q_hats@.len(),
            forall|q: int|
                0 <= q < q_hats@.len() ==> (#[trigger] q_hats@[q])@.len() == N
                    && crypto::in_field(q_hats@[q]@),
            refs@.len() == places@.len(),
            forall|t: int|
                0 <= t < places@.len() ==> (#[trigger] refs@[t])@ == q_hats@[places@[t].0 as int]@,
            partials@.len() == places@.len(),
            forall|t: int|
                0 <= t < places@.len() ==> (#[trigger] partials@[t])@ == crypto::block_products(
                    cluster.m_hat@,
                    m as int,
                    refs@[t]@,
                ),
            found@.len() == i,
            forall|t: int|
                0 <= t < i ==> (#[trigger] found@[t])@ == cluster_hits(
                    *handle,
                    c as int,
                    q_hats@[places@[t].0 as int]@,
                ),
    {
        let q: usize = places[i].0;
        proof {
            assert(partials@[i as int]@ == crypto::block_products(
                cluster.m_hat@,
                m as int,
                q_hats@[q as int]@,
            ));
            lemma_cluster_products(*handle, c as int, q_hats@[q as int]@);
        }
        found.push(decode_cluster(handle, c, &q_hats[q], &partials[i]));
    }
    found
}

/// The hits in a cluster of the queries that probe it, place by place.
pub open spec fn is_batch_result(
    found: Seq<Vec<Hit>>,
    handle: EmvpIvfHandle,
    c: int,
    places: Seq<(usize, usize)>,
    q_hats: Seq<Vec<u64>>,
) -> bool {
    &&& found.len() == places.len()
    &&& forall|i: int|
        0 <= i < places.len() ==> (#[trigger] found[i])@ == cluster_hits(
            handle,
            c,
            q_hats[places[i].0 as int]@,
        )
}

/// Bins hold, for clusters before `c` and the first `i` places of `c`, the hits of the query in
/// the cluster that it probes there.
pub open spec fn bins_until(
    bins: Seq<Vec<Vec<Hit>>>,
    handle: EmvpIvfHandle,
    probe_sets: Seq<Vec<usize>>,
    q_hats: Seq<Vec<u64>>,
    lists: Seq<Vec<(usize, usize)>>,
    c: int,
    i: int,
) -> bool {
    &&& bins.len() == probe_sets.len()
    &&& forall|q: int|
        0 <= q < bins.len() ==> (#[trigger] bins[q])@.len() == probe_sets[q]@.len()
    &&& forall|x: int, j: int|
        0 <= x < lists.len() && 0 <= j < lists[x]@.len() && (x < c || (x == c && j < i)) ==> {
            let place = #[trigger] lists[x]@[j];
            bins[place.0 as int]@[place.1 as int]@ == cluster_hits(
                handle,
                x,
                q_hats[place.0 as int]@,
            )
        }
}

/// Empty bins, one per probed cluster of each query.
fn empty_bins(probe_sets: &[Vec<usize>]) -> (bins: Vec<Vec<Vec<Hit>>>)
    ensures
        bins@.len() == probe_sets@.len(),
        forall|q: int|
            0 <= q < bins@.len() ==> (#[trigger] bins@[q])@.len() == probe_sets@[q]@.len(),
{
    let mut bins: Vec<Vec<Vec<Hit>>> = Vec::with_capacity(probe_sets.len());
    for q in 0..probe_sets.len()
        invariant
            bins@.len() == q,
            forall|t: int| 0 <= t < q ==> (#[trigger] bins@[t])@.len() == probe_sets@[t]@.len(),
    {
        let width: usize = probe_sets[q].len();
        let mut row: Vec<Vec<Hit>> = Vec::with_capacity(width);
        for pos in 0..width
            invariant
                row@.len() == pos,
        {
            row.push(Vec::new());
        }
        bins.push(row);
    }
    bins
}

/// Sorts what the clusters found into bins by query and position.
fn scatter(
    handle: &EmvpIvfHandle,
    probe_sets: &[Vec<usize>],
    q_hats: &[Vec<u64>],
    lists: &[Vec<(usize, usize)>],
    found: &[Vec<Vec<Hit>>],
) -> (bins: Vec<Vec<Vec<Hit>>>)
    requires
        lists@.len() == found@.len(),
        places_until(probe_sets@, lists@, probe_sets@.len() as int, 0),
        forall|c: int|
            0 <= c < lists@.len() ==> is_batch_result(
                (#[trigger] found@[c])@,
                *handle,
                c,
                lists@[c]@,
                q_hats@,
            ),
    ensures
        bins_until(bins@, *handle, probe_sets@, q_hats@, lists@, lists@.len() as int, 0),
{
    let mut bins: Vec<Vec<Vec<Hit>>> = empty_bins(probe_sets);
    for c in 0..lists.len()
        invariant
            lists@.len() == found@.len(),
            places_until(probe_sets@, lists@, probe_sets@.len() as int, 0),
            forall|x: int|
                0 <= x < lists@.len() ==> is_batch_result(
                    (#[trigger] found@[x])@,
                    *handle,
                    x,
                    lists@[x]@,
                    q_hats@,
                ),
            bins_until(bins@, *handle, probe_sets@, q_hats@, lists@, c as int, 0),
    {
        assert(is_batch_result(found@[c as int]@, *handle, c as int, lists@[c as int]@, q_hats@));
        let count: usize = lists[c].len();
        for i in 0..count
            invariant
                c < lists@.len(),
                count == lists@[c as int]@.len(),
                lists@.len() == found@.len(),
                places_until(probe_sets@, lists@, probe_sets@.len() as int, 0),
                is_batch_result(
                    found@[c as int]@,
                    *handle,
                    c as int,
                    lists@[c as int]@,
                    q_hats@,
                ),
                bins_until(bins@, *handle, probe_sets@, q_hats@, lists@, c as int, i as int),
        {
            let (q, pos): (usize, usize) = lists[c][i];
            let ghost before = bins@;
            let mut pairs: Vec<Hit> = Vec::with_capacity(found[c][i].len());
            pairs.extend_from_slice(&found[c][i]);
            assert(pairs@ =~= found@[c as int]@[i as int]@);
            assert(is_place(probe_sets@, lists@[c as int]@[i as int], c as int));
            bins[q][pos] = pairs;
            proof {
                assert(bins@[q as int]@ == before[q as int]@.update(pos as int, pairs));
                assert forall|t: int| 0 <= t < bins@.len() implies (#[trigger] bins@[t])@.len()
                    == probe_sets@[t]@.len() by {
                    if t != q {
                        assert(bins@[t] == before[t]);
                    }
                }
                assert forall|x: int, j: int|
                    0 <= x < lists@.len() && 0 <= j < lists@[x]@.len() && (x < c || (x == c && j < i
                        + 1)) implies {
                    let place = #[trigger] lists@[x]@[j];
                    bins@[place.0 as int]@[place.1 as int]@ == cluster_hits(
                        *handle,
                        x,
                        q_hats@[place.0 as int]@,
                    )
                } by {
                    let place = lists@[x]@[j];
                    assert(is_place(probe_sets@, place, x));
                    if place.0 == q && place.1 == pos {
                        assert(x == c);
                    } else if x == c && j == i {
                        assert(place == (q, pos));
                    } else {
                        assert(bins@[place.0 as int]@[place.1 as int]
                            == before[place.0 as int]@[place.1 as int]);
                    }
                }
            }
        }
    }
    bins
}

/// Scores several encoded queries, each in the clusters that it probes. The ciphertext of a cluster
/// is read once for all queries that probe it.
pub fn score_batch_probed(
    handle: &EmvpIvfHandle,
    probe_sets: &[Vec<usize>],
    q_hats: &[Vec<u64>],
    k: usize,
) -> (r: Vec<Vec<Hit>>)
    requires
        handle.well_formed(),
        probe_sets@.len() == q_hats@.len(),
        forall|q: int, i: int|
            0 <= q < probe_sets@.len() && 0 <= i < probe_sets@[q]@.len()
                ==> #[trigger] probe_sets@[q]@[i] < handle.clusters@.len(),
        forall|q: int| 0 <= q < probe_sets@.len() ==> (#[trigger] probe_sets@[q])@.no_duplicates(),
        forall|q: int|
            0 <= q < q_hats@.len() ==> (#[trigger] q_hats@[q])@.len() == N && crypto::in_field(
                q_hats@[q]@,
            ),
        forall|c: int|
            0 <= c < handle.clusters@.len() ==> (#[trigger] handle.clusters@[c]).m * q_hats@.len()
                <= usize::MAX,
    ensures
        r@.len() == probe_sets@.len(),
        forall|q: int|
            0 <= q < r@.len() ==> (#[trigger] r@[q])@ == hits::best(
                probed_hits(
                    *handle,
                    probe_sets@[q]@,
                    q_hats@[q]@,
                    probe_sets@[q]@.len() as int,
                ),
                k as int,
            ),
{
    let n: usize = handle.clusters.len();
    let lists: Vec<Vec<(usize, usize)>> = invert_probes(probe_sets, n);
    let places: &[Vec<(usize, usize)>] = lists.as_slice();
    assert forall|c: int| 0 <= c < n implies handle.clusters@[c].m * (#[trigger] lists@[c])@.len()
        <= usize::MAX by {
        assert(lists@[c]@.len() <= q_hats@.len());
        assert(handle.clusters@[c].m * lists@[c]@.len() <= handle.clusters@[c].m * q_hats@.len())
            by (nonlinear_arith)
            requires
                lists@[c]@.len() <= q_hats@.len(),
                0 <= handle.clusters@[c].m,
        ;
    }
    let found: Vec<Vec<Vec<Hit>>> = parallel_map(
        n,
        |c: usize| -> (part: Vec<Vec<Hit>>)
            requires
                n > c,
            ensures
                is_numbered_batch_result(part@, *handle, c, places@, q_hats@)
            {
                assert forall|i: int| 0 <= i < places@[c as int]@.len() implies (
                #[trigger] places@[c as int]@[i]).0 < q_hats@.len() by {
                    assert(is_place(probe_sets@, places@[c as int]@[i], c as int));
                }
                batch_cluster(handle, c, &places[c], q_hats)
            },
    );
    assert forall|c: int| 0 <= c < n implies is_batch_result(
        (#[trigger] found@[c])@,
        *handle,
        c,
        lists@[c]@,
        q_hats@,
    ) by {
        assert(found@[c] == found@[(c as usize) as int]);
        assert(is_numbered_batch_result(found@[c]@, *handle, c as usize, places@, q_hats@));
    }
    let bins: Vec<Vec<Vec<Hit>>> = scatter(handle, probe_sets, q_hats, &lists, &found);
    let mut r: Vec<Vec<Hit>> = Vec::with_capacity(probe_sets.len());
    for q in 0..probe_sets.len()
        invariant
            handle.well_formed(),
            lists@.len() == handle.clusters@.len(),
            forall|a: int, i: int|
                0 <= a < probe_sets@.len() && 0 <= i < probe_sets@[a]@.len()
                    ==> #[trigger] probe_sets@[a]@[i] < handle.clusters@.len(),
            places_until(probe_sets@, lists@, probe_sets@.len() as int, 0),
            bins_until(bins@, *handle, probe_sets@, q_hats@, lists@, lists@.len() as int, 0),
            r@.len() == q,
            forall|t: int|
                0 <= t < q ==> (#[trigger] r@[t])@ == hits::best(
                    probed_hits(
                        *handle,
                        probe_sets@[t]@,
                        q_hats@[t]@,
                        probe_sets@[t]@.len() as int,
                    ),
                    k as int,
                ),
    {
        let mut all: Vec<Hit> = Vec::new();
        let width: usize = bins[q].len();
        for pos in 0..width
            invariant
                q < probe_sets@.len(),
                width == bins@[q as int]@.len(),
                lists@.len() == handle.clusters@.len(),
                forall|a: int, i: int|
                    0 <= a < probe_sets@.len() && 0 <= i < probe_sets@[a]@.len()
                        ==> #[trigger] probe_sets@[a]@[i] < handle.clusters@.len(),
                places_until(probe_sets@, lists@, probe_sets@.len() as int, 0),
                bins_until(bins@, *handle, probe_sets@, q_hats@, lists@, lists@.len() as int, 0),
                all@ == probed_hits(*handle, probe_sets@[q as int]@, q_hats@[q as int]@, pos as int),
        {
            proof {
                assert(bins@[q as int]@.len() == probe_sets@[q as int]@.len());
                let c = probe_sets@[q as int]@[pos as int] as int;
                assert(lists@[probe_sets@[q as int]@[pos as int] as int]@.contains((q, pos)));
                let j = choose|j: int| 0 <= j < lists@[c]@.len() && lists@[c]@[j] == (q, pos);
                assert(lists@[c]@[j] == (q, pos));
            }
            all.extend_from_slice(&bins[q][pos]);
            assert(all@ =~= probed_hits(
                *handle,
                probe_sets@[q as int]@,
                q_hats@[q as int]@,
                pos + 1,
            ));
        }
        r.push(rank(&all, k));
    }
    r
}

/// The hits in cluster `c` of the queries that probe it, where all places are listed.
pub open spec fn is_numbered_batch_result(
    found: Seq<Vec<Hit>>,
    handle: EmvpIvfHandle,
    c: usize,
    lists: Seq<Vec<(usize, usize)>>,
    q_hats: Seq<Vec<u64>>,
) -> bool {
    is_batch_result(found, handle, c as int, lists[c as int]@, q_hats)
}

/// The first of `n` queries that has another number of components than the vectors, or `n`.
pub open spec fn first_mismatched(queries: Seq<Vec<i64>>, dim: usize, n: int) -> int
    decreases n,
{
    if n <= 0 {
        0
    } else if first_mismatched(queries, dim, n - 1) < n - 1 {
        first_mismatched(queries, dim, n - 1)
    } else if queries[n - 1]@.len() != dim {
        n - 1
    } else {
        n
    }
}

/// What the first query of another dimension is.
proof fn lemma_first_mismatched(queries: Seq<Vec<i64>>, dim: usize, n: int)
    requires
        0 <= n <= queries.len(),
    ensures
        0 <= first_mismatched(queries, dim, n) <= n,
        forall|t: int|
            0 <= t < first_mismatched(queries, dim, n) ==> (#[trigger] queries[t])@.len() == dim,
        first_mismatched(queries, dim, n) < n ==> queries[first_mismatched(queries, dim, n)]@.len()
            != dim,
    decreases n,
{
    if n > 0 {
        lemma_first_mismatched(queries, dim, n - 1);
    }
}

/// The first query of another dimension is known by its place.
proof fn lemma_first_mismatched_is(queries: Seq<Vec<i64>>, dim: usize, n: int, at: int)
    requires
        0 <= at <= n <= queries.len(),
        forall|t: int| 0 <= t < at ==> (#[trigger] queries[t])@.len() == dim,
        at < n ==> queries[at]@.len() != dim,
    ensures
        first_mismatched(queries, dim, n) == at,
{
    lemma_first_mismatched(queries, dim, n);
}

/// Scores several queries, each under its own mask of random numbers.
///
/// The distances of each query from the centroids are given as the bits of single-precision
/// numbers.
pub fn score_batch_masked(
    handle: &EmvpIvfHandle,
    queries: &[Vec<i64>],
    distances: &[Vec<u32>],
    draws: &[Vec<u64>],
    k: usize,
) -> (r: Result<Vec<Vec<Hit>>, EmvpIvfError>)
    requires
        handle.well_formed(),
        distances@.len() == queries@.len(),
        forall|q: int|
            0 <= q < distances@.len() ==> (#[trigger] distances@[q])@.len()
                == handle.clusters@.len(),
        draws@.len() == queries@.len(),
        forall|q: int| 0 <= q < draws@.len() ==> (#[trigger] draws@[q])@.len() == K,
        forall|c: int|
            0 <= c < handle.clusters@.len() ==> (#[trigger] handle.clusters@[c]).m * queries@.len()
                <= usize::MAX,
    ensures
        ({
            let bad = first_mismatched(queries@, handle.dim, queries@.len() as int);
            &&& bad < queries@.len() ==> r == Err::<Vec<Vec<Hit>>, EmvpIvfError>(
                EmvpIvfError::DimensionMismatch {
                    query_dim: queries@[bad].len(),
                    index_dim: handle.dim,
                },
            )
            &&& bad >= queries@.len() ==> r is Ok && r->Ok_0@.len() == queries@.len()
                && forall|q: int|
                0 <= q < queries@.len() ==> (#[trigger] r->Ok_0@[q])@ == masked_result(
                    *handle,
                    queries@[q]@,
                    ivf::routed(distances@[q]@, handle.nprobe as int),
                    draws@[q]@,
                    k as int,
                )
        }),
{
    for q in 0..queries.len()
        invariant
            forall|t: int| 0 <= t < q ==> (#[trigger] queries@[t])@.len() == handle.dim,
    {
        if queries[q].len() != handle.dim {
            proof {
                lemma_first_mismatched_is(
                    queries@,
                    handle.dim,
                    queries@.len() as int,
                    q as int,
                );
            }
            return Err(
                EmvpIvfError::DimensionMismatch {
                    query_dim: queries[q].len(),
                    index_dim: handle.dim,
                },
            );
        }
    }
    proof {
        lemma_first_mismatched_is(
            queries@,
            handle.dim,
            queries@.len() as int,
            queries@.len() as int,
        );
    }
    let mut probe_sets: Vec<Vec<usize>> = Vec::with_capacity(queries.len());
    let mut q_hats: Vec<Vec<u64>> = Vec::with_capacity(queries.len());
    for q in 0..queries.len()
        invariant
            handle.well_formed(),
            forall|t: int| 0 <= t < queries@.len() ==> (#[trigger] queries@[t])@.len() == handle.dim,
            distances@.len() == queries@.len(),
            forall|t: int|
                0 <= t < distances@.len() ==> (#[trigger] distances@[t])@.len()
                    == handle.clusters@.len(),
            draws@.len() == queries@.len(),
            forall|t: int| 0 <= t < draws@.len() ==> (#[trigger] draws@[t])@.len() == K,
            probe_sets@.len() == q,
            q_hats@.len() == q,
            forall|t: int|
                0 <= t < q ==> (#[trigger] probe_sets@[t])@ == ivf::routed(
                    distances@[t]@,
                    handle.nprobe as int,
                ) && probe_sets@[t]@.no_duplicates(),
            forall|a: int, i: int|
                0 <= a < q && 0 <= i < probe_sets@[a]@.len() ==> #[trigger] probe_sets@[a]@[i]
                    < handle.clusters@.len(),
            forall|t: int|
                0 <= t < q ==> (#[trigger] q_hats@[t])@ == scorer::encoding(
                    handle.d_mat@,
                    queries@[t]@,
                    draws@[t]@,
                ) && crypto::in_field(q_hats@[t]@),
    {
        probe_sets.push(probe_route(&distances[q], handle.nprobe));
        q_hats.push(encode(handle.d_mat, &queries[q], &draws[q]));
    }
    Ok(score_batch_probed(handle, &probe_sets, &q_hats, k))
}

/// Scores several queries, each under a fresh mask.
pub fn score_batch(
    handle: &EmvpIvfHandle,
    queries: &[Vec<i64>],
    distances: &[Vec<u32>],
    k: usize,
) -> (r: Result<Vec<Vec<Hit>>, EmvpIvfError>)
    requires
        handle.well_formed(),
        distances@.len() == queries@.len(),
        forall|q: int|
            0 <= q < distances@.len() ==> (#[trigger] distances@[q])@.len()
                == handle.clusters@.len(),
        forall|c: int|
            0 <= c < handle.clusters@.len() ==> (#[trigger] handle.clusters@[c]).m * queries@.len()
                <= usize::MAX,
    ensures
        ({
            let bad = first_mismatched(queries@, handle.dim, queries@.len() as int);
            &&& bad < queries@.len() ==> r == Err::<Vec<Vec<Hit>>, EmvpIvfError>(
                EmvpIvfError::DimensionMismatch {
                    query_dim: queries@[bad].len(),
                    index_dim: handle.dim,
                },
            )
            &&& bad >= queries@.len() ==> r is Ok && r->Ok_0@.len() == queries@.len()
            &&& bad >= queries@.len() ==> forall|q: int|
                0 <= q < queries@.len() ==> scored_under_some_mask(
                    *handle,
                    queries@[q]@,
                    ivf::routed(distances@[q]@, handle.nprobe as int),
                    k as int,
                    (#[trigger] r->Ok_0@[q])@,
                )
            &&& bad >= queries@.len() ==> forall|q: int, rows: Seq<Seq<Seq<i64>>>|
                0 <= q < queries@.len() && #[trigger] all_encrypt(*handle, rows) ==> (
                #[trigger] r->Ok_0@[q])@ == clear_result(
                    *handle,
                    rows,
                    queries@[q]@,
                    ivf::routed(distances@[q]@, handle.nprobe as int),
                    k as int,
                )
        }),
{
    let mut draws: Vec<Vec<u64>> = Vec::with_capacity(queries.len());
    for q in 0..queries.len()
        invariant
            draws@.len() == q,
            forall|t: int| 0 <= t < q ==> (#[trigger] draws@[t])@.len() == K,
    {
        draws.push(draw_u64s(K));
    }
    let r: Result<Vec<Vec<Hit>>, EmvpIvfError> = score_batch_masked(
        handle,
        queries,
        distances,
        &draws,
        k,
    );
    proof {
        let n = queries@.len() as int;
        lemma_first_mismatched(queries@, handle.dim, n);
        if first_mismatched(queries@, handle.dim, n) >= n {
            assert forall|q: int| 0 <= q < n implies scored_under_some_mask(
                *handle,
                queries@[q]@,
                ivf::routed(distances@[q]@, handle.nprobe as int),
                k as int,
                (#[trigger] r->Ok_0@[q])@,
            ) by {
                let used = draws@[q]@;
                assert(r->Ok_0@[q]@ == masked_result(
                    *handle,
                    queries@[q]@,
                    ivf::routed(distances@[q]@, handle.nprobe as int),
                    used,
                    k as int,
                ));
            }
            assert forall|q: int, rows: Seq<Seq<Seq<i64>>>|
                0 <= q < n && #[trigger] all_encrypt(*handle, rows) implies (
            #[trigger] r->Ok_0@[q])@ == clear_result(
                *handle,
                rows,
                queries@[q]@,
                ivf::routed(distances@[q]@, handle.nprobe as int),
                k as int,
            ) by {
                let probes = ivf::routed(distances@[q]@, handle.nprobe as int);
                assert(distances@[q].len() == distances@[q]@.len());
                ivf::lemma_routed(distances@[q]@, handle.nprobe as int);
                lemma_masked_is_clear(*handle, queries@[q]@, probes, draws@[q]@, k as int);
            }
        }
    }
    r
}

/// Where all clusters are of one size, the estimate is what a query costs.
pub proof fn estimates_hold_on_equal_clusters(
    sizes: Seq<usize>,
    probed: Seq<usize>,
    size: usize,
)
    requires
        0 < probed.len() <= usize::MAX,
        forall|i: int| 0 <= i < probed.len() ==> #[trigger] probed[i] == size,
        size * (S * FIELD_BYTES) <= u64::MAX,
    ensures
        ({
            let estimate = estimated_cost(
                sizes,
                probed.len() as usize,
                (size * (S * FIELD_BYTES)) as u64,
                size as u64,
            );
            realised_cost(estimate, probed) == estimate
        }),
{
    let p = probed.len() as int;
    let b = S * FIELD_BYTES;
    scoring::lemma_equal_sizes(probed, size, 0, p);
    assert(p * size * b == p * (size * b)) by (nonlinear_arith);
    assert((p * (size * b)) / p == size * b) by (nonlinear_arith)
        requires
            0 < p,
    ;
}

/// Uploads clusters and keeps their states, which the caller obtains.
pub struct EmvpIvfScorer<T> {
    cache: KeyedCache<Arc<T>>,
}

/// A built state is refused, as it has a cluster without vectors.
pub open spec fn is_refused<T>(obtained: Obtained<T>, sizes: Seq<usize>) -> bool {
    obtained is Built && exists|c: int| 0 <= c < sizes.len() && #[trigger] sizes[c] == 0
}

/// The state that is kept under a fingerprint.
pub open spec fn recalled<T>(kept: Map<Seq<u8>, Arc<T>>, fingerprint: Seq<u8>) -> Option<Arc<T>> {
    if kept.contains_key(fingerprint) {
        Some(kept[fingerprint])
    } else {
        None
    }
}

/// What is kept after an upload.
pub open spec fn kept_after<T>(
    kept: Map<Seq<u8>, Arc<T>>,
    fingerprint: Seq<u8>,
    obtained: Obtained<T>,
) -> Map<Seq<u8>, Arc<T>> {
    match obtained {
        Obtained::Kept => kept,
        Obtained::Stored(state) => kept.insert(fingerprint, Arc::new(state)),
        Obtained::Built(state) => kept.insert(fingerprint, Arc::new(state)),
    }
}

/// How many clusters a query probes has no part in what is kept: after an upload, another whose
/// settings differ only in that, or in where products are computed, finds the same state kept.
/// Fingerprints are any function of the parts.
pub proof fn uploads_that_differ_in_nprobe_share_their_state<T>(
    kept: Map<Seq<u8>, Arc<T>>,
    fingerprint: spec_fn(Seq<Seq<u8>>) -> Seq<u8>,
    one: EmvpIvfConfig,
    other: EmvpIvfConfig,
    n_vectors: usize,
    obtained: Obtained<T>,
)
    requires
        one.n_centroids == other.n_centroids,
        one.train_seed == other.train_seed,
        one.max_iter == other.max_iter,
        one.upload_seed == other.upload_seed,
        one.key_seed@ == other.key_seed@,
        obtained is Kept ==> kept.contains_key(fingerprint(cache_parts_of(one, n_vectors))),
    ensures
        cache_parts_of(one, n_vectors) == cache_parts_of(other, n_vectors),
        ({
            let after = kept_after(kept, fingerprint(cache_parts_of(one, n_vectors)), obtained);
            &&& recalled(after, fingerprint(cache_parts_of(one, n_vectors))) is Some
            &&& recalled(after, fingerprint(cache_parts_of(other, n_vectors))) == recalled(
                after,
                fingerprint(cache_parts_of(one, n_vectors)),
            )
        }),
{
}

impl<T> EmvpIvfScorer<T> {
    /// What is kept, by fingerprint.
    pub closed spec fn view(&self) -> Map<Seq<u8>, Arc<T>> {
        self.cache.view()
    }

    /// A scorer that keeps nothing yet.
    pub fn new() -> (scorer: Self)
        ensures
            scorer.view() == Map::<Seq<u8>, Arc<T>>::empty(),
    {
        EmvpIvfScorer { cache: KeyedCache::new() }
    }

    /// The state that is kept under a fingerprint.
    pub fn recall(&self, fingerprint: &[u8]) -> (r: Option<Arc<T>>)
        ensures
            r == recalled(self.view(), fingerprint@),
    {
        match self.cache.get(fingerprint) {
            None => None,
            Some(state) => Some(Arc::clone(state)),
        }
    }

    /// Ends an upload: keeps the state that was obtained, and gives it with whether it was kept or
    /// stored before. A state that was built is refused if one of its clusters, whose sizes are
    /// given, has no vector.
    pub fn finish_upload(
        &mut self,
        fingerprint: &[u8],
        obtained: Obtained<T>,
        sizes: &[usize],
        device: Device,
        gpu_enabled: bool,
    ) -> (r: Result<(Arc<T>, bool), EmvpIvfError>)
        requires
            obtained is Kept ==> old(self).view().contains_key(fingerprint@),
        ensures
            is_refused(obtained, sizes@) ==> r == Err::<(Arc<T>, bool), EmvpIvfError>(
                EmvpIvfError::EmptyCluster,
            ) && final(self).view() == old(self).view(),
            !is_refused(obtained, sizes@) ==> final(self).view() == kept_after(
                old(self).view(),
                fingerprint@,
                obtained,
            ),
            !is_refused(obtained, sizes@) && device == Device::Gpu && !gpu_enabled ==> r == Err::<
                (Arc<T>, bool),
                EmvpIvfError,
            >(EmvpIvfError::GpuFeatureNotEnabled),
            !is_refused(obtained, sizes@) && (device == Device::Cpu || gpu_enabled) ==> r == Ok::<
                (Arc<T>, bool),
                EmvpIvfError,
            >((final(self).view()[fingerprint@], !(obtained is Built))),
    {
        let mut hit: bool = true;
        match obtained {
            Obtained::Kept => {},
            Obtained::Stored(state) => {
                self.cache.insert(copy(fingerprint), Arc::new(state));
            },
            Obtained::Built(state) => {
                if any_empty(sizes) {
                    return Err(EmvpIvfError::EmptyCluster);
                }
                hit = false;
                self.cache.insert(copy(fingerprint), Arc::new(state));
            },
        }
        let found: Option<Arc<T>> = self.recall(fingerprint);
        let state: Arc<T> = found.unwrap();
        match device {
            Device::Cpu => Ok((state, hit)),
            Device::Gpu => if gpu_enabled {
                Ok((state, hit))
            } else {
                Err(EmvpIvfError::GpuFeatureNotEnabled)
            },
        }
    }
}

/// The hit of a vector in the clear, where its inner product with the query lies within half the
/// field: its number, and the sum of the products of its components with those of the query.
proof fn lemma_clear_hit(membership: Seq<u32>, rows: Seq<Seq<i64>>, query: Seq<i64>, i: int)
    requires
        0 <= i < rows.len(),
        rows[i].len() == query.len() <= ELL0,
        -(P / 2) <= sums::sum(query.len() as int, |l: int| rows[i][l] * query[l]) <= P / 2,
    ensures
        clear_cluster_hits(membership, rows, query)[i] == (Hit {
            id: membership[i],
            score: sums::sum(query.len() as int, |l: int| rows[i][l] * query[l]) as i64,
        }),
{
    crypto::inner_products_pair_all_components(rows[i], query);
    field::decode_inverts_quantize(crypto::inner_product(rows[i], query));
}

/// The hits of the first clusters in the clear are those of each of them, and no others.
proof fn lemma_clear_hits(
    handle: EmvpIvfHandle,
    rows: Seq<Seq<Seq<i64>>>,
    probes: Seq<usize>,
    query: Seq<i64>,
    n: int,
)
    requires
        0 <= n <= probes.len(),
    ensures
        ({
            let all = clear_hits(handle, rows, probes, query, n);
            &&& all.len() == sums::sum(n, |p: int| rows[probes[p] as int].len() as int)
            &&& forall|h: Hit| #[trigger]
                all.contains(h) ==> exists|p: int, i: int|
                    0 <= p < n && 0 <= i < rows[probes[p] as int].len() && h
                        == #[trigger] clear_cluster_hits(
                        handle.membership@[probes[p] as int]@,
                        rows[probes[p] as int],
                        query,
                    )[i]
            &&& forall|p: int, i: int|
                0 <= p < n && 0 <= i < rows[probes[p] as int].len() ==> all.contains(
                    #[trigger] clear_cluster_hits(
                        handle.membership@[probes[p] as int]@,
                        rows[probes[p] as int],
                        query,
                    )[i],
                )
        }),
    decreases n,
{
    if n > 0 {
        lemma_clear_hits(handle, rows, probes, query, n - 1);
        let all = clear_hits(handle, rows, probes, query, n);
        let before = clear_hits(handle, rows, probes, query, n - 1);
        let last = clear_cluster_hits(
            handle.membership@[probes[n - 1] as int]@,
            rows[probes[n - 1] as int],
            query,
        );
        assert(all == before + last);
        assert forall|h: Hit| #[trigger] all.contains(h) implies exists|p: int, i: int|
            0 <= p < n && 0 <= i < rows[probes[p] as int].len() && h
                == #[trigger] clear_cluster_hits(
                handle.membership@[probes[p] as int]@,
                rows[probes[p] as int],
                query,
            )[i] by {
            let t = choose|t: int| 0 <= t < all.len() && all[t] == h;
            if t < before.len() {
                assert(before[t] == h);
                assert(before.contains(h));
            } else {
                assert(last[t - before.len()] == h);
            }
        }
        assert forall|p: int, i: int|
            0 <= p < n && 0 <= i < rows[probes[p] as int].len() implies all.contains(
            #[trigger] clear_cluster_hits(
                handle.membership@[probes[p] as int]@,
                rows[probes[p] as int],
                query,
            )[i],
        ) by {
            let h = clear_cluster_hits(
                handle.membership@[probes[p] as int]@,
                rows[probes[p] as int],
                query,
            )[i];
            if p < n - 1 {
                assert(before.contains(h));
                let t = choose|t: int| 0 <= t < before.len() && before[t] == h;
                assert(all[t] == h);
            } else {
                assert(all[before.len() + i] == h);
            }
        }
    }
}

/// Every vector that is compared with a query has as many components, and the sum of the products of
/// its components with those of the query lies within half the field.
pub open spec fn products_are_small(
    rows: Seq<Seq<Seq<i64>>>,
    probes: Seq<usize>,
    query: Seq<i64>,
) -> bool {
    forall|p: int, i: int|
        0 <= p < probes.len() && 0 <= i < rows[probes[p] as int].len() ==> (
        #[trigger] rows[probes[p] as int][i]).len() == query.len() && -(P / 2) <= sums::sum(
            query.len() as int,
            |l: int| rows[probes[p] as int][i][l] * query[l],
        ) <= P / 2
}

/// A query finds, among all vectors of all clusters that it probes, those with the largest inner
/// products: `k` of them or all; each hit stands for a vector of a probed cluster, with its number in
/// the corpus and the sum of the products of its components with those of the query; larger ones come
/// first; and a vector whose sum is larger than a score that is returned is returned too.
pub proof fn queries_find_the_largest_sums_of_products(
    handle: EmvpIvfHandle,
    rows: Seq<Seq<Seq<i64>>>,
    probes: Seq<usize>,
    query: Seq<i64>,
    k: nat,
    found: Seq<Hit>,
)
    requires
        handle.well_formed(),
        all_encrypt(handle, rows),
        query.len() <= ELL0,
        forall|i: int| 0 <= i < probes.len() ==> #[trigger] probes[i] < handle.clusters@.len(),
        scored_under_some_mask(handle, query, probes, k as int, found),
        products_are_small(rows, probes, query),
    ensures
        ({
            let count = sums::sum(
                probes.len() as int,
                |p: int| rows[probes[p] as int].len() as int,
            );
            found.len() == (if k < count {
                k as int
            } else {
                count
            })
        }),
        forall|h: Hit| #[trigger]
            found.contains(h) ==> exists|p: int, i: int|
                0 <= p < probes.len() && 0 <= i < rows[probes[p] as int].len() && (
                #[trigger] rows[probes[p] as int][i]).len() == query.len() && h.id
                    == handle.membership@[probes[p] as int]@[i] && h.score == sums::sum(
                    query.len() as int,
                    |l: int| rows[probes[p] as int][i][l] * query[l],
                ),
        forall|i: int, j: int|
            0 <= i < j < found.len() ==> (#[trigger] found[i]).score >= (#[trigger] found[j]).score,
        forall|p: int, i: int, t: int|
            0 <= p < probes.len() && 0 <= i < rows[probes[p] as int].len() && 0 <= t < found.len()
                && (#[trigger] rows[probes[p] as int][i]).len() == query.len() && sums::sum(
                query.len() as int,
                |l: int| rows[probes[p] as int][i][l] * query[l],
            ) > (#[trigger] found[t]).score ==> exists|h: Hit| #[trigger]
                found.contains(h) && h.id == handle.membership@[probes[p] as int]@[i],
{
    let draws = choose|draws: Seq<u64>|
        draws.len() == K && found == #[trigger] masked_result(
            handle,
            query,
            probes,
            draws,
            k as int,
        );
    lemma_masked_is_clear(handle, query, probes, draws, k as int);
    let n = probes.len() as int;
    let all = clear_hits(handle, rows, probes, query, n);
    lemma_clear_hits(handle, rows, probes, query, n);
    hits::returned_hits_are_the_top(all, k);
    hits::nothing_better_is_left_out(all, k);
    assert(found == hits::best(all, k as int));
    assert forall|p: int, i: int|
        0 <= p < n && 0 <= i < rows[probes[p] as int].len() implies #[trigger] clear_cluster_hits(
        handle.membership@[probes[p] as int]@,
        rows[probes[p] as int],
        query,
    )[i] == (Hit {
        id: handle.membership@[probes[p] as int]@[i],
        score: sums::sum(
            query.len() as int,
            |l: int| rows[probes[p] as int][i][l] * query[l],
        ) as i64,
    }) by {
        assert(rows[probes[p] as int][i].len() == query.len());
        lemma_clear_hit(
            handle.membership@[probes[p] as int]@,
            rows[probes[p] as int],
            query,
            i,
        );
    }
    assert forall|h: Hit| #[trigger] found.contains(h) implies exists|p: int, i: int|
        0 <= p < probes.len() && 0 <= i < rows[probes[p] as int].len() && (
        #[trigger] rows[probes[p] as int][i]).len() == query.len() && h.id
            == handle.membership@[probes[p] as int]@[i] && h.score == sums::sum(
            query.len() as int,
            |l: int| rows[probes[p] as int][i][l] * query[l],
        ) by {
        let t = choose|t: int| 0 <= t < found.len() && found[t] == h;
        assert(all.contains(found[t]));
        let (p, i) = choose|p: int, i: int|
            0 <= p < n && 0 <= i < rows[probes[p] as int].len() && h
                == #[trigger] clear_cluster_hits(
                handle.membership@[probes[p] as int]@,
                rows[probes[p] as int],
                query,
            )[i];
        assert(rows[probes[p] as int][i].len() == query.len());
    }
    assert forall|p: int, i: int, t: int|
        0 <= p < probes.len() && 0 <= i < rows[probes[p] as int].len() && 0 <= t < found.len() && (
        #[trigger] rows[probes[p] as int][i]).len() == query.len() && sums::sum(
            query.len() as int,
            |l: int| rows[probes[p] as int][i][l] * query[l],
        ) > (#[trigger] found[t]).score implies exists|h: Hit| #[trigger]
        found.contains(h) && h.id == handle.membership@[probes[p] as int]@[i] by {
        let h = clear_cluster_hits(
            handle.membership@[probes[p] as int]@,
            rows[probes[p] as int],
            query,
        )[i];
        assert(all.contains(h));
        let u = choose|u: int| 0 <= u < all.len() && all[u] == h;
        assert(all[u].score > found[t].score);
        assert(found.contains(h));
    }
}

/// Every cluster of every upload draws the seed of its masks from a seed of its own, byte by byte.
pub proof fn clusters_have_seeds_of_their_own(
    upload_seed: u64,
    cluster_idx: usize,
    other_upload: u64,
    other_idx: usize,
)
    ensures
        seed_of_seed(upload_seed, cluster_idx) == seed_of_seed(other_upload, other_idx)
            <==> upload_seed == other_upload && cluster_idx == other_idx,
        seed_of_seed(upload_seed, cluster_idx).len() == 32,
        cluster_seed(upload_seed, cluster_idx).len() == 32,
        forall|i: int|
            0 <= i < 32 ==> (#[trigger] cluster_seed(upload_seed, cluster_idx)[i]) as int
                == prng::chacha20_word(
                seed_of_seed(upload_seed, cluster_idx),
                i as nat,
            ) as int % 256,
{
    bytes::lemma_numbers();
    let a = seed_of_seed(upload_seed, cluster_idx);
    let b = seed_of_seed(other_upload, other_idx);
    assert(a.subrange(0, 8) =~= bytes::le64(upload_seed));
    assert(b.subrange(0, 8) =~= bytes::le64(other_upload));
    assert(a.subrange(8, 16) =~= bytes::le64(cluster_idx as u64));
    assert(b.subrange(8, 16) =~= bytes::le64(other_idx as u64));
}

/// Stored clusters are told apart by everything that they depend on: two settings have the same parts
/// only if they agree in all of it.
pub proof fn parts_tell_clusters_apart(one: EmvpIvfConfig, other: EmvpIvfConfig, n: usize, m: usize)
    ensures
        cache_parts_of(one, n) == cache_parts_of(other, m) <==> one.n_centroids
            == other.n_centroids && one.train_seed == other.train_seed && one.max_iter
            == other.max_iter && n == m && one.upload_seed == other.upload_seed
            && one.key_seed@ == other.key_seed@,
{
    bytes::lemma_numbers();
    let a = cache_parts_of(one, n);
    let b = cache_parts_of(other, m);
    if a == b {
        assert(a[1] == b[1] && a[2] == b[2] && a[3] == b[3] && a[4] == b[4] && a[5] == b[5]
            && a[6] == b[6]);
    }
}

/// A batch is refused for the first of its queries that has another number of components than the
/// vectors, and for no other.
pub proof fn batches_are_refused_for_the_first_mismatch(queries: Seq<Vec<i64>>, dim: usize)
    ensures
        ({
            let first = first_mismatched(queries, dim, queries.len() as int);
            &&& 0 <= first <= queries.len()
            &&& forall|t: int| 0 <= t < first ==> (#[trigger] queries[t])@.len() == dim
            &&& first < queries.len() ==> queries[first]@.len() != dim
        }),
{
    lemma_first_mismatched(queries, dim, queries.len() as int);
}

/// The sizes that are reported are those of the probed clusters, in the order of the route.
pub proof fn reported_sizes_are_those_of_the_route(handle: EmvpIvfHandle, probes: Seq<usize>, i: int)
    requires
        0 <= i < probes.len(),
    ensures
        probed_sizes(handle, probes).len() == probes.len(),
        probed_sizes(handle, probes)[i] == handle.clusters@[probes[i] as int].m,
{
}

/// What a query that probed clusters of given sizes cost: per vector of these clusters, the server
/// read a row and sent back the products of all blocks, eight bytes for each element; the mean
/// response of a cluster is rounded down. What is sent before and with a query is as estimated.
pub proof fn queries_cost_what_they_probe(estimate: CommunicationCost, probed: Seq<usize>)
    requires
        sums::sum(probed.len() as int, |i: int| probed[i] as int) * (N * FIELD_BYTES) <= u64::MAX,
    ensures
        ({
            let members = sums::sum(probed.len() as int, |i: int| probed[i] as int);
            let cost = realised_cost(estimate, probed);
            &&& cost.response_bytes == members * 8 * S
            &&& cost.effective_bytes_per_query == members * 8 * N
            &&& probed.len() == 0 ==> cost.cluster_response_bytes == 0
            &&& probed.len() > 0 ==> cost.cluster_response_bytes * probed.len()
                <= cost.response_bytes < (cost.cluster_response_bytes + 1) * probed.len()
            &&& cost.query_bytes == estimate.query_bytes
            &&& cost.setup_bytes == estimate.setup_bytes
            &&& cost.pre_query_offline_up_bytes == estimate.pre_query_offline_up_bytes
            &&& cost.pre_query_offline_down_bytes == estimate.pre_query_offline_down_bytes
        }),
{
    let members = sums::sum(probed.len() as int, |i: int| probed[i] as int);
    scoring::totals_take_every_size(probed, probed.len());
    sums::lemma_sum_bounds(
        probed.len() as int,
        0,
        usize::MAX as int,
        |i: int| probed[i] as int,
    );
    assert(0 <= members) by (nonlinear_arith)
        requires
            probed.len() * 0 <= members,
    ;
    assert(members * (N * FIELD_BYTES) == members * 8 * N) by (nonlinear_arith);
    assert(members * (S * FIELD_BYTES) == members * 8 * S) by (nonlinear_arith);
    assert(0 <= members * (S * FIELD_BYTES) <= members * (N * FIELD_BYTES)) by (nonlinear_arith)
        requires
            0 <= members,
    ;
    if probed.len() > 0 {
        let response = members * (S * FIELD_BYTES);
        let n = probed.len() as int;
        vstd::arithmetic::div_mod::lemma_fundamental_div_mod(response, n);
        assert(0 <= response / n <= response) by (nonlinear_arith)
            requires
                0 <= response,
                0 < n,
        ;
        assert(n * (response / n) == (response / n) * n) by (nonlinear_arith);
        assert((response / n + 1) * n == (response / n) * n + n) by (nonlinear_arith);
    }
}

/// What a query is estimated to cost: it sends a row of elements and reads and gets back, per cluster
/// that it probes, what is the mean; the ciphertexts of all clusters are sent once.
pub proof fn estimates_count_every_cluster(
    sizes: Seq<usize>,
    nprobe: usize,
    mean_response: u64,
    mean_size: u64,
)
    requires
        nprobe * mean_response <= u64::MAX,
        sums::sum(sizes.len() as int, |i: int| sizes[i] as int) * (N * FIELD_BYTES) <= u64::MAX,
        nprobe * mean_size * (N * FIELD_BYTES) <= u64::MAX,
    ensures
        ({
            let cost = estimated_cost(sizes, nprobe, mean_response, mean_size);
            &&& cost.query_bytes == 8 * N
            &&& cost.cluster_response_bytes == mean_response
            &&& cost.response_bytes == nprobe * mean_response
            &&& cost.setup_bytes == sums::sum(sizes.len() as int, |i: int| sizes[i] as int) * (8
                * N)
            &&& cost.effective_bytes_per_query == nprobe * mean_size * (8 * N)
            &&& cost.pre_query_offline_up_bytes == 0
            &&& cost.pre_query_offline_down_bytes == 0
        }),
{
    let members = sums::sum(sizes.len() as int, |i: int| sizes[i] as int);
    scoring::totals_take_every_size(sizes, sizes.len());
    sums::lemma_sum_bounds(sizes.len() as int, 0, usize::MAX as int, |i: int| sizes[i] as int);
    assert(0 <= members) by (nonlinear_arith)
        requires
            sizes.len() * 0 <= members,
    ;
    assert(0 <= members * (N * FIELD_BYTES)) by (nonlinear_arith)
        requires
            0 <= members,
    ;
    assert(0 <= nprobe * mean_response) by (nonlinear_arith);
    assert(0 <= nprobe * mean_size * (N * FIELD_BYTES)) by (nonlinear_arith);
}

/// The steps of a query come to what a query finds: the products of every cluster that is probed with
/// the encoded query decode, ranked together, to the hits of the query under its mask.
pub proof fn steps_come_to_what_a_query_finds(
    handle: EmvpIvfHandle,
    query: Seq<i64>,
    probes: Seq<usize>,
    draws: Seq<u64>,
    products: Seq<Vec<u64>>,
    k: int,
)
    requires
        draws.len() == K,
        products.len() == probes.len(),
        forall|i: int|
            0 <= i < probes.len() ==> (#[trigger] products[i])@ == crypto::block_products(
                handle.clusters@[probes[i] as int].m_hat@,
                handle.clusters@[probes[i] as int].m as int,
                scorer::encoding(handle.d_mat@, query, draws),
            ),
    ensures
        scored_under_some_mask(
            handle,
            query,
            probes,
            k,
            hits::best(
                hits_of_probed(
                    handle,
                    probes,
                    scorer::encoding(handle.d_mat@, query, draws),
                    products,
                    probes.len() as int,
                ),
                k,
            ),
        ),
{
    let q_hat = scorer::encoding(handle.d_mat@, query, draws);
    assert forall|i: int| 0 <= i < probes.len() implies (#[trigger] products[i])@
        == cluster_products(handle, probes[i] as int, q_hat) by {
        assert(products[i]@ == crypto::block_products(
            handle.clusters@[probes[i] as int].m_hat@,
            handle.clusters@[probes[i] as int].m as int,
            q_hat,
        ));
    }
    lemma_hits_of_probed(handle, probes, q_hat, products, probes.len() as int);
    assert(hits::best(
        hits_of_probed(handle, probes, q_hat, products, probes.len() as int),
        k,
    ) == masked_result(handle, query, probes, draws, k));
}

/// An upload keeps the state that was obtained under its own fingerprint and leaves the others as
/// they are; a state that was kept stays. What is kept is what is recalled.
pub proof fn uploads_keep_the_state_that_was_obtained<T>(
    kept: Map<Seq<u8>, Arc<T>>,
    fingerprint: Seq<u8>,
    obtained: Obtained<T>,
    other: Seq<u8>,
)
    ensures
        ({
            let after = kept_after(kept, fingerprint, obtained);
            &&& other != fingerprint ==> recalled(after, other) == recalled(kept, other)
            &&& obtained is Kept ==> recalled(after, fingerprint) == recalled(kept, fingerprint)
            &&& obtained matches Obtained::Stored(state) ==> recalled(after, fingerprint) == Some(
                Arc::new(state),
            )
            &&& obtained matches Obtained::Built(state) ==> recalled(after, fingerprint) == Some(
                Arc::new(state),
            )
        }),
        recalled(kept, other) is Some <==> kept.contains_key(other),
        kept.contains_key(other) ==> recalled(kept, other) == Some(kept[other]),
{
}

/// An upload is refused exactly if its state was built and some cluster has no vectors.
pub proof fn uploads_are_refused_for_an_empty_cluster<T>(obtained: Obtained<T>, sizes: Seq<usize>)
    ensures
        is_refused(obtained, sizes) <==> obtained is Built && sizes.contains(0),
{
}

} // verus!
