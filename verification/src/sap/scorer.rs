//! Scoring of one cluster: a query is compared with all encrypted vectors.

use vstd::prelude::*;

use crate::float_bits;
use crate::float_bits::is_below_zero_64;
use crate::hits;
use crate::hits::Hit;
use crate::prng::draw_nonce;
use crate::sap::cluster;
use crate::sap::cluster::{build_cluster, knn_with_scores, knn_with_scores_batch};
use crate::sap::crypto::SapKey;
use crate::sap::gpu::GpuError;
use crate::scoring::{CommunicationCost, Device};

verus! {

/// How vectors are encrypted.
pub struct SapConfig {
    /// The key.
    pub key: SapKey,
    /// How much vectors are moved, as the bits of a double-precision number.
    pub beta: u64,
    /// Seed of the nonces.
    pub upload_seed: u64,
    /// Where distances are computed.
    pub device: Device,
    /// Bytes of a graphics card's memory to use; found out if absent.
    pub vram_budget_bytes: Option<u64>,
}

/// Why vectors could not be uploaded or scored.
#[derive(Debug)]
pub enum SapError {
    /// There is no vector.
    EmptyCluster,
    /// Vectors would be moved by less than nothing. Holds the bits of the number.
    InvalidBeta(u64),
    /// A query has another number of components than the vectors.
    DimensionMismatch {
        /// Components of the query.
        query_dim: usize,
        /// Components of the vectors.
        cluster_dim: usize,
    },
    /// The work could not be done.
    TaskPanic,
    /// A graphics card was asked for and cannot be used.
    GpuFeatureNotEnabled,
    /// The graphics card reported an error.
    Gpu(GpuError),
}

/// How long the steps of a query took.
#[derive(Debug, Clone, Copy, Default)]
pub struct SapTiming {
    /// Microseconds for encrypting the query.
    pub encode_us: u64,
    /// Microseconds for the distances.
    pub server_us: u64,
    /// Microseconds for ranking.
    pub merge_us: u64,
}

/// Whether vectors can be uploaded: there must be some, and they must not be moved by less than
/// nothing.
pub fn validate_upload(config: &SapConfig, n_vectors: usize) -> (r: Result<(), SapError>)
    ensures
        n_vectors == 0 ==> r == Err::<(), SapError>(SapError::EmptyCluster),
        n_vectors > 0 && float_bits::below_zero_64(config.beta) ==> r == Err::<(), SapError>(
            SapError::InvalidBeta(config.beta),
        ),
        r is Ok <==> n_vectors > 0 && !float_bits::below_zero_64(config.beta),
{
    if n_vectors == 0 {
        return Err(SapError::EmptyCluster);
    }
    if is_below_zero_64(config.beta) {
        return Err(SapError::InvalidBeta(config.beta));
    }
    Ok(())
}

/// What a function may make of a nonce that is drawn.
pub open spec fn is_sealed<S, E: FnOnce([u8; 16]) -> S>(encrypt: E, sealed: S) -> bool {
    exists|nonce: [u8; 16]| #[trigger] call_ensures(encrypt, (nonce,), sealed)
}

/// The distances that a function may give for a nonce that was drawn, ranked.
pub open spec fn are_nearest<D: FnOnce([u8; 16]) -> Vec<u64>>(
    distances_for: D,
    k: int,
    nearest: Seq<Hit>,
) -> bool {
    exists|nonce: [u8; 16], distances: Vec<u64>|
        {
            &&& #[trigger] call_ensures(distances_for, (nonce,), distances)
            &&& nearest == hits::best(cluster::entry_hits(distances@), k)
        }
}

/// The distances that a function may give for nonces that were drawn, ranked query by query.
pub open spec fn are_nearest_batch<D: FnOnce(Vec<[u8; 16]>) -> Vec<Vec<u64>>>(
    distances_for: D,
    n_queries: int,
    k: int,
    nearest: Seq<Vec<Hit>>,
) -> bool {
    exists|nonces: Vec<[u8; 16]>, rows: Vec<Vec<u64>>|
        {
            &&& nonces@.len() == n_queries
            &&& #[trigger] call_ensures(distances_for, (nonces,), rows)
            &&& nearest.len() == n_queries
            &&& forall|q: int|
                0 <= q < n_queries ==> (#[trigger] nearest[q])@ == hits::best(
                    cluster::entry_hits(cluster::column(rows@, q)),
                    k,
                )
        }
}

/// Whether rows have one distance for each of a number of queries.
pub open spec fn rows_have_width(rows: Seq<Vec<u64>>, width: int) -> bool {
    forall|i: int| 0 <= i < rows.len() ==> (#[trigger] rows[i])@.len() == width
}

/// Draws a nonce for each of `count` queries.
fn draw_nonces(count: usize) -> (nonces: Vec<[u8; 16]>)
    ensures
        nonces@.len() == count,
{
    let mut nonces: Vec<[u8; 16]> = Vec::with_capacity(count);
    for i in 0..count
        invariant
            nonces@.len() == i,
    {
        nonces.push(draw_nonce());
    }
    nonces
}

/// Uploads vectors and scores queries. Nothing is kept between uploads.
pub struct SapScorer;

impl SapScorer {
    /// Uploads vectors: checks the settings and encrypts the rows with nonces that are derived from
    /// the seed. What is given besides says that nothing was kept or stored before.
    pub fn upload_cluster<
        T: Send,
        E: Fn(usize, [u8; 16]) -> T + Sync + Send,
        F: Fn(usize) + Sync + Send,
    >(
        &self,
        config: &SapConfig,
        n_vectors: usize,
        gpu_enabled: bool,
        encrypt: E,
        on_row: F,
    ) -> (r: Result<(Vec<T>, bool), SapError>)
        requires
            forall|i: usize, nonce: [u8; 16]| i < n_vectors ==> call_requires(encrypt, (i, nonce)),
            forall|i: usize| i < n_vectors ==> call_requires(on_row, (i,)),
        ensures
            n_vectors == 0 ==> r == Err::<(Vec<T>, bool), SapError>(SapError::EmptyCluster),
            n_vectors > 0 && float_bits::below_zero_64(config.beta) ==> r == Err::<
                (Vec<T>, bool),
                SapError,
            >(SapError::InvalidBeta(config.beta)),
            n_vectors > 0 && !float_bits::below_zero_64(config.beta) && config.device == Device::Gpu
                && !gpu_enabled ==> r == Err::<(Vec<T>, bool), SapError>(
                SapError::GpuFeatureNotEnabled,
            ),
            n_vectors > 0 && !float_bits::below_zero_64(config.beta) && (config.device
                == Device::Cpu || gpu_enabled) ==> (r matches Ok((entries, hit)) && !hit
                && entries@.len() == n_vectors && forall|i: int|
                0 <= i < n_vectors ==> cluster::is_encrypted(
                    &encrypt,
                    config.upload_seed,
                    i as usize,
                    #[trigger] entries@[i],
                )),
    {
        match validate_upload(config, n_vectors) {
            Err(e) => {
                return Err(e);
            },
            Ok(()) => {},
        }
        let entries: Vec<T> = build_cluster(n_vectors, config.upload_seed, encrypt, on_row);
        match config.device {
            Device::Cpu => Ok((entries, false)),
            Device::Gpu => if gpu_enabled {
                Ok((entries, false))
            } else {
                Err(SapError::GpuFeatureNotEnabled)
            },
        }
    }

    /// Encrypts a query with a nonce that is drawn.
    pub fn encrypt_query<S, E: FnOnce([u8; 16]) -> S>(
        &self,
        query_dim: usize,
        cluster_dim: usize,
        encrypt: E,
    ) -> (r: Result<S, SapError>)
        requires
            forall|nonce: [u8; 16]| call_requires(encrypt, (nonce,)),
        ensures
            query_dim != cluster_dim ==> r == Err::<S, SapError>(
                SapError::DimensionMismatch { query_dim, cluster_dim },
            ),
            query_dim == cluster_dim ==> r is Ok && is_sealed(encrypt, r->Ok_0),
    {
        if query_dim != cluster_dim {
            return Err(SapError::DimensionMismatch { query_dim, cluster_dim });
        }
        let nonce: [u8; 16] = draw_nonce();
        let sealed: S = encrypt(nonce);
        assert(call_ensures(encrypt, (nonce,), sealed));
        Ok(sealed)
    }

    /// Scores a query. `distances_for` encrypts it with a nonce, which is drawn, and gives its
    /// distances from the entries, as the bits of double-precision numbers.
    pub fn score<D: FnOnce([u8; 16]) -> Vec<u64>>(
        &self,
        query_dim: usize,
        cluster_dim: usize,
        distances_for: D,
        k: usize,
    ) -> (r: Result<Vec<Hit>, SapError>)
        requires
            forall|nonce: [u8; 16]| call_requires(distances_for, (nonce,)),
        ensures
            query_dim != cluster_dim ==> r == Err::<Vec<Hit>, SapError>(
                SapError::DimensionMismatch { query_dim, cluster_dim },
            ),
            query_dim == cluster_dim ==> (r matches Ok(nearest) && are_nearest(
                distances_for,
                k as int,
                nearest@,
            )),
    {
        match self.encrypt_query(query_dim, cluster_dim, distances_for) {
            Ok(distances) => Ok(knn_with_scores(&distances, k)),
            Err(e) => Err(e),
        }
    }

    /// Scores several queries. `distances_for` encrypts each with a nonce of its own, and gives the
    /// distances of each entry from all of them.
    pub fn score_batch<D: FnOnce(Vec<[u8; 16]>) -> Vec<Vec<u64>>>(
        &self,
        query_dims: &[usize],
        cluster_dim: usize,
        distances_for: D,
        k: usize,
    ) -> (r: Result<Vec<Vec<Hit>>, SapError>)
        requires
            forall|nonces: Vec<[u8; 16]>|
                nonces@.len() == query_dims@.len() ==> call_requires(distances_for, (nonces,)),
            forall|nonces: Vec<[u8; 16]>, rows: Vec<Vec<u64>>|
                #[trigger] call_ensures(distances_for, (nonces,), rows) ==> rows_have_width(
                    rows@,
                    nonces@.len() as int,
                ),
        ensures
            forall|q: int|
                0 <= q < query_dims@.len() && #[trigger] query_dims@[q] != cluster_dim && (forall|
                    t: int,
                |
                    0 <= t < q ==> query_dims@[t] == cluster_dim) ==> r == Err::<
                    Vec<Vec<Hit>>,
                    SapError,
                >(SapError::DimensionMismatch { query_dim: query_dims@[q], cluster_dim }),
            (forall|q: int| 0 <= q < query_dims@.len() ==> #[trigger] query_dims@[q] == cluster_dim)
                ==> (r matches Ok(nearest) && are_nearest_batch(
                distances_for,
                query_dims@.len() as int,
                k as int,
                nearest@,
            )),
    {
        for q in 0..query_dims.len()
            invariant
                forall|t: int| 0 <= t < q ==> #[trigger] query_dims@[t] == cluster_dim,
        {
            if query_dims[q] != cluster_dim {
                return Err(SapError::DimensionMismatch { query_dim: query_dims[q], cluster_dim });
            }
        }
        let nonces: Vec<[u8; 16]> = draw_nonces(query_dims.len());
        let ghost drawn = nonces;
        let rows: Vec<Vec<u64>> = distances_for(nonces);
        assert(call_ensures(distances_for, (drawn,), rows));
        Ok(knn_with_scores_batch(&rows, query_dims.len(), k))
    }

    /// The bytes that a query moves: the query is sent as eight bytes for each component, and each
    /// hit takes eight bytes; the server reads four bytes of each component of each entry.
    pub fn communication_cost(&self, n_entries: usize, dim: usize, k: usize) -> (cost:
        CommunicationCost)
        requires
            k * 8 <= u64::MAX,
            dim * 8 <= u64::MAX,
            n_entries * dim * 4 <= u64::MAX,
        ensures
            cost == (CommunicationCost {
                query_bytes: (dim * 8) as u64,
                response_bytes: (k * 8) as u64,
                cluster_response_bytes: (k * 8) as u64,
                setup_bytes: 0,
                pre_query_offline_up_bytes: 0,
                pre_query_offline_down_bytes: 0,
                effective_bytes_per_query: (n_entries * dim * 4) as u64,
            }),
    {
        assert(0 <= n_entries * dim) by (nonlinear_arith)
            requires
                0 <= n_entries,
                0 <= dim,
        ;
        let response_bytes: u64 = k as u64 * 8;
        CommunicationCost {
            query_bytes: dim as u64 * 8,
            response_bytes,
            cluster_response_bytes: response_bytes,
            setup_bytes: 0,
            pre_query_offline_up_bytes: 0,
            pre_query_offline_down_bytes: 0,
            effective_bytes_per_query: n_entries as u64 * dim as u64 * 4,
        }
    }
}

/// A query is compared with the entries under a nonce that is drawn, and its hits are the nearest
/// entries at the distances that this gives. Gives the nonce and the distances.
pub proof fn scores_rank_the_distances_of_one_encryption<D: FnOnce([u8; 16]) -> Vec<u64>>(
    distances_for: D,
    k: int,
    nearest: Seq<Hit>,
) -> (drawn: ([u8; 16], Vec<u64>))
    requires
        are_nearest(distances_for, k, nearest),
    ensures
        call_ensures(distances_for, (drawn.0,), drawn.1),
        nearest == hits::best(cluster::entry_hits(drawn.1@), k),
{
    choose|nonce: [u8; 16], distances: Vec<u64>|
        {
            &&& #[trigger] call_ensures(distances_for, (nonce,), distances)
            &&& nearest == hits::best(cluster::entry_hits(distances@), k)
        }
}

/// Each of several queries gets the nearest entries by its own distances: those that stand in its
/// column. Gives the nonces and the distances.
pub proof fn batches_rank_each_query_by_its_own_distances<
    D: FnOnce(Vec<[u8; 16]>) -> Vec<Vec<u64>>,
>(distances_for: D, n_queries: int, k: int, nearest: Seq<Vec<Hit>>) -> (drawn: (
    Vec<[u8; 16]>,
    Vec<Vec<u64>>,
))
    requires
        are_nearest_batch(distances_for, n_queries, k, nearest),
    ensures
        drawn.0@.len() == n_queries,
        call_ensures(distances_for, (drawn.0,), drawn.1),
        nearest.len() == n_queries,
        forall|q: int|
            0 <= q < n_queries ==> (#[trigger] nearest[q])@ == hits::best(
                cluster::entry_hits(Seq::new(drawn.1@.len(), |i: int| drawn.1@[i]@[q])),
                k,
            ),
{
    let (nonces, rows) = choose|nonces: Vec<[u8; 16]>, rows: Vec<Vec<u64>>|
        {
            &&& nonces@.len() == n_queries
            &&& #[trigger] call_ensures(distances_for, (nonces,), rows)
            &&& nearest.len() == n_queries
            &&& forall|q: int|
                0 <= q < n_queries ==> (#[trigger] nearest[q])@ == hits::best(
                    cluster::entry_hits(cluster::column(rows@, q)),
                    k,
                )
        };
    assert forall|q: int| 0 <= q < n_queries implies (#[trigger] nearest[q])@ == hits::best(
        cluster::entry_hits(Seq::new(rows@.len(), |i: int| rows@[i]@[q])),
        k,
    ) by {
        assert(cluster::column(rows@, q) =~= Seq::new(rows@.len(), |i: int| rows@[i]@[q]));
    }
    (nonces, rows)
}

} // verus!
