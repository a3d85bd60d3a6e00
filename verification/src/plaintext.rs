//! Scoring without encryption: a query probes the clusters whose centroids are nearest and ranks
//! their vectors by distance.

use std::sync::Arc;

use vstd::prelude::*;

use crate::bytes;
use crate::bytes::{number, text};
use crate::gpu::store::ClusterStoreError;
use crate::hits::Hit;
use crate::ivf;
use crate::probing;
use crate::probing::probe;
use crate::scoring;
use crate::scoring::{estimate_probing_cost, realise_probing_cost, CommunicationCost, Device, Obtained};

verus! {

/// How vectors are clustered and probed.
pub struct PlaintextConfig {
    /// Number of clusters.
    pub n_centroids: usize,
    /// Clusters that a query probes.
    pub nprobe: usize,
    /// Seed of the training.
    pub train_seed: u64,
    /// Rounds of the training.
    pub max_iter: usize,
    /// Where distances are computed.
    pub device: Device,
    /// Bytes of a graphics card's memory to use; found out if absent.
    pub vram_budget_bytes: Option<u64>,
}

impl Default for PlaintextConfig {
    fn default() -> (config: Self)
        ensures
            config.n_centroids == 16,
            config.nprobe == 4,
            config.train_seed == 42,
            config.max_iter == 25,
            config.device == Device::Cpu,
            config.vram_budget_bytes is None,
    {
        PlaintextConfig {
            n_centroids: 16,
            nprobe: 4,
            train_seed: 42,
            max_iter: 25,
            device: Device::Cpu,
            vram_budget_bytes: None,
        }
    }
}

/// An error of the graphics card.
#[derive(Debug)]
pub enum GpuError {
    /// The search library reported an error.
    Cuvs(String),
    /// The budget could not be found out.
    Budget(String),
    /// The memory in use could not be watched.
    Sampler(String),
    /// The driver reported an error.
    Driver(String),
    /// A cluster does not fit.
    BudgetTooSmall {
        /// Bytes that may be used.
        budget_bytes: u64,
        /// Bytes that the cluster takes.
        requested_bytes: u64,
    },
}

/// The error of the graphics card that stands for an error of the store.
pub open spec fn gpu_error_of(e: ClusterStoreError<String>) -> GpuError {
    match e {
        ClusterStoreError::Upload(message) => GpuError::Cuvs(message),
        ClusterStoreError::BudgetTooSmall { budget_bytes, requested_bytes } => {
            GpuError::BudgetTooSmall { budget_bytes, requested_bytes }
        },
        ClusterStoreError::Sync(message) => GpuError::Cuvs(message),
    }
}

/// Reports an error of the store as an error of the graphics card.
pub fn gpu_error(e: ClusterStoreError<String>) -> (r: GpuError)
    ensures
        r == gpu_error_of(e),
{
    match e {
        ClusterStoreError::Upload(message) => GpuError::Cuvs(message),
        ClusterStoreError::BudgetTooSmall { budget_bytes, requested_bytes } => {
            GpuError::BudgetTooSmall { budget_bytes, requested_bytes }
        },
        ClusterStoreError::Sync(message) => GpuError::Cuvs(message),
    }
}

/// Why vectors could not be uploaded or scored.
#[derive(Debug)]
pub enum PlaintextError {
    /// There is no vector.
    EmptyCluster,
    /// There are more clusters than vectors.
    TooManyCentroids(usize),
    /// A query has another number of components than the vectors.
    DimensionMismatch {
        /// Components of the query.
        query_dim: usize,
        /// Components of the vectors.
        index_dim: usize,
    },
    /// The work could not be done.
    TaskPanic,
    /// A graphics card was asked for and cannot be used.
    GpuFeatureNotEnabled,
    /// The graphics card reported an error.
    Gpu(GpuError),
}

/// How long the steps of a query took.
#[derive(Debug, Clone, Copy, Default)]
pub struct PlaintextTiming {
    /// Microseconds for picking the clusters.
    pub route_us: u64,
    /// Microseconds for the distances.
    pub distance_us: u64,
    /// Microseconds for ranking.
    pub merge_us: u64,
}

/// Whether vectors can be uploaded: there must be some, no fewer than clusters.
pub fn validate_upload(config: &PlaintextConfig, n_vectors: usize) -> (r: Result<
    (),
    PlaintextError,
>)
    ensures
        n_vectors == 0 ==> r == Err::<(), PlaintextError>(PlaintextError::EmptyCluster),
        0 < n_vectors < config.n_centroids ==> r == Err::<(), PlaintextError>(
            PlaintextError::TooManyCentroids(config.n_centroids),
        ),
        r is Ok <==> 0 < n_vectors && config.n_centroids <= n_vectors,
{
    if n_vectors == 0 {
        return Err(PlaintextError::EmptyCluster);
    }
    if config.n_centroids > n_vectors {
        return Err(PlaintextError::TooManyCentroids(config.n_centroids));
    }
    Ok(())
}

/// What an index depends on.
#[derive(Debug, Clone, Copy, PartialEq, Eq, Structural)]
pub struct IndexKey {
    /// Number of clusters.
    pub n_centroids: usize,
    /// Seed of the training.
    pub train_seed: u64,
    /// Rounds of the training.
    pub max_iter: usize,
    /// Number of vectors.
    pub n_vectors: usize,
}

/// The key of an index. How many clusters a query probes has no part in it.
pub open spec fn index_key(config: PlaintextConfig, n_vectors: usize) -> IndexKey {
    IndexKey {
        n_centroids: config.n_centroids,
        train_seed: config.train_seed,
        max_iter: config.max_iter,
        n_vectors,
    }
}

/// Picks what an index depends on.
pub fn key_of(config: &PlaintextConfig, n_vectors: usize) -> (key: IndexKey)
    ensures
        key == index_key(*config, n_vectors),
{
    IndexKey {
        n_centroids: config.n_centroids,
        train_seed: config.train_seed,
        max_iter: config.max_iter,
        n_vectors,
    }
}

/// What an index is fingerprinted by.
pub open spec fn cache_parts_of(key: IndexKey) -> Seq<Seq<u8>> {
    seq![
        bytes::text_bytes("plaintext-ivf"@),
        bytes::le64(key.n_centroids as u64),
        bytes::le64(key.train_seed),
        bytes::le64(key.max_iter as u64),
        bytes::le64(key.n_vectors as u64),
    ]
}

/// The parts that a stored index is fingerprinted by.
pub fn cache_parts(key: &IndexKey) -> (parts: Vec<Vec<u8>>)
    ensures
        bytes::contents(parts@) == cache_parts_of(*key),
{
    let mut parts: Vec<Vec<u8>> = Vec::with_capacity(5);
    parts.push(text("plaintext-ivf"));
    parts.push(number(key.n_centroids as u64));
    parts.push(number(key.train_seed));
    parts.push(number(key.max_iter as u64));
    parts.push(number(key.n_vectors as u64));
    assert(bytes::contents(parts@) =~= cache_parts_of(*key));
    parts
}

/// Uploads vectors and keeps the index of the last upload, which the caller obtains.
pub struct PlaintextScorer<T> {
    cache: Option<(IndexKey, Arc<T>)>,
}

impl<T> PlaintextScorer<T> {
    /// The index that is kept, and what it depends on.
    pub closed spec fn view(&self) -> Option<(IndexKey, Arc<T>)> {
        self.cache
    }

    /// A scorer that keeps nothing yet.
    pub fn new() -> (scorer: Self)
        ensures
            scorer.view() is None,
    {
        PlaintextScorer { cache: None }
    }

    /// The index that is kept, if it is the one of a key.
    pub fn recall(&self, key: IndexKey) -> (r: Option<Arc<T>>)
        ensures
            r == (match self.view() {
                Some((kept, index)) if kept == key => Some(index),
                _ => None,
            }),
    {
        match &self.cache {
            None => None,
            Some((kept, index)) => if *kept == key {
                Some(Arc::clone(index))
            } else {
                None
            },
        }
    }

    /// Ends an upload: keeps the index that was obtained in place of the one before, and gives it
    /// with whether it was kept or stored before.
    pub fn finish_upload(
        &mut self,
        key: IndexKey,
        obtained: Obtained<T>,
        device: Device,
        gpu_enabled: bool,
    ) -> (r: Result<(Arc<T>, bool), PlaintextError>)
        requires
            obtained is Kept ==> (old(self).view() matches Some((kept, _)) && kept == key),
        ensures
            final(self).view() == (match obtained {
                Obtained::Kept => old(self).view(),
                Obtained::Stored(index) => Some((key, Arc::new(index))),
                Obtained::Built(index) => Some((key, Arc::new(index))),
            }),
            device == Device::Gpu && !gpu_enabled ==> r == Err::<(Arc<T>, bool), PlaintextError>(
                PlaintextError::GpuFeatureNotEnabled,
            ),
            device == Device::Cpu || gpu_enabled ==> r == Ok::<(Arc<T>, bool), PlaintextError>(
                (final(self).view().unwrap().1, !(obtained is Built)),
            ),
    {
        let mut hit: bool = true;
        match obtained {
            Obtained::Kept => {},
            Obtained::Stored(index) => {
                self.cache = Some((key, Arc::new(index)));
            },
            Obtained::Built(index) => {
                hit = false;
                self.cache = Some((key, Arc::new(index)));
            },
        }
        let index: Arc<T> = self.recall(key).unwrap();
        match device {
            Device::Cpu => Ok((index, hit)),
            Device::Gpu => if gpu_enabled {
                Ok((index, hit))
            } else {
                Err(PlaintextError::GpuFeatureNotEnabled)
            },
        }
    }
}

/// Scores a query. Its distances from the centroids are given, and `distances_in` finds the
/// vectors of a cluster with their distances. Gives the nearest `k` vectors of the probed clusters,
/// and these clusters.
pub fn score<F: Fn(usize) -> Vec<(u32, u32)> + Sync + Send>(
    query_dim: usize,
    index_dim: usize,
    centroid_distances: &[u32],
    nprobe: usize,
    distances_in: F,
    k: usize,
) -> (r: Result<(Vec<Hit>, Vec<usize>), PlaintextError>)
    requires
        forall|c: usize| c < centroid_distances@.len() ==> call_requires(distances_in, (c,)),
    ensures
        query_dim != index_dim ==> r == Err::<(Vec<Hit>, Vec<usize>), PlaintextError>(
            PlaintextError::DimensionMismatch { query_dim, index_dim },
        ),
        query_dim == index_dim ==> (r matches Ok((best, route)) && route@ == ivf::routed(
            centroid_distances@,
            nprobe as int,
        ) && probing::are_nearest(probing::found_by(&distances_in), route@, k as int, best@)),
{
    if query_dim != index_dim {
        return Err(PlaintextError::DimensionMismatch { query_dim, index_dim });
    }
    Ok(probe(centroid_distances, nprobe, distances_in, k))
}

/// The first query whose number of components is not that of the vectors.
pub fn check_dimensions(query_dims: &[usize], index_dim: usize) -> (r: Result<(), PlaintextError>)
    ensures
        r is Ok <==> forall|q: int|
            0 <= q < query_dims@.len() ==> #[trigger] query_dims@[q] == index_dim,
        forall|q: int|
            0 <= q < query_dims@.len() && #[trigger] query_dims@[q] != index_dim && (forall|t: int|
                0 <= t < q ==> query_dims@[t] == index_dim) ==> r == Err::<(), PlaintextError>(
                PlaintextError::DimensionMismatch { query_dim: query_dims@[q], index_dim },
            ),
{
    for q in 0..query_dims.len()
        invariant
            forall|t: int| 0 <= t < q ==> #[trigger] query_dims@[t] == index_dim,
    {
        if query_dims[q] != index_dim {
            return Err(PlaintextError::DimensionMismatch { query_dim: query_dims[q], index_dim });
        }
    }
    Ok(())
}

/// Estimates the bytes that a query moves, by the mean size of the clusters. A component is sent as
/// four bytes.
pub fn communication_cost(sizes: &[usize], nprobe: usize, dim: usize, k: usize) -> (cost:
    CommunicationCost)
    requires
        scoring::probing_cost_fits(sizes@, nprobe, dim, 4),
    ensures
        cost == scoring::probing_cost(sizes@, nprobe, dim, 4, k),
{
    estimate_probing_cost(sizes, nprobe, dim, 4, k)
}

/// The bytes that a query moved, by the sizes of the clusters that it probed.
pub fn realise_cost(estimate: CommunicationCost, probed: &[usize], dim: usize, k: usize) -> (cost:
    CommunicationCost)
    requires
        scoring::total(probed@, probed@.len() as int) * 8 <= u64::MAX,
        dim * 4 <= u64::MAX,
        scoring::total(probed@, probed@.len() as int) * (dim * 4) <= u64::MAX,
    ensures
        cost == scoring::realised_cost(estimate, probed@, dim, k),
{
    realise_probing_cost(estimate, probed, dim, k)
}

/// Indexes have one key exactly if the clustering and the number of vectors are the same.
pub proof fn keys_tell_indexes_apart(
    one: PlaintextConfig,
    other: PlaintextConfig,
    n: usize,
    m: usize,
)
    ensures
        index_key(one, n) == index_key(other, m) <==> one.n_centroids == other.n_centroids
            && one.train_seed == other.train_seed && one.max_iter == other.max_iter && n == m,
{
}

/// The parts that an index is fingerprinted by are the same exactly if its key is.
pub proof fn parts_tell_keys_apart(one: IndexKey, other: IndexKey)
    ensures
        cache_parts_of(one) == cache_parts_of(other) <==> one == other,
{
    let a = cache_parts_of(one);
    let b = cache_parts_of(other);
    bytes::lemma_numbers();
    if a == b {
        assert(a[1] == b[1] && a[2] == b[2] && a[3] == b[3] && a[4] == b[4]);
    }
}

/// Nothing of an error of the store is lost when it is reported as one of the graphics card: its
/// message, or the bytes that may be used and those that were asked for.
pub proof fn errors_of_the_store_are_reported(
    message: String,
    budget_bytes: u64,
    requested_bytes: u64,
)
    ensures
        gpu_error_of(ClusterStoreError::Upload(message)) == GpuError::Cuvs(message),
        gpu_error_of(ClusterStoreError::Sync(message)) == GpuError::Cuvs(message),
        gpu_error_of(ClusterStoreError::BudgetTooSmall { budget_bytes, requested_bytes })
            == (GpuError::BudgetTooSmall { budget_bytes, requested_bytes }),
{
}

} // verus!
