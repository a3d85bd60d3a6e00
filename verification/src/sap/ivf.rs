//! Scoring of clusters: a query probes the clusters whose centroids are nearest. Centroids are not
//! encrypted; the vectors of the clusters are.

use std::sync::Arc;

use vstd::prelude::*;

use crate::bytes;
use crate::bytes::{number, put_u64, text};
use crate::float_bits;
use crate::float_bits::is_below_zero_64;
use crate::hits;
use crate::hits::Hit;
use crate::ivf;
use crate::parallel::parallel_map;
use crate::prng;
use crate::prng::draw_nonce;
use crate::probing;
use crate::probing::probe;
use crate::sap::crypto;
use crate::sap::crypto::{derive_nonce, SapKey};
use crate::sap::gpu::GpuError;
use crate::scoring;
use crate::scoring::{estimate_probing_cost, realise_probing_cost, CommunicationCost, Device, Obtained};

verus! {

/// How vectors are clustered, encrypted and probed.
pub struct SapIvfConfig {
    /// The key.
    pub key: SapKey,
    /// How much vectors are moved, as the bits of a double-precision number.
    pub beta: u64,
    /// Seed of the nonces.
    pub upload_seed: u64,
    /// Number of clusters.
    pub n_centroids: usize,
    /// Clusters that a query probes.
    pub nprobe: usize,
    /// Seed of the training.
    pub train_seed: u64,
    /// Rounds of the training.
    pub max_iter: usize,
    /// Where distances are computed.
    pub device: Device,
    /// Bytes of a graphics card's memory to use; found out if absent.
    pub vram_budget_bytes: Option<u64>,
}

/// Why vectors could not be uploaded or scored.
#[derive(Debug)]
pub enum SapIvfError {
    /// There is no vector.
    EmptyCluster,
    /// There are more clusters than vectors.
    TooManyCentroids(usize),
    /// Vectors would be moved by less than nothing. Holds the bits of the number.
    InvalidBeta(u64),
    /// A query has another number of components than the vectors.
    DimensionMismatch {
        /// Components of the query.
        query_dim: usize,
        /// Components of the vectors.
        index_dim: usize,
    },
    /// The work could not be done.
    TaskPanic,
    /// A graphics card was asked for and cannot be used.
    GpuFeatureNotEnabled,
    /// The graphics card reported an error.
    Gpu(GpuError),
}

/// How long the steps of a query took.
#[derive(Debug, Clone, Copy, Default)]
pub struct SapIvfTiming {
    /// Microseconds for encrypting the query.
    pub encode_us: u64,
    /// Microseconds for picking the clusters.
    pub route_us: u64,
    /// Microseconds for the distances.
    pub distance_us: u64,
    /// Microseconds for ranking.
    pub merge_us: u64,
}

/// Whether vectors can be uploaded: there must be some, no fewer than clusters, and they must not be
/// moved by less than nothing.
pub fn validate_upload(config: &SapIvfConfig, n_vectors: usize) -> (r: Result<(), SapIvfError>)
    ensures
        n_vectors == 0 ==> r == Err::<(), SapIvfError>(SapIvfError::EmptyCluster),
        0 < n_vectors < config.n_centroids ==> r == Err::<(), SapIvfError>(
            SapIvfError::TooManyCentroids(config.n_centroids),
        ),
        0 < n_vectors && config.n_centroids <= n_vectors && float_bits::below_zero_64(config.beta)
            ==> r == Err::<(), SapIvfError>(SapIvfError::InvalidBeta(config.beta)),
        r is Ok <==> 0 < n_vectors && config.n_centroids <= n_vectors
            && !float_bits::below_zero_64(config.beta),
{
    if n_vectors == 0 {
        return Err(SapIvfError::EmptyCluster);
    }
    if config.n_centroids > n_vectors {
        return Err(SapIvfError::TooManyCentroids(config.n_centroids));
    }
    if is_below_zero_64(config.beta) {
        return Err(SapIvfError::InvalidBeta(config.beta));
    }
    Ok(())
}

/// What a kept index is found by.
#[derive(Clone, Copy)]
pub struct IndexKey {
    /// Number of clusters.
    pub n_centroids: usize,
    /// Seed of the training.
    pub train_seed: u64,
    /// Rounds of the training.
    pub max_iter: usize,
    /// Number of vectors.
    pub n_vectors: usize,
    /// How much vectors are moved, as bits.
    pub beta: u64,
    /// Seed of the nonces.
    pub upload_seed: u64,
    /// The scale of the encryption, as bits.
    pub s: u64,
    /// The key of the perturbations.
    pub prf_key: [u8; 32],
}

impl PartialEq for IndexKey {
    fn eq(&self, other: &Self) -> (r: bool) {
        let mut same: bool = self.n_centroids == other.n_centroids && self.train_seed
            == other.train_seed && self.max_iter == other.max_iter && self.n_vectors
            == other.n_vectors && self.beta == other.beta && self.upload_seed == other.upload_seed
            && self.s == other.s;
        for i in 0..32
            invariant
                same ==> self.n_centroids == other.n_centroids && self.train_seed
                    == other.train_seed && self.max_iter == other.max_iter && self.n_vectors
                    == other.n_vectors && self.beta == other.beta && self.upload_seed
                    == other.upload_seed && self.s == other.s,
                same ==> forall|j: int| 0 <= j < i ==> self.prf_key@[j] == other.prf_key@[j],
                !same ==> *self != *other,
        {
            if self.prf_key[i] != other.prf_key[i] {
                assert(self.prf_key@[i as int] != other.prf_key@[i as int]);
                same = false;
            }
        }
        assert(same ==> self.prf_key =~= other.prf_key);
        same
    }
}

impl Eq for IndexKey {

}

impl vstd::std_specs::cmp::PartialEqSpecImpl for IndexKey {
    open spec fn obeys_eq_spec() -> bool {
        true
    }

    open spec fn eq_spec(&self, other: &Self) -> bool {
        *self == *other
    }
}

/// The key of an index. The key of the encryption has a part in it, and how many clusters a query
/// probes has none.
pub open spec fn index_key(config: SapIvfConfig, n_vectors: usize) -> IndexKey {
    IndexKey {
        n_centroids: config.n_centroids,
        train_seed: config.train_seed,
        max_iter: config.max_iter,
        n_vectors,
        beta: config.beta,
        upload_seed: config.upload_seed,
        s: config.key.s,
        prf_key: config.key.prf_key,
    }
}

/// Picks what a kept index is found by.
pub fn key_of(config: &SapIvfConfig, n_vectors: usize) -> (key: IndexKey)
    ensures
        key == index_key(*config, n_vectors),
{
    IndexKey {
        n_centroids: config.n_centroids,
        train_seed: config.train_seed,
        max_iter: config.max_iter,
        n_vectors,
        beta: config.beta,
        upload_seed: config.upload_seed,
        s: config.key.s,
        prf_key: config.key.prf_key,
    }
}

/// What an index is fingerprinted by.
pub open spec fn cache_parts_of(config: SapIvfConfig, n_vectors: usize) -> Seq<Seq<u8>> {
    seq![
        bytes::text_bytes("sap-ivf-v2"@),
        bytes::le64(config.n_centroids as u64),
        bytes::le64(config.train_seed),
        bytes::le64(config.max_iter as u64),
        bytes::le64(n_vectors as u64),
        bytes::le64(config.beta),
        bytes::le64(config.upload_seed),
        bytes::le64(config.key.s) + config.key.prf_key@,
    ]
}

/// The parts that a stored index is fingerprinted by, the key among them.
pub fn cache_parts(config: &SapIvfConfig, n_vectors: usize) -> (parts: Vec<Vec<u8>>)
    ensures
        bytes::contents(parts@) == cache_parts_of(*config, n_vectors),
{
    let mut parts: Vec<Vec<u8>> = Vec::with_capacity(8);
    parts.push(text("sap-ivf-v2"));
    parts.push(number(config.n_centroids as u64));
    parts.push(number(config.train_seed));
    parts.push(number(config.max_iter as u64));
    parts.push(number(n_vectors as u64));
    parts.push(number(config.beta));
    parts.push(number(config.upload_seed));
    let mut key: Vec<u8> = Vec::with_capacity(40);
    put_u64(&mut key, config.key.s);
    key.extend_from_slice(config.key.prf_key.as_slice());
    parts.push(key);
    assert(bytes::contents(parts@)[7] =~= cache_parts_of(*config, n_vectors)[7]);
    assert(bytes::contents(parts@) =~= cache_parts_of(*config, n_vectors));
    parts
}

/// Indexes under keys with different fingerprinted keys have different parts.
pub proof fn keys_have_different_parts(one: SapIvfConfig, other: SapIvfConfig, n: usize, m: usize)
    requires
        one.key.s != other.key.s || one.key.prf_key@ != other.key.prf_key@,
    ensures
        cache_parts_of(one, n) != cache_parts_of(other, m),
{
    bytes::lemma_numbers();
    if cache_parts_of(one, n) == cache_parts_of(other, m) {
        let a = cache_parts_of(one, n)[7];
        let b = cache_parts_of(other, m)[7];
        assert(a == b);
        assert(a.take(8) =~= bytes::le64(one.key.s));
        assert(b.take(8) =~= bytes::le64(other.key.s));
        assert(a.skip(8) =~= one.key.prf_key@);
        assert(b.skip(8) =~= other.key.prf_key@);
    }
}

/// An index that is kept under one key of the encryption is not found under another.
pub proof fn keys_have_different_indexes(one: SapIvfConfig, other: SapIvfConfig, n: usize, m: usize)
    requires
        one.key.s != other.key.s || one.key.prf_key != other.key.prf_key,
    ensures
        index_key(one, n) != index_key(other, m),
{
}

/// What `encrypt` makes of row `i` of cluster `c` with the nonce that is derived for its vector.
pub open spec fn is_encrypted<T, E: Fn(usize, usize, [u8; 16]) -> T>(
    encrypt: &E,
    upload_seed: u64,
    ids: Seq<u32>,
    c: usize,
    i: usize,
    row: T,
) -> bool {
    exists|nonce: [u8; 16]|
        nonce@ == crypto::nonce_of(upload_seed, ids[i as int] as u64) && #[trigger] call_ensures(
            *encrypt,
            (c, i, nonce),
            row,
        )
}

/// A cluster whose rows are all encrypted.
pub open spec fn cluster_is_encrypted<T, E: Fn(usize, usize, [u8; 16]) -> T>(
    encrypt: &E,
    upload_seed: u64,
    ids: Seq<u32>,
    c: usize,
    rows: Seq<T>,
) -> bool {
    &&& rows.len() == ids.len()
    &&& forall|i: int|
        0 <= i < rows.len() ==> is_encrypted(
            encrypt,
            upload_seed,
            ids,
            c,
            i as usize,
            #[trigger] rows[i],
        )
}

/// Encrypts the rows of a cluster one after the other. A row's nonce depends on the seed and the
/// number of its vector in the corpus, not on where it stands.
fn encrypt_cluster<T, E: Fn(usize, usize, [u8; 16]) -> T>(
    ids: &[u32],
    upload_seed: u64,
    c: usize,
    encrypt: &E,
) -> (rows: Vec<T>)
    requires
        forall|i: usize, nonce: [u8; 16]| i < ids@.len() ==> call_requires(*encrypt, (c, i, nonce)),
    ensures
        cluster_is_encrypted(encrypt, upload_seed, ids@, c, rows@),
{
    let mut rows: Vec<T> = Vec::with_capacity(ids.len());
    for i in 0..ids.len()
        invariant
            forall|i: usize, nonce: [u8; 16]|
                i < ids@.len() ==> call_requires(*encrypt, (c, i, nonce)),
            rows@.len() == i,
            forall|t: int|
                0 <= t < i ==> is_encrypted(
                    encrypt,
                    upload_seed,
                    ids@,
                    c,
                    t as usize,
                    #[trigger] rows@[t],
                ),
    {
        let nonce: [u8; 16] = derive_nonce(upload_seed, ids[i] as u64);
        let row: T = encrypt(c, i, nonce);
        assert(is_encrypted(encrypt, upload_seed, ids@, c, i, row));
        rows.push(row);
    }
    rows
}

/// Encrypts clusters, whose vectors are given by their numbers in the corpus, in parallel.
pub fn encrypt_clusters<T: Send, E: Fn(usize, usize, [u8; 16]) -> T + Sync + Send>(
    clusters: &[Vec<u32>],
    upload_seed: u64,
    encrypt: E,
) -> (r: Vec<Vec<T>>)
    requires
        forall|c: usize, i: usize, nonce: [u8; 16]|
            c < clusters@.len() && i < clusters@[c as int]@.len() ==> call_requires(
                encrypt,
                (c, i, nonce),
            ),
    ensures
        r@.len() == clusters@.len(),
        forall|c: int|
            0 <= c < clusters@.len() ==> cluster_is_encrypted(
                &encrypt,
                upload_seed,
                clusters@[c]@,
                c as usize,
                (#[trigger] r@[c])@,
            ),
{
    let n: usize = clusters.len();
    let r: Vec<Vec<T>> = parallel_map(
        n,
        |c: usize| -> (rows: Vec<T>)
            requires
                n > c,
            ensures
                is_encrypted_cluster(&encrypt, upload_seed, clusters@, c, rows@)
            { encrypt_cluster(&clusters[c], upload_seed, c, &encrypt) },
    );
    assert forall|c: int| 0 <= c < clusters@.len() implies cluster_is_encrypted(
        &encrypt,
        upload_seed,
        clusters@[c]@,
        c as usize,
        (#[trigger] r@[c])@,
    ) by {
        assert(r@[c] == r@[(c as usize) as int]);
    }
    r
}

/// Cluster `c` of several, with its rows encrypted.
pub open spec fn is_encrypted_cluster<T, E: Fn(usize, usize, [u8; 16]) -> T>(
    encrypt: &E,
    upload_seed: u64,
    clusters: Seq<Vec<u32>>,
    c: usize,
    rows: Seq<T>,
) -> bool {
    cluster_is_encrypted(encrypt, upload_seed, clusters[c as int]@, c, rows)
}

/// Uploads vectors and keeps the index of the last upload, which the caller obtains.
pub struct SapIvfScorer<T> {
    cache: Option<(IndexKey, Arc<T>)>,
}

impl<T> SapIvfScorer<T> {
    /// The index that is kept, and what it is found by.
    pub closed spec fn view(&self) -> Option<(IndexKey, Arc<T>)> {
        self.cache
    }

    /// A scorer that keeps nothing yet.
    pub fn new() -> (scorer: Self)
        ensures
            scorer.view() is None,
    {
        SapIvfScorer { cache: None }
    }

    /// The index that is kept, if it is the one of a key. Another one is let go, so that it is gone
    /// before the next is built.
    pub fn recall(&mut self, key: IndexKey) -> (r: Option<Arc<T>>)
        ensures
            match old(self).view() {
                Some((kept, index)) if kept == key => {
                    r == Some(index) && final(self).view() == old(self).view()
                },
                _ => r is None && final(self).view() is None,
            },
    {
        match &self.cache {
            None => None,
            Some((kept, index)) => if *kept == key {
                Some(Arc::clone(index))
            } else {
                self.cache = None;
                None
            },
        }
    }

    /// Ends an upload: keeps the index that was obtained, and gives it with whether it was kept or
    /// stored before.
    pub fn finish_upload(
        &mut self,
        key: IndexKey,
        obtained: Obtained<T>,
        device: Device,
        gpu_enabled: bool,
    ) -> (r: Result<(Arc<T>, bool), SapIvfError>)
        requires
            obtained is Kept ==> (old(self).view() matches Some((kept, _)) && kept == key),
        ensures
            final(self).view() == (match obtained {
                Obtained::Kept => old(self).view(),
                Obtained::Stored(index) => Some((key, Arc::new(index))),
                Obtained::Built(index) => Some((key, Arc::new(index))),
            }),
            device == Device::Gpu && !gpu_enabled ==> r == Err::<(Arc<T>, bool), SapIvfError>(
                SapIvfError::GpuFeatureNotEnabled,
            ),
            device == Device::Cpu || gpu_enabled ==> r == Ok::<(Arc<T>, bool), SapIvfError>(
                (final(self).view().unwrap().1, !(obtained is Built)),
            ),
    {
        let mut hit: bool = true;
        match obtained {
            Obtained::Kept => {},
            Obtained::Stored(index) => {
                self.cache = Some((key, Arc::new(index)));
            },
            Obtained::Built(index) => {
                hit = false;
                self.cache = Some((key, Arc::new(index)));
            },
        }
        let index: Arc<T> = self.recall(key).unwrap();
        match device {
            Device::Cpu => Ok((index, hit)),
            Device::Gpu => if gpu_enabled {
                Ok((index, hit))
            } else {
                Err(SapIvfError::GpuFeatureNotEnabled)
            },
        }
    }
}

/// What a function may find in a cluster for an encrypted query.
pub open spec fn found_by<S, F: Fn(&S, usize) -> Vec<(u32, u32)>>(
    distances_in: &F,
    sealed: S,
) -> spec_fn(usize, Vec<(u32, u32)>) -> bool {
    |c: usize, found: Vec<(u32, u32)>| call_ensures(*distances_in, (&sealed, c), found)
}

/// What a function may find in a cluster for an encrypted query.
pub open spec fn is_found<S, F: Fn(&S, usize) -> Vec<(u32, u32)>>(
    distances_in: &F,
    sealed: &S,
    c: usize,
    found: Vec<(u32, u32)>,
) -> bool {
    call_ensures(*distances_in, (sealed, c), found)
}

/// The nearest vectors of a route, for a query that was encrypted with some nonce.
pub open spec fn are_nearest<
    S,
    E: FnOnce([u8; 16]) -> S,
    F: Fn(&S, usize) -> Vec<(u32, u32)>,
>(encrypt: E, distances_in: &F, route: Seq<usize>, k: int, nearest: Seq<Hit>) -> bool {
    exists|nonce: [u8; 16], sealed: S|
        {
            &&& #[trigger] call_ensures(encrypt, (nonce,), sealed)
            &&& probing::are_nearest(found_by(distances_in, sealed), route, k, nearest)
        }
}

/// What a function may make of a nonce that is drawn.
pub open spec fn is_sealed<S, E: FnOnce([u8; 16]) -> S>(encrypt: E, sealed: S) -> bool {
    exists|nonce: [u8; 16]| #[trigger] call_ensures(encrypt, (nonce,), sealed)
}

/// Encrypts a query with a nonce that is drawn.
pub fn encrypt_query<S, E: FnOnce([u8; 16]) -> S>(
    query_dim: usize,
    index_dim: usize,
    encrypt: E,
) -> (r: Result<S, SapIvfError>)
    requires
        forall|nonce: [u8; 16]| call_requires(encrypt, (nonce,)),
    ensures
        query_dim != index_dim ==> r == Err::<S, SapIvfError>(
            SapIvfError::DimensionMismatch { query_dim, index_dim },
        ),
        query_dim == index_dim ==> r is Ok && is_sealed(encrypt, r->Ok_0),
{
    if query_dim != index_dim {
        return Err(SapIvfError::DimensionMismatch { query_dim, index_dim });
    }
    let nonce: [u8; 16] = draw_nonce();
    let sealed: S = encrypt(nonce);
    assert(call_ensures(encrypt, (nonce,), sealed));
    Ok(sealed)
}

/// Scores a query. The distances of the query, not encrypted, from the centroids are given. It is
/// encrypted with a nonce that is drawn, and `distances_in` finds the vectors of a cluster with
/// their distances from the encrypted query. Gives the nearest `k` vectors of the probed clusters,
/// and these clusters.
pub fn score<
    S: Sync,
    E: FnOnce([u8; 16]) -> S,
    F: Fn(&S, usize) -> Vec<(u32, u32)> + Sync + Send,
>(
    query_dim: usize,
    index_dim: usize,
    centroid_distances: &[u32],
    nprobe: usize,
    encrypt: E,
    distances_in: F,
    k: usize,
) -> (r: Result<(Vec<Hit>, Vec<usize>), SapIvfError>)
    requires
        forall|nonce: [u8; 16]| call_requires(encrypt, (nonce,)),
        forall|sealed: &S, c: usize|
            c < centroid_distances@.len() ==> call_requires(distances_in, (sealed, c)),
    ensures
        query_dim != index_dim ==> r == Err::<(Vec<Hit>, Vec<usize>), SapIvfError>(
            SapIvfError::DimensionMismatch { query_dim, index_dim },
        ),
        query_dim == index_dim ==> (r matches Ok((nearest, route)) && route@ == ivf::routed(
            centroid_distances@,
            nprobe as int,
        ) && are_nearest(encrypt, &distances_in, route@, k as int, nearest@)),
{
    let sealed: S = match encrypt_query(query_dim, index_dim, encrypt) {
        Ok(sealed) => sealed,
        Err(e) => {
            return Err(e);
        },
    };
    let n: usize = centroid_distances.len();
    let search = |c: usize| -> (found: Vec<(u32, u32)>)
        requires
            n > c,
        ensures
            is_found(&distances_in, &sealed, c, found)
        { distances_in(&sealed, c) };
    let (nearest, route): (Vec<Hit>, Vec<usize>) = probe(centroid_distances, nprobe, search, k);
    proof {
        probing::lemma_may_find_more(
            probing::found_by(&search),
            found_by(&distances_in, sealed),
            route@,
            k as int,
            nearest@,
        );
    }
    Ok((nearest, route))
}

/// Whether all queries have as many components as the vectors; else the first that has not.
pub fn check_dimensions(query_dims: &[usize], index_dim: usize) -> (r: Result<(), SapIvfError>)
    ensures
        r is Ok <==> forall|q: int|
            0 <= q < query_dims@.len() ==> #[trigger] query_dims@[q] == index_dim,
        forall|q: int|
            0 <= q < query_dims@.len() && #[trigger] query_dims@[q] != index_dim && (forall|t: int|
                0 <= t < q ==> query_dims@[t] == index_dim) ==> r == Err::<(), SapIvfError>(
                SapIvfError::DimensionMismatch { query_dim: query_dims@[q], index_dim },
            ),
{
    for q in 0..query_dims.len()
        invariant
            forall|t: int| 0 <= t < q ==> #[trigger] query_dims@[t] == index_dim,
    {
        if query_dims[q] != index_dim {
            return Err(SapIvfError::DimensionMismatch { query_dim: query_dims[q], index_dim });
        }
    }
    Ok(())
}

/// Estimates the bytes that a query moves, by the mean size of the clusters. A component is sent as
/// eight bytes.
pub fn communication_cost(sizes: &[usize], nprobe: usize, dim: usize, k: usize) -> (cost:
    CommunicationCost)
    requires
        scoring::probing_cost_fits(sizes@, nprobe, dim, 8),
    ensures
        cost == scoring::probing_cost(sizes@, nprobe, dim, 8, k),
{
    estimate_probing_cost(sizes, nprobe, dim, 8, k)
}

/// The bytes that a query moved, by the sizes of the clusters that it probed.
pub fn realise_cost(estimate: CommunicationCost, probed: &[usize], dim: usize, k: usize) -> (cost:
    CommunicationCost)
    requires
        scoring::total(probed@, probed@.len() as int) * 8 <= u64::MAX,
        dim * 4 <= u64::MAX,
        scoring::total(probed@, probed@.len() as int) * (dim * 4) <= u64::MAX,
    ensures
        cost == scoring::realised_cost(estimate, probed@, dim, k),
{
    realise_probing_cost(estimate, probed, dim, k)
}

/// A row of a cluster is made of its own vector, with a nonce whose bytes are drawn from the stream
/// of the seed changed by the number of the vector in the corpus. Gives the nonce.
pub proof fn rows_are_made_of_their_vectors<T, E: Fn(usize, usize, [u8; 16]) -> T>(
    encrypt: &E,
    upload_seed: u64,
    ids: Seq<u32>,
    c: usize,
    rows: Seq<T>,
    i: usize,
) -> (nonce: [u8; 16])
    requires
        cluster_is_encrypted(encrypt, upload_seed, ids, c, rows),
        i < ids.len(),
    ensures
        rows.len() == ids.len(),
        call_ensures(*encrypt, (c, i, nonce), rows[i as int]),
        forall|t: int|
            0 <= t < 16 ==> (#[trigger] nonce@[t]) as int == prng::chacha20_word(
                prng::expanded_seed(upload_seed ^ (ids[i as int] as u64)),
                t as nat,
            ) as int % 256,
{
    assert(is_encrypted(encrypt, upload_seed, ids, c, i, rows[i as int]));
    choose|nonce: [u8; 16]|
        nonce@ == crypto::nonce_of(upload_seed, ids[i as int] as u64) && #[trigger] call_ensures(
            *encrypt,
            (c, i, nonce),
            rows[i as int],
        )
}

/// A query is encrypted once, with a nonce that is drawn; every cluster of its route is searched with
/// what that gives; and its hits are the nearest of what is found. Gives the nonce, the encrypted
/// query and what was found.
pub proof fn queries_search_every_cluster_of_the_route<
    S,
    E: FnOnce([u8; 16]) -> S,
    F: Fn(&S, usize) -> Vec<(u32, u32)>,
>(encrypt: E, distances_in: &F, route: Seq<usize>, k: int, nearest: Seq<Hit>) -> (r: (
    [u8; 16],
    S,
    Seq<Vec<(u32, u32)>>,
))
    requires
        are_nearest(encrypt, distances_in, route, k, nearest),
    ensures
        call_ensures(encrypt, (r.0,), r.1),
        r.2.len() == route.len(),
        forall|i: int|
            0 <= i < route.len() ==> call_ensures(
                *distances_in,
                (&r.1, route[i]),
                #[trigger] r.2[i],
            ),
        nearest == hits::best(
            probing::distance_hits(probing::joined(r.2, r.2.len() as int)),
            k,
        ),
{
    let (nonce, sealed) = choose|nonce: [u8; 16], sealed: S|
        {
            &&& #[trigger] call_ensures(encrypt, (nonce,), sealed)
            &&& probing::are_nearest(found_by(distances_in, sealed), route, k, nearest)
        };
    let may_find = found_by(distances_in, sealed);
    let found = choose|found: Seq<Vec<(u32, u32)>>|
        {
            &&& #[trigger] probing::found_on_route(may_find, route, found)
            &&& nearest == hits::best(
                probing::distance_hits(probing::joined(found, found.len() as int)),
                k,
            )
        };
    assert forall|i: int| 0 <= i < route.len() implies call_ensures(
        *distances_in,
        (&sealed, route[i]),
        #[trigger] found[i],
    ) by {
        assert(probing::is_found(may_find, route, i, found[i]));
    }
    (nonce, sealed, found)
}

/// Kept indexes are told apart by everything that they depend on: two settings have the same key only
/// if they agree in all of it. How many clusters a query probes and where distances are computed make
/// no difference.
pub proof fn keys_tell_indexes_apart(one: SapIvfConfig, other: SapIvfConfig, n: usize, m: usize)
    ensures
        index_key(one, n) == index_key(other, m) <==> one.n_centroids == other.n_centroids
            && one.train_seed == other.train_seed && one.max_iter == other.max_iter && n == m
            && one.beta == other.beta && one.upload_seed == other.upload_seed && one.key.s
            == other.key.s && one.key.prf_key == other.key.prf_key,
{
}

/// Stored indexes are told apart by everything that they depend on: two settings have the same parts
/// only if they agree in all of it.
pub proof fn parts_tell_indexes_apart(one: SapIvfConfig, other: SapIvfConfig, n: usize, m: usize)
    ensures
        cache_parts_of(one, n) == cache_parts_of(other, m) <==> one.n_centroids
            == other.n_centroids && one.train_seed == other.train_seed && one.max_iter
            == other.max_iter && n == m && one.beta == other.beta && one.upload_seed
            == other.upload_seed && one.key.s == other.key.s && one.key.prf_key@
            == other.key.prf_key@,
{
    let a = cache_parts_of(one, n);
    let b = cache_parts_of(other, m);
    bytes::lemma_numbers();
    if a == b {
        assert(a[1] == b[1] && a[2] == b[2] && a[3] == b[3] && a[4] == b[4] && a[5] == b[5]
            && a[6] == b[6] && a[7] == b[7]);
        assert(a[7].subrange(0, 8) =~= bytes::le64(one.key.s));
        assert(b[7].subrange(0, 8) =~= bytes::le64(other.key.s));
        assert(a[7].subrange(8, 40) =~= one.key.prf_key@);
        assert(b[7].subrange(8, 40) =~= other.key.prf_key@);
    }
}

} // verus!
