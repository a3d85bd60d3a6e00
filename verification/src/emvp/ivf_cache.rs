//! Stored encrypted clusters.
//!
//! A file holds a header, the index, zeros up to a multiple of eight bytes, the number of clusters,
//! for each cluster the number of its vectors, the seed of its masks and its ciphertext, and the
//! matrix `D`. Ciphertexts stand at multiples of eight bytes, so that they can be used in place.

use vstd::prelude::*;

use crate::bytes;
use crate::bytes::{get_seed, get_u64, get_u64s, put_u64, put_u64s};
use crate::emvp::ivf::EncryptedCluster;
use crate::emvp::params::{ELL0, N};
use crate::ivf;
use crate::ivf::{read_index, write_index, IvfIndex};
use crate::math::sums;

verus! {

/// Bytes of the header of a file.
pub const HEADER_BYTES: usize = 20;

/// Zeros that bring a position to a multiple of eight.
pub open spec fn padding(at: int) -> int {
    (8 - at % 8) % 8
}

/// Zeros.
pub open spec fn zeros(count: int) -> Seq<u8> {
    Seq::new(count as nat, |i: int| 0u8)
}

/// The bytes between the header and the clusters: the index, zeros, and the number of clusters.
pub open spec fn front_bytes(index: IvfIndex, dim: int) -> Seq<u8> {
    let body = ivf::index_bytes(index, dim);
    body + zeros(padding(HEADER_BYTES + body.len())) + bytes::le64(index.clusters@.len() as u64)
}

/// The bytes of a cluster: the number of its vectors, the seed of its masks, and its ciphertext.
pub open spec fn record_bytes(cluster: EncryptedCluster) -> Seq<u8> {
    bytes::le64(cluster.m as u64) + cluster.r_seed@ + bytes::run64(cluster.m_hat@)
}

/// The bytes of the first `n` clusters.
pub open spec fn records_bytes(clusters: Seq<EncryptedCluster>, n: int) -> Seq<u8>
    decreases n,
{
    if n <= 0 {
        Seq::empty()
    } else {
        records_bytes(clusters, n - 1) + record_bytes(clusters[n - 1])
    }
}

/// The bytes of a file after its header.
pub open spec fn file_bytes(
    index: IvfIndex,
    dim: int,
    clusters: Seq<EncryptedCluster>,
    d_mat: Seq<u64>,
) -> Seq<u8> {
    front_bytes(index, dim) + records_bytes(clusters, clusters.len() as int) + bytes::run64(d_mat)
}

/// Lays out what stands between the header and the clusters.
pub fn write_front(index: &IvfIndex, dim: usize) -> (out: Vec<u8>)
    requires
        index.has_dim(dim as int),
        HEADER_BYTES + ivf::payload_size(*index, dim as int) <= usize::MAX,
    ensures
        out@ == front_bytes(*index, dim as int),
{
    let mut out: Vec<u8> = Vec::new();
    write_index(index, dim, &mut out);
    let ghost body = ivf::index_bytes(*index, dim as int);
    proof {
        ivf::payload_size_is_the_length(*index, dim as int);
        assert(out@ =~= body);
    }
    let pad: usize = (8 - (HEADER_BYTES + out.len()) % 8) % 8;
    for i in 0..pad
        invariant
            out@ == body + zeros(i as int),
    {
        out.push(0);
        assert(out@ =~= body + zeros(i + 1));
    }
    put_u64(&mut out, index.clusters.len() as u64);
    assert(out@ =~= front_bytes(*index, dim as int));
    out
}

/// Lays out a cluster.
pub fn write_record(cluster: &EncryptedCluster) -> (out: Vec<u8>)
    ensures
        out@ == record_bytes(*cluster),
{
    let mut out: Vec<u8> = Vec::new();
    put_u64(&mut out, cluster.m as u64);
    out.extend_from_slice(cluster.r_seed.as_slice());
    put_u64s(&mut out, cluster.m_hat);
    assert(out@ =~= record_bytes(*cluster));
    out
}

/// Lays out a file after its header.
pub fn save_emvp_ivf_cache(
    index: &IvfIndex,
    dim: usize,
    clusters: &[EncryptedCluster],
    d_mat: &[u64],
) -> (out: Vec<u8>)
    requires
        index.has_dim(dim as int),
        HEADER_BYTES + ivf::payload_size(*index, dim as int) <= usize::MAX,
    ensures
        out@ == file_bytes(*index, dim as int, clusters@, d_mat@),
{
    let mut out: Vec<u8> = write_front(index, dim);
    let ghost front = front_bytes(*index, dim as int);
    assert(out@ =~= front + records_bytes(clusters@, 0));
    for c in 0..clusters.len()
        invariant
            out@ == front + records_bytes(clusters@, c as int),
    {
        let record: Vec<u8> = write_record(&clusters[c]);
        out.extend_from_slice(&record);
        assert(out@ =~= front + records_bytes(clusters@, c + 1));
    }
    put_u64s(&mut out, d_mat);
    assert(out@ =~= file_bytes(*index, dim as int, clusters@, d_mat@));
    out
}

/// Where a cluster's ciphertext stands in a file.
pub struct ClusterPlace {
    /// Number of vectors.
    pub m: usize,
    /// Seed of the masks.
    pub r_seed: [u8; 32],
    /// First byte of the ciphertext.
    pub byte_offset: usize,
    /// Elements of the ciphertext.
    pub len_u64s: usize,
}

/// What a file holds.
pub struct LoadedIvfCache {
    /// The index.
    pub index: IvfIndex,
    /// Components of the vectors of the index.
    pub dim: usize,
    /// Where the clusters stand.
    pub clusters: Vec<ClusterPlace>,
    /// The matrix `D`.
    pub d_mat: Vec<u64>,
}

/// Where a cluster that starts at `at` ends. Past the end of the file if it is too short.
pub open spec fn record_end(file: Seq<u8>, at: int) -> int {
    if at + 40 > file.len() {
        file.len() as int + 1
    } else {
        at + 40 + bytes::u64_at(file, at) * (N * 8)
    }
}

/// Where the last of `n` clusters ends, the first of which starts at `at`.
pub open spec fn records_end(file: Seq<u8>, at: int, n: int) -> int
    decreases n,
{
    if n <= 0 {
        at
    } else {
        record_end(file, records_end(file, at, n - 1))
    }
}

/// Where the number of clusters stands.
pub open spec fn count_at(file: Seq<u8>) -> int {
    let end = ivf::index_end(file, HEADER_BYTES as int);
    end + padding(end)
}

/// Where the matrix `D` stands.
pub open spec fn d_at(file: Seq<u8>) -> int {
    records_end(file, count_at(file) + 8, bytes::u64_at(file, count_at(file)) as int)
}

/// A file holds an index with its clusters, in full.
pub open spec fn holds_clusters(file: Seq<u8>) -> bool {
    &&& HEADER_BYTES <= file.len()
    &&& ivf::index_end(file, HEADER_BYTES as int) <= file.len()
    &&& count_at(file) + 8 <= file.len()
    &&& bytes::u64_at(file, count_at(file)) == ivf::cluster_count(file, HEADER_BYTES as int)
    &&& d_at(file) + 8 * (ELL0 * N) <= file.len()
}

/// A place is that of the cluster that starts at `at`.
pub open spec fn is_place_of(file: Seq<u8>, place: ClusterPlace, at: int) -> bool {
    &&& place.m == bytes::u64_at(file, at)
    &&& place.r_seed@ == file.subrange(at + 8, at + 40)
    &&& place.byte_offset == at + 40
    &&& place.len_u64s == place.m * N
    &&& place.byte_offset + 8 * place.len_u64s <= file.len()
}

/// More clusters end no earlier.
proof fn lemma_records_monotone(file: Seq<u8>, at: int, i: int, n: int)
    requires
        0 <= at <= file.len(),
        0 <= i <= n,
    ensures
        at <= records_end(file, at, i),
        records_end(file, at, i) > file.len() ==> records_end(file, at, n) > file.len(),
    decreases n, i,
{
    if n > i {
        lemma_records_monotone(file, at, i, n - 1);
        let a = records_end(file, at, n - 1);
        assert(0 <= bytes::u64_at(file, a) * (N * 8)) by (nonlinear_arith)
            requires
                0 <= bytes::u64_at(file, a),
        ;
    } else if i > 0 {
        lemma_records_monotone(file, at, i - 1, i - 1);
        let a = records_end(file, at, i - 1);
        assert(0 <= bytes::u64_at(file, a) * (N * 8)) by (nonlinear_arith)
            requires
                0 <= bytes::u64_at(file, a),
        ;
    }
}

/// Reads where a cluster that starts at `at` stands, and where it ends.
fn read_place(file: &[u8], at: usize) -> (r: Option<(ClusterPlace, usize)>)
    requires
        at <= file@.len(),
    ensures
        r is Some <==> record_end(file@, at as int) <= file@.len(),
        r matches Some((place, end)) ==> end == record_end(file@, at as int) && is_place_of(
            file@,
            place,
            at as int,
        ),
{
    assert(file.len() == file@.len());
    let m: u64 = match get_u64(file, at) {
        None => {
            return None;
        },
        Some(m) => m,
    };
    let r_seed: [u8; 32] = match get_seed(file, at + 8) {
        None => {
            return None;
        },
        Some(r_seed) => r_seed,
    };
    let width: u128 = m as u128 * (N as u128 * 8);
    let left: usize = file.len() - at - 40;
    if width > left as u128 {
        return None;
    }
    let len_u64s: usize = m as usize * N;
    assert(r_seed@ =~= file@.subrange(at + 8, at + 40));
    let place: ClusterPlace = ClusterPlace {
        m: m as usize,
        r_seed,
        byte_offset: at + 40,
        len_u64s,
    };
    Some((place, at + 40 + width as usize))
}

/// Reads a file whose header is in order: the index, where the clusters stand, and the matrix `D`.
pub fn load_emvp_ivf_cache(file: &[u8]) -> (r: Option<LoadedIvfCache>)
    ensures
        r is Some <==> holds_clusters(file@),
        r matches Some(loaded) ==> {
            &&& loaded.index.has_dim(loaded.dim as int)
            &&& file@.subrange(
                HEADER_BYTES as int,
                ivf::index_end(file@, HEADER_BYTES as int),
            ) == ivf::index_bytes(loaded.index, loaded.dim as int)
            &&& loaded.clusters@.len() == loaded.index.clusters@.len()
            &&& loaded.clusters@.len() == bytes::u64_at(file@, count_at(file@))
            &&& forall|c: int|
                0 <= c < loaded.clusters@.len() ==> is_place_of(
                    file@,
                    #[trigger] loaded.clusters@[c],
                    records_end(file@, count_at(file@) + 8, c),
                )
            &&& loaded.d_mat@ == bytes::words_at(file@, d_at(file@), (ELL0 * N) as int)
        },
{
    assert(file.len() == file@.len());
    if file.len() < HEADER_BYTES {
        return None;
    }
    let (index, dim, index_end): (IvfIndex, usize, usize) = match read_index(file, HEADER_BYTES) {
        None => {
            return None;
        },
        Some(x) => x,
    };
    let pad: usize = (8 - index_end % 8) % 8;
    if file.len() - index_end < pad {
        return None;
    }
    let at: usize = index_end + pad;
    let n_clusters: u64 = match get_u64(file, at) {
        None => {
            return None;
        },
        Some(n) => n,
    };
    if n_clusters != index.clusters.len() as u64 {
        return None;
    }
    let first: usize = at + 8;
    let mut clusters: Vec<ClusterPlace> = Vec::new();
    let mut end: usize = first;
    let mut c: u64 = 0;
    while c < n_clusters
        invariant
            c <= n_clusters,
            first <= file@.len(),
            end <= file@.len(),
            end == records_end(file@, first as int, c as int),
            d_at(file@) == records_end(file@, first as int, n_clusters as int),
            clusters@.len() == c,
            forall|t: int|
                0 <= t < c ==> is_place_of(
                    file@,
                    #[trigger] clusters@[t],
                    records_end(file@, first as int, t),
                ),
        decreases n_clusters - c,
    {
        proof {
            lemma_records_monotone(file@, first as int, c + 1, n_clusters as int);
        }
        match read_place(file, end) {
            None => {
                return None;
            },
            Some((place, next)) => {
                clusters.push(place);
                end = next;
            },
        }
        c = c + 1;
    }
    match get_u64s(file, end, ELL0 * N) {
        None => None,
        Some(d_mat) => Some(LoadedIvfCache { index, dim, clusters, d_mat }),
    }
}

/// Reads the ciphertext of a cluster.
pub fn read_ciphertext(file: &[u8], place: &ClusterPlace) -> (m_hat: Vec<u64>)
    requires
        place.byte_offset + 8 * place.len_u64s <= file@.len(),
    ensures
        m_hat@ == bytes::words_at(file@, place.byte_offset as int, place.len_u64s as int),
{
    let read: Option<Vec<u64>> = get_u64s(file, place.byte_offset, place.len_u64s);
    read.unwrap()
}

/// Clusters that start at a multiple of eight end at one.
proof fn lemma_records_aligned(file: Seq<u8>, at: int, n: int)
    requires
        0 <= n,
        at % 8 == 0,
        records_end(file, at, n) <= file.len(),
    ensures
        records_end(file, at, n) % 8 == 0,
    decreases n,
{
    if n > 0 {
        let a = records_end(file, at, n - 1);
        let size = bytes::u64_at(file, a);
        assert(a <= file.len()) by {
            assert(0 <= size * (N * 8)) by (nonlinear_arith)
                requires
                    0 <= size,
            ;
        }
        lemma_records_aligned(file, at, n - 1);
        assert(size * (N * 8) == size * 1292 * 8) by (nonlinear_arith);
    }
}

/// Every ciphertext in a file stands at a multiple of eight bytes.
pub proof fn ciphertexts_are_aligned(file: Seq<u8>, c: int, place: ClusterPlace)
    requires
        holds_clusters(file),
        0 <= c < bytes::u64_at(file, count_at(file)),
        is_place_of(file, place, records_end(file, count_at(file) + 8, c)),
    ensures
        place.byte_offset % 8 == 0,
{
    let first = count_at(file) + 8;
    let end = ivf::index_end(file, HEADER_BYTES as int);
    assert((end + padding(end)) % 8 == 0);
    lemma_records_monotone_all(file, first, c, bytes::u64_at(file, count_at(file)) as int);
    lemma_records_aligned(file, first, c);
}

/// Clusters of a file that holds them all end within it.
proof fn lemma_records_monotone_all(file: Seq<u8>, at: int, i: int, n: int)
    requires
        0 <= i <= n,
        records_end(file, at, n) <= file.len(),
    ensures
        records_end(file, at, i) <= file.len(),
    decreases n,
{
    if n > i {
        let a = records_end(file, at, n - 1);
        assert(0 <= bytes::u64_at(file, a) * (N * 8)) by (nonlinear_arith)
            requires
                0 <= bytes::u64_at(file, a),
        ;
        lemma_records_monotone_all(file, at, i, n - 1);
    }
}

/// Each of the clusters that stand at `at` stands where the one before it ends.
proof fn lemma_record_places(file: Seq<u8>, at: int, clusters: Seq<EncryptedCluster>, n: int)
    requires
        0 <= at,
        0 <= n <= clusters.len(),
        forall|c: int|
            0 <= c < clusters.len() ==> (#[trigger] clusters[c]).m_hat@.len() == clusters[c].m * N,
        bytes::has_at(file, at, records_bytes(clusters, n)),
    ensures
        records_end(file, at, n) == at + records_bytes(clusters, n).len(),
        forall|c: int| 0 <= c < n ==> #[trigger] record_stands(file, at, clusters, c),
    decreases n,
{
    if n > 0 {
        let front = records_bytes(clusters, n - 1);
        let last = record_bytes(clusters[n - 1]);
        let here = file.subrange(at, at + front.len() + last.len());
        assert(file.subrange(at, at + front.len()) =~= here.subrange(0, front.len() as int));
        assert((front + last).subrange(0, front.len() as int) =~= front);
        lemma_record_places(file, at, clusters, n - 1);
        let a = at + front.len();
        assert(file.subrange(a, a + last.len()) =~= here.subrange(
            front.len() as int,
            (front.len() + last.len()) as int,
        ));
        assert((front + last).subrange(front.len() as int, (front.len() + last.len()) as int)
            =~= last);
        assert(bytes::has_at(file, a, last));
        bytes::lemma_numbers();
        let m = clusters[n - 1].m;
        assert(file.subrange(a, a + 8) =~= file.subrange(a, a + last.len()).subrange(0, 8));
        assert(last.subrange(0, 8) =~= bytes::le64(m as u64));
        assert(bytes::has_at(file, a, bytes::le64(m as u64)));
        assert(bytes::run64(clusters[n - 1].m_hat@).len() == m * N * 8);
        assert(m * N * 8 == m * (N * 8)) by (nonlinear_arith);
        assert(record_stands(file, at, clusters, n - 1));
    }
}

/// Cluster `c` of those that stand at `at` stands where the one before it ends.
pub open spec fn record_stands(
    file: Seq<u8>,
    at: int,
    clusters: Seq<EncryptedCluster>,
    c: int,
) -> bool {
    at <= records_end(file, at, c) && bytes::has_at(
        file,
        records_end(file, at, c),
        record_bytes(clusters[c]),
    )
}

/// A file that was saved is read back: the index, the clusters and the matrix `D`.
pub proof fn loading_gives_back_what_was_saved(
    header: Seq<u8>,
    index: IvfIndex,
    dim: usize,
    clusters: Seq<EncryptedCluster>,
    d_mat: Seq<u64>,
    loaded: LoadedIvfCache,
)
    requires
        header.len() == HEADER_BYTES,
        index.has_dim(dim as int),
        clusters.len() == index.clusters@.len(),
        forall|c: int|
            0 <= c < clusters.len() ==> (#[trigger] clusters[c]).m_hat@.len() == clusters[c].m * N,
        d_mat.len() == ELL0 * N,
        ({
            let file = header + file_bytes(index, dim as int, clusters, d_mat);
            holds_clusters(file) ==> {
                &&& loaded.index.has_dim(loaded.dim as int)
                &&& file.subrange(
                    HEADER_BYTES as int,
                    ivf::index_end(file, HEADER_BYTES as int),
                ) == ivf::index_bytes(loaded.index, loaded.dim as int)
                &&& loaded.clusters@.len() == bytes::u64_at(file, count_at(file))
                &&& forall|c: int|
                    0 <= c < loaded.clusters@.len() ==> is_place_of(
                        file,
                        #[trigger] loaded.clusters@[c],
                        records_end(file, count_at(file) + 8, c),
                    )
                &&& loaded.d_mat@ == bytes::words_at(file, d_at(file), (ELL0 * N) as int)
            }
        }),
    ensures
        ({
            let file = header + file_bytes(index, dim as int, clusters, d_mat);
            &&& holds_clusters(file)
            &&& loaded.dim == dim
            &&& ivf::same_index(loaded.index, index)
            &&& loaded.d_mat@ == d_mat
            &&& loaded.clusters@.len() == clusters.len()
            &&& forall|c: int|
                0 <= c < clusters.len() ==> {
                    let place = #[trigger] loaded.clusters@[c];
                    &&& place.m == clusters[c].m
                    &&& place.r_seed@ == clusters[c].r_seed@
                    &&& bytes::words_at(
                        file,
                        place.byte_offset as int,
                        place.len_u64s as int,
                    ) == clusters[c].m_hat@
                }
        }),
{
    bytes::lemma_numbers();
    let h = HEADER_BYTES as int;
    let body = ivf::index_bytes(index, dim as int);
    let all = file_bytes(index, dim as int, clusters, d_mat);
    let file = header + all;
    let n = clusters.len() as int;
    let records = records_bytes(clusters, n);
    let run = bytes::run64(d_mat);
    assert(index.clusters.len() == n);
    assert(file.subrange(h, h + body.len()) =~= body);
    assert(bytes::has_at(file, h, body));
    ivf::lemma_written_index_end(file, h, index, dim);
    let end = h + body.len();
    assert(ivf::index_end(file, h) == end);
    let pad = padding(end);
    let at = end + pad;
    assert(file.subrange(at, at + 8) =~= bytes::le64(n as u64));
    assert(bytes::has_at(file, at, bytes::le64(n as u64)));
    assert(count_at(file) == at);
    let first = at + 8;
    assert(file.subrange(first, first + records.len()) =~= records);
    assert(bytes::has_at(file, first, records));
    lemma_record_places(file, first, clusters, n);
    let d = first + records.len();
    assert(d_at(file) == d);
    assert(run.len() == ELL0 * N * 8);
    assert(file.subrange(d, d + run.len()) =~= run);
    assert(bytes::has_at(file, d, run));
    bytes::lemma_words_of_run(file, d, d_mat);
    assert(holds_clusters(file));
    ivf::reading_gives_back_what_was_written(file, h, index, dim, loaded.index, loaded.dim);
    assert forall|c: int| 0 <= c < n implies {
        let place = #[trigger] loaded.clusters@[c];
        &&& place.m == clusters[c].m
        &&& place.r_seed@ == clusters[c].r_seed@
        &&& bytes::words_at(file, place.byte_offset as int, place.len_u64s as int)
            == clusters[c].m_hat@
    } by {
        let place = loaded.clusters@[c];
        let a = records_end(file, first, c);
        let record = record_bytes(clusters[c]);
        assert(record_stands(file, first, clusters, c));
        assert(is_place_of(file, place, a));
        let here = file.subrange(a, a + record.len());
        assert(file.subrange(a, a + 8) =~= here.subrange(0, 8));
        assert(record.subrange(0, 8) =~= bytes::le64(clusters[c].m as u64));
        assert(bytes::has_at(file, a, bytes::le64(clusters[c].m as u64)));
        assert(file.subrange(a + 8, a + 40) =~= here.subrange(8, 40));
        assert(record.subrange(8, 40) =~= clusters[c].r_seed@);
        let words = bytes::run64(clusters[c].m_hat@);
        assert(file.subrange(a + 40, a + 40 + words.len()) =~= here.subrange(
            40,
            40int + words.len(),
        ));
        assert(record.subrange(40, 40int + words.len()) =~= words);
        assert(bytes::has_at(file, a + 40, words));
        bytes::lemma_words_of_run(file, a + 40, clusters[c].m_hat@);
    }
}

/// Where the record of cluster `c` stands among the records: behind the count, the seed and the
/// ciphertext of each cluster before it.
proof fn lemma_records_layout(clusters: Seq<EncryptedCluster>, n: int, c: int)
    requires
        0 <= c <= n <= clusters.len(),
    ensures
        ({
            let size = |x: int| 40 + 8 * clusters[x].m_hat@.len() as int;
            let all = records_bytes(clusters, n);
            &&& all.len() == sums::sum(n, size)
            &&& 0 <= sums::sum(c, size) <= all.len()
            &&& c < n ==> sums::sum(c, size) + size(c) <= all.len() && all.subrange(
                sums::sum(c, size),
                sums::sum(c, size) + size(c),
            ) == record_bytes(clusters[c])
        }),
    decreases n,
{
    bytes::lemma_numbers();
    let size = |x: int| 40 + 8 * clusters[x].m_hat@.len() as int;
    if n > 0 {
        let before = records_bytes(clusters, n - 1);
        let last = record_bytes(clusters[n - 1]);
        let all = records_bytes(clusters, n);
        assert(bytes::run64(clusters[n - 1].m_hat@).len() == clusters[n - 1].m_hat@.len() * 8);
        assert(last.len() == size(n - 1));
        lemma_records_layout(
            clusters,
            n - 1,
            if c < n {
                c
            } else {
                n - 1
            },
        );
        if c == n - 1 {
            assert(all.subrange(before.len() as int, all.len() as int) =~= last);
        } else if c < n - 1 {
            let from = sums::sum(c, size);
            let to = from + size(c);
            assert(all.subrange(from, to) =~= before.subrange(from, to));
        }
    }
}

/// How encrypted clusters are stored: the index; as few zeros as make what follows begin at a
/// multiple of eight bytes behind the header; the number of clusters, in eight bytes; for every
/// cluster how many vectors it has, in eight bytes, its seed and every number of its ciphertext, eight
/// bytes each; and every number of `D`, eight bytes each. The lowest byte comes first.
pub proof fn stored_clusters_have_a_fixed_layout(
    index: IvfIndex,
    dim: int,
    clusters: Seq<EncryptedCluster>,
    d_mat: Seq<u64>,
    c: int,
    i: int,
    t: int,
) -> (pad: int)
    requires
        0 <= c < clusters.len(),
        0 <= i < clusters[c].m_hat@.len(),
        0 <= t < d_mat.len(),
    ensures
        0 <= pad < 8,
        ({
            let stored = file_bytes(index, dim, clusters, d_mat);
            let body = ivf::index_bytes(index, dim);
            let count_at = body.len() + pad;
            let size = |x: int| 40 + 8 * clusters[x].m_hat@.len() as int;
            let at = count_at + 8 + sums::sum(c, size);
            let end = count_at + 8 + sums::sum(clusters.len() as int, size);
            &&& (HEADER_BYTES + count_at) % 8 == 0
            &&& stored.len() == end + 8 * d_mat.len()
            &&& stored.subrange(0, body.len() as int) == body
            &&& forall|x: int| body.len() <= x < count_at ==> #[trigger] stored[x] == 0
            &&& stored.subrange(count_at, count_at + 8) == vstd::bytes::spec_u64_to_le_bytes(
                index.clusters@.len() as u64,
            )
            &&& stored.subrange(at, at + 8) == vstd::bytes::spec_u64_to_le_bytes(
                clusters[c].m as u64,
            )
            &&& stored.subrange(at + 8, at + 40) == clusters[c].r_seed@
            &&& stored.subrange(at + 40 + 8 * i, at + 48 + 8 * i)
                == vstd::bytes::spec_u64_to_le_bytes(clusters[c].m_hat@[i])
            &&& stored.subrange(end + 8 * t, end + 8 * t + 8) == vstd::bytes::spec_u64_to_le_bytes(
                d_mat[t],
            )
        }),
{
    bytes::lemma_numbers();
    let stored = file_bytes(index, dim, clusters, d_mat);
    let body = ivf::index_bytes(index, dim);
    let pad = padding(HEADER_BYTES + body.len());
    let count_at = body.len() + pad;
    let size = |x: int| 40 + 8 * clusters[x].m_hat@.len() as int;
    let n = clusters.len() as int;
    let all = records_bytes(clusters, n);
    let from = sums::sum(c, size);
    let at = count_at + 8 + from;
    let end = count_at + 8 + sums::sum(n, size);
    let record = record_bytes(clusters[c]);
    lemma_records_layout(clusters, n, c);
    bytes::runs_hold_each_number(clusters[c].m_hat@, i);
    bytes::runs_hold_each_number(d_mat, t);
    assert(stored.subrange(0, body.len() as int) =~= body);
    assert(stored.subrange(count_at, count_at + 8) =~= bytes::le64(index.clusters@.len() as u64));
    assert(stored.subrange(count_at + 8, end) =~= all);
    assert(stored.subrange(at, at + size(c)) =~= all.subrange(from, from + size(c)));
    assert(stored.subrange(at, at + 8) =~= record.subrange(0, 8));
    assert(record.subrange(0, 8) =~= bytes::le64(clusters[c].m as u64));
    assert(stored.subrange(at + 8, at + 40) =~= record.subrange(8, 40));
    assert(record.subrange(8, 40) =~= clusters[c].r_seed@);
    assert(stored.subrange(at + 40 + 8 * i, at + 48 + 8 * i) =~= record.subrange(
        40 + 8 * i,
        48 + 8 * i,
    ));
    assert(record.subrange(40 + 8 * i, 48 + 8 * i) =~= bytes::run64(
        clusters[c].m_hat@,
    ).subrange(8 * i, 8 * i + 8));
    assert(stored.subrange(end + 8 * t, end + 8 * t + 8) =~= bytes::run64(d_mat).subrange(
        8 * t,
        8 * t + 8,
    ));
    pad
}

} // verus!
