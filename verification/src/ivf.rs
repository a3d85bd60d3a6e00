//! Inverted-file indexes: centroids, and the vectors nearest to each.
//!
//! Vector components are kept as the bits of single-precision numbers.

use vstd::prelude::*;
use vstd::relations::{sorted_by, total_ordering};

use crate::bytes;
use crate::bytes::{get_u32, get_u32s, get_u64, put_u32, put_u32s, put_u64};
use crate::float_bits;
use crate::float_bits::total_order_key_32;
use crate::hits;
use crate::hits::{rank, Hit};
use crate::math::rearrange;
use crate::math::sums;

verus! {

/// A vector of the corpus.
pub struct Member {
    /// Number of the vector in the corpus.
    pub id: u32,
    /// Components, as the bits of single-precision numbers.
    pub components: Vec<u32>,
}

/// Centroids, and for each the vectors that are nearest to it.
pub struct IvfIndex {
    /// Components of the centroids, as the bits of single-precision numbers.
    pub centroids: Vec<Vec<u32>>,
    /// The vectors of each cluster.
    pub clusters: Vec<Vec<Member>>,
}

/// Every vector of a cluster has `dim` components.
pub open spec fn cluster_has_dim(cluster: Seq<Member>, dim: int) -> bool {
    forall|j: int| 0 <= j < cluster.len() ==> (#[trigger] cluster[j]).components@.len() == dim
}

impl IvfIndex {
    /// Every centroid and every vector has `dim` components.
    pub open spec fn has_dim(&self, dim: int) -> bool {
        &&& forall|i: int|
            0 <= i < self.centroids@.len() ==> (#[trigger] self.centroids@[i])@.len() == dim
        &&& forall|i: int|
            0 <= i < self.clusters@.len() ==> cluster_has_dim((#[trigger] self.clusters@[i])@, dim)
    }
}

/// The bytes of the centroids, one after the other.
pub open spec fn centroid_table(centroids: Seq<Vec<u32>>, dim: int) -> Seq<u8> {
    bytes::table(centroids.map_values(|c: Vec<u32>| bytes::run32(c@)), 4 * dim)
}

/// The bytes of a vector: its number and its components.
pub open spec fn member_bytes(member: Member) -> Seq<u8> {
    bytes::le32(member.id) + bytes::run32(member.components@)
}

/// The bytes of the vectors of a cluster, one after the other.
pub open spec fn member_table(cluster: Seq<Member>, dim: int) -> Seq<u8> {
    bytes::table(cluster.map_values(|m: Member| member_bytes(m)), 4 + 4 * dim)
}

/// The bytes of a cluster: how many vectors it has, and the vectors.
pub open spec fn cluster_bytes(cluster: Seq<Member>, dim: int) -> Seq<u8> {
    bytes::le64(cluster.len() as u64) + member_table(cluster, dim)
}

/// The bytes of the first `n` clusters.
pub open spec fn clusters_bytes(clusters: Seq<Vec<Member>>, dim: int, n: int) -> Seq<u8>
    decreases n,
{
    if n <= 0 {
        Seq::empty()
    } else {
        clusters_bytes(clusters, dim, n - 1) + cluster_bytes(clusters[n - 1]@, dim)
    }
}

/// The bytes of an index: the dimension, the number of centroids, the centroids, the number of
/// clusters, and the clusters.
pub open spec fn index_bytes(index: IvfIndex, dim: int) -> Seq<u8> {
    bytes::le64(dim as u64) + bytes::le64(index.centroids@.len() as u64) + centroid_table(
        index.centroids@,
        dim,
    ) + bytes::le64(index.clusters@.len() as u64) + clusters_bytes(
        index.clusters@,
        dim,
        index.clusters@.len() as int,
    )
}

/// How many vectors the first `n` clusters have.
pub open spec fn total_members(clusters: Seq<Vec<Member>>, n: int) -> int
    decreases n,
{
    if n <= 0 {
        0
    } else {
        total_members(clusters, n - 1) + clusters[n - 1]@.len()
    }
}

/// The length of the bytes of an index.
pub open spec fn payload_size(index: IvfIndex, dim: int) -> int {
    24 + index.centroids@.len() * (4 * dim) + 8 * index.clusters@.len() + total_members(
        index.clusters@,
        index.clusters@.len() as int,
    ) * (4 + 4 * dim)
}

/// The length of the bytes of the first `n` clusters.
proof fn lemma_clusters_length(clusters: Seq<Vec<Member>>, dim: int, n: int)
    requires
        0 <= n <= clusters.len(),
        0 <= dim,
    ensures
        clusters_bytes(clusters, dim, n).len() == 8 * n + total_members(clusters, n) * (4 + 4
            * dim),
        0 <= total_members(clusters, n),
    decreases n,
{
    bytes::lemma_numbers();
    if n > 0 {
        lemma_clusters_length(clusters, dim, n - 1);
        let last = clusters[n - 1]@.len();
        let w = 4 + 4 * dim;
        assert(0 <= last * w && (total_members(clusters, n - 1) + last) * w == total_members(
            clusters,
            n - 1,
        ) * w + last * w) by (nonlinear_arith)
            requires
                0 <= w,
        ;
    } else {
        assert(0 * (4 + 4 * dim) == 0) by (nonlinear_arith);
    }
}

/// The bytes of an index are as many as its size says.
pub proof fn payload_size_is_the_length(index: IvfIndex, dim: int)
    requires
        0 <= dim,
    ensures
        index_bytes(index, dim).len() == payload_size(index, dim),
{
    bytes::lemma_numbers();
    lemma_clusters_length(index.clusters@, dim, index.clusters@.len() as int);
    assert(0 <= index.centroids@.len() * (4 * dim)) by (nonlinear_arith)
        requires
            0 <= dim,
    ;
}

/// How many bytes an index takes, without laying it out.
pub fn ivf_payload_size(index: &IvfIndex, dim: usize) -> (size: u64)
    requires
        payload_size(*index, dim as int) <= u64::MAX,
    ensures
        size == payload_size(*index, dim as int),
{
    let ghost w = 4 + 4 * dim as int;
    let ghost n = index.clusters@.len() as int;
    let centroids: u128 = index.centroids.len() as u128;
    let row: u128 = dim as u128 * 4;
    proof {
        lemma_members_monotone(index.clusters@, 0, n);
        assert(0 <= total_members(index.clusters@, n) * w && 0 <= centroids * row)
            by (nonlinear_arith)
            requires
                0 <= total_members(index.clusters@, n),
                0 <= w,
        ;
        assert(centroids * row == index.centroids@.len() * (4 * dim));
        assert(0 * w == 0) by (nonlinear_arith);
    }
    let mut size: u128 = 24 + centroids * row;
    for i in 0..index.clusters.len()
        invariant
            n == index.clusters@.len(),
            w == 4 + 4 * dim,
            payload_size(*index, dim as int) <= u64::MAX,
            size == 24 + index.centroids@.len() * (4 * dim) + 8 * i + total_members(
                index.clusters@,
                i as int,
            ) * w,
    {
        let count: u128 = index.clusters[i].len() as u128;
        proof {
            let before = total_members(index.clusters@, i as int);
            lemma_members_monotone(index.clusters@, i + 1, n);
            lemma_members_monotone(index.clusters@, 0, i as int);
            assert((before + count) * w == before * w + count * w) by (nonlinear_arith);
            assert(total_members(index.clusters@, i + 1) * w <= total_members(index.clusters@, n)
                * w) by (nonlinear_arith)
                requires
                    total_members(index.clusters@, i + 1) <= total_members(index.clusters@, n),
                    0 <= w,
            ;
            assert(0 <= count * w && 0 <= before * w) by (nonlinear_arith)
                requires
                    0 <= count,
                    0 <= before,
                    0 <= w,
            ;
            assert(count * (4 + dim as u128 * 4) == count * w) by (nonlinear_arith)
                requires
                    w == 4 + 4 * dim,
            ;
        }
        size = size + 8 + count * (4 + dim as u128 * 4);
    }
    size as u64
}

/// More clusters have no fewer vectors.
proof fn lemma_members_monotone(clusters: Seq<Vec<Member>>, i: int, n: int)
    requires
        0 <= i <= n <= clusters.len(),
    ensures
        0 <= total_members(clusters, i) <= total_members(clusters, n),
    decreases n,
{
    if n > i {
        lemma_members_monotone(clusters, i, n - 1);
    } else if i > 0 {
        lemma_members_monotone(clusters, i - 1, i - 1);
    }
}

/// Appends the bytes of an index whose vectors have `dim` components.
pub fn write_index(index: &IvfIndex, dim: usize, out: &mut Vec<u8>)
    requires
        index.has_dim(dim as int),
    ensures
        final(out)@ == old(out)@ + index_bytes(*index, dim as int),
{
    let ghost start = out@;
    put_u64(out, dim as u64);
    put_u64(out, index.centroids.len() as u64);
    let ghost head = bytes::le64(dim as u64) + bytes::le64(index.centroids@.len() as u64);
    proof {
        assert(index.centroids@.take(0) =~= Seq::<Vec<u32>>::empty());
        vstd::arithmetic::mul::lemma_mul_basics(4 * dim as int);
        assert(centroid_table(index.centroids@.take(0), dim as int) =~= Seq::<u8>::empty());
        assert(out@ =~= start + head + centroid_table(index.centroids@.take(0), dim as int));
    }
    for i in 0..index.centroids.len()
        invariant
            index.has_dim(dim as int),
            out@ == start + head + centroid_table(index.centroids@.take(i as int), dim as int),
    {
        put_u32s(out, &index.centroids[i]);
        proof {
            let row = bytes::run32(index.centroids@[i as int]@);
            let rows = index.centroids@.take(i as int).map_values(
                |c: Vec<u32>| bytes::run32(c@),
            );
            bytes::lemma_table_push(rows, row, 4 * dim as int);
            assert(index.centroids@.take(i + 1).map_values(|c: Vec<u32>| bytes::run32(c@))
                =~= rows.push(row));
            assert(out@ =~= start + head + centroid_table(index.centroids@.take(i + 1), dim as int));
        }
    }
    assert(index.centroids@.take(index.centroids@.len() as int) =~= index.centroids@);
    put_u64(out, index.clusters.len() as u64);
    let ghost front = head + centroid_table(index.centroids@, dim as int) + bytes::le64(
        index.clusters@.len() as u64,
    );
    assert(out@ =~= start + front + clusters_bytes(index.clusters@, dim as int, 0));
    for i in 0..index.clusters.len()
        invariant
            index.has_dim(dim as int),
            out@ == start + front + clusters_bytes(index.clusters@, dim as int, i as int),
    {
        let ghost before = out@;
        write_cluster(&index.clusters[i], dim, out);
        assert(out@ =~= start + front + clusters_bytes(index.clusters@, dim as int, i + 1));
    }
    assert(out@ =~= start + index_bytes(*index, dim as int));
}

/// Appends the bytes of a cluster.
fn write_cluster(cluster: &Vec<Member>, dim: usize, out: &mut Vec<u8>)
    requires
        cluster_has_dim(cluster@, dim as int),
    ensures
        final(out)@ == old(out)@ + cluster_bytes(cluster@, dim as int),
{
    let ghost start = out@;
    put_u64(out, cluster.len() as u64);
    let ghost head = bytes::le64(cluster@.len() as u64);
    proof {
        vstd::arithmetic::mul::lemma_mul_basics(4 + 4 * dim as int);
        assert(member_table(cluster@.take(0), dim as int) =~= Seq::<u8>::empty());
        assert(out@ =~= start + head + member_table(cluster@.take(0), dim as int));
    }
    for j in 0..cluster.len()
        invariant
            cluster_has_dim(cluster@, dim as int),
            out@ == start + head + member_table(cluster@.take(j as int), dim as int),
    {
        put_u32(out, cluster[j].id);
        put_u32s(out, &cluster[j].components);
        proof {
            bytes::lemma_numbers();
            let row = member_bytes(cluster@[j as int]);
            let rows = cluster@.take(j as int).map_values(|m: Member| member_bytes(m));
            bytes::lemma_table_push(rows, row, 4 + 4 * dim as int);
            assert(cluster@.take(j + 1).map_values(|m: Member| member_bytes(m)) =~= rows.push(row));
            assert(out@ =~= start + head + member_table(cluster@.take(j + 1), dim as int));
        }
    }
    assert(cluster@.take(cluster@.len() as int) =~= cluster@);
    assert(out@ =~= start + cluster_bytes(cluster@, dim as int));
}

/// Where a cluster that starts at `at` ends. Past the end of the bytes if they are too few.
pub open spec fn cluster_end(bytes: Seq<u8>, at: int, dim: int) -> int {
    if at + 8 > bytes.len() {
        bytes.len() as int + 1
    } else {
        at + 8 + bytes::u64_at(bytes, at) * (4 + 4 * dim)
    }
}

/// Where the last of `n` clusters ends, the first of which starts at `at`.
pub open spec fn clusters_end(bytes: Seq<u8>, at: int, dim: int, n: int) -> int
    decreases n,
{
    if n <= 0 {
        at
    } else {
        cluster_end(bytes, clusters_end(bytes, at, dim, n - 1), dim)
    }
}

/// The number of clusters of an index that starts at `at`.
pub open spec fn cluster_count(bytes: Seq<u8>, at: int) -> u64 {
    let dim = bytes::u64_at(bytes, at) as int;
    bytes::u64_at(bytes, at + 16 + bytes::u64_at(bytes, at + 8) * (4 * dim))
}

/// Where an index that starts at `at` ends. Past the end of the bytes if they are too few.
pub open spec fn index_end(bytes: Seq<u8>, at: int) -> int {
    let dim = bytes::u64_at(bytes, at) as int;
    let clusters_at = at + 16 + bytes::u64_at(bytes, at + 8) * (4 * dim);
    if at + 16 > bytes.len() || dim > usize::MAX || clusters_at + 8 > bytes.len() {
        bytes.len() as int + 1
    } else {
        clusters_end(
            bytes,
            clusters_at + 8,
            dim,
            bytes::u64_at(bytes, clusters_at) as int,
        )
    }
}

/// More clusters end no earlier.
proof fn lemma_ends_monotone(bytes: Seq<u8>, at: int, dim: int, i: int, n: int)
    requires
        0 <= at <= bytes.len(),
        0 <= dim,
        0 <= i <= n,
    ensures
        at <= clusters_end(bytes, at, dim, i),
        clusters_end(bytes, at, dim, i) > bytes.len() ==> clusters_end(bytes, at, dim, n)
            > bytes.len(),
    decreases n, i,
{
    if n > i {
        lemma_ends_monotone(bytes, at, dim, i, n - 1);
        let a = clusters_end(bytes, at, dim, n - 1);
        let size = bytes::u64_at(bytes, a);
        assert(0 <= size * (4 + 4 * dim)) by (nonlinear_arith)
            requires
                0 <= size,
                0 <= dim,
        ;
    } else if i > 0 {
        lemma_ends_monotone(bytes, at, dim, i - 1, i - 1);
        let a = clusters_end(bytes, at, dim, i - 1);
        let size = bytes::u64_at(bytes, a);
        assert(0 <= size * (4 + 4 * dim)) by (nonlinear_arith)
            requires
                0 <= size,
                0 <= dim,
        ;
    }
}

/// Parts that stand one after the other stand there as one.
proof fn lemma_join(bytes: Seq<u8>, at: int, mid: int, end: int, a: Seq<u8>, b: Seq<u8>)
    requires
        0 <= at <= mid <= end <= bytes.len(),
        bytes.subrange(at, mid) == a,
        bytes.subrange(mid, end) == b,
    ensures
        bytes.subrange(at, end) == a + b,
{
    assert(bytes.subrange(at, end) =~= a + b);
}

/// Reads `count` centroids of `dim` components at `at`.
fn read_centroids(bytes: &[u8], at: usize, dim: usize, count: u64) -> (r: Option<
    (Vec<Vec<u32>>, usize),
>)
    requires
        at <= bytes@.len(),
    ensures
        r is Some <==> at + count * (4 * dim) <= bytes@.len(),
        r matches Some((centroids, end)) ==> {
            &&& end == at + count * (4 * dim)
            &&& centroids@.len() == count
            &&& forall|i: int| 0 <= i < count ==> (#[trigger] centroids@[i])@.len() == dim
            &&& bytes@.subrange(at as int, end as int) == centroid_table(centroids@, dim as int)
        },
{
    assert(bytes.len() == bytes@.len());
    let mut centroids: Vec<Vec<u32>> = Vec::new();
    let mut end: usize = at;
    let mut i: u64 = 0;
    proof {
        vstd::arithmetic::mul::lemma_mul_basics(4 * dim as int);
        assert(centroid_table(centroids@, dim as int) =~= Seq::<u8>::empty());
        assert(bytes@.subrange(at as int, at as int) =~= Seq::<u8>::empty());
    }
    while i < count
        invariant
            bytes.len() == bytes@.len(),
            i <= count,
            at <= end <= bytes@.len(),
            end == at + i * (4 * dim),
            centroids@.len() == i,
            forall|j: int| 0 <= j < i ==> (#[trigger] centroids@[j])@.len() == dim,
            bytes@.subrange(at as int, end as int) == centroid_table(centroids@, dim as int),
        decreases count - i,
    {
        assert((i + 1) * (4 * dim) == i * (4 * dim) + 4 * dim) by (nonlinear_arith);
        assert((i + 1) * (4 * dim) <= count * (4 * dim)) by (nonlinear_arith)
            requires
                i + 1 <= count,
                0 <= dim,
        ;
        match get_u32s(bytes, end, dim) {
            None => {
                return None;
            },
            Some(row) => {
                proof {
                    let rows = centroids@.map_values(|c: Vec<u32>| bytes::run32(c@));
                    bytes::lemma_table_push(rows, bytes::run32(row@), 4 * dim as int);
                    assert(centroids@.push(row).map_values(|c: Vec<u32>| bytes::run32(c@))
                        =~= rows.push(bytes::run32(row@)));
                    lemma_join(
                        bytes@,
                        at as int,
                        end as int,
                        end + 4 * dim,
                        centroid_table(centroids@, dim as int),
                        bytes::run32(row@),
                    );
                }
                centroids.push(row);
                end = end + 4 * dim;
            },
        }
        i = i + 1;
    }
    Some((centroids, end))
}

/// Reads a cluster of vectors of `dim` components at `at`.
fn read_cluster(bytes: &[u8], at: usize, dim: usize) -> (r: Option<(Vec<Member>, usize)>)
    requires
        at <= bytes@.len(),
    ensures
        r is Some <==> cluster_end(bytes@, at as int, dim as int) <= bytes@.len(),
        r matches Some((cluster, end)) ==> {
            &&& end == cluster_end(bytes@, at as int, dim as int)
            &&& cluster_has_dim(cluster@, dim as int)
            &&& bytes@.subrange(at as int, end as int) == cluster_bytes(cluster@, dim as int)
        },
{
    assert(bytes.len() == bytes@.len());
    let size: u64 = match get_u64(bytes, at) {
        None => {
            return None;
        },
        Some(size) => size,
    };
    let ghost w = 4 + 4 * dim as int;
    let first: usize = at + 8;
    let mut cluster: Vec<Member> = Vec::new();
    let mut end: usize = first;
    let mut j: u64 = 0;
    proof {
        vstd::arithmetic::mul::lemma_mul_basics(w);
        assert(member_table(cluster@, dim as int) =~= Seq::<u8>::empty());
        assert(bytes@.subrange(first as int, first as int) =~= Seq::<u8>::empty());
    }
    while j < size
        invariant
            bytes.len() == bytes@.len(),
            w == 4 + 4 * dim,
            j <= size,
            first == at + 8,
            first <= end <= bytes@.len(),
            end == first + j * w,
            size == bytes::u64_at(bytes@, at as int),
            cluster@.len() == j,
            cluster_has_dim(cluster@, dim as int),
            bytes@.subrange(first as int, end as int) == member_table(cluster@, dim as int),
        decreases size - j,
    {
        assert((j + 1) * w == j * w + w) by (nonlinear_arith);
        assert((j + 1) * w <= size * w) by (nonlinear_arith)
            requires
                j + 1 <= size,
                0 <= w,
        ;
        let id: u32 = match get_u32(bytes, end) {
            None => {
                return None;
            },
            Some(id) => id,
        };
        let components: Vec<u32> = match get_u32s(bytes, end + 4, dim) {
            None => {
                return None;
            },
            Some(components) => components,
        };
        let member: Member = Member { id, components };
        proof {
            bytes::lemma_numbers();
            lemma_join(
                bytes@,
                end as int,
                end + 4,
                end + w,
                bytes::le32(id),
                bytes::run32(components@),
            );
            let row = member_bytes(member);
            let rows = cluster@.map_values(|m: Member| member_bytes(m));
            bytes::lemma_table_push(rows, row, w);
            assert(cluster@.push(member).map_values(|m: Member| member_bytes(m)) =~= rows.push(
                row,
            ));
            lemma_join(
                bytes@,
                first as int,
                end as int,
                end + w,
                member_table(cluster@, dim as int),
                row,
            );
        }
        cluster.push(member);
        end = end + 4 + 4 * dim;
        j = j + 1;
    }
    proof {
        bytes::lemma_numbers();
        lemma_join(
            bytes@,
            at as int,
            first as int,
            end as int,
            bytes::le64(size),
            member_table(cluster@, dim as int),
        );
    }
    Some((cluster, end))
}

/// Reads the index that stands at `at`: the index, the dimension of its vectors, and where it ends.
pub fn read_index(bytes: &[u8], at: usize) -> (r: Option<(IvfIndex, usize, usize)>)
    requires
        at <= bytes@.len(),
    ensures
        r is Some <==> index_end(bytes@, at as int) <= bytes@.len(),
        r matches Some((index, dim, end)) ==> {
            &&& end == index_end(bytes@, at as int)
            &&& index.has_dim(dim as int)
            &&& index.clusters@.len() == cluster_count(bytes@, at as int)
            &&& at <= end
            &&& bytes@.subrange(at as int, end as int) == index_bytes(index, dim as int)
        },
{
    assert(bytes.len() == bytes@.len());
    let dim64: u64 = match get_u64(bytes, at) {
        None => {
            return None;
        },
        Some(x) => x,
    };
    let n_centroids: u64 = match get_u64(bytes, at + 8) {
        None => {
            return None;
        },
        Some(x) => x,
    };
    if dim64 > usize::MAX as u64 {
        return None;
    }
    let dim: usize = dim64 as usize;
    let (centroids, clusters_at): (Vec<Vec<u32>>, usize) = match read_centroids(
        bytes,
        at + 16,
        dim,
        n_centroids,
    ) {
        None => {
            return None;
        },
        Some(x) => x,
    };
    let n_clusters: u64 = match get_u64(bytes, clusters_at) {
        None => {
            return None;
        },
        Some(x) => x,
    };
    let first: usize = clusters_at + 8;
    let mut clusters: Vec<Vec<Member>> = Vec::new();
    let mut end: usize = first;
    let mut i: u64 = 0;
    assert(bytes@.subrange(first as int, first as int) =~= Seq::<u8>::empty());
    while i < n_clusters
        invariant
            bytes.len() == bytes@.len(),
            i <= n_clusters,
            first <= end <= bytes@.len(),
            end == clusters_end(bytes@, first as int, dim as int, i as int),
            index_end(bytes@, at as int) == clusters_end(
                bytes@,
                first as int,
                dim as int,
                n_clusters as int,
            ),
            clusters@.len() == i,
            forall|c: int|
                0 <= c < i ==> cluster_has_dim((#[trigger] clusters@[c])@, dim as int),
            bytes@.subrange(first as int, end as int) == clusters_bytes(
                clusters@,
                dim as int,
                i as int,
            ),
        decreases n_clusters - i,
    {
        proof {
            lemma_ends_monotone(bytes@, first as int, dim as int, i + 1, n_clusters as int);
        }
        match read_cluster(bytes, end, dim) {
            None => {
                return None;
            },
            Some((cluster, next)) => {
                proof {
                    lemma_join(
                        bytes@,
                        first as int,
                        end as int,
                        next as int,
                        clusters_bytes(clusters@, dim as int, i as int),
                        cluster_bytes(cluster@, dim as int),
                    );
                    lemma_clusters_prefix(
                        clusters@,
                        clusters@.push(cluster),
                        dim as int,
                        i as int,
                    );
                }
                clusters.push(cluster);
                end = next;
            },
        }
        i = i + 1;
    }
    let index: IvfIndex = IvfIndex { centroids, clusters };
    proof {
        bytes::lemma_numbers();
        assert(bytes@.subrange(at as int, end as int) =~= bytes@.subrange(at as int, at + 8)
            + bytes@.subrange(at + 8, at + 16) + bytes@.subrange(at + 16, clusters_at as int)
            + bytes@.subrange(clusters_at as int, first as int) + bytes@.subrange(
            first as int,
            end as int,
        ));
    }
    Some((index, dim, end))
}

/// The bytes of the first clusters depend on these alone.
proof fn lemma_clusters_prefix(a: Seq<Vec<Member>>, b: Seq<Vec<Member>>, dim: int, n: int)
    requires
        n <= a.len(),
        n <= b.len(),
        forall|i: int| 0 <= i < n ==> a[i] == b[i],
    ensures
        clusters_bytes(a, dim, n) == clusters_bytes(b, dim, n),
    decreases n,
{
    if n > 0 {
        lemma_clusters_prefix(a, b, dim, n - 1);
    }
}

/// Two indexes hold the same centroids and the same vectors in the same clusters.
pub open spec fn same_index(a: IvfIndex, b: IvfIndex) -> bool {
    &&& a.centroids@.len() == b.centroids@.len()
    &&& forall|i: int|
        0 <= i < a.centroids@.len() ==> (#[trigger] a.centroids@[i])@ == b.centroids@[i]@
    &&& a.clusters@.len() == b.clusters@.len()
    &&& forall|i: int|
        0 <= i < a.clusters@.len() ==> same_cluster((#[trigger] a.clusters@[i])@, b.clusters@[i]@)
}

/// Two clusters hold the same vectors in the same order.
pub open spec fn same_cluster(a: Seq<Member>, b: Seq<Member>) -> bool {
    &&& a.len() == b.len()
    &&& forall|j: int|
        0 <= j < a.len() ==> (#[trigger] a[j]).id == b[j].id && a[j].components@
            == b[j].components@
}

/// Each of the clusters that stand at `at` stands where the one before it ends.
proof fn lemma_cluster_places(
    bytes: Seq<u8>,
    at: int,
    clusters: Seq<Vec<Member>>,
    dim: int,
    n: int,
)
    requires
        0 <= at,
        0 <= dim,
        0 <= n <= clusters.len(),
        bytes::has_at(bytes, at, clusters_bytes(clusters, dim, n)),
    ensures
        clusters_end(bytes, at, dim, n) == at + clusters_bytes(clusters, dim, n).len(),
        forall|i: int|
            0 <= i < n ==> bytes::has_at(
                bytes,
                clusters_end(bytes, at, dim, i),
                cluster_bytes((#[trigger] clusters[i])@, dim),
            ) && at <= clusters_end(bytes, at, dim, i),
    decreases n,
{
    if n > 0 {
        let front = clusters_bytes(clusters, dim, n - 1);
        let last = cluster_bytes(clusters[n - 1]@, dim);
        assert(bytes.subrange(at, at + front.len()) =~= bytes.subrange(
            at,
            at + front.len() + last.len(),
        ).subrange(0, front.len() as int));
        assert((front + last).subrange(0, front.len() as int) =~= front);
        lemma_cluster_places(bytes, at, clusters, dim, n - 1);
        let a = at + front.len();
        assert(bytes.subrange(a, a + last.len()) =~= bytes.subrange(
            at,
            at + front.len() + last.len(),
        ).subrange(front.len() as int, (front.len() + last.len()) as int));
        assert((front + last).subrange(front.len() as int, (front.len() + last.len()) as int)
            =~= last);
        assert(bytes::has_at(bytes, a, last));
        bytes::lemma_numbers();
        let count = clusters[n - 1]@.len();
        assert(bytes.subrange(a, a + 8) =~= bytes.subrange(a, a + last.len()).subrange(0, 8));
        assert(last.subrange(0, 8) =~= bytes::le64(count as u64));
        assert(bytes::has_at(bytes, a, bytes::le64(count as u64)));
        assert(bytes::u64_at(bytes, a) == count as u64);
        assert(clusters[n - 1].len() == count);
    }
}

/// Clusters are equal if their bytes are.
proof fn lemma_same_cluster(bytes: Seq<u8>, at: int, a: Vec<Member>, b: Vec<Member>, dim: int)
    requires
        0 <= at,
        0 <= dim,
        cluster_has_dim(a@, dim),
        cluster_has_dim(b@, dim),
        bytes::has_at(bytes, at, cluster_bytes(a@, dim)),
        bytes::has_at(bytes, at, cluster_bytes(b@, dim)),
    ensures
        same_cluster(a@, b@),
{
    bytes::lemma_numbers();
    let ba = cluster_bytes(a@, dim);
    let bb = cluster_bytes(b@, dim);
    assert(bytes.subrange(at, at + ba.len()).subrange(0, 8) =~= bytes.subrange(
        at,
        at + bb.len(),
    ).subrange(0, 8));
    assert(ba.subrange(0, 8) =~= bytes::le64(a@.len() as u64));
    assert(bb.subrange(0, 8) =~= bytes::le64(b@.len() as u64));
    assert(a.len() == a@.len() && b.len() == b@.len());
    assert(a@.len() == b@.len());
    assert(ba.subrange(8, ba.len() as int) =~= member_table(a@, dim));
    assert(bb.subrange(8, bb.len() as int) =~= member_table(b@, dim));
    assert(ba.len() == bb.len());
    let ra = a@.map_values(|m: Member| member_bytes(m));
    let rb = b@.map_values(|m: Member| member_bytes(m));
    bytes::lemma_table_injective(ra, rb, 4 + 4 * dim);
    assert forall|j: int| 0 <= j < a@.len() implies (#[trigger] a@[j]).id == b@[j].id
        && a@[j].components@ == b@[j].components@ by {
        assert(ra[j] == rb[j]);
        assert(member_bytes(a@[j]).subrange(0, 4) =~= bytes::le32(a@[j].id));
        assert(member_bytes(b@[j]).subrange(0, 4) =~= bytes::le32(b@[j].id));
        let ca = bytes::run32(a@[j].components@);
        let cb = bytes::run32(b@[j].components@);
        assert(member_bytes(a@[j]).subrange(4, 4int + ca.len()) =~= ca);
        assert(member_bytes(b@[j]).subrange(4, 4int + cb.len()) =~= cb);
        bytes::runs_of_words_are_injective(a@[j].components@, b@[j].components@);
    }
}

/// An index that was written is found in full.
pub proof fn lemma_written_index_end(bytes: Seq<u8>, at: int, written: IvfIndex, dim: usize)
    requires
        0 <= at,
        written.has_dim(dim as int),
        bytes::has_at(bytes, at, index_bytes(written, dim as int)),
    ensures
        index_end(bytes, at) == at + index_bytes(written, dim as int).len(),
        cluster_count(bytes, at) == written.clusters@.len(),
        bytes::has_at(
            bytes,
            at + 24 + centroid_table(written.centroids@, dim as int).len(),
            clusters_bytes(written.clusters@, dim as int, written.clusters@.len() as int),
        ),
{
    bytes::lemma_numbers();
    let d = dim as int;
    let n = written.centroids@.len();
    let k = written.clusters@.len();
    assert(written.centroids.len() == n && written.clusters.len() == k);
    let table = centroid_table(written.centroids@, d);
    let tail = clusters_bytes(written.clusters@, d, k as int);
    let all = index_bytes(written, d);
    let here = bytes.subrange(at, at + all.len());
    assert(0 <= n * (4 * d)) by (nonlinear_arith)
        requires
            0 <= n,
            0 <= d,
    ;
    assert(table.len() == n * (4 * d));
    assert(bytes.subrange(at, at + 8) =~= here.subrange(0, 8));
    assert(all.subrange(0, 8) =~= bytes::le64(dim as u64));
    assert(bytes::has_at(bytes, at, bytes::le64(dim as u64)));
    assert(bytes.subrange(at + 8, at + 16) =~= here.subrange(8, 16));
    assert(all.subrange(8, 16) =~= bytes::le64(n as u64));
    assert(bytes::has_at(bytes, at + 8, bytes::le64(n as u64)));
    assert(bytes::u64_at(bytes, at) == dim && bytes::u64_at(bytes, at + 8) == n);
    let c = 16 + table.len() as int;
    assert(bytes.subrange(at + c, at + c + 8) =~= here.subrange(c, c + 8));
    assert(all.subrange(c, c + 8) =~= bytes::le64(k as u64));
    assert(bytes::has_at(bytes, at + c, bytes::le64(k as u64)));
    assert(bytes::u64_at(bytes, at + c) == k);
    assert(bytes.subrange(at + c + 8, at + c + 8 + tail.len()) =~= here.subrange(
        c + 8,
        c + 8 + tail.len(),
    ));
    assert(all.subrange(c + 8, c + 8 + tail.len()) =~= tail);
    assert(bytes::has_at(bytes, at + c + 8, tail));
    lemma_cluster_places(bytes, at + c + 8, written.clusters@, d, k as int);
}

/// An index that was written is found in full, and only it can be read in its place.
pub proof fn reading_gives_back_what_was_written(
    bytes: Seq<u8>,
    at: int,
    written: IvfIndex,
    dim: usize,
    read: IvfIndex,
    read_dim: usize,
)
    requires
        0 <= at,
        written.has_dim(dim as int),
        bytes::has_at(bytes, at, index_bytes(written, dim as int)),
        read.has_dim(read_dim as int),
        bytes.subrange(at, index_end(bytes, at)) == index_bytes(read, read_dim as int),
    ensures
        index_end(bytes, at) == at + index_bytes(written, dim as int).len(),
        index_end(bytes, at) <= bytes.len(),
        read_dim == dim,
        same_index(read, written),
{
    bytes::lemma_numbers();
    let d = dim as int;
    let n = written.centroids@.len();
    let k = written.clusters@.len();
    assert(written.centroids.len() == n && written.clusters.len() == k);
    let table = centroid_table(written.centroids@, d);
    let tail = clusters_bytes(written.clusters@, d, k as int);
    let all = index_bytes(written, d);
    assert(0 <= n * (4 * d)) by (nonlinear_arith)
        requires
            0 <= n,
            0 <= d,
    ;
    assert(table.len() == n * (4 * d));
    let c = 16 + table.len() as int;
    lemma_written_index_end(bytes, at, written, dim);
    assert(all.subrange(0, 8) =~= bytes::le64(dim as u64));
    assert(all.subrange(8, 16) =~= bytes::le64(n as u64));
    assert(all.subrange(c, c + 8) =~= bytes::le64(k as u64));
    let other = index_bytes(read, read_dim as int);
    assert(other == all);
    assert(read.centroids.len() == read.centroids@.len() && read.clusters.len()
        == read.clusters@.len());
    assert(other.subrange(0, 8) =~= bytes::le64(read_dim as u64));
    assert(other.subrange(8, 16) =~= bytes::le64(read.centroids@.len() as u64));
    assert(read_dim == dim && read.centroids@.len() == n);
    let other_table = centroid_table(read.centroids@, d);
    assert(other.subrange(16, c) =~= other_table);
    assert(all.subrange(16, c) =~= table);
    let ra = read.centroids@.map_values(|x: Vec<u32>| bytes::run32(x@));
    let rb = written.centroids@.map_values(|x: Vec<u32>| bytes::run32(x@));
    bytes::lemma_table_injective(ra, rb, 4 * d);
    assert forall|i: int| 0 <= i < n implies (#[trigger] read.centroids@[i])@
        == written.centroids@[i]@ by {
        assert(ra[i] == rb[i]);
        bytes::runs_of_words_are_injective(read.centroids@[i]@, written.centroids@[i]@);
    }
    assert(other.subrange(c, c + 8) =~= bytes::le64(read.clusters@.len() as u64));
    assert(read.clusters@.len() == k);
    assert(bytes::has_at(bytes, at + c + 8, tail));
    let other_tail = clusters_bytes(read.clusters@, d, k as int);
    assert(other.subrange(c + 8, other.len() as int) =~= other_tail);
    assert(all.subrange(c + 8, all.len() as int) =~= tail);
    lemma_cluster_places(bytes, at + c + 8, read.clusters@, d, k as int);
    lemma_cluster_places(bytes, at + c + 8, written.clusters@, d, k as int);
    assert forall|i: int| 0 <= i < k implies same_cluster(
        (#[trigger] read.clusters@[i])@,
        written.clusters@[i]@,
    ) by {
        lemma_same_cluster(
            bytes,
            clusters_end(bytes, at + c + 8, d, i),
            read.clusters@[i],
            written.clusters@[i],
            d,
        );
    }
}

/// Centroid `a` may stand before centroid `b` on a route: by growing distance, and centroids at one
/// distance by number.
pub open spec fn nearer(distances: Seq<u32>, a: usize, b: usize) -> bool {
    let x = float_bits::total_order_32(distances[a as int]);
    let y = float_bits::total_order_32(distances[b as int]);
    x < y || (x == y && a <= b)
}

/// The numbers of all centroids, the nearest first.
pub open spec fn by_distance(distances: Seq<u32>) -> Seq<usize> {
    rearrange::all_below(distances.len() as int).sort_by(
        |a: usize, b: usize| nearer(distances, a, b),
    )
}

/// The numbers of the `nprobe` nearest centroids, the nearest first.
pub open spec fn routed(distances: Seq<u32>, nprobe: int) -> Seq<usize> {
    by_distance(distances).take(
        if nprobe < distances.len() {
            nprobe
        } else {
            distances.len() as int
        },
    )
}

/// The order on a route is total.
proof fn lemma_nearer_is_total(distances: Seq<u32>)
    ensures
        total_ordering(|a: usize, b: usize| nearer(distances, a, b)),
{
    let leq = |a: usize, b: usize| nearer(distances, a, b);
    assert(forall|a: usize| #[trigger] leq(a, a));
    assert forall|a: usize, b: usize| #[trigger] leq(a, b) && #[trigger] leq(b, a) implies a
        == b by {}
    assert forall|a: usize, b: usize, c: usize|
        #[trigger] leq(a, b) && #[trigger] leq(b, c) implies leq(a, c) by {}
    assert forall|a: usize, b: usize| #[trigger] leq(a, b) || #[trigger] leq(b, a) by {}
}

/// A centroid as a hit: the nearer, the higher the score, and the upper half of the number breaks
/// ties before the lower half does.
spec fn centroid_hit(distance: u32, number: int) -> Hit {
    Hit {
        id: (number % 0x1_0000_0000) as u32,
        score: ((-1 - float_bits::total_order_32(distance)) * 0x1_0000_0000 + (0xFFFF_FFFF - number
            / 0x1_0000_0000)) as i64,
    }
}

/// Centroids as hits.
spec fn centroid_hits(distances: Seq<u32>) -> Seq<Hit> {
    Seq::new(distances.len(), |i: int| centroid_hit(distances[i], i))
}

/// The number of the centroid that a hit stands for.
spec fn number_of(hit: Hit) -> int {
    (0xFFFF_FFFF - hit.score as int % 0x1_0000_0000) * 0x1_0000_0000 + hit.id
}

/// Hits stand for their centroids, and are ranked as these are on a route.
proof fn lemma_centroid_hits(distances: Seq<u32>)
    requires
        distances.len() <= usize::MAX,
    ensures
        forall|i: int|
            0 <= i < distances.len() ==> number_of(#[trigger] centroid_hits(distances)[i]) == i,
        forall|i: int, j: int|
            0 <= i < distances.len() && 0 <= j < distances.len() ==> (hits::ahead(
                #[trigger] centroid_hits(distances)[i],
                #[trigger] centroid_hits(distances)[j],
            ) <==> nearer(distances, i as usize, j as usize)),
{
}

/// What is ranked as hits is in the order of the route.
proof fn lemma_ranked_centroids(distances: Seq<u32>, order: Seq<usize>)
    requires
        distances.len() <= usize::MAX,
        order == hits::ranked(centroid_hits(distances)).map_values(
            |h: Hit| number_of(h) as usize,
        ),
    ensures
        order == by_distance(distances),
        forall|i: int|
            0 <= i < order.len() ==> 0 <= number_of(
                #[trigger] hits::ranked(centroid_hits(distances))[i],
            ) < distances.len(),
{
    let all = centroid_hits(distances);
    let ranked = hits::ranked(all);
    let leq = |a: usize, b: usize| nearer(distances, a, b);
    lemma_centroid_hits(distances);
    hits::ranking_is_an_ordered_rearrangement(all);
    hits::lemma_ranked_is_sorted(all);
    assert(all.no_duplicates()) by {
        assert forall|i: int, j: int| 0 <= i < all.len() && 0 <= j < all.len() && i
            != j implies all[i] != all[j] by {
            assert(number_of(all[i]) == i);
            assert(number_of(all[j]) == j);
        }
    }
    all.lemma_multiset_has_no_duplicates();
    ranked.lemma_multiset_has_no_duplicates_conv();
    all.to_multiset_ensures();
    ranked.to_multiset_ensures();
    assert forall|i: int| 0 <= i < ranked.len() implies (#[trigger] order[i]) < distances.len()
        && ranked[i] == all[order[i] as int] && 0 <= number_of(ranked[i]) < distances.len() by {
        assert(ranked.contains(ranked[i]));
        assert(ranked.to_multiset().count(ranked[i]) > 0);
        assert(all.contains(ranked[i]));
        let j = choose|j: int| 0 <= j < all.len() && all[j] == ranked[i];
        assert(number_of(all[j]) == j);
    }
    assert forall|i: int, j: int| 0 <= i < order.len() && 0 <= j < order.len() && i
        != j implies order[i] != order[j] by {
        assert(ranked[i] != ranked[j]);
        assert(ranked[i] == all[order[i] as int]);
        assert(ranked[j] == all[order[j] as int]);
    }
    rearrange::lemma_all_below(order);
    assert(sorted_by(order, leq)) by {
        assert forall|i: int, j: int| 0 <= i < j < order.len() implies #[trigger] leq(
            order[i],
            order[j],
        ) by {
            assert(hits::ahead(ranked[i], ranked[j]));
            assert(ranked[i] == all[order[i] as int]);
            assert(ranked[j] == all[order[j] as int]);
        }
    }
    assert forall|i: int| 0 <= i < ranked.len() implies 0 <= number_of(#[trigger] ranked[i])
        < distances.len() by {
        assert(order[i] < distances.len());
    }
    lemma_nearer_is_total(distances);
    let below = rearrange::all_below(distances.len() as int);
    below.lemma_sort_by_ensures(leq);
    vstd::seq_lib::lemma_sorted_unique(order, by_distance(distances), leq);
}

/// Picks the `nprobe` centroids that are nearest to a query, or all if there are fewer.
///
/// The distances are given as the bits of single-precision numbers and compared in the total
/// order. Centroids at one distance come in the order of their numbers.
pub fn probe_route(distances: &[u32], nprobe: usize) -> (probes: Vec<usize>)
    ensures
        probes@ == routed(distances@, nprobe as int),
        probes@.len() == (if nprobe < distances@.len() {
            nprobe as int
        } else {
            distances@.len() as int
        }),
        forall|i: int| 0 <= i < probes@.len() ==> #[trigger] probes@[i] < distances@.len(),
        probes@.no_duplicates(),
{
    let mut candidates: Vec<Hit> = Vec::with_capacity(distances.len());
    for i in 0..distances.len()
        invariant
            candidates@ == centroid_hits(distances@).take(i as int),
    {
        let key: i64 = total_order_key_32(distances[i]);
        let number: u64 = i as u64;
        let upper: i64 = (number / 0x1_0000_0000) as i64;
        candidates.push(
            Hit {
                id: (number % 0x1_0000_0000) as u32,
                score: (-1 - key) * 0x1_0000_0000 + (0xFFFF_FFFF - upper),
            },
        );
        assert(candidates@ =~= centroid_hits(distances@).take(i + 1));
    }
    assert(candidates@ =~= centroid_hits(distances@));
    let nearest: Vec<Hit> = rank(&candidates, nprobe);
    let ghost ranked = hits::ranked(candidates@);
    let ghost order = ranked.map_values(|h: Hit| number_of(h) as usize);
    proof {
        hits::ranking_is_an_ordered_rearrangement(candidates@);
        lemma_ranked_centroids(distances@, order);
        lemma_routed(distances@, nprobe as int);
        assert(routed(distances@, nprobe as int) =~= order.take(nearest@.len() as int));
    }
    let mut probes: Vec<usize> = Vec::with_capacity(nearest.len());
    for i in 0..nearest.len()
        invariant
            nearest@.len() <= ranked.len(),
            nearest@ == ranked.take(nearest@.len() as int),
            order == ranked.map_values(|h: Hit| number_of(h) as usize),
            routed(distances@, nprobe as int) == order.take(nearest@.len() as int),
            forall|j: int|
                0 <= j < routed(distances@, nprobe as int).len() ==> #[trigger] routed(
                    distances@,
                    nprobe as int,
                )[j] < distances@.len(),
            forall|j: int|
                0 <= j < ranked.len() ==> 0 <= number_of(#[trigger] ranked[j]) < distances@.len(),
            distances@.len() <= usize::MAX,
            probes@ == order.take(i as int),
    {
        let score: i128 = nearest[i].score as i128;
        let lower: u128 = (score + 0x8000_0000_0000_0000) as u128 % 0x1_0000_0000;
        let upper: u64 = 0xFFFF_FFFF - lower as u64;
        assert(nearest@[i as int] == ranked[i as int]);
        let number: u64 = upper * 0x1_0000_0000 + nearest[i].id as u64;
        assert(number == number_of(ranked[i as int]));
        probes.push(number as usize);
        assert(probes@ =~= order.take(i + 1));
    }
    probes
}

/// A route has as many centroids as are to be probed, each once.
pub proof fn lemma_routed(distances: Seq<u32>, nprobe: int)
    requires
        distances.len() <= usize::MAX,
        0 <= nprobe,
    ensures
        routed(distances, nprobe).len() == (if nprobe < distances.len() {
            nprobe
        } else {
            distances.len() as int
        }),
        forall|i: int|
            0 <= i < routed(distances, nprobe).len() ==> #[trigger] routed(distances, nprobe)[i]
                < distances.len(),
        routed(distances, nprobe).no_duplicates(),
{
    let below = rearrange::all_below(distances.len() as int);
    let order = by_distance(distances);
    lemma_nearer_is_total(distances);
    below.lemma_sort_by_ensures(|a: usize, b: usize| nearer(distances, a, b));
    assert(below.no_duplicates());
    below.lemma_multiset_has_no_duplicates();
    order.lemma_multiset_has_no_duplicates_conv();
    below.to_multiset_ensures();
    order.to_multiset_ensures();
    assert forall|i: int| 0 <= i < order.len() implies #[trigger] order[i] < distances.len() by {
        assert(order.contains(order[i]));
        assert(order.to_multiset().count(order[i]) > 0);
        assert(below.contains(order[i]));
    }
}

/// No centroid that is left out is nearer than one that is probed.
pub proof fn probed_centroids_are_nearest(distances: Seq<u32>, nprobe: int, i: int, c: int)
    requires
        distances.len() <= usize::MAX,
        0 <= i < routed(distances, nprobe).len(),
        0 <= c < distances.len(),
        0 <= nprobe,
        !routed(distances, nprobe).contains(c as usize),
    ensures
        float_bits::total_order_32(distances[routed(distances, nprobe)[i] as int])
            <= float_bits::total_order_32(distances[c]),
{
    let below = rearrange::all_below(distances.len() as int);
    let order = by_distance(distances);
    let leq = |a: usize, b: usize| nearer(distances, a, b);
    let picked = routed(distances, nprobe);
    lemma_nearer_is_total(distances);
    below.lemma_sort_by_ensures(leq);
    below.to_multiset_ensures();
    order.to_multiset_ensures();
    assert(below[c] == c as usize);
    assert(below.contains(c as usize));
    assert(order.to_multiset().count(c as usize) > 0);
    assert(order.contains(c as usize));
    let j = choose|j: int| 0 <= j < order.len() && order[j] == c as usize;
    if j < picked.len() {
        assert(picked[j] == c as usize);
        assert(picked.contains(c as usize));
    }
    assert(leq(order[i], order[j]));
}

/// A route goes to nearer centroids first, and among centroids at one distance to lower numbers first.
pub proof fn routes_go_to_nearer_centroids_first(distances: Seq<u32>, nprobe: int, i: int, j: int)
    requires
        distances.len() <= usize::MAX,
        0 <= nprobe,
        0 <= i < j < routed(distances, nprobe).len(),
    ensures
        ({
            let a = routed(distances, nprobe)[i];
            let b = routed(distances, nprobe)[j];
            let x = float_bits::total_order_32(distances[a as int]);
            let y = float_bits::total_order_32(distances[b as int]);
            x < y || (x == y && a < b)
        }),
{
    let below = rearrange::all_below(distances.len() as int);
    let order = by_distance(distances);
    let leq = |a: usize, b: usize| nearer(distances, a, b);
    lemma_nearer_is_total(distances);
    below.lemma_sort_by_ensures(leq);
    lemma_routed(distances, nprobe);
    below.to_multiset_ensures();
    order.to_multiset_ensures();
    assert(order.len() == distances.len());
    assert(leq(order[i], order[j]));
    assert(routed(distances, nprobe)[i] == order[i]);
    assert(routed(distances, nprobe)[j] == order[j]);
}

/// A query that may probe all centroids probes each of them.
pub proof fn full_routes_reach_every_centroid(distances: Seq<u32>, nprobe: int, c: int)
    requires
        distances.len() <= usize::MAX,
        distances.len() <= nprobe,
        0 <= c < distances.len(),
    ensures
        routed(distances, nprobe).contains(c as usize),
{
    let route = routed(distances, nprobe);
    let below = rearrange::all_below(distances.len() as int);
    lemma_routed(distances, nprobe);
    rearrange::lemma_all_below(route);
    below.to_multiset_ensures();
    route.to_multiset_ensures();
    assert(below[c] == c as usize);
    assert(below.contains(c as usize));
    assert(route.to_multiset().count(c as usize) > 0);
}

/// The vectors of clusters are counted cluster by cluster.
pub proof fn members_are_counted_in_every_cluster(clusters: Seq<Vec<Member>>, n: nat)
    requires
        n <= clusters.len(),
    ensures
        total_members(clusters, n as int) == sums::sum(
            n as int,
            |c: int| clusters[c]@.len() as int,
        ),
    decreases n,
{
    if n > 0 {
        members_are_counted_in_every_cluster(clusters, (n - 1) as nat);
    }
}

/// Indexes are the same if every centroid, and every vector of every cluster with its number, is.
pub proof fn same_indexes_agree_everywhere(a: IvfIndex, b: IvfIndex)
    ensures
        same_index(a, b) <==> a.centroids@.map_values(|c: Vec<u32>| c@) == b.centroids@.map_values(
            |c: Vec<u32>| c@,
        ) && a.clusters@.map_values(
            |c: Vec<Member>| c@.map_values(|m: Member| (m.id, m.components@)),
        ) == b.clusters@.map_values(
            |c: Vec<Member>| c@.map_values(|m: Member| (m.id, m.components@)),
        ),
{
    let centroids = |c: Vec<u32>| c@;
    let pair = |m: Member| (m.id, m.components@);
    let members = |c: Vec<Member>| c@.map_values(pair);
    let ac = a.centroids@.map_values(centroids);
    let bc = b.centroids@.map_values(centroids);
    let am = a.clusters@.map_values(members);
    let bm = b.clusters@.map_values(members);
    if same_index(a, b) {
        assert(ac =~= bc);
        assert forall|i: int| 0 <= i < am.len() implies #[trigger] am[i] == bm[i] by {
            assert(same_cluster(a.clusters@[i]@, b.clusters@[i]@));
            assert(am[i] =~= bm[i]);
        }
        assert(am =~= bm);
    }
    if ac == bc && am == bm {
        assert(ac.len() == bc.len() && am.len() == bm.len());
        assert forall|i: int| 0 <= i < a.centroids@.len() implies (#[trigger] a.centroids@[i])@
            == b.centroids@[i]@ by {
            assert(ac[i] == bc[i]);
        }
        assert forall|i: int| 0 <= i < a.clusters@.len() implies same_cluster(
            (#[trigger] a.clusters@[i])@,
            b.clusters@[i]@,
        ) by {
            assert(am[i] == bm[i]);
            assert(am[i].len() == bm[i].len());
            assert forall|j: int| 0 <= j < a.clusters@[i]@.len() implies (
            #[trigger] a.clusters@[i]@[j]).id == b.clusters@[i]@[j].id
                && a.clusters@[i]@[j].components@ == b.clusters@[i]@[j].components@ by {
                assert(am[i][j] == bm[i][j]);
            }
        }
    }
}

/// Where cluster `c` stands among the bytes of clusters: behind the count and the vectors of each
/// cluster before it.
proof fn lemma_clusters_layout(clusters: Seq<Vec<Member>>, dim: nat, n: int, c: int)
    requires
        0 <= c <= n <= clusters.len(),
        forall|i: int|
            0 <= i < clusters.len() ==> cluster_has_dim((#[trigger] clusters[i])@, dim as int),
    ensures
        ({
            let width = 4 + 4 * dim as int;
            let size = |x: int| 8 + clusters[x]@.len() * width;
            let all = clusters_bytes(clusters, dim as int, n);
            &&& all.len() == sums::sum(n, size)
            &&& 0 <= sums::sum(c, size) <= all.len()
            &&& c < n ==> sums::sum(c, size) + size(c) <= all.len() && all.subrange(
                sums::sum(c, size),
                sums::sum(c, size) + size(c),
            ) == cluster_bytes(clusters[c]@, dim as int)
        }),
    decreases n,
{
    bytes::lemma_numbers();
    let width = 4 + 4 * dim as int;
    let size = |x: int| 8 + clusters[x]@.len() * width;
    if n > 0 {
        let before = clusters_bytes(clusters, dim as int, n - 1);
        let last = cluster_bytes(clusters[n - 1]@, dim as int);
        let all = clusters_bytes(clusters, dim as int, n);
        assert(0 <= clusters[n - 1]@.len() * width) by (nonlinear_arith)
            requires
                0 <= width,
        ;
        assert(last.len() == size(n - 1));
        lemma_clusters_layout(
            clusters,
            dim,
            n - 1,
            if c < n {
                c
            } else {
                n - 1
            },
        );
        if c == n - 1 {
            assert(all.subrange(before.len() as int, all.len() as int) =~= last);
        } else if c < n - 1 {
            let from = sums::sum(c, size);
            let to = from + size(c);
            assert(all.subrange(from, to) =~= before.subrange(from, to));
        }
    }
}

/// How an index is laid out: the dimension and the number of centroids, eight bytes each; every
/// component of every centroid, four bytes each; the number of clusters, eight bytes; and the
/// clusters, one after the other: how many vectors each has, in eight bytes, and its vectors, each
/// with its number and its components, four bytes each. The lowest byte comes first.
pub proof fn indexes_are_laid_out_in_order(
    index: IvfIndex,
    dim: nat,
    i: int,
    c: int,
    j: int,
    t: int,
)
    requires
        index.has_dim(dim as int),
        0 <= i < index.centroids@.len(),
        0 <= c < index.clusters@.len(),
        0 <= j < index.clusters@[c]@.len(),
        0 <= t < dim,
    ensures
        ({
            let laid = index_bytes(index, dim as int);
            let width = 4 + 4 * dim as int;
            let count_at = 16 + index.centroids@.len() * (4 * dim as int);
            let size = |x: int| 8 + index.clusters@[x]@.len() * width;
            let cluster_at = count_at + 8 + sums::sum(c, size);
            let member_at = cluster_at + 8 + j * width;
            let member = index.clusters@[c]@[j];
            &&& laid.len() == count_at + 8 + sums::sum(index.clusters@.len() as int, size)
            &&& laid.subrange(0, 8) == vstd::bytes::spec_u64_to_le_bytes(dim as u64)
            &&& laid.subrange(8, 16) == vstd::bytes::spec_u64_to_le_bytes(
                index.centroids@.len() as u64,
            )
            &&& laid.subrange(16 + i * (4 * dim) + 4 * t, 16 + i * (4 * dim) + 4 * t + 4)
                == vstd::bytes::spec_u32_to_le_bytes(index.centroids@[i]@[t])
            &&& laid.subrange(count_at, count_at + 8) == vstd::bytes::spec_u64_to_le_bytes(
                index.clusters@.len() as u64,
            )
            &&& laid.subrange(cluster_at, cluster_at + 8) == vstd::bytes::spec_u64_to_le_bytes(
                index.clusters@[c]@.len() as u64,
            )
            &&& laid.subrange(member_at, member_at + 4) == vstd::bytes::spec_u32_to_le_bytes(
                member.id,
            )
            &&& laid.subrange(member_at + 4 + 4 * t, member_at + 8 + 4 * t)
                == vstd::bytes::spec_u32_to_le_bytes(member.components@[t])
        }),
{
    bytes::lemma_numbers();
    let laid = index_bytes(index, dim as int);
    let width = 4 + 4 * dim as int;
    let w = 4 * dim as int;
    let n = index.centroids@.len() as int;
    let count_at = 16 + n * w;
    let size = |x: int| 8 + index.clusters@[x]@.len() * width;
    let table = centroid_table(index.centroids@, dim as int);
    let all = clusters_bytes(index.clusters@, dim as int, index.clusters@.len() as int);
    let cluster = index.clusters@[c]@;
    let rows = index.centroids@.map_values(|v: Vec<u32>| bytes::run32(v@));
    let members = cluster.map_values(|m: Member| member_bytes(m));
    assert(index.centroids@[i]@.len() == dim);
    assert(cluster_has_dim(cluster, dim as int));
    assert(cluster[j].components@.len() == dim);
    assert(0 <= n * w) by (nonlinear_arith)
        requires
            0 <= n,
            0 <= w,
    ;
    assert(table.len() == n * w);
    lemma_clusters_layout(index.clusters@, dim, index.clusters@.len() as int, c);
    bytes::runs_of_words_hold_each_word(index.centroids@[i]@, t);
    bytes::runs_of_words_hold_each_word(cluster[j].components@, t);
    assert(rows[i].len() == w);
    bytes::lemma_table_rows(rows, w, i);
    assert(members[j].len() == width);
    bytes::lemma_table_rows(members, width, j);
    let from = sums::sum(c, size);
    let cluster_at = count_at + 8 + from;
    let member_at = cluster_at + 8 + j * width;
    let one = cluster_bytes(cluster, dim as int);
    assert(laid.subrange(0, 8) =~= bytes::le64(dim as u64));
    assert(laid.subrange(8, 16) =~= bytes::le64(index.centroids@.len() as u64));
    assert(laid.subrange(16, count_at) =~= table);
    assert(laid.subrange(count_at, count_at + 8) =~= bytes::le64(index.clusters@.len() as u64));
    assert(laid.subrange(count_at + 8, laid.len() as int) =~= all);
    assert(laid.subrange(cluster_at, cluster_at + size(c)) =~= all.subrange(from, from + size(c)));
    assert(laid.subrange(cluster_at, cluster_at + 8) =~= one.subrange(0, 8));
    assert(one.subrange(0, 8) =~= bytes::le64(cluster.len() as u64));
    let words = index.centroids@[i]@;
    assert(laid.subrange(16 + i * w + 4 * t, 16 + i * w + 4 * t + 4) =~= table.subrange(
        i * w,
        i * w + w,
    ).subrange(4 * t, 4 * t + 4));
    assert(laid.subrange(member_at, member_at + width) =~= member_table(
        cluster,
        dim as int,
    ).subrange(j * width, j * width + width)) by {
        assert(one.subrange(8, size(c)) =~= member_table(cluster, dim as int));
        assert(j * width + width <= cluster.len() * width) by (nonlinear_arith)
            requires
                0 <= j < cluster.len(),
                0 <= width,
        ;
        assert(laid.subrange(member_at, member_at + width) =~= laid.subrange(
            cluster_at,
            cluster_at + size(c),
        ).subrange(8 + j * width, 8 + j * width + width));
        assert(one.subrange(8 + j * width, 8 + j * width + width) =~= one.subrange(
            8,
            size(c),
        ).subrange(j * width, j * width + width));
    }
    let member = member_bytes(cluster[j]);
    assert(laid.subrange(member_at, member_at + width) == member);
    assert(laid.subrange(member_at, member_at + 4) =~= member.subrange(0, 4));
    assert(member.subrange(0, 4) =~= bytes::le32(cluster[j].id));
    assert(laid.subrange(member_at + 4 + 4 * t, member_at + 8 + 4 * t) =~= member.subrange(
        4 + 4 * t,
        8 + 4 * t,
    ));
    assert(member.subrange(4 + 4 * t, 8 + 4 * t) =~= bytes::run32(
        cluster[j].components@,
    ).subrange(4 * t, 4 * t + 4));
}

} // verus!
