//! The matrix of all clusters.
//!
//! Cluster `c` fills columns `c * d` to `c * d + d`; its vector number `r` stands in row `r`. Rows
//! past a cluster's last vector hold zeros in its columns.

use vstd::prelude::*;

use crate::math::congruence;
use crate::math::layout;
use crate::tiptoe::encoding;
use crate::tiptoe::encoding::{encode_vector, EncodingError};

verus! {

/// A vector of a cluster: its number and its scaled components, `None` where one is not finite.
pub struct ScaledVector {
    /// Number of the vector.
    pub id: u32,
    /// Scaled and rounded components.
    pub components: Vec<Option<i64>>,
}

/// The encoded clusters with the numbers of their vectors.
pub struct EncodedClusters {
    matrix: Vec<u64>,
    m_max: usize,
    d: usize,
    n_centroids: usize,
    cluster_membership: Vec<Vec<u32>>,
}

/// The most vectors that one of the first `n` clusters holds.
pub open spec fn largest(clusters: Seq<Vec<ScaledVector>>, n: int) -> int
    decreases n,
{
    if n <= 0 {
        0
    } else if clusters[n - 1]@.len() > largest(clusters, n - 1) {
        clusters[n - 1]@.len() as int
    } else {
        largest(clusters, n - 1)
    }
}

/// No cluster holds more vectors than the largest.
proof fn lemma_largest(clusters: Seq<Vec<ScaledVector>>, n: int)
    requires
        0 <= n <= clusters.len(),
    ensures
        0 <= largest(clusters, n),
        forall|c: int| 0 <= c < n ==> (#[trigger] clusters[c])@.len() <= largest(clusters, n),
        n > 0 ==> exists|c: int|
            0 <= c < n && (#[trigger] clusters[c])@.len() == largest(clusters, n),
    decreases n,
{
    if n > 0 {
        lemma_largest(clusters, n - 1);
        if clusters[n - 1]@.len() > largest(clusters, n - 1) {
            assert(clusters[n - 1]@.len() == largest(clusters, n));
        } else if n == 1 {
            assert(clusters[0]@.len() == largest(clusters, n));
        } else {
            let c = choose|c: int|
                0 <= c < n - 1 && (#[trigger] clusters[c])@.len() == largest(clusters, n - 1);
            assert(clusters[c]@.len() == largest(clusters, n));
        }
    }
}

/// Every vector has `d` components.
pub open spec fn has_dimension(clusters: Seq<Vec<ScaledVector>>, d: int) -> bool {
    forall|c: int, r: int|
        0 <= c < clusters.len() && 0 <= r < clusters[c]@.len() ==> (
        #[trigger] clusters[c]@[r]).components@.len() == d
}

/// Every component of a vector is finite.
pub open spec fn row_is_finite(row: ScaledVector) -> bool {
    encoding::first_non_finite(row.components@) == row.components@.len()
}

/// Every component of every vector is finite.
pub open spec fn all_finite(clusters: Seq<Vec<ScaledVector>>) -> bool {
    forall|c: int, r: int|
        0 <= c < clusters.len() && 0 <= r < clusters[c]@.len() ==> row_is_finite(
            #[trigger] clusters[c]@[r],
        )
}

/// The vector of a row in a cluster is the first that has a component that is not finite.
pub open spec fn is_first_bad(clusters: Seq<Vec<ScaledVector>>, c: int, r: int) -> bool {
    &&& 0 <= c < clusters.len()
    &&& 0 <= r < clusters[c]@.len()
    &&& !row_is_finite(clusters[c]@[r])
    &&& forall|a: int, b: int|
        0 <= a < clusters.len() && 0 <= b < clusters[a]@.len() && (a < c || (a == c && b < r))
            ==> row_is_finite(#[trigger] clusters[a]@[b])
}

/// Entry `t` of cluster `c` in row `r` of the matrix.
pub open spec fn block_entry(
    clusters: Seq<Vec<ScaledVector>>,
    q: u8,
    p: u64,
    c: int,
    r: int,
    t: int,
) -> u64 {
    if r < clusters[c]@.len() {
        encoding::encoded(clusters[c]@[r].components@, q, p)[t]
    } else {
        0
    }
}

impl EncodedClusters {
    /// The matrix, row by row.
    pub closed spec fn spec_matrix(&self) -> Seq<u64> {
        self.matrix@
    }

    /// Rows of the matrix.
    pub closed spec fn spec_m_max(&self) -> int {
        self.m_max as int
    }

    /// Components of a vector.
    pub closed spec fn spec_d(&self) -> int {
        self.d as int
    }

    /// Number of clusters.
    pub closed spec fn spec_n_centroids(&self) -> int {
        self.n_centroids as int
    }

    /// Columns of the matrix.
    pub open spec fn spec_width(&self) -> int {
        self.spec_n_centroids() * self.spec_d()
    }

    /// The numbers of the vectors of each cluster.
    pub closed spec fn spec_membership(&self) -> Seq<Vec<u32>> {
        self.cluster_membership@
    }

    /// The shape of the matrix fits the clusters.
    pub open spec fn well_formed(&self) -> bool {
        &&& 0 <= self.spec_d()
        &&& 0 <= self.spec_m_max()
        &&& 0 <= self.spec_n_centroids()
        &&& self.spec_width() <= usize::MAX
        &&& self.spec_matrix().len() == self.spec_m_max() * self.spec_width()
        &&& self.spec_membership().len() == self.spec_n_centroids()
        &&& forall|c: int|
            0 <= c < self.spec_n_centroids() ==> (#[trigger] self.spec_membership()[c])@.len()
                <= self.spec_m_max()
    }

    /// The matrix and the numbers are those of the given clusters.
    pub open spec fn holds(&self, clusters: Seq<Vec<ScaledVector>>, d: int, q: u8, p: u64) -> bool {
        &&& self.well_formed()
        &&& self.spec_d() == d
        &&& self.spec_n_centroids() == clusters.len()
        &&& self.spec_m_max() == largest(clusters, clusters.len() as int)
        &&& forall|c: int|
            0 <= c < clusters.len() ==> (#[trigger] self.spec_membership()[c])@.len()
                == clusters[c]@.len()
        &&& forall|c: int, r: int|
            0 <= c < clusters.len() && 0 <= r < clusters[c]@.len()
                ==> #[trigger] self.spec_membership()[c]@[r] == clusters[c]@[r].id
        &&& forall|r: int, c: int, t: int|
            0 <= r < self.spec_m_max() && 0 <= c < clusters.len() && 0 <= t < d
                ==> #[trigger] self.spec_matrix()[r * self.spec_width() + (c * d + t)]
                == block_entry(clusters, q, p, c, r, t)
    }

    /// The matrix, row by row.
    pub fn matrix(&self) -> (r: &[u64])
        ensures
            r@ == self.spec_matrix(),
    {
        self.matrix.as_slice()
    }

    /// Rows of the matrix: the size of the largest cluster.
    pub fn m_max(&self) -> (r: usize)
        ensures
            r == self.spec_m_max(),
    {
        self.m_max
    }

    /// Components of a vector.
    pub fn d(&self) -> (r: usize)
        ensures
            r == self.spec_d(),
    {
        self.d
    }

    /// Number of clusters.
    pub fn n_centroids(&self) -> (r: usize)
        ensures
            r == self.spec_n_centroids(),
    {
        self.n_centroids
    }

    /// Columns of the matrix, which is the length of a query.
    pub fn width(&self) -> (r: usize)
        requires
            self.well_formed(),
        ensures
            r == self.spec_width(),
    {
        self.n_centroids * self.d
    }

    /// The first column of cluster `c`.
    pub fn cluster_col_start(&self, c: usize) -> (r: usize)
        requires
            self.well_formed(),
            c < self.spec_n_centroids(),
        ensures
            r == c * self.spec_d(),
    {
        assert(c * self.d <= self.n_centroids * self.d) by (nonlinear_arith)
            requires
                c <= self.n_centroids,
                0 <= self.d,
        ;
        c * self.d
    }

    /// The numbers of the vectors of cluster `c`, by row.
    pub fn cluster_membership(&self, c: usize) -> (r: &[u32])
        requires
            self.well_formed(),
            c < self.spec_n_centroids(),
        ensures
            r@ == self.spec_membership()[c as int]@,
    {
        self.cluster_membership[c].as_slice()
    }
}

/// Encodes one vector.
fn encode_row(v: &Vec<Option<i64>>, quantisation_bits: u8, p: u64) -> (r: Result<Vec<u64>, EncodingError>)
    requires
        quantisation_bits <= 30,
        0 < p,
    ensures
        r is Ok <==> encoding::first_non_finite(v@) == v@.len(),
        r matches Ok(row) ==> row@ == encoding::encoded(v@, quantisation_bits, p),
        r matches Err(e) ==> e == (EncodingError::NonFinite {
            index: encoding::first_non_finite(v@) as usize,
        }),
{
    let mut row: Vec<u64> = vec![0u64; v.len()];
    match encode_vector(v, quantisation_bits, p, &mut row) {
        Ok(()) => Ok(row),
        Err(e) => Err(e),
    }
}

/// Encodes clusters of `d`-dimensional vectors as one matrix.
///
/// Fails on the first vector, cluster by cluster, that has a component that is not finite.
pub fn encode_ivf(
    clusters: &[Vec<ScaledVector>],
    d: usize,
    quantisation_bits: u8,
    p: u64,
) -> (res: Result<EncodedClusters, EncodingError>)
    requires
        quantisation_bits <= 30,
        0 < p,
        has_dimension(clusters@, d as int),
        clusters@.len() * d <= usize::MAX,
        largest(clusters@, clusters@.len() as int) * (clusters@.len() * d) <= usize::MAX,
    ensures
        res is Ok <==> all_finite(clusters@),
        res matches Ok(enc) ==> enc.holds(clusters@, d as int, quantisation_bits, p),
        res matches Err(e) ==> exists|c: int, r: int| #[trigger]
            is_first_bad(clusters@, c, r) && e == (EncodingError::NonFinite {
                index: encoding::first_non_finite(clusters@[c]@[r].components@) as usize,
            }),
{
    let n_centroids: usize = clusters.len();
    let width: usize = n_centroids * d;
    let mut m_max: usize = 0;
    let mut cluster_membership: Vec<Vec<u32>> = Vec::with_capacity(n_centroids);
    // the encoded vectors, cluster by cluster
    let mut blocks: Vec<Vec<Vec<u64>>> = Vec::with_capacity(n_centroids);
    for c in 0..n_centroids
        invariant
            quantisation_bits <= 30,
            0 < p,
            n_centroids == clusters@.len(),
            m_max == largest(clusters@, c as int),
            cluster_membership@.len() == c,
            forall|a: int|
                0 <= a < c ==> (#[trigger] cluster_membership@[a])@.len() == clusters@[a]@.len(),
            forall|a: int, r: int|
                0 <= a < c && 0 <= r < clusters@[a]@.len()
                    ==> #[trigger] cluster_membership@[a]@[r] == clusters@[a]@[r].id,
            blocks@.len() == c,
            forall|a: int|
                0 <= a < c ==> (#[trigger] blocks@[a])@.len() == clusters@[a]@.len(),
            forall|a: int, r: int|
                0 <= a < c && 0 <= r < clusters@[a]@.len() ==> (#[trigger] blocks@[a]@[r])@
                    == encoding::encoded(clusters@[a]@[r].components@, quantisation_bits, p),
            forall|a: int, r: int|
                0 <= a < c && 0 <= r < clusters@[a]@.len() ==> row_is_finite(
                    #[trigger] clusters@[a]@[r],
                ),
    {
        let cluster: &Vec<ScaledVector> = &clusters[c];
        let mut members: Vec<u32> = Vec::with_capacity(cluster.len());
        let mut rows: Vec<Vec<u64>> = Vec::with_capacity(cluster.len());
        for r in 0..cluster.len()
            invariant
                quantisation_bits <= 30,
                0 < p,
                c < clusters@.len(),
                cluster@ == clusters@[c as int]@,
                members@.len() == r,
                forall|b: int| 0 <= b < r ==> #[trigger] members@[b] == clusters@[c as int]@[b].id,
                rows@.len() == r,
                forall|b: int|
                    0 <= b < r ==> (#[trigger] rows@[b])@ == encoding::encoded(
                        clusters@[c as int]@[b].components@,
                        quantisation_bits,
                        p,
                    ),
                forall|b: int| 0 <= b < r ==> row_is_finite(#[trigger] clusters@[c as int]@[b]),
                forall|a: int, b: int|
                    0 <= a < c && 0 <= b < clusters@[a]@.len() ==> row_is_finite(
                        #[trigger] clusters@[a]@[b],
                    ),
        {
            members.push(cluster[r].id);
            match encode_row(&cluster[r].components, quantisation_bits, p) {
                Ok(row) => rows.push(row),
                Err(e) => {
                    assert(!row_is_finite(clusters@[c as int]@[r as int]));
                    assert(is_first_bad(clusters@, c as int, r as int));
                    return Err(e);
                },
            }
        }
        if cluster.len() > m_max {
            m_max = cluster.len();
        }
        cluster_membership.push(members);
        blocks.push(rows);
    }
    proof {
        lemma_largest(clusters@, n_centroids as int);
    }
    let mut matrix: Vec<u64> = Vec::with_capacity(m_max * width);
    proof {
        vstd::arithmetic::mul::lemma_mul_basics(width as int);
    }
    for r in 0..m_max
        invariant
            n_centroids == clusters@.len(),
            width == n_centroids * d,
            has_dimension(clusters@, d as int),
            blocks@.len() == n_centroids,
            forall|a: int|
                0 <= a < n_centroids ==> (#[trigger] blocks@[a])@.len() == clusters@[a]@.len(),
            forall|a: int, b: int|
                0 <= a < n_centroids && 0 <= b < clusters@[a]@.len() ==> (
                #[trigger] blocks@[a]@[b])@ == encoding::encoded(
                    clusters@[a]@[b].components@,
                    quantisation_bits,
                    p,
                ),
            matrix@.len() == r * width,
            forall|s: int, c: int, t: int|
                0 <= s < r && 0 <= c < n_centroids && 0 <= t < d ==> #[trigger] matrix@[s * width
                    + (c * d + t)] == block_entry(clusters@, quantisation_bits, p, c, s, t),
    {
        proof {
            vstd::arithmetic::mul::lemma_mul_basics(d as int);
        }
        for c in 0..n_centroids
            invariant
                n_centroids == clusters@.len(),
                width == n_centroids * d,
                has_dimension(clusters@, d as int),
                blocks@.len() == n_centroids,
                forall|a: int|
                    0 <= a < n_centroids ==> (#[trigger] blocks@[a])@.len() == clusters@[a]@.len(),
                forall|a: int, b: int|
                    0 <= a < n_centroids && 0 <= b < clusters@[a]@.len() ==> (
                    #[trigger] blocks@[a]@[b])@ == encoding::encoded(
                        clusters@[a]@[b].components@,
                        quantisation_bits,
                        p,
                    ),
                matrix@.len() == r * width + c * d,
                forall|s: int, a: int, t: int|
                    0 <= s < r && 0 <= a < n_centroids && 0 <= t < d
                        ==> #[trigger] matrix@[s * width + (a * d + t)] == block_entry(
                        clusters@,
                        quantisation_bits,
                        p,
                        a,
                        s,
                        t,
                    ),
                forall|a: int, t: int|
                    0 <= a < c && 0 <= t < d ==> #[trigger] matrix@[r * width + (a * d + t)]
                        == block_entry(clusters@, quantisation_bits, p, a, r as int, t),
        {
            for t in 0..d
                invariant
                    c < n_centroids,
                    n_centroids == clusters@.len(),
                    width == n_centroids * d,
                    has_dimension(clusters@, d as int),
                    blocks@.len() == n_centroids,
                    forall|a: int|
                        0 <= a < n_centroids ==> (#[trigger] blocks@[a])@.len()
                            == clusters@[a]@.len(),
                    forall|a: int, b: int|
                        0 <= a < n_centroids && 0 <= b < clusters@[a]@.len() ==> (
                        #[trigger] blocks@[a]@[b])@ == encoding::encoded(
                            clusters@[a]@[b].components@,
                            quantisation_bits,
                            p,
                        ),
                    matrix@.len() == r * width + (c * d + t),
                    forall|s: int, a: int, u: int|
                        0 <= s < r && 0 <= a < n_centroids && 0 <= u < d
                            ==> #[trigger] matrix@[s * width + (a * d + u)] == block_entry(
                            clusters@,
                            quantisation_bits,
                            p,
                            a,
                            s,
                            u,
                        ),
                    forall|a: int, u: int|
                        0 <= a < c && 0 <= u < d ==> #[trigger] matrix@[r * width + (a * d + u)]
                            == block_entry(clusters@, quantisation_bits, p, a, r as int, u),
                    forall|u: int|
                        0 <= u < t ==> #[trigger] matrix@[r * width + (c * d + u)]
                            == block_entry(
                            clusters@,
                            quantisation_bits,
                            p,
                            c as int,
                            r as int,
                            u,
                        ),
            {
                let ghost before = matrix@;
                let block: &Vec<Vec<u64>> = &blocks[c];
                if r < block.len() {
                    assert(clusters@[c as int]@[r as int].components@.len() == d);
                    assert(block@[r as int]@ == encoding::encoded(
                        clusters@[c as int]@[r as int].components@,
                        quantisation_bits,
                        p,
                    ));
                    let row: &Vec<u64> = &block[r];
                    matrix.push(row[t]);
                } else {
                    matrix.push(0);
                }
                proof {
                    assert forall|s: int, a: int, u: int|
                        0 <= s < r && 0 <= a < n_centroids && 0 <= u < d implies
                        #[trigger] matrix@[s * width + (a * d + u)] == block_entry(
                        clusters@,
                        quantisation_bits,
                        p,
                        a,
                        s,
                        u,
                    ) by {
                        layout::lemma_entry_in_range(a, u, n_centroids as int, d as int);
                        layout::lemma_entry_in_range(s, a * d + u, r as int, width as int);
                        assert(matrix@[s * width + (a * d + u)] == before[s * width + (a * d + u)]);
                    }
                    assert forall|a: int, u: int| 0 <= a < c && 0 <= u < d implies
                        #[trigger] matrix@[r * width + (a * d + u)] == block_entry(
                        clusters@,
                        quantisation_bits,
                        p,
                        a,
                        r as int,
                        u,
                    ) by {
                        layout::lemma_entry_in_range(a, u, c as int, d as int);
                        assert(matrix@[r * width + (a * d + u)] == before[r * width + (a * d + u)]);
                    }
                }
            }
            assert(c * d + d == (c + 1) * d) by (nonlinear_arith);
            proof {
                assert forall|a: int, t: int| 0 <= a < c + 1 && 0 <= t < d implies
                    #[trigger] matrix@[r * width + (a * d + t)] == block_entry(
                    clusters@,
                    quantisation_bits,
                    p,
                    a,
                    r as int,
                    t,
                ) by {
                    if a == c {
                        assert(matrix@[r * width + (c * d + t)] == block_entry(
                            clusters@,
                            quantisation_bits,
                            p,
                            c as int,
                            r as int,
                            t,
                        ));
                    }
                }
            }
        }
        assert(r * width + width == (r + 1) * width) by (nonlinear_arith);
        proof {
            assert forall|s: int, c: int, t: int|
                0 <= s < r + 1 && 0 <= c < n_centroids && 0 <= t < d implies #[trigger] matrix@[s
                * width + (c * d + t)] == block_entry(
                clusters@,
                quantisation_bits,
                p,
                c,
                s,
                t,
            ) by {
                if s == r {
                    assert(matrix@[r * width + (c * d + t)] == block_entry(
                        clusters@,
                        quantisation_bits,
                        p,
                        c,
                        r as int,
                        t,
                    ));
                }
            }
        }
    }
    Ok(EncodedClusters { matrix, m_max, d, n_centroids, cluster_membership })
}

/// The largest cluster has the most vectors: no cluster has more, and one has as many.
pub proof fn the_largest_cluster_has_the_most_vectors(clusters: Seq<Vec<ScaledVector>>)
    ensures
        clusters.len() == 0 ==> largest(clusters, clusters.len() as int) == 0,
        forall|c: int|
            0 <= c < clusters.len() ==> (#[trigger] clusters[c])@.len() <= largest(
                clusters,
                clusters.len() as int,
            ),
        clusters.len() > 0 ==> exists|c: int|
            0 <= c < clusters.len() && (#[trigger] clusters[c])@.len() == largest(
                clusters,
                clusters.len() as int,
            ),
{
    lemma_largest(clusters, clusters.len() as int);
}

/// Vectors are finite exactly if every component of every one of them is.
pub proof fn finite_vectors_have_all_components(clusters: Seq<Vec<ScaledVector>>)
    ensures
        all_finite(clusters) <==> forall|c: int, r: int, t: int|
            0 <= c < clusters.len() && 0 <= r < clusters[c]@.len() && 0 <= t
                < clusters[c]@[r].components@.len() ==> (
            #[trigger] clusters[c]@[r].components@[t]) is Some,
{
    if all_finite(clusters) {
        assert forall|c: int, r: int, t: int|
            0 <= c < clusters.len() && 0 <= r < clusters[c]@.len() && 0 <= t
                < clusters[c]@[r].components@.len() implies (
        #[trigger] clusters[c]@[r].components@[t]) is Some by {
            assert(row_is_finite(clusters[c]@[r]));
            encoding::lemma_first_non_finite(clusters[c]@[r].components@);
        }
    }
    if forall|c: int, r: int, t: int|
        0 <= c < clusters.len() && 0 <= r < clusters[c]@.len() && 0 <= t
            < clusters[c]@[r].components@.len() ==> (
        #[trigger] clusters[c]@[r].components@[t]) is Some {
        assert forall|c: int, r: int| 0 <= c < clusters.len() && 0 <= r < clusters[c]@.len() implies
            row_is_finite(#[trigger] clusters[c]@[r]) by {
            let v = clusters[c]@[r].components@;
            encoding::lemma_first_non_finite(v);
            if encoding::first_non_finite(v) < v.len() {
                assert(clusters[c]@[r].components@[encoding::first_non_finite(v)] is Some);
            }
        }
    }
}

/// The matrix of clusters has a row for every vector of the largest cluster and columns for all
/// components of all clusters. Each component of each vector stands, modulo `p`, in the row of its
/// vector's place in the cluster and in the column of its cluster; past a cluster's last vector there
/// are zeros. The numbers of the vectors are kept in the same places.
pub proof fn matrices_hold_every_component(
    enc: &EncodedClusters,
    clusters: Seq<Vec<ScaledVector>>,
    d: int,
    q: u8,
    p: u64,
    c: int,
    r: int,
    t: int,
)
    requires
        enc.holds(clusters, d, q, p),
        has_dimension(clusters, d),
        0 < p,
        0 <= c < clusters.len(),
        0 <= r,
        0 <= t < d,
    ensures
        enc.spec_matrix().len() == enc.spec_m_max() * (clusters.len() * d),
        r < clusters[c]@.len() ==> r < enc.spec_m_max(),
        r < clusters[c]@.len() ==> enc.spec_membership()[c]@[r] == clusters[c]@[r].id,
        enc.spec_membership()[c]@.len() == clusters[c]@.len(),
        ({
            let entry = enc.spec_matrix()[r * (clusters.len() * d) + (c * d + t)];
            &&& clusters[c]@.len() <= r < enc.spec_m_max() ==> entry == 0
            &&& r < clusters[c]@.len() ==> {
                let component = clusters[c]@[r].components@[t]->Some_0;
                let most = vstd::arithmetic::power2::pow2(q as nat) - 1;
                clusters[c]@[r].components@[t] is Some && -most <= component <= most ==> {
                    &&& entry < p
                    &&& congruence::congruent(entry as int, component as int, p as int)
                }
            }
        }),
{
    lemma_largest(clusters, clusters.len() as int);
    let width = clusters.len() * d;
    assert(enc.spec_membership()[c]@.len() == clusters[c]@.len());
    if r < enc.spec_m_max() {
        assert(enc.spec_matrix()[r * enc.spec_width() + (c * d + t)] == block_entry(
            clusters,
            q,
            p,
            c,
            r,
            t,
        ));
    }
    if r < clusters[c]@.len() {
        let v = clusters[c]@[r].components@;
        assert(v.len() == d);
        assert(enc.spec_membership()[c]@[r] == clusters[c]@[r].id);
        let most = vstd::arithmetic::power2::pow2(q as nat) - 1;
        if v[t] is Some && -most <= v[t]->Some_0 <= most {
            encoding::residues_stand_for_their_components(v, q, p, t);
        }
    }
}

} // verus!
