//! Choice of the cluster that answers a query, and the query over all clusters' columns.

use vstd::prelude::*;

use crate::float_bits;
use crate::float_bits::less_than;
use crate::math::layout;
use crate::math::sums;
use crate::tiptoe::cluster;
use crate::tiptoe::cluster::{EncodedClusters, ScaledVector};
use crate::tiptoe::encoding;
use crate::tiptoe::encoding::{encode_vector, EncodingError};
use crate::tiptoe::simplepir;

verus! {

/// The cluster chosen among the first `n` by its distance: a later one takes over if it is closer.
pub open spec fn chosen(distances: Seq<u32>, n: int) -> int
    decreases n,
{
    if n <= 1 {
        0
    } else if float_bits::less(distances[n - 1], distances[chosen(distances, n - 1)]) {
        n - 1
    } else {
        chosen(distances, n - 1)
    }
}

/// Picks the nearest cluster, given the bits of its distances; the lowest number among equals.
pub fn route(distances: &[u32]) -> (best: usize)
    requires
        distances@.len() > 0,
    ensures
        best == chosen(distances@, distances@.len() as int),
        best < distances@.len(),
{
    let mut best: usize = 0;
    for i in 1..distances.len()
        invariant
            distances@.len() > 0,
            best == chosen(distances@, i as int),
            best < i,
    {
        if less_than(distances[i], distances[best]) {
            best = i;
        }
    }
    best
}

/// The chosen cluster is nearest: among distances that are numbers, none is smaller, and every
/// equal one has a higher number.
pub proof fn chosen_cluster_is_nearest(distances: Seq<u32>, n: int, i: int)
    requires
        0 < n <= distances.len(),
        0 <= i < n,
        forall|j: int| 0 <= j < n ==> !float_bits::is_nan(#[trigger] distances[j]),
    ensures
        0 <= chosen(distances, n) < n,
        !float_bits::less(distances[i], distances[chosen(distances, n)]),
        i < chosen(distances, n) ==> float_bits::less(
            distances[chosen(distances, n)],
            distances[i],
        ),
    decreases n,
{
    if n > 1 {
        if i < n - 1 {
            chosen_cluster_is_nearest(distances, n - 1, i);
        } else {
            chosen_cluster_is_nearest(distances, n - 1, 0);
        }
    }
}

/// Entry `x` of the query over all columns: the encoded query in the columns of the chosen
/// cluster, zeros elsewhere.
pub open spec fn augmented_entry(query: Seq<u64>, cluster_idx: int, d: int, x: int) -> u64 {
    if cluster_idx * d <= x < cluster_idx * d + d {
        query[x - cluster_idx * d]
    } else {
        0
    }
}

/// The query over all columns.
pub open spec fn augmented(query: Seq<u64>, cluster_idx: int, d: int, width: int) -> Seq<u64> {
    Seq::new(width as nat, |x: int| augmented_entry(query, cluster_idx, d, x))
}

/// Builds the query over all columns for the chosen cluster.
pub fn build_augmented_query(
    query: &[Option<i64>],
    cluster_idx: usize,
    encoded: &EncodedClusters,
    quantisation_bits: u8,
    p: u64,
) -> (res: Result<Vec<u64>, EncodingError>)
    requires
        encoded.well_formed(),
        query@.len() == encoded.spec_d(),
        cluster_idx < encoded.spec_n_centroids(),
        quantisation_bits <= 30,
        0 < p,
    ensures
        res is Ok <==> encoding::first_non_finite(query@) == query@.len(),
        res matches Ok(q_tilde) ==> q_tilde@ == augmented(
            encoding::encoded(query@, quantisation_bits, p),
            cluster_idx as int,
            encoded.spec_d(),
            encoded.spec_width(),
        ),
        res matches Err(e) ==> e == (EncodingError::NonFinite {
            index: encoding::first_non_finite(query@) as usize,
        }),
{
    let width: usize = encoded.width();
    let d: usize = encoded.d();
    let col_start: usize = encoded.cluster_col_start(cluster_idx);
    let mut block: Vec<u64> = vec![0u64; d];
    match encode_vector(query, quantisation_bits, p, &mut block) {
        Ok(()) => {},
        Err(e) => return Err(e),
    }
    proof {
        let n = encoded.spec_n_centroids();
        assert(cluster_idx * d + d <= n * d) by (nonlinear_arith)
            requires
                0 <= cluster_idx < n,
                0 <= d,
        ;
    }
    let mut q_tilde: Vec<u64> = Vec::with_capacity(width);
    for x in 0..width
        invariant
            block@ == encoding::encoded(query@, quantisation_bits, p),
            block@.len() == d,
            col_start == cluster_idx * d,
            col_start + d <= width,
            q_tilde@.len() == x,
            forall|y: int|
                0 <= y < x ==> #[trigger] q_tilde@[y] == augmented_entry(
                    block@,
                    cluster_idx as int,
                    d as int,
                    y,
                ),
    {
        if col_start <= x && x < col_start + d {
            q_tilde.push(block[x - col_start]);
        } else {
            q_tilde.push(0);
        }
    }
    assert(q_tilde@ =~= augmented(
        encoding::encoded(query@, quantisation_bits, p),
        cluster_idx as int,
        encoded.spec_d(),
        encoded.spec_width(),
    ));
    Ok(q_tilde)
}

/// The matrix times the query over all columns is the chosen cluster's inner products: row `r` of
/// the product is the inner product of the encoded query with vector `r` of the chosen cluster,
/// and zero past the cluster's last vector. Other clusters' vectors add nothing.
pub proof fn augmented_query_selects_a_cluster(
    enc: &EncodedClusters,
    clusters: Seq<Vec<ScaledVector>>,
    query: Seq<u64>,
    cluster_idx: int,
    q: u8,
    p: u64,
    r: int,
)
    requires
        enc.holds(clusters, enc.spec_d(), q, p),
        query.len() == enc.spec_d(),
        0 <= cluster_idx < clusters.len(),
        0 <= r < enc.spec_m_max(),
    ensures
        simplepir::row_times_query(
            enc.spec_matrix(),
            enc.spec_width(),
            augmented(query, cluster_idx, enc.spec_d(), enc.spec_width()),
            r,
        ) == sums::sum(
            enc.spec_d(),
            |t: int| cluster::block_entry(clusters, q, p, cluster_idx, r, t) * query[t],
        ),
{
    let d = enc.spec_d();
    let n = clusters.len() as int;
    let width = enc.spec_width();
    let matrix = enc.spec_matrix();
    let aug = augmented(query, cluster_idx, d, width);
    let f = |t: int| matrix[r * width + t * 1] * aug[0 + t * 1];
    let block = |c: int| sums::sum(d, |t: int| f(c * d + t));
    sums::lemma_sum_blocks(n, d, f);
    sums::lemma_sum_same(n, block, |k: int| sums::sum(d, |t: int| f(k * d + t)));
    assert forall|c: int| 0 <= c < n && c != cluster_idx implies #[trigger] block(c) == 0 by {
        let g = |t: int| f(c * d + t);
        assert forall|t: int| 0 <= t < d implies #[trigger] g(t) == 0 by {
            layout::lemma_entry_in_range(c, t, n, d);
            if c < cluster_idx {
                assert(c * d + d <= cluster_idx * d) by (nonlinear_arith)
                    requires
                        c + 1 <= cluster_idx,
                        0 <= d,
                ;
            } else {
                assert(cluster_idx * d + d <= c * d) by (nonlinear_arith)
                    requires
                        cluster_idx + 1 <= c,
                        0 <= d,
                ;
            }
            assert(aug[c * d + t] == 0);
            assert(matrix[r * width + (c * d + t) * 1] * 0 == 0) by (nonlinear_arith);
        }
        sums::lemma_sum_zero(d, g);
        sums::lemma_sum_same(d, g, |t: int| f(c * d + t));
    }
    sums::lemma_sum_single(n, cluster_idx, block);
    let product = |t: int| cluster::block_entry(clusters, q, p, cluster_idx, r, t) * query[t];
    let g = |t: int| f(cluster_idx * d + t);
    assert forall|t: int| 0 <= t < d implies #[trigger] g(t) == product(t) by {
        layout::lemma_entry_in_range(cluster_idx, t, n, d);
        assert(aug[cluster_idx * d + t] == query[t]);
        assert(matrix[r * width + (cluster_idx * d + t)] == cluster::block_entry(
            clusters,
            q,
            p,
            cluster_idx,
            r,
            t,
        ));
    }
    sums::lemma_sum_same(d, g, product);
    sums::lemma_sum_same(d, g, |t: int| f(cluster_idx * d + t));
    sums::lemma_sum_same(
        d,
        product,
        |t: int| cluster::block_entry(clusters, q, p, cluster_idx, r, t) * query[t],
    );
    sums::lemma_sum_same(width, f, |t: int| matrix[r * width + t * 1] * aug[0 + t * 1]);
}

/// The query over all columns has the query in the columns of the chosen cluster and zeros in the
/// columns of all others.
pub proof fn augmented_queries_fill_one_cluster(
    query: Seq<u64>,
    cluster_idx: int,
    n_clusters: int,
    c: int,
    t: int,
)
    requires
        0 <= cluster_idx < n_clusters,
        0 <= c < n_clusters,
        0 <= t < query.len(),
    ensures
        ({
            let d = query.len() as int;
            let aug = augmented(query, cluster_idx, d, n_clusters * d);
            &&& aug.len() == n_clusters * d
            &&& aug[c * d + t] == (if c == cluster_idx {
                query[t]
            } else {
                0
            })
        }),
{
    let d = query.len() as int;
    layout::lemma_entry_in_range(c, t, n_clusters, d);
    if c < cluster_idx {
        assert(c * d + d <= cluster_idx * d) by (nonlinear_arith)
            requires
                c + 1 <= cluster_idx,
                0 <= d,
        ;
    } else if cluster_idx < c {
        assert(cluster_idx * d + d <= c * d) by (nonlinear_arith)
            requires
                cluster_idx + 1 <= c,
                0 <= d,
        ;
    }
}

/// A distance that is no number is chosen only in front: then nothing takes over, and behind another
/// it never does.
pub proof fn distances_that_are_no_numbers_do_not_take_over(distances: Seq<u32>, n: int)
    requires
        0 < n <= distances.len(),
    ensures
        0 <= chosen(distances, n) < n,
        float_bits::is_nan(distances[0]) ==> chosen(distances, n) == 0,
        !float_bits::is_nan(distances[0]) ==> !float_bits::is_nan(
            distances[chosen(distances, n)],
        ),
    decreases n,
{
    if n > 1 {
        distances_that_are_no_numbers_do_not_take_over(distances, n - 1);
    }
}

} // verus!
