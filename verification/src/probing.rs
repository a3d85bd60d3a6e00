//! Ranking by distance.
//!
//! Distances are given as the bits of floating-point numbers. The score of a hit is the place of
//! the negated distance in the total order, so that nearer vectors score higher.

use vstd::prelude::*;

use crate::float_bits;
use crate::float_bits::total_order_key_32;
use crate::hits;
use crate::hits::{rank, Hit};
use crate::ivf;
use crate::ivf::{probe_route, Member};
use crate::math::layout;
use crate::math::rearrange;
use crate::math::sums;
use crate::parallel::parallel_map;

verus! {

/// A vector at a distance, as a hit.
pub open spec fn distance_hit(id: u32, distance: u32) -> Hit {
    Hit { id, score: (-1 - float_bits::total_order_32(distance)) as i64 }
}

/// Vectors at distances, as hits.
pub open spec fn distance_hits(found: Seq<(u32, u32)>) -> Seq<Hit> {
    found.map_values(|f: (u32, u32)| distance_hit(f.0, f.1))
}

/// What was found in the first `n` clusters, one after the other.
pub open spec fn joined(found: Seq<Vec<(u32, u32)>>, n: int) -> Seq<(u32, u32)>
    decreases n,
{
    if n <= 0 {
        Seq::empty()
    } else {
        joined(found, n - 1) + found[n - 1]@
    }
}

/// The same vectors at distances that are in the same order.
pub open spec fn same_order(found: Seq<(u32, u32)>, others: Seq<(u32, u32)>) -> bool {
    &&& found.len() == others.len()
    &&& forall|i: int| 0 <= i < found.len() ==> (#[trigger] found[i]).0 == others[i].0
    &&& forall|i: int, j: int|
        0 <= i < found.len() && 0 <= j < found.len() ==> (float_bits::total_order_32(
            (#[trigger] found[i]).1,
        ) < float_bits::total_order_32((#[trigger] found[j]).1) <==> float_bits::total_order_32(
            others[i].1,
        ) < float_bits::total_order_32(others[j].1))
}

/// The nearest vectors go by the order of the distances alone: where encryption leaves the order of
/// the distances as it is in the clear, a query finds the same vectors in the same order.
pub proof fn nearest_vectors_go_by_the_order_of_distances(
    found: Seq<(u32, u32)>,
    others: Seq<(u32, u32)>,
    k: nat,
)
    requires
        same_order(found, others),
    ensures
        hits::ids(hits::best(distance_hits(found), k as int)) == hits::ids(
            hits::best(distance_hits(others), k as int),
        ),
{
    let a = distance_hits(found);
    let b = distance_hits(others);
    assert forall|i: int| 0 <= i < a.len() implies hits::ids(a)[i] == hits::ids(b)[i] by {
        assert(found[i].0 == others[i].0);
    }
    assert(hits::ids(a) =~= hits::ids(b));
    assert forall|i: int, j: int| 0 <= i < a.len() && 0 <= j < a.len() implies ((
    #[trigger] a[i]).score < (#[trigger] a[j]).score <==> b[i].score < b[j].score) by {
        assert(float_bits::total_order_32(found[j].1) < float_bits::total_order_32(found[i].1)
            <==> float_bits::total_order_32(others[j].1) < float_bits::total_order_32(others[i].1));
    }
    hits::ranking_goes_by_the_order_of_scores(a, b, k);
}

/// Ranks what was found in the probed clusters, numbers of vectors with their distances, and keeps
/// the nearest `k`.
pub fn probe_merge(found: &[Vec<(u32, u32)>], k: usize) -> (r: Vec<Hit>)
    ensures
        r@ == hits::best(distance_hits(joined(found@, found@.len() as int)), k as int),
{
    let mut all: Vec<Hit> = Vec::new();
    assert(all@ =~= distance_hits(joined(found@, 0)));
    for c in 0..found.len()
        invariant
            all@ == distance_hits(joined(found@, c as int)),
    {
        let cluster: &Vec<(u32, u32)> = &found[c];
        let ghost before = joined(found@, c as int);
        assert(before + cluster@.take(0) =~= before);
        for i in 0..cluster.len()
            invariant
                all@ == distance_hits(before + cluster@.take(i as int)),
        {
            let (id, distance): (u32, u32) = cluster[i];
            let key: i64 = total_order_key_32(distance);
            all.push(Hit { id, score: -1 - key });
            assert(all@ =~= distance_hits(before + cluster@.take(i + 1)));
        }
        assert(cluster@.take(cluster@.len() as int) =~= cluster@);
    }
    rank(&all, k)
}

/// What a function may find in a cluster.
pub open spec fn found_by<F: Fn(usize) -> Vec<(u32, u32)>>(distances_in: &F) -> spec_fn(
    usize,
    Vec<(u32, u32)>,
) -> bool {
    |c: usize, found: Vec<(u32, u32)>| call_ensures(*distances_in, (c,), found)
}

/// What may be found in cluster `i` of a route.
pub open spec fn is_found(
    may_find: spec_fn(usize, Vec<(u32, u32)>) -> bool,
    route: Seq<usize>,
    i: int,
    found: Vec<(u32, u32)>,
) -> bool {
    may_find(route[i], found)
}

/// What may be found in the clusters of a route.
pub open spec fn found_on_route(
    may_find: spec_fn(usize, Vec<(u32, u32)>) -> bool,
    route: Seq<usize>,
    found: Seq<Vec<(u32, u32)>>,
) -> bool {
    &&& found.len() == route.len()
    &&& forall|i: int|
        0 <= i < route.len() ==> is_found(may_find, route, i, #[trigger] found[i])
}

/// The nearest `k` of the vectors that may be found in the clusters of a route.
pub open spec fn are_nearest(
    may_find: spec_fn(usize, Vec<(u32, u32)>) -> bool,
    route: Seq<usize>,
    k: int,
    nearest: Seq<Hit>,
) -> bool {
    exists|found: Seq<Vec<(u32, u32)>>|
        {
            &&& #[trigger] found_on_route(may_find, route, found)
            &&& nearest == hits::best(distance_hits(joined(found, found.len() as int)), k)
        }
}

/// Vectors that are nearest among what may be found stay so if more may be found.
pub proof fn lemma_may_find_more(
    may_find: spec_fn(usize, Vec<(u32, u32)>) -> bool,
    may_find_too: spec_fn(usize, Vec<(u32, u32)>) -> bool,
    route: Seq<usize>,
    k: int,
    nearest: Seq<Hit>,
)
    requires
        are_nearest(may_find, route, k, nearest),
        forall|c: usize, found: Vec<(u32, u32)>|
            #[trigger] may_find(c, found) ==> may_find_too(c, found),
    ensures
        are_nearest(may_find_too, route, k, nearest),
{
    let found = choose|found: Seq<Vec<(u32, u32)>>|
        {
            &&& #[trigger] found_on_route(may_find, route, found)
            &&& nearest == hits::best(distance_hits(joined(found, found.len() as int)), k)
        };
    assert forall|i: int| 0 <= i < route.len() implies is_found(
        may_find_too,
        route,
        i,
        #[trigger] found[i],
    ) by {
        assert(is_found(may_find, route, i, found[i]));
    }
    assert(found_on_route(may_find_too, route, found));
}

/// Searches the clusters of a route in parallel, each with `distances_in`.
pub fn probe_distance<F: Fn(usize) -> Vec<(u32, u32)> + Sync + Send>(
    route: &[usize],
    distances_in: F,
) -> (found: Vec<Vec<(u32, u32)>>)
    requires
        forall|i: int|
            0 <= i < route@.len() ==> call_requires(distances_in, (#[trigger] route@[i],)),
    ensures
        found_on_route(found_by(&distances_in), route@, found@),
{
    let n: usize = route.len();
    let search = |i: usize| -> (found: Vec<(u32, u32)>)
        requires
            n > i,
        ensures
            is_found(found_by(&distances_in), route@, i as int, found)
        { distances_in(route[i]) };
    let found: Vec<Vec<(u32, u32)>> = parallel_map(n, search);
    let ghost may_find = found_by(&distances_in);
    assert forall|i: int| 0 <= i < n implies is_found(may_find, route@, i, #[trigger] found@[i]) by {
        assert(found@[i] == found@[(i as usize) as int]);
    }
    found
}

/// Probes the `nprobe` clusters whose centroids are nearest, and keeps the nearest `k` vectors of
/// what `distances_in` finds in them. The clusters are searched in parallel.
pub fn probe<F: Fn(usize) -> Vec<(u32, u32)> + Sync + Send>(
    centroid_distances: &[u32],
    nprobe: usize,
    distances_in: F,
    k: usize,
) -> (r: (Vec<Hit>, Vec<usize>))
    requires
        forall|c: usize| c < centroid_distances@.len() ==> call_requires(distances_in, (c,)),
    ensures
        r.1@ == ivf::routed(centroid_distances@, nprobe as int),
        are_nearest(found_by(&distances_in), r.1@, k as int, r.0@),
{
    let route: Vec<usize> = probe_route(centroid_distances, nprobe);
    proof {
        assert(centroid_distances.len() == centroid_distances@.len());
        ivf::lemma_routed(centroid_distances@, nprobe as int);
    }
    let ghost may_find = found_by(&distances_in);
    let found: Vec<Vec<(u32, u32)>> = probe_distance(&route, distances_in);
    let merged: Vec<Hit> = probe_merge(&found, k);
    assert(found_on_route(may_find, route@, found@) && merged@ == hits::best(
        distance_hits(joined(found@, found@.len() as int)),
        k as int,
    ));
    (merged, route)
}

/// What is found on a route, as hits, is what is found in its clusters, one after the other.
proof fn lemma_joined_on_route(
    clusters: Seq<Vec<(u32, u32)>>,
    route: Seq<usize>,
    found: Seq<Vec<(u32, u32)>>,
    n: int,
)
    requires
        0 <= n <= route.len(),
        found.len() == route.len(),
        forall|i: int| 0 <= i < route.len() ==> #[trigger] found[i] == clusters[route[i] as int],
    ensures
        distance_hits(joined(found, n)) == rearrange::concat_on(
            |c: usize| distance_hits(clusters[c as int]@),
            route.take(n),
        ),
    decreases n,
{
    let part = |c: usize| distance_hits(clusters[c as int]@);
    if n > 0 {
        lemma_joined_on_route(clusters, route, found, n - 1);
        assert(route.take(n).drop_last() =~= route.take(n - 1));
        assert(found[n - 1] == clusters[route[n - 1] as int]);
        assert(distance_hits(joined(found, n)) =~= distance_hits(joined(found, n - 1))
            + distance_hits(found[n - 1]@));
    } else {
        assert(route.take(0).len() == 0);
        assert(distance_hits(joined(found, n)) =~= rearrange::concat_on(part, route.take(n)));
    }
}

/// A query that probes all clusters gets the nearest of all vectors.
pub proof fn full_probe_ranks_all_vectors(
    clusters: Seq<Vec<(u32, u32)>>,
    centroid_distances: Seq<u32>,
    nprobe: int,
    found: Seq<Vec<(u32, u32)>>,
    k: int,
)
    requires
        clusters.len() == centroid_distances.len(),
        clusters.len() <= nprobe,
        clusters.len() <= usize::MAX,
        found.len() == clusters.len(),
        forall|i: int|
            0 <= i < found.len() ==> #[trigger] found[i] == clusters[ivf::routed(
                centroid_distances,
                nprobe,
            )[i] as int],
    ensures
        hits::best(distance_hits(joined(found, found.len() as int)), k) == hits::best(
            distance_hits(joined(clusters, clusters.len() as int)),
            k,
        ),
{
    let route = ivf::routed(centroid_distances, nprobe);
    let n = clusters.len() as int;
    let part = |c: usize| distance_hits(clusters[c as int]@);
    ivf::lemma_routed(centroid_distances, nprobe);
    let all = rearrange::all_below(n);
    rearrange::lemma_all_below(route);
    rearrange::lemma_concat_rearranged(part, route, all);
    lemma_joined_on_route(clusters, route, found, n);
    lemma_joined_on_route(clusters, all, clusters, n);
    assert(route.take(n) =~= route);
    assert(all.take(n) =~= all);
    let a = distance_hits(joined(found, n));
    let b = distance_hits(joined(clusters, n));
    a.to_multiset_ensures();
    b.to_multiset_ensures();
    hits::ranking_ignores_arrival_order(a, b);
}

/// A search of a cluster on a device.
#[derive(Debug, Clone, Copy, PartialEq, Eq, Structural)]
pub struct DeviceSearch {
    /// The cluster.
    pub cluster: usize,
    /// How many of its vectors to find.
    pub k: usize,
}

/// The searches for the first `n` clusters of a route: one for each that has vectors.
pub open spec fn searches(sizes: Seq<usize>, route: Seq<usize>, k: int, n: int) -> Seq<DeviceSearch>
    decreases n,
{
    if n <= 0 {
        Seq::empty()
    } else {
        let cluster = route[n - 1];
        let before = searches(sizes, route, k, n - 1);
        if k == 0 || sizes[cluster as int] == 0 {
            before
        } else {
            let size = sizes[cluster as int];
            before.push(
                DeviceSearch {
                    cluster,
                    k: if k < size {
                        k as usize
                    } else {
                        size
                    },
                },
            )
        }
    }
}

/// Plans the searches of a query on a device: one for each cluster of the route that has vectors,
/// for `k` of them or all. None are needed for no hits.
pub fn plan_searches(sizes: &[usize], route: &[usize], k: usize) -> (r: Vec<DeviceSearch>)
    requires
        forall|i: int| 0 <= i < route@.len() ==> #[trigger] route@[i] < sizes@.len(),
    ensures
        r@ == searches(sizes@, route@, k as int, route@.len() as int),
{
    let mut r: Vec<DeviceSearch> = Vec::new();
    for i in 0..route.len()
        invariant
            forall|t: int| 0 <= t < route@.len() ==> #[trigger] route@[t] < sizes@.len(),
            r@ == searches(sizes@, route@, k as int, i as int),
    {
        let cluster: usize = route[i];
        let size: usize = sizes[cluster];
        if k != 0 && size != 0 {
            r.push(
                DeviceSearch {
                    cluster,
                    k: if k < size {
                        k
                    } else {
                        size
                    },
                },
            );
        }
    }
    r
}

/// A cluster as a device takes it: its components row by row, and the numbers of its vectors.
pub struct HostCluster {
    /// Components, row by row.
    pub vectors: Vec<u32>,
    /// Number of vectors.
    pub n: usize,
    /// Components of a vector.
    pub dim: usize,
    /// The numbers of the vectors.
    pub row_to_global: Vec<u32>,
}

/// The components of the first `n` vectors, one after the other.
pub open spec fn joined_components(cluster: Seq<Member>, n: int) -> Seq<u32>
    decreases n,
{
    if n <= 0 {
        Seq::empty()
    } else {
        joined_components(cluster, n - 1) + cluster[n - 1].components@
    }
}

/// Lays a cluster out for a device. A cluster without vectors is not laid out.
pub fn host_cluster(cluster: &[Member], dim: usize) -> (r: Option<HostCluster>)
    ensures
        r is None <==> cluster@.len() == 0,
        r matches Some(host) ==> {
            &&& host.n == cluster@.len()
            &&& host.dim == dim
            &&& host.vectors@ == joined_components(cluster@, cluster@.len() as int)
            &&& host.row_to_global@ == cluster@.map_values(|m: Member| m.id)
        },
{
    if cluster.len() == 0 {
        return None;
    }
    let mut vectors: Vec<u32> = Vec::new();
    let mut row_to_global: Vec<u32> = Vec::with_capacity(cluster.len());
    for i in 0..cluster.len()
        invariant
            vectors@ == joined_components(cluster@, i as int),
            row_to_global@ == cluster@.map_values(|m: Member| m.id).take(i as int),
    {
        vectors.extend_from_slice(&cluster[i].components);
        row_to_global.push(cluster[i].id);
        assert(row_to_global@ =~= cluster@.map_values(|m: Member| m.id).take(i + 1));
        assert(vectors@ =~= joined_components(cluster@, i + 1));
    }
    assert(row_to_global@ =~= cluster@.map_values(|m: Member| m.id));
    Some(HostCluster { vectors, n: cluster.len(), dim, row_to_global })
}

/// Bytes that a cluster takes on a device: four per component.
pub fn payload_hint(n: usize, dim: usize) -> (r: u64)
    requires
        n * dim * 4 <= u64::MAX,
    ensures
        r == n * dim * 4,
{
    assert(0 <= n * dim) by (nonlinear_arith)
        requires
            0 <= n,
            0 <= dim,
    ;
    n as u64 * dim as u64 * 4
}

/// Numbers the rows that a device found, with their distances.
pub fn number_rows(row_to_global: &[u32], rows: &[usize], distances: &[u32]) -> (r: Vec<(u32, u32)>)
    requires
        rows@.len() == distances@.len(),
        forall|i: int| 0 <= i < rows@.len() ==> #[trigger] rows@[i] < row_to_global@.len(),
    ensures
        r@ == Seq::new(
            rows@.len(),
            |i: int| (row_to_global@[rows@[i] as int], distances@[i]),
        ),
{
    let mut r: Vec<(u32, u32)> = Vec::with_capacity(rows.len());
    for i in 0..rows.len()
        invariant
            rows@.len() == distances@.len(),
            forall|t: int| 0 <= t < rows@.len() ==> #[trigger] rows@[t] < row_to_global@.len(),
            r@.len() == i,
            forall|t: int|
                0 <= t < i ==> #[trigger] r@[t] == (
                    row_to_global@[rows@[t] as int],
                    distances@[t],
                ),
    {
        r.push((row_to_global[rows[i]], distances[i]));
    }
    assert(r@ =~= Seq::new(
        rows@.len(),
        |i: int| (row_to_global@[rows@[i] as int], distances@[i]),
    ));
    r
}

/// What is joined is what was found in each cluster, and nothing else.
proof fn lemma_joined(found: Seq<Vec<(u32, u32)>>, n: int)
    requires
        0 <= n <= found.len(),
    ensures
        joined(found, n).len() == sums::sum(n, |c: int| found[c]@.len() as int),
        forall|pair: (u32, u32)| #[trigger]
            joined(found, n).contains(pair) ==> exists|c: int, j: int|
                0 <= c < n && 0 <= j < found[c]@.len() && #[trigger] found[c]@[j] == pair,
        forall|c: int, j: int|
            0 <= c < n && 0 <= j < found[c]@.len() ==> joined(found, n).contains(
                #[trigger] found[c]@[j],
            ),
    decreases n,
{
    if n > 0 {
        lemma_joined(found, n - 1);
        let before = joined(found, n - 1);
        let last = found[n - 1]@;
        assert forall|pair: (u32, u32)| #[trigger] joined(found, n).contains(pair) implies exists|
            c: int,
            j: int,
        |
            0 <= c < n && 0 <= j < found[c]@.len() && #[trigger] found[c]@[j] == pair by {
            let t = choose|t: int|
                0 <= t < joined(found, n).len() && joined(found, n)[t] == pair;
            if t < before.len() {
                assert(before[t] == pair);
                assert(before.contains(pair));
            } else {
                assert(found[n - 1]@[t - before.len()] == pair);
            }
        }
        assert forall|c: int, j: int| 0 <= c < n && 0 <= j < found[c]@.len() implies joined(
            found,
            n,
        ).contains(#[trigger] found[c]@[j]) by {
            if c < n - 1 {
                assert(before.contains(found[c]@[j]));
                let t = choose|t: int| 0 <= t < before.len() && before[t] == found[c]@[j];
                assert(joined(found, n)[t] == found[c]@[j]);
            } else {
                assert(joined(found, n)[before.len() + j] == found[c]@[j]);
            }
        }
    }
}

/// Vectors that are found once each are joined once each.
proof fn lemma_joined_once(found: Seq<Vec<(u32, u32)>>, n: int)
    requires
        0 <= n <= found.len(),
        forall|c: int, j: int, d: int, l: int|
            0 <= c < n && 0 <= j < found[c]@.len() && 0 <= d < n && 0 <= l < found[d]@.len() && (c
                != d || j != l) ==> (#[trigger] found[c]@[j]).0 != (#[trigger] found[d]@[l]).0,
    ensures
        forall|t: int, u: int|
            0 <= t < u < joined(found, n).len() ==> (#[trigger] joined(found, n)[t]).0 != (
            #[trigger] joined(found, n)[u]).0,
    decreases n,
{
    if n > 0 {
        lemma_joined_once(found, n - 1);
        lemma_joined(found, n - 1);
        let before = joined(found, n - 1);
        assert forall|t: int, u: int| 0 <= t < u < joined(found, n).len() implies (
        #[trigger] joined(found, n)[t]).0 != (#[trigger] joined(found, n)[u]).0 by {
            if u < before.len() {
                assert(joined(found, n)[t] == before[t] && joined(found, n)[u] == before[u]);
            } else {
                let l = u - before.len();
                assert(joined(found, n)[u] == found[n - 1]@[l]);
                if t < before.len() {
                    assert(joined(found, n)[t] == before[t]);
                    assert(before.contains(before[t]));
                    let (c, j) = choose|c: int, j: int|
                        0 <= c < n - 1 && 0 <= j < found[c]@.len() && #[trigger] found[c]@[j]
                            == before[t];
                    assert(found[c]@[j].0 != found[n - 1]@[l].0);
                } else {
                    assert(joined(found, n)[t] == found[n - 1]@[t - before.len()]);
                }
            }
        }
    }
}

/// Pairs that were found are among the hits that are ranked.
proof fn lemma_pair_is_ranked(found: Seq<Vec<(u32, u32)>>, c: int, j: int) -> (t: int)
    requires
        0 <= c < found.len(),
        0 <= j < found[c]@.len(),
    ensures
        0 <= t < joined(found, found.len() as int).len(),
        distance_hits(joined(found, found.len() as int))[t] == distance_hit(
            found[c]@[j].0,
            found[c]@[j].1,
        ),
{
    let pairs = joined(found, found.len() as int);
    lemma_joined(found, found.len() as int);
    assert(pairs.contains(found[c]@[j]));
    choose|t: int| 0 <= t < pairs.len() && pairs[t] == found[c]@[j]
}

/// What a probe returns of the pairs of a vector's number and its distance that were found: `k` hits,
/// or one for each pair; each stands for a pair, with the pair's number and a score that falls as the
/// distance rises; nearer ones come first; and a pair that is nearer than one that is returned is
/// returned too.
pub proof fn merged_hits_are_the_nearest_pairs(found: Seq<Vec<(u32, u32)>>, k: nat)
    ensures
        ({
            let nearest = hits::best(
                distance_hits(joined(found, found.len() as int)),
                k as int,
            );
            let count = sums::sum(found.len() as int, |c: int| found[c]@.len() as int);
            &&& nearest.len() == (if k < count {
                k as int
            } else {
                count
            })
            &&& forall|h: Hit| #[trigger]
                nearest.contains(h) ==> exists|c: int, j: int|
                    0 <= c < found.len() && 0 <= j < found[c]@.len() && (
                    #[trigger] found[c]@[j]).0 == h.id && h.score == -1
                        - float_bits::total_order_32(found[c]@[j].1)
            &&& forall|i: int, j: int|
                0 <= i < j < nearest.len() ==> (#[trigger] nearest[i]).score >= (
                #[trigger] nearest[j]).score
            &&& forall|i: int, c: int, j: int|
                0 <= i < nearest.len() && 0 <= c < found.len() && 0 <= j < found[c]@.len() && -1
                    - float_bits::total_order_32((#[trigger] found[c]@[j]).1) > (
                #[trigger] nearest[i]).score ==> exists|h: Hit| #[trigger]
                    nearest.contains(h) && h.id == found[c]@[j].0 && h.score == -1
                        - float_bits::total_order_32(found[c]@[j].1)
        }),
{
    let n = found.len() as int;
    let pairs = joined(found, n);
    let all = distance_hits(pairs);
    let nearest = hits::best(all, k as int);
    lemma_joined(found, n);
    hits::returned_hits_are_the_top(all, k);
    assert forall|h: Hit| #[trigger] nearest.contains(h) implies exists|c: int, j: int|
        0 <= c < found.len() && 0 <= j < found[c]@.len() && (#[trigger] found[c]@[j]).0 == h.id
            && h.score == -1 - float_bits::total_order_32(found[c]@[j].1) by {
        let i = choose|i: int| 0 <= i < nearest.len() && nearest[i] == h;
        assert(all.contains(nearest[i]));
        let t = choose|t: int| 0 <= t < all.len() && all[t] == h;
        assert(pairs.contains(pairs[t]));
        let (c, j) = choose|c: int, j: int|
            0 <= c < n && 0 <= j < found[c]@.len() && #[trigger] found[c]@[j] == pairs[t];
        assert(found[c]@[j].0 == h.id);
    }
    assert forall|i: int, c: int, j: int|
        0 <= i < nearest.len() && 0 <= c < found.len() && 0 <= j < found[c]@.len() && -1
            - float_bits::total_order_32((#[trigger] found[c]@[j]).1) > (
        #[trigger] nearest[i]).score implies exists|h: Hit| #[trigger]
        nearest.contains(h) && h.id == found[c]@[j].0 && h.score == -1
            - float_bits::total_order_32(found[c]@[j].1) by {
        let t = lemma_pair_is_ranked(found, c, j);
        hits::nothing_better_is_left_out(all, k);
        assert(nearest.contains(all[t]));
    }
}

/// Where no number was found twice, none is returned twice, and no vector that is left out is nearer
/// than one that is returned.
pub proof fn no_nearer_vector_is_left_out(found: Seq<Vec<(u32, u32)>>, k: nat)
    requires
        forall|c: int, j: int, d: int, l: int|
            0 <= c < found.len() && 0 <= j < found[c]@.len() && 0 <= d < found.len() && 0 <= l
                < found[d]@.len() && (c != d || j != l) ==> (#[trigger] found[c]@[j]).0 != (
            #[trigger] found[d]@[l]).0,
    ensures
        ({
            let nearest = hits::best(
                distance_hits(joined(found, found.len() as int)),
                k as int,
            );
            &&& forall|i: int, j: int|
                0 <= i < j < nearest.len() ==> (#[trigger] nearest[i]).id != (
                #[trigger] nearest[j]).id
            &&& forall|i: int, c: int, j: int|
                0 <= i < nearest.len() && 0 <= c < found.len() && 0 <= j < found[c]@.len() && (
                forall|t: int|
                    0 <= t < nearest.len() ==> (#[trigger] nearest[t]).id != found[c]@[j].0) ==> -1
                    - float_bits::total_order_32((#[trigger] found[c]@[j]).1) <= (
                #[trigger] nearest[i]).score
        }),
{
    let n = found.len() as int;
    let pairs = joined(found, n);
    let all = distance_hits(pairs);
    let nearest = hits::best(all, k as int);
    lemma_joined_once(found, n);
    hits::nothing_better_is_left_out(all, k);
    assert forall|t: int, u: int| 0 <= t < u < all.len() implies (#[trigger] all[t]).id != (
    #[trigger] all[u]).id by {
        assert(pairs[t].0 != pairs[u].0);
    }
    assert forall|i: int, c: int, j: int|
        0 <= i < nearest.len() && 0 <= c < found.len() && 0 <= j < found[c]@.len() && (forall|
            t: int,
        |
            0 <= t < nearest.len() ==> (#[trigger] nearest[t]).id != found[c]@[j].0) implies -1
        - float_bits::total_order_32((#[trigger] found[c]@[j]).1) <= (
    #[trigger] nearest[i]).score by {
        let u = lemma_pair_is_ranked(found, c, j);
        if hits::ids(nearest).contains(all[u].id) {
            let t = choose|t: int| 0 <= t < nearest.len() && hits::ids(nearest)[t] == all[u].id;
            assert(nearest[t].id == found[c]@[j].0);
        }
    }
}

/// A probe searches every cluster of its route with the function that it is given, and returns the
/// nearest of what that finds. Gives what was found.
pub proof fn probes_search_every_cluster_of_the_route<F: Fn(usize) -> Vec<(u32, u32)>>(
    distances_in: &F,
    route: Seq<usize>,
    k: int,
    nearest: Seq<Hit>,
) -> (found: Seq<Vec<(u32, u32)>>)
    requires
        are_nearest(found_by(distances_in), route, k, nearest),
    ensures
        found.len() == route.len(),
        forall|i: int|
            0 <= i < route.len() ==> call_ensures(
                *distances_in,
                (route[i],),
                #[trigger] found[i],
            ),
        nearest == hits::best(distance_hits(joined(found, found.len() as int)), k),
{
    let may_find = found_by(distances_in);
    let found = choose|found: Seq<Vec<(u32, u32)>>|
        {
            &&& #[trigger] found_on_route(may_find, route, found)
            &&& nearest == hits::best(distance_hits(joined(found, found.len() as int)), k)
        };
    assert forall|i: int| 0 <= i < route.len() implies call_ensures(
        *distances_in,
        (route[i],),
        #[trigger] found[i],
    ) by {
        assert(is_found(may_find, route, i, found[i]));
    }
    found
}

/// A plan searches every cluster of the route that has vectors, in the order of the route, and no
/// other, each for `k` of its vectors or all. For no hits nothing is searched.
pub proof fn plans_search_every_cluster_of_the_route(sizes: Seq<usize>, route: Seq<usize>, k: nat)
    requires
        k <= usize::MAX,
    ensures
        ({
            let plan = searches(sizes, route, k as int, route.len() as int);
            &&& k == 0 ==> plan.len() == 0
            &&& k > 0 ==> plan.map_values(|s: DeviceSearch| s.cluster) == route.filter(
                |c: usize| sizes[c as int] > 0,
            )
            &&& forall|i: int|
                0 <= i < plan.len() ==> (#[trigger] plan[i]).k == (if k
                    < sizes[plan[i].cluster as int] {
                    k as int
                } else {
                    sizes[plan[i].cluster as int] as int
                })
        }),
{
    lemma_plan(sizes, route, k, route.len() as int);
    assert(route.take(route.len() as int) =~= route);
}

/// What is planned for the first clusters of a route.
proof fn lemma_plan(sizes: Seq<usize>, route: Seq<usize>, k: nat, n: int)
    requires
        k <= usize::MAX,
        0 <= n <= route.len(),
    ensures
        ({
            let plan = searches(sizes, route, k as int, n);
            &&& k == 0 ==> plan.len() == 0
            &&& k > 0 ==> plan.map_values(|s: DeviceSearch| s.cluster) == route.take(n).filter(
                |c: usize| sizes[c as int] > 0,
            )
            &&& forall|i: int|
                0 <= i < plan.len() ==> (#[trigger] plan[i]).k == (if k
                    < sizes[plan[i].cluster as int] {
                    k as int
                } else {
                    sizes[plan[i].cluster as int] as int
                })
        }),
    decreases n,
{
    reveal(Seq::filter);
    let has_vectors = |c: usize| sizes[c as int] > 0;
    let cluster_of = |s: DeviceSearch| s.cluster;
    let plan = searches(sizes, route, k as int, n);
    if n > 0 {
        lemma_plan(sizes, route, k, n - 1);
        assert(route.take(n).drop_last() =~= route.take(n - 1));
        assert(route.take(n).last() == route[n - 1]);
        let before = searches(sizes, route, k as int, n - 1);
        if k > 0 && sizes[route[n - 1] as int] > 0 {
            assert(plan.map_values(cluster_of) =~= before.map_values(cluster_of).push(
                route[n - 1],
            ));
        }
    } else {
        assert(plan.map_values(cluster_of) =~= route.take(n).filter(has_vectors));
    }
}

/// Searching each cluster for its nearest vectors suffices: where every search of a plan finds the
/// nearest of its cluster's vectors, merging what the searches find gives what ranking all vectors of
/// all clusters of the route gives.
pub proof fn planned_searches_find_what_a_scan_finds(
    scans: Seq<Vec<(u32, u32)>>,
    sizes: Seq<usize>,
    route: Seq<usize>,
    k: nat,
    found: Seq<Vec<(u32, u32)>>,
)
    requires
        0 < k <= usize::MAX,
        sizes.len() == scans.len(),
        forall|c: int| 0 <= c < scans.len() ==> #[trigger] sizes[c] == scans[c]@.len(),
        forall|i: int| 0 <= i < route.len() ==> #[trigger] route[i] < scans.len(),
        ({
            let plan = searches(sizes, route, k as int, route.len() as int);
            &&& found.len() == plan.len()
            &&& forall|i: int|
                0 <= i < plan.len() ==> distance_hits((#[trigger] found[i])@) == hits::best(
                    distance_hits(scans[plan[i].cluster as int]@),
                    plan[i].k as int,
                )
        }),
    ensures
        ({
            let scanned = Seq::new(route.len(), |i: int| scans[route[i] as int]);
            hits::best(distance_hits(joined(found, found.len() as int)), k as int) == hits::best(
                distance_hits(joined(scanned, route.len() as int)),
                k as int,
            )
        }),
{
    let scanned = Seq::new(route.len(), |i: int| scans[route[i] as int]);
    let none = Seq::<Hit>::empty();
    lemma_searches_suffice(scans, sizes, route, k, found, route.len() as int, none);
    assert(distance_hits(joined(found, found.len() as int)) + none =~= distance_hits(
        joined(found, found.len() as int),
    ));
    assert(distance_hits(joined(scanned, route.len() as int)) + none =~= distance_hits(
        joined(scanned, route.len() as int),
    ));
}

/// Searching the first clusters of a route suffices, whatever else is ranked with them.
proof fn lemma_searches_suffice(
    scans: Seq<Vec<(u32, u32)>>,
    sizes: Seq<usize>,
    route: Seq<usize>,
    k: nat,
    found: Seq<Vec<(u32, u32)>>,
    n: int,
    others: Seq<Hit>,
)
    requires
        0 < k <= usize::MAX,
        0 <= n <= route.len(),
        sizes.len() == scans.len(),
        forall|c: int| 0 <= c < scans.len() ==> #[trigger] sizes[c] == scans[c]@.len(),
        forall|i: int| 0 <= i < route.len() ==> #[trigger] route[i] < scans.len(),
        searches(sizes, route, k as int, n).len() <= found.len(),
        forall|i: int|
            0 <= i < searches(sizes, route, k as int, n).len() ==> distance_hits(
                (#[trigger] found[i])@,
            ) == hits::best(
                distance_hits(scans[searches(sizes, route, k as int, n)[i].cluster as int]@),
                searches(sizes, route, k as int, n)[i].k as int,
            ),
    ensures
        ({
            let m = searches(sizes, route, k as int, n).len() as int;
            let scanned = Seq::new(route.len(), |i: int| scans[route[i] as int]);
            hits::best(distance_hits(joined(found, m)) + others, k as int) == hits::best(
                distance_hits(joined(scanned, n)) + others,
                k as int,
            )
        }),
    decreases n,
{
    let scanned = Seq::new(route.len(), |i: int| scans[route[i] as int]);
    let plan = searches(sizes, route, k as int, n);
    let m = plan.len() as int;
    if n > 0 {
        let before = searches(sizes, route, k as int, n - 1);
        let cluster = route[n - 1] as int;
        let scan = distance_hits(scans[cluster]@);
        let earlier = distance_hits(joined(scanned, n - 1));
        assert(route[n - 1] < scans.len());
        assert(sizes[cluster] == scans[cluster]@.len());
        assert forall|i: int| 0 <= i < before.len() implies distance_hits((#[trigger] found[i])@)
            == hits::best(distance_hits(scans[before[i].cluster as int]@), before[i].k as int) by {
            assert(before[i] == plan[i]);
        }
        assert(scanned[n - 1] == scans[cluster]);
        assert(distance_hits(joined(scanned, n)) =~= earlier + scan);
        lemma_searches_suffice(scans, sizes, route, k, found, n - 1, scan + others);
        assert((earlier + scan) + others =~= earlier + (scan + others));
        if sizes[cluster] == 0 {
            assert(scan =~= Seq::<Hit>::empty());
            assert(scan + others =~= others);
        } else {
            let a = distance_hits(joined(found, m - 1));
            let f = distance_hits(found[m - 1]@);
            assert(plan[m - 1].cluster == route[n - 1]);
            assert(f == hits::best(scan, plan[m - 1].k as int));
            assert(hits::best(scan, plan[m - 1].k as int) =~= hits::best(scan, k as int));
            assert(distance_hits(joined(found, m)) =~= a + f);
            hits::the_best_of_a_list_suffice(scan, a + others, k);
            lemma_moved(f, a, others, k);
            lemma_moved(scan, a, others, k);
        }
    } else {
        assert(distance_hits(joined(found, m)) =~= distance_hits(joined(scanned, n)));
    }
}

/// Where a part of what is ranked stands makes no difference.
proof fn lemma_moved(part: Seq<Hit>, first: Seq<Hit>, last: Seq<Hit>, k: nat)
    ensures
        hits::best((first + part) + last, k as int) == hits::best(part + (first + last), k as int),
        hits::best(first + (part + last), k as int) == hits::best(part + (first + last), k as int),
{
    let a = (first + part) + last;
    let b = part + (first + last);
    vstd::seq_lib::lemma_multiset_commutative(first, part);
    vstd::seq_lib::lemma_multiset_commutative(first + part, last);
    vstd::seq_lib::lemma_multiset_commutative(first, last);
    vstd::seq_lib::lemma_multiset_commutative(part, first + last);
    assert(first + (part + last) =~= a);
    assert(a.to_multiset() =~= b.to_multiset());
    hits::ranking_ignores_arrival_order(a, b);
}

/// A cluster that is laid out for a device holds every component of every vector at its place.
pub proof fn laid_out_clusters_hold_every_component(cluster: Seq<Member>, dim: nat, i: int, t: int)
    requires
        ivf::cluster_has_dim(cluster, dim as int),
        0 <= i < cluster.len(),
        0 <= t < dim,
    ensures
        joined_components(cluster, cluster.len() as int).len() == cluster.len() * dim,
        0 <= i * dim + t < cluster.len() * dim,
        joined_components(cluster, cluster.len() as int)[i * dim + t] == cluster[i].components@[t],
{
    lemma_components(cluster, dim, cluster.len() as int, i, t);
}

/// The first vectors are laid out one after the other.
proof fn lemma_components(cluster: Seq<Member>, dim: nat, n: int, i: int, t: int)
    requires
        ivf::cluster_has_dim(cluster, dim as int),
        0 <= i < n <= cluster.len(),
        0 <= t < dim,
    ensures
        joined_components(cluster, n).len() == n * dim,
        0 <= i * dim + t < n * dim,
        joined_components(cluster, n)[i * dim + t] == cluster[i].components@[t],
    decreases n,
{
    assert(cluster[n - 1].components@.len() == dim);
    layout::lemma_entry_in_range(i, t, n, dim as int);
    assert(n * dim == (n - 1) * dim + dim) by (nonlinear_arith);
    let before = joined_components(cluster, n - 1);
    if n == 1 {
        assert(before.len() == 0);
    } else if i < n - 1 {
        lemma_components(cluster, dim, n - 1, i, t);
    } else {
        lemma_components(cluster, dim, n - 1, 0, t);
    }
}

} // verus!
