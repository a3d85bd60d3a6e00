//! What the scorers share: where they run, and what a query costs.

use vstd::prelude::*;

use crate::math::rearrange;
use crate::math::sums;

verus! {

/// Where scores are computed.
#[derive(Debug, Clone, Copy, PartialEq, Eq, Structural)]
pub enum Device {
    /// On the processor.
    Cpu,
    /// On a graphics card.
    Gpu,
}

/// Where the state of an upload comes from.
pub enum Obtained<T> {
    /// It was kept from an earlier upload.
    Kept,
    /// It was read from storage.
    Stored(T),
    /// It was built.
    Built(T),
}

/// The bytes that a query moves.
#[derive(Debug, Clone, Copy, PartialEq, Eq, Structural)]
pub struct CommunicationCost {
    /// Sent by the client with a query.
    pub query_bytes: u64,
    /// Sent back for a query.
    pub response_bytes: u64,
    /// Sent back per cluster that is probed.
    pub cluster_response_bytes: u64,
    /// Sent once, before the first query.
    pub setup_bytes: u64,
    /// Sent by the client before a query is known.
    pub pre_query_offline_up_bytes: u64,
    /// Sent back before a query is known.
    pub pre_query_offline_down_bytes: u64,
    /// Read by the server for a query.
    pub effective_bytes_per_query: u64,
}

/// The sum of sizes.
pub open spec fn total(sizes: Seq<usize>, n: int) -> int
    decreases n,
{
    if n <= 0 {
        0
    } else {
        total(sizes, n - 1) + sizes[n - 1]
    }
}

/// The hits that clusters of given sizes send back, if each sends its best `k`.
pub open spec fn total_capped(sizes: Seq<usize>, k: usize, n: int) -> int
    decreases n,
{
    if n <= 0 {
        0
    } else {
        total_capped(sizes, k, n - 1) + (if k < sizes[n - 1] {
            k as int
        } else {
            sizes[n - 1] as int
        })
    }
}

/// Sums over more sizes are no smaller, and capped sums no larger than sums.
pub proof fn lemma_totals(sizes: Seq<usize>, k: usize, i: int, n: int)
    requires
        0 <= i <= n <= sizes.len(),
    ensures
        0 <= total(sizes, i) <= total(sizes, n),
        0 <= total_capped(sizes, k, i) <= total_capped(sizes, k, n),
        total_capped(sizes, k, n) <= total(sizes, n),
    decreases n, i,
{
    if n > i {
        lemma_totals(sizes, k, i, n - 1);
    } else if i > 0 {
        lemma_totals(sizes, k, i - 1, i - 1);
    }
}

/// Sums sizes.
pub fn sum_sizes(sizes: &[usize]) -> (r: u64)
    requires
        total(sizes@, sizes@.len() as int) <= u64::MAX,
    ensures
        r == total(sizes@, sizes@.len() as int),
{
    let mut r: u64 = 0;
    for i in 0..sizes.len()
        invariant
            total(sizes@, sizes@.len() as int) <= u64::MAX,
            r == total(sizes@, i as int),
    {
        proof {
            lemma_totals(sizes@, 0, i + 1, sizes@.len() as int);
        }
        r = r + sizes[i] as u64;
    }
    r
}

/// Sums the smaller of each size and `k`.
pub fn sum_capped(sizes: &[usize], k: usize) -> (r: u64)
    requires
        total(sizes@, sizes@.len() as int) <= u64::MAX,
    ensures
        r == total_capped(sizes@, k, sizes@.len() as int),
{
    let mut r: u64 = 0;
    for i in 0..sizes.len()
        invariant
            total(sizes@, sizes@.len() as int) <= u64::MAX,
            r == total_capped(sizes@, k, i as int),
    {
        proof {
            lemma_totals(sizes@, k, i + 1, sizes@.len() as int);
        }
        let kept: usize = if k < sizes[i] {
            k
        } else {
            sizes[i]
        };
        r = r + kept as u64;
    }
    r
}

/// The mean of cluster sizes, rounded down; zero if there is no cluster.
pub open spec fn mean_size(sizes: Seq<usize>) -> int {
    if sizes.len() == 0 {
        0
    } else {
        total(sizes, sizes.len() as int) / sizes.len() as int
    }
}

/// The smaller of `k` and a size.
pub open spec fn capped(k: int, size: int) -> int {
    if k < size {
        k
    } else {
        size
    }
}

/// What a query costs that probes `nprobe` clusters of vectors of `dim` single-precision numbers
/// and gets the best `k` hits of each, as an estimate from the mean cluster size. The client
/// sends `component_bytes` per component; a hit takes eight bytes.
pub open spec fn probing_cost(
    sizes: Seq<usize>,
    nprobe: usize,
    dim: usize,
    component_bytes: u64,
    k: usize,
) -> CommunicationCost {
    let mean = mean_size(sizes);
    CommunicationCost {
        query_bytes: (dim * component_bytes) as u64,
        response_bytes: (capped(k as int, mean) * 8 * nprobe) as u64,
        cluster_response_bytes: (capped(k as int, mean) * 8) as u64,
        setup_bytes: 0,
        pre_query_offline_up_bytes: 0,
        pre_query_offline_down_bytes: 0,
        effective_bytes_per_query: (nprobe * mean * (dim * 4)) as u64,
    }
}

/// The numbers of a cost estimate fit in 64 bits.
pub open spec fn probing_cost_fits(sizes: Seq<usize>, nprobe: usize, dim: usize, component_bytes: u64) -> bool {
    &&& total(sizes, sizes.len() as int) <= u64::MAX
    &&& dim * component_bytes <= u64::MAX
    &&& dim * 4 <= u64::MAX
    &&& mean_size(sizes) * 8 * nprobe <= u64::MAX
    &&& mean_size(sizes) * 8 <= u64::MAX
    &&& nprobe * mean_size(sizes) <= u64::MAX
    &&& nprobe * mean_size(sizes) * (dim * 4) <= u64::MAX
}

/// Estimates what a query costs.
pub fn estimate_probing_cost(
    sizes: &[usize],
    nprobe: usize,
    dim: usize,
    component_bytes: u64,
    k: usize,
) -> (cost: CommunicationCost)
    requires
        probing_cost_fits(sizes@, nprobe, dim, component_bytes),
    ensures
        cost == probing_cost(sizes@, nprobe, dim, component_bytes, k),
{
    let members: u64 = sum_sizes(sizes);
    let mean: u64 = if sizes.len() == 0 {
        0
    } else {
        members / sizes.len() as u64
    };
    let kept: u64 = if (k as u64) < mean {
        k as u64
    } else {
        mean
    };
    proof {
        assert(kept * 8 * nprobe <= mean * 8 * nprobe && 0 <= kept * 8 * nprobe)
            by (nonlinear_arith)
            requires
                0 <= kept <= mean,
                0 <= nprobe,
        ;
    }
    CommunicationCost {
        query_bytes: dim as u64 * component_bytes,
        response_bytes: kept * 8 * nprobe as u64,
        cluster_response_bytes: kept * 8,
        setup_bytes: 0,
        pre_query_offline_up_bytes: 0,
        pre_query_offline_down_bytes: 0,
        effective_bytes_per_query: nprobe as u64 * mean * (dim as u64 * 4),
    }
}

/// What a query cost that probed clusters of the given sizes: an estimate, with the response and
/// the bytes read replaced by what they were.
pub open spec fn realised_cost(
    estimate: CommunicationCost,
    probed: Seq<usize>,
    dim: usize,
    k: usize,
) -> CommunicationCost {
    let response = total_capped(probed, k, probed.len() as int) * 8;
    CommunicationCost {
        response_bytes: response as u64,
        cluster_response_bytes: if probed.len() == 0 {
            0
        } else {
            (response / probed.len() as int) as u64
        },
        effective_bytes_per_query: (total(probed, probed.len() as int) * (dim * 4)) as u64,
        ..estimate
    }
}

/// Replaces the estimated response and work by those of the clusters that were probed.
pub fn realise_probing_cost(
    estimate: CommunicationCost,
    probed: &[usize],
    dim: usize,
    k: usize,
) -> (cost: CommunicationCost)
    requires
        total(probed@, probed@.len() as int) * 8 <= u64::MAX,
        dim * 4 <= u64::MAX,
        total(probed@, probed@.len() as int) * (dim * 4) <= u64::MAX,
    ensures
        cost == realised_cost(estimate, probed@, dim, k),
{
    let members: u64 = sum_sizes(probed);
    let sent: u64 = sum_capped(probed, k);
    proof {
        lemma_totals(probed@, k, 0, probed@.len() as int);
    }
    let response: u64 = sent * 8;
    CommunicationCost {
        query_bytes: estimate.query_bytes,
        response_bytes: response,
        cluster_response_bytes: if probed.len() == 0 {
            0
        } else {
            response / probed.len() as u64
        },
        setup_bytes: estimate.setup_bytes,
        pre_query_offline_up_bytes: estimate.pre_query_offline_up_bytes,
        pre_query_offline_down_bytes: estimate.pre_query_offline_down_bytes,
        effective_bytes_per_query: members * (dim as u64 * 4),
    }
}

/// The capped sum over equal sizes.
pub proof fn lemma_equal_sizes(sizes: Seq<usize>, size: usize, k: usize, n: int)
    requires
        0 <= n <= sizes.len(),
        forall|i: int| 0 <= i < sizes.len() ==> #[trigger] sizes[i] == size,
    ensures
        total(sizes, n) == n * size,
        total_capped(sizes, k, n) == n * capped(k as int, size as int),
    decreases n,
{
    let c = capped(k as int, size as int);
    if n > 0 {
        lemma_equal_sizes(sizes, size, k, n - 1);
        assert(n * size == (n - 1) * size + size && n * c == (n - 1) * c + c) by (nonlinear_arith);
    } else {
        assert(0 * size == 0 && 0 * c == 0) by (nonlinear_arith);
    }
}

/// Where all clusters are of one size, the estimate is what a query costs.
pub proof fn estimates_hold_on_equal_clusters(
    sizes: Seq<usize>,
    probed: Seq<usize>,
    size: usize,
    dim: usize,
    component_bytes: u64,
    k: usize,
)
    requires
        0 < sizes.len(),
        0 < probed.len() <= usize::MAX,
        forall|i: int| 0 <= i < sizes.len() ==> #[trigger] sizes[i] == size,
        forall|i: int| 0 <= i < probed.len() ==> #[trigger] probed[i] == size,
    ensures
        ({
            let estimate = probing_cost(sizes, probed.len() as usize, dim, component_bytes, k);
            realised_cost(estimate, probed, dim, k) == estimate
        }),
{
    let n = sizes.len() as int;
    let p = probed.len() as int;
    let c = capped(k as int, size as int);
    lemma_equal_sizes(sizes, size, k, n);
    lemma_equal_sizes(probed, size, k, p);
    assert((n * size) / n == size) by (nonlinear_arith)
        requires
            0 < n,
    ;
    assert(p * c * 8 == c * 8 * p) by (nonlinear_arith);
    assert((p * c * 8) / p == c * 8) by (nonlinear_arith)
        requires
            0 < p,
    ;
}

/// Sizes that are picked by numbers add up to the sum over these numbers.
proof fn lemma_totals_on_route(sizes: Seq<usize>, route: Seq<usize>, probed: Seq<usize>, k: usize, n: int)
    requires
        0 <= n <= route.len(),
        probed.len() == route.len(),
        forall|i: int| 0 <= i < route.len() ==> #[trigger] probed[i] == sizes[route[i] as int],
    ensures
        total(probed, n) == rearrange::sum_on(|c: usize| sizes[c as int] as int, route.take(n)),
        total_capped(probed, k, n) == rearrange::sum_on(
            |c: usize| capped(k as int, sizes[c as int] as int),
            route.take(n),
        ),
    decreases n,
{
    if n > 0 {
        lemma_totals_on_route(sizes, route, probed, k, n - 1);
        assert(route.take(n).drop_last() =~= route.take(n - 1));
        assert(probed[n - 1] == sizes[route[n - 1] as int]);
    } else {
        assert(route.take(0).len() == 0);
    }
}

/// A query that probes all clusters costs what all clusters cost together, in whatever order it
/// probes them.
pub proof fn full_probe_costs_all_clusters(
    estimate: CommunicationCost,
    sizes: Seq<usize>,
    route: Seq<usize>,
    probed: Seq<usize>,
    dim: usize,
    k: usize,
)
    requires
        route.no_duplicates(),
        route.len() == sizes.len() <= usize::MAX,
        forall|i: int| 0 <= i < route.len() ==> #[trigger] route[i] < sizes.len(),
        probed.len() == route.len(),
        forall|i: int| 0 <= i < route.len() ==> #[trigger] probed[i] == sizes[route[i] as int],
    ensures
        realised_cost(estimate, probed, dim, k) == realised_cost(estimate, sizes, dim, k),
{
    let n = sizes.len() as int;
    let all = rearrange::all_below(n);
    rearrange::lemma_all_below(route);
    rearrange::lemma_sum_rearranged(|c: usize| sizes[c as int] as int, route, all);
    rearrange::lemma_sum_rearranged(
        |c: usize| capped(k as int, sizes[c as int] as int),
        route,
        all,
    );
    lemma_totals_on_route(sizes, route, probed, k, n);
    lemma_totals_on_route(sizes, all, sizes, k, n);
    assert(route.take(n) =~= route);
    assert(all.take(n) =~= all);
}

/// Sums of sizes take every size.
pub proof fn totals_take_every_size(sizes: Seq<usize>, n: nat)
    requires
        n <= sizes.len(),
    ensures
        total(sizes, n as int) == sums::sum(n as int, |i: int| sizes[i] as int),
    decreases n,
{
    if n > 0 {
        totals_take_every_size(sizes, (n - 1) as nat);
    }
}

/// Capped sums of sizes take every size, and `k` in place of a larger one.
pub proof fn capped_totals_take_every_size(sizes: Seq<usize>, k: usize, n: nat)
    requires
        n <= sizes.len(),
    ensures
        total_capped(sizes, k, n as int) == sums::sum(
            n as int,
            |i: int|
                if k < sizes[i] {
                    k as int
                } else {
                    sizes[i] as int
                },
        ),
    decreases n,
{
    if n > 0 {
        capped_totals_take_every_size(sizes, k, (n - 1) as nat);
    }
}

/// The mean size is the largest number that, once per cluster, does not exceed the sum of the sizes.
pub proof fn means_are_rounded_down(sizes: Seq<usize>)
    requires
        0 < sizes.len(),
    ensures
        0 <= mean_size(sizes),
        mean_size(sizes) * sizes.len() <= sums::sum(
            sizes.len() as int,
            |i: int| sizes[i] as int,
        ) < (mean_size(sizes) + 1) * sizes.len(),
{
    let n = sizes.len() as int;
    let members = sums::sum(n, |i: int| sizes[i] as int);
    totals_take_every_size(sizes, sizes.len());
    sums::lemma_sum_bounds(n, 0, usize::MAX as int, |i: int| sizes[i] as int);
    assert(0 <= members) by (nonlinear_arith)
        requires
            n * 0 <= members,
    ;
    vstd::arithmetic::div_mod::lemma_fundamental_div_mod(members, n);
    assert(0 <= members / n) by (nonlinear_arith)
        requires
            0 <= members,
            0 < n,
    ;
    assert(n * (members / n) == (members / n) * n) by (nonlinear_arith);
    assert((members / n + 1) * n == (members / n) * n + n) by (nonlinear_arith);
}

/// What a query is estimated to cost: it sends its components, gets back from each of `nprobe`
/// clusters eight bytes for each of `k` hits or as many as the mean size, and reads four bytes for
/// each component of as many vectors of each cluster as the mean size says. Nothing is sent before.
pub proof fn estimates_count_every_probe(
    sizes: Seq<usize>,
    nprobe: usize,
    dim: usize,
    component_bytes: u64,
    k: usize,
)
    requires
        probing_cost_fits(sizes, nprobe, dim, component_bytes),
    ensures
        ({
            let cost = probing_cost(sizes, nprobe, dim, component_bytes, k);
            let mean = mean_size(sizes);
            let sent = if k < mean {
                k as int
            } else {
                mean
            };
            &&& cost.query_bytes == dim * component_bytes
            &&& cost.cluster_response_bytes == 8 * sent
            &&& cost.response_bytes == nprobe * cost.cluster_response_bytes
            &&& cost.effective_bytes_per_query == nprobe * mean * (4 * dim)
            &&& cost.setup_bytes == 0
            &&& cost.pre_query_offline_up_bytes == 0
            &&& cost.pre_query_offline_down_bytes == 0
            &&& sizes.len() == 0 ==> mean == 0
        }),
{
    let mean = mean_size(sizes);
    if sizes.len() > 0 {
        means_are_rounded_down(sizes);
    }
    let sent = capped(k as int, mean);
    assert(0 <= dim * component_bytes) by (nonlinear_arith);
    assert(0 <= sent * 8 * nprobe <= mean * 8 * nprobe) by (nonlinear_arith)
        requires
            0 <= sent <= mean,
            0 <= nprobe,
    ;
    assert(sent * 8 * nprobe == nprobe * (8 * sent)) by (nonlinear_arith);
    assert(0 <= nprobe * mean * (dim * 4)) by (nonlinear_arith)
        requires
            0 <= mean,
            0 <= nprobe,
            0 <= dim,
    ;
}

/// What a query that probed clusters of given sizes cost: eight bytes for each of `k` hits, or as many
/// as there are vectors, of each of them came back, in the mean rounded down; and four bytes for each
/// component of each of their vectors were read. What is sent before and with it is as estimated.
pub proof fn queries_cost_what_they_probe(
    estimate: CommunicationCost,
    probed: Seq<usize>,
    dim: usize,
    k: usize,
)
    requires
        sums::sum(probed.len() as int, |i: int| probed[i] as int) * 8 <= u64::MAX,
        sums::sum(probed.len() as int, |i: int| probed[i] as int) * (dim * 4) <= u64::MAX,
    ensures
        ({
            let cost = realised_cost(estimate, probed, dim, k);
            &&& cost.response_bytes == 8 * sums::sum(
                probed.len() as int,
                |i: int|
                    if k < probed[i] {
                        k as int
                    } else {
                        probed[i] as int
                    },
            )
            &&& cost.effective_bytes_per_query == sums::sum(
                probed.len() as int,
                |i: int| probed[i] as int,
            ) * (4 * dim)
            &&& probed.len() == 0 ==> cost.cluster_response_bytes == 0
            &&& probed.len() > 0 ==> cost.cluster_response_bytes * probed.len()
                <= cost.response_bytes < (cost.cluster_response_bytes + 1) * probed.len()
            &&& cost.query_bytes == estimate.query_bytes
            &&& cost.setup_bytes == estimate.setup_bytes
            &&& cost.pre_query_offline_up_bytes == estimate.pre_query_offline_up_bytes
            &&& cost.pre_query_offline_down_bytes == estimate.pre_query_offline_down_bytes
        }),
{
    let n = probed.len() as int;
    let members = total(probed, n);
    let response = total_capped(probed, k, n) * 8;
    totals_take_every_size(probed, probed.len());
    lemma_totals(probed, k, n, n);
    assert(0 <= members * (dim * 4)) by (nonlinear_arith)
        requires
            0 <= members,
            0 <= dim,
    ;
    capped_totals_take_every_size(probed, k, probed.len());
    if n > 0 {
        vstd::arithmetic::div_mod::lemma_fundamental_div_mod(response, n);
        assert(0 <= response / n <= response) by (nonlinear_arith)
            requires
                0 <= response,
                0 < n,
        ;
        assert(n * (response / n) == (response / n) * n) by (nonlinear_arith);
        assert((response / n + 1) * n == (response / n) * n + n) by (nonlinear_arith);
    }
}

} // verus!
