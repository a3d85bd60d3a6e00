use std::sync::Arc;

use private_scoring::float_bits::bits_of_total_order_32;
use private_scoring::gpu::store::ClusterStoreError;
use private_scoring::hits::Hit;
use private_scoring::ivf::Member;
use private_scoring::plaintext::{
    cache_parts, check_dimensions, communication_cost, gpu_error, key_of, realise_cost, score,
    validate_upload, GpuError, PlaintextConfig, PlaintextError, PlaintextScorer,
};
use private_scoring::probing::{
    host_cluster, number_rows, payload_hint, plan_searches, probe_distance, probe_merge,
    DeviceSearch,
};
use private_scoring::scoring::{CommunicationCost, Device, Obtained};

fn distance(a: &[f32], b: &[f32]) -> u32 {
    let sum: f32 = a.iter().zip(b).map(|(x, y)| (x - y) * (x - y)).sum();
    sum.sqrt().to_bits()
}

fn scores(hits: &[Hit]) -> Vec<(u32, f32)> {
    hits.iter()
        .map(|h| (h.id, f32::from_bits(bits_of_total_order_32(h.score))))
        .collect()
}

/// Clusters on a line, with their centroids.
fn corpus() -> (Vec<Vec<f32>>, Vec<Vec<(u32, Vec<f32>)>>) {
    let centroids = vec![vec![0.0], vec![10.0], vec![20.0]];
    let clusters = vec![
        vec![(0, vec![-1.0]), (1, vec![1.0])],
        vec![(2, vec![9.0])],
        vec![(3, vec![19.0]), (4, vec![20.0]), (5, vec![22.0])],
    ];
    (centroids, clusters)
}

fn probe(query: f32, nprobe: usize, k: usize) -> (Vec<(u32, f32)>, Vec<usize>) {
    let (centroids, clusters) = corpus();
    let query = [query];
    let from_centroids: Vec<u32> = centroids.iter().map(|c| distance(c, &query)).collect();
    let (hits, route) = score(
        1,
        1,
        &from_centroids,
        nprobe,
        |c: usize| clusters[c].iter().map(|(id, v)| (*id, distance(v, &query))).collect(),
        k,
    )
    .unwrap();
    (scores(&hits), route)
}

#[test]
fn clusters_of_a_route_are_searched_in_its_order() {
    let (_, clusters) = corpus();
    let query = [14.0];
    let search = |c: usize| -> Vec<(u32, u32)> {
        clusters[c].iter().map(|(id, v)| (*id, distance(v, &query))).collect()
    };
    let found = probe_distance(&[2, 1], search);
    assert_eq!(found, vec![search(2), search(1)]);
    assert_eq!(scores(&probe_merge(&found, 3)), probe(14.0, 2, 3).0);
    assert!(probe_distance(&[], search).is_empty());

    let scaled: Vec<Vec<(u32, u32)>> = found
        .iter()
        .map(|c| c.iter().map(|(id, d)| (*id, (f32::from_bits(*d) * 4.0).to_bits())).collect())
        .collect();
    let ids = |hits: &[Hit]| hits.iter().map(|h| h.id).collect::<Vec<u32>>();
    assert_eq!(ids(&probe_merge(&scaled, 4)), ids(&probe_merge(&found, 4)));
    assert_eq!(ids(&probe_merge(&scaled, 4)), vec![2, 3, 4, 5]);
}

#[test]
fn the_nearest_vectors_of_the_probed_clusters_are_found() {
    assert_eq!(
        probe(14.0, 2, 3),
        (vec![(2, -5.0), (3, -5.0), (4, -6.0)], vec![1, 2])
    );
    // one cluster alone
    assert_eq!(probe(14.0, 1, 3), (vec![(2, -5.0)], vec![1]));
}

#[test]
fn probing_everything_is_a_full_scan() {
    let (found, route) = probe(14.0, 9, 10);
    assert_eq!(route, vec![1, 2, 0]);
    assert_eq!(
        found,
        vec![(2, -5.0), (3, -5.0), (4, -6.0), (5, -8.0), (1, -13.0), (0, -15.0)]
    );
}

#[test]
fn queries_of_other_dimensions_are_refused() {
    let r = score(2, 3, &[], 1, |_: usize| Vec::new(), 1);
    assert!(matches!(
        r,
        Err(PlaintextError::DimensionMismatch { query_dim: 2, index_dim: 3 })
    ));
    assert!(check_dimensions(&[3, 3], 3).is_ok());
    assert!(matches!(
        check_dimensions(&[3, 4, 5], 3),
        Err(PlaintextError::DimensionMismatch { query_dim: 4, index_dim: 3 })
    ));
}

#[test]
fn settings_have_defaults_and_are_checked() {
    let config = PlaintextConfig::default();
    assert_eq!(
        (config.n_centroids, config.nprobe, config.train_seed, config.max_iter),
        (16, 4, 42, 25)
    );
    assert_eq!(config.device, Device::Cpu);
    assert_eq!(config.vram_budget_bytes, None);
    assert!(validate_upload(&config, 16).is_ok());
    assert!(matches!(validate_upload(&config, 0), Err(PlaintextError::EmptyCluster)));
    assert!(matches!(validate_upload(&config, 15), Err(PlaintextError::TooManyCentroids(16))));
}

#[test]
fn one_index_is_kept() {
    let config = PlaintextConfig::default();
    let first = key_of(&config, 20);
    let second = key_of(&config, 21);
    assert_eq!(first, key_of(&PlaintextConfig { nprobe: 9, ..PlaintextConfig::default() }, 20));
    let mut scorer: PlaintextScorer<&str> = PlaintextScorer::new();
    assert!(scorer.recall(first).is_none());
    let (index, hit) =
        scorer.finish_upload(first, Obtained::Built("a"), Device::Cpu, false).unwrap();
    assert_eq!((*index, hit), ("a", false));
    // asking for another index keeps the first
    assert!(scorer.recall(second).is_none());
    assert_eq!(scorer.recall(first), Some(Arc::new("a")));
    let (index, hit) = scorer.finish_upload(first, Obtained::Kept, Device::Cpu, false).unwrap();
    assert_eq!((*index, hit), ("a", true));
    let (index, hit) =
        scorer.finish_upload(second, Obtained::Stored("b"), Device::Gpu, true).unwrap();
    assert_eq!((*index, hit), ("b", true));
    assert!(scorer.recall(first).is_none());
    assert!(matches!(
        scorer.finish_upload(first, Obtained::Built("c"), Device::Gpu, false),
        Err(PlaintextError::GpuFeatureNotEnabled)
    ));
    assert_eq!(scorer.recall(first), Some(Arc::new("c")));
}

#[test]
fn parts_name_what_an_index_depends_on() {
    let parts = cache_parts(&key_of(&PlaintextConfig::default(), 300));
    assert_eq!(
        parts,
        vec![
            b"plaintext-ivf".to_vec(),
            16u64.to_le_bytes().to_vec(),
            42u64.to_le_bytes().to_vec(),
            25u64.to_le_bytes().to_vec(),
            300u64.to_le_bytes().to_vec(),
        ]
    );
}

#[test]
fn costs_follow_mean_and_probed_sizes() {
    let estimate = communication_cost(&[5, 10, 15, 7], 2, 3, 6);
    assert_eq!(
        estimate,
        CommunicationCost {
            query_bytes: 12,
            response_bytes: 2 * 6 * 8,
            cluster_response_bytes: 6 * 8,
            setup_bytes: 0,
            pre_query_offline_up_bytes: 0,
            pre_query_offline_down_bytes: 0,
            effective_bytes_per_query: 2 * 9 * 3 * 4,
        }
    );
    let realised = realise_cost(estimate, &[5, 15], 3, 6);
    assert_eq!(realised.response_bytes, 11 * 8);
    assert_eq!(realised.cluster_response_bytes, 44);
    assert_eq!(realised.effective_bytes_per_query, 20 * 3 * 4);
    assert_eq!(realised.query_bytes, 12);
    assert_eq!(realise_cost(estimate, &[], 3, 6).cluster_response_bytes, 0);
    // a full probe costs the same in any order
    assert_eq!(
        realise_cost(estimate, &[5, 10, 15, 7], 3, 6),
        realise_cost(estimate, &[15, 7, 5, 10], 3, 6)
    );
    // and the estimate is exact on clusters of one size
    let equal = communication_cost(&[4, 4, 4], 2, 3, 6);
    assert_eq!(realise_cost(equal, &[4, 4], 3, 6), equal);
    assert_eq!(communication_cost(&[], 2, 3, 6).response_bytes, 0);
}

#[test]
fn errors_of_the_store_are_reported() {
    assert!(matches!(
        gpu_error(ClusterStoreError::Upload(String::from("u"))),
        GpuError::Cuvs(m) if m == "u"
    ));
    assert!(matches!(
        gpu_error(ClusterStoreError::Sync(String::from("s"))),
        GpuError::Cuvs(m) if m == "s"
    ));
    assert!(matches!(
        gpu_error(ClusterStoreError::BudgetTooSmall { budget_bytes: 1, requested_bytes: 2 }),
        GpuError::BudgetTooSmall { budget_bytes: 1, requested_bytes: 2 }
    ));
}

#[test]
fn devices_are_searched_cluster_by_cluster() {
    assert_eq!(
        plan_searches(&[3, 0, 7], &[2, 1, 0], 5),
        vec![
            DeviceSearch { cluster: 2, k: 5 },
            DeviceSearch { cluster: 0, k: 3 },
        ]
    );
    assert!(plan_searches(&[3, 0, 7], &[2, 1, 0], 0).is_empty());

    assert!(host_cluster(&[], 2).is_none());
    let member = |id: u32| Member { id, components: vec![id, id + 1] };
    let host = host_cluster(&[member(8), member(5)], 2).unwrap();
    assert_eq!(host.vectors, vec![8, 9, 5, 6]);
    assert_eq!(host.row_to_global, vec![8, 5]);
    assert_eq!((host.n, host.dim), (2, 2));
    assert_eq!(payload_hint(host.n, host.dim), 16);

    let one = 1.0f32.to_bits();
    let two = 2.0f32.to_bits();
    let found = number_rows(&host.row_to_global, &[1, 0], &[one, two]);
    assert_eq!(found, vec![(5, one), (8, two)]);
    let merged = probe_merge(&[found, vec![(7, 1.5f32.to_bits())]], 2);
    assert_eq!(scores(&merged), vec![(5, -1.0), (7, -1.5)]);
}
