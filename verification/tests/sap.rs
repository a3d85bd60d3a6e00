use std::sync::{Arc, Mutex};

use private_scoring::float_bits::{bits_of_total_order_32, bits_of_total_order_64};
use private_scoring::gpu::store::ClusterStoreError;
use private_scoring::hits::Hit;
use private_scoring::sap::cluster::{build_cluster, knn_with_scores, knn_with_scores_batch};
use private_scoring::sap::crypto::{derive_nonce, prf_seed, SapKey};
use private_scoring::sap::gpu::{gpu_error, row_hits, search_width, GpuError};
use private_scoring::sap::ivf;
use private_scoring::sap::ivf::{SapIvfConfig, SapIvfError, SapIvfScorer};
use private_scoring::sap::scorer::{validate_upload, SapConfig, SapError, SapScorer};
use private_scoring::scoring::{CommunicationCost, Device, Obtained};
use rand::rngs::ChaCha20Rng;
use rand::{RngExt, SeedableRng};

fn key() -> SapKey {
    SapKey { s: 2.0f64.to_bits(), prf_key: [3u8; 32] }
}

fn config() -> SapConfig {
    SapConfig {
        key: key(),
        beta: 0.5f64.to_bits(),
        upload_seed: 42,
        device: Device::Cpu,
        vram_budget_bytes: None,
    }
}

fn ivf_config() -> SapIvfConfig {
    SapIvfConfig {
        key: key(),
        beta: 0.0f64.to_bits(),
        upload_seed: 42,
        n_centroids: 4,
        nprobe: 2,
        train_seed: 7,
        max_iter: 25,
        device: Device::Cpu,
        vram_budget_bytes: None,
    }
}

/// Numbers and scores of entries, the scores being negated distances.
fn scores(hits: &[Hit]) -> Vec<(u32, f64)> {
    hits.iter()
        .map(|h| (h.id, f64::from_bits(bits_of_total_order_64(h.score))))
        .collect()
}

fn bits(distances: &[f64]) -> Vec<u64> {
    distances.iter().map(|d| d.to_bits()).collect()
}

#[test]
fn nonces_are_the_stream_of_seed_and_number() {
    for (seed, number) in [(42u64, 0u64), (42, 1), (7, 0xFFFF_FFFF)] {
        let mut stream = ChaCha20Rng::seed_from_u64(seed ^ number);
        let expected: [u8; 16] = std::array::from_fn(|_| stream.random());
        assert_eq!(derive_nonce(seed, number), expected);
    }
    assert_ne!(derive_nonce(42, 0), derive_nonce(42, 1));
}

#[test]
fn nonces_are_mixed_into_both_halves_of_the_key() {
    let prf_key: [u8; 32] = std::array::from_fn(|i| i as u8);
    let nonce: [u8; 16] = std::array::from_fn(|i| 0xF0 + i as u8);
    let seed = prf_seed(&prf_key, &nonce);
    for i in 0..16 {
        assert_eq!(seed[i], prf_key[i] ^ nonce[i]);
        assert_eq!(seed[i + 16], prf_key[i + 16] ^ nonce[i]);
    }
    assert_ne!(seed, prf_seed(&prf_key, &[0u8; 16]));
    assert_ne!(seed, prf_seed(&[0u8; 32], &nonce));
}

#[test]
fn rows_are_encrypted_with_derived_nonces() {
    let done = Mutex::new(Vec::new());
    let entries = build_cluster(
        5,
        42,
        |i: usize, nonce: [u8; 16]| (i, nonce),
        |i: usize| done.lock().unwrap().push(i),
    );
    for (i, entry) in entries.iter().enumerate() {
        assert_eq!(*entry, (i, derive_nonce(42, i as u64)));
    }
    let mut done = done.into_inner().unwrap();
    done.sort();
    assert_eq!(done, vec![0, 1, 2, 3, 4]);
}

#[test]
fn entries_are_ranked_by_distance() {
    let distances = bits(&[4.0, 0.5, f64::NAN, 2.0, 0.5]);
    assert_eq!(
        scores(&knn_with_scores(&distances, 4)),
        vec![(1, -0.5), (4, -0.5), (3, -2.0), (0, -4.0)]
    );
    assert_eq!(knn_with_scores(&distances, 9).len(), 5);
    assert!(knn_with_scores(&distances, 0).is_empty());
}

#[test]
fn scaled_distances_rank_the_same_entries() {
    let clear = [4.0, 0.5, 3.25, 2.0, 0.5, 7.5];
    let scaled: Vec<f64> = clear.iter().map(|d| d * 8.0).collect();
    for k in 0..8 {
        let in_the_clear = knn_with_scores(&bits(&clear), k);
        let encrypted = knn_with_scores(&bits(&scaled), k);
        let ids = |hits: &[Hit]| hits.iter().map(|h| h.id).collect::<Vec<u32>>();
        assert_eq!(ids(&in_the_clear), ids(&encrypted));
        assert_eq!(ids(&encrypted)[..], [1, 4, 3, 2, 0, 5][..k.min(6)]);
    }
}

#[test]
fn batches_rank_each_column() {
    let rows = vec![bits(&[1.0, 9.0]), bits(&[3.0, 8.0]), bits(&[2.0, 7.0])];
    let found = knn_with_scores_batch(&rows, 2, 2);
    assert_eq!(scores(&found[0]), vec![(0, -1.0), (2, -2.0)]);
    assert_eq!(scores(&found[1]), vec![(2, -7.0), (1, -8.0)]);
    assert_eq!(found[0], knn_with_scores(&bits(&[1.0, 3.0, 2.0]), 2));
    assert!(knn_with_scores_batch(&[], 0, 2).is_empty());
    assert_eq!(knn_with_scores_batch(&[], 2, 2), vec![Vec::new(), Vec::new()]);
}

#[test]
fn uploads_need_vectors_and_a_perturbation_of_at_least_zero() {
    assert!(validate_upload(&config(), 1).is_ok());
    assert!(matches!(validate_upload(&config(), 0), Err(SapError::EmptyCluster)));
    let negative = SapConfig { beta: (-0.25f64).to_bits(), ..config() };
    match validate_upload(&negative, 1) {
        Err(SapError::InvalidBeta(beta)) => assert_eq!(f64::from_bits(beta), -0.25),
        _ => panic!("expected InvalidBeta"),
    }
    for beta in [0.0, -0.0, f64::INFINITY, f64::NAN, -f64::NAN] {
        let config = SapConfig { beta: beta.to_bits(), ..config() };
        assert!(validate_upload(&config, 1).is_ok(), "beta={beta}");
    }
}

#[test]
fn uploads_encrypt_every_row_and_keep_nothing() {
    let encrypt = |i: usize, nonce: [u8; 16]| (i, nonce);
    let (entries, hit) =
        SapScorer.upload_cluster(&config(), 3, false, encrypt, |_: usize| {}).unwrap();
    assert!(!hit);
    assert_eq!(entries[2], (2, derive_nonce(42, 2)));
    assert!(matches!(
        SapScorer.upload_cluster(&config(), 0, false, encrypt, |_: usize| {}),
        Err(SapError::EmptyCluster)
    ));
    let gpu = SapConfig { device: Device::Gpu, ..config() };
    assert!(matches!(
        SapScorer.upload_cluster(&gpu, 3, false, encrypt, |_: usize| {}),
        Err(SapError::GpuFeatureNotEnabled)
    ));
    assert_eq!(
        SapScorer.upload_cluster(&gpu, 3, true, encrypt, |_: usize| {}).unwrap().0.len(),
        3
    );
}

#[test]
fn queries_get_fresh_nonces() {
    let used = Mutex::new(Vec::new());
    for _ in 0..2 {
        let hits = SapScorer
            .score(
                2,
                2,
                |nonce: [u8; 16]| {
                    used.lock().unwrap().push(nonce);
                    bits(&[3.0, 1.0])
                },
                1,
            )
            .unwrap();
        assert_eq!(scores(&hits), vec![(1, -1.0)]);
    }
    let used = used.into_inner().unwrap();
    assert_ne!(used[0], used[1]);
    assert!(matches!(
        SapScorer.score(3, 2, |_: [u8; 16]| panic!("encrypted"), 1),
        Err(SapError::DimensionMismatch { query_dim: 3, cluster_dim: 2 })
    ));
}

#[test]
fn batches_of_queries_get_a_nonce_each() {
    let found = SapScorer
        .score_batch(
            &[2, 2],
            2,
            |nonces: Vec<[u8; 16]>| {
                assert_eq!(nonces.len(), 2);
                assert_ne!(nonces[0], nonces[1]);
                vec![bits(&[1.0, 4.0]), bits(&[2.0, 3.0])]
            },
            1,
        )
        .unwrap();
    assert_eq!(scores(&found[0]), vec![(0, -1.0)]);
    assert_eq!(scores(&found[1]), vec![(1, -3.0)]);
    assert!(matches!(
        SapScorer.score_batch(&[2, 5, 6], 2, |_: Vec<[u8; 16]>| Vec::new(), 1),
        Err(SapError::DimensionMismatch { query_dim: 5, cluster_dim: 2 })
    ));
}

#[test]
fn flat_costs() {
    assert_eq!(
        SapScorer.communication_cost(7, 3, 10),
        CommunicationCost {
            query_bytes: 24,
            response_bytes: 80,
            cluster_response_bytes: 80,
            setup_bytes: 0,
            pre_query_offline_up_bytes: 0,
            pre_query_offline_down_bytes: 0,
            effective_bytes_per_query: 84,
        }
    );
}

#[test]
fn device_rows_keep_their_order() {
    assert_eq!(search_width(3, 5), 3);
    assert_eq!(search_width(5, 3), 3);
    let hits = row_hits(&[4, 1], &[2.0f32.to_bits(), 1.0f32.to_bits()]);
    let found: Vec<(u32, f32)> = hits
        .iter()
        .map(|h| (h.id, f32::from_bits(bits_of_total_order_32(h.score))))
        .collect();
    assert_eq!(found, vec![(4, -2.0), (1, -1.0)]);
    assert!(matches!(
        gpu_error(ClusterStoreError::Upload(String::from("u"))),
        GpuError::Cuvs(m) if m == "u"
    ));
    assert!(matches!(
        gpu_error(ClusterStoreError::Sync(String::from("s"))),
        GpuError::Cuvs(m) if m == "s"
    ));
    assert!(matches!(
        gpu_error(ClusterStoreError::BudgetTooSmall { budget_bytes: 1, requested_bytes: 2 }),
        GpuError::BudgetTooSmall { budget_bytes: 1, requested_bytes: 2 }
    ));
}

#[test]
fn clustered_uploads_are_checked_in_order() {
    assert!(ivf::validate_upload(&ivf_config(), 4).is_ok());
    assert!(matches!(ivf::validate_upload(&ivf_config(), 0), Err(SapIvfError::EmptyCluster)));
    let negative = SapIvfConfig { beta: (-1.0f64).to_bits(), ..ivf_config() };
    assert!(matches!(
        ivf::validate_upload(&negative, 3),
        Err(SapIvfError::TooManyCentroids(4))
    ));
    match ivf::validate_upload(&negative, 4) {
        Err(SapIvfError::InvalidBeta(beta)) => assert_eq!(f64::from_bits(beta), -1.0),
        _ => panic!("expected InvalidBeta"),
    }
}

#[test]
fn clustered_rows_are_encrypted_by_their_numbers() {
    let clusters = vec![vec![7u32, 3], vec![], vec![5]];
    let encrypted = ivf::encrypt_clusters(&clusters, 42, |c: usize, i: usize, nonce: [u8; 16]| {
        (c, i, nonce)
    });
    assert_eq!(
        encrypted,
        vec![
            vec![(0, 0, derive_nonce(42, 7)), (0, 1, derive_nonce(42, 3))],
            vec![],
            vec![(2, 0, derive_nonce(42, 5))],
        ]
    );
}

#[test]
fn another_index_is_let_go_before_the_next_is_built() {
    let first = ivf::key_of(&ivf_config(), 20);
    let second = ivf::key_of(&SapIvfConfig { beta: 0.5f64.to_bits(), ..ivf_config() }, 20);
    assert!(first == ivf::key_of(&SapIvfConfig { nprobe: 3, ..ivf_config() }, 20));
    assert!(first != second);
    let mut scorer: SapIvfScorer<&str> = SapIvfScorer::new();
    assert!(scorer.recall(first).is_none());
    let (index, hit) =
        scorer.finish_upload(first, Obtained::Built("a"), Device::Cpu, false).unwrap();
    assert_eq!((*index, hit), ("a", false));
    assert_eq!(scorer.recall(first), Some(Arc::new("a")));
    let (index, hit) = scorer.finish_upload(first, Obtained::Kept, Device::Cpu, false).unwrap();
    assert_eq!((*index, hit), ("a", true));
    assert!(scorer.recall(second).is_none());
    assert!(scorer.recall(first).is_none());
    let (index, hit) =
        scorer.finish_upload(second, Obtained::Stored("b"), Device::Gpu, true).unwrap();
    assert_eq!((*index, hit), ("b", true));
    assert!(matches!(
        scorer.finish_upload(second, Obtained::Kept, Device::Gpu, false),
        Err(SapIvfError::GpuFeatureNotEnabled)
    ));
}

#[test]
fn an_index_is_not_found_under_another_key() {
    let config = ivf_config();
    let key = ivf::key_of(&config, 20);
    let other_scale = SapKey { s: 3.0f64.to_bits(), ..config.key };
    let mut prf_key = config.key.prf_key;
    prf_key[31] ^= 1;
    for other in [other_scale, SapKey { prf_key, ..config.key }] {
        let mut scorer: SapIvfScorer<&str> = SapIvfScorer::new();
        scorer.finish_upload(key, Obtained::Built("one"), Device::Cpu, false).unwrap();
        let again = ivf::key_of(&SapIvfConfig { key: other, ..ivf_config() }, 20);
        assert!(again != key);
        assert!(scorer.recall(again).is_none());
        let (index, hit) =
            scorer.finish_upload(again, Obtained::Built("two"), Device::Cpu, false).unwrap();
        assert_eq!((*index, hit), ("two", false));
    }
}

#[test]
fn queries_are_encrypted_with_fresh_nonces() {
    let once = SapScorer.encrypt_query(3, 3, |nonce| nonce).unwrap();
    let again = SapScorer.encrypt_query(3, 3, |nonce| nonce).unwrap();
    assert_ne!(once, again);
    assert!(matches!(
        SapScorer.encrypt_query(2, 3, |nonce| nonce),
        Err(SapError::DimensionMismatch { query_dim: 2, cluster_dim: 3 })
    ));
    let clustered = ivf::encrypt_query(3, 3, |nonce| (nonce, 5)).unwrap();
    assert_eq!(clustered.1, 5);
    assert_ne!(clustered.0, once);
    assert!(matches!(
        ivf::encrypt_query(4, 3, |nonce| nonce),
        Err(SapIvfError::DimensionMismatch { query_dim: 4, index_dim: 3 })
    ));
}

#[test]
fn clustered_parts_hold_the_key() {
    let parts = ivf::cache_parts(&ivf_config(), 20);
    assert_eq!(parts.len(), 8);
    assert_eq!(parts[0], b"sap-ivf-v2");
    assert_eq!(parts[1], 4u64.to_le_bytes());
    assert_eq!(parts[2], 7u64.to_le_bytes());
    assert_eq!(parts[3], 25u64.to_le_bytes());
    assert_eq!(parts[4], 20u64.to_le_bytes());
    assert_eq!(parts[5], 0.0f64.to_bits().to_le_bytes());
    assert_eq!(parts[6], 42u64.to_le_bytes());
    let mut key = 2.0f64.to_le_bytes().to_vec();
    key.extend_from_slice(&[3u8; 32]);
    assert_eq!(parts[7], key);
}

#[test]
fn clustered_queries_are_routed_in_the_clear_and_scored_encrypted() {
    let clusters = [vec![(0u32, 1.0f32), (1, 5.0)], vec![(2, 2.0)], vec![(3, 0.5)]];
    let sealed_with = Mutex::new(Vec::new());
    let run = |nprobe: usize, k: usize| {
        ivf::score(
            4,
            4,
            &[1.0f32.to_bits(), 2.0f32.to_bits(), 3.0f32.to_bits()],
            nprobe,
            |nonce: [u8; 16]| {
                sealed_with.lock().unwrap().push(nonce);
                0.5f32
            },
            |sealed: &f32, c: usize| {
                clusters[c].iter().map(|(id, x)| (*id, (x + sealed).to_bits())).collect()
            },
            k,
        )
        .unwrap()
    };
    let (hits, route) = run(2, 2);
    assert_eq!(route, vec![0, 1]);
    let found: Vec<(u32, f32)> = hits
        .iter()
        .map(|h| (h.id, f32::from_bits(bits_of_total_order_32(h.score))))
        .collect();
    assert_eq!(found, vec![(0, -1.5), (2, -2.5)]);
    let (hits, route) = run(9, 9);
    assert_eq!(route, vec![0, 1, 2]);
    assert_eq!(hits.iter().map(|h| h.id).collect::<Vec<u32>>(), vec![3, 0, 2, 1]);
    let sealed_with = sealed_with.into_inner().unwrap();
    assert_ne!(sealed_with[0], sealed_with[1]);

    assert!(matches!(
        ivf::score(3, 4, &[], 1, |_: [u8; 16]| (), |_: &(), _: usize| Vec::new(), 1),
        Err(SapIvfError::DimensionMismatch { query_dim: 3, index_dim: 4 })
    ));
    assert!(ivf::check_dimensions(&[4, 4], 4).is_ok());
    assert!(matches!(
        ivf::check_dimensions(&[4, 1, 2], 4),
        Err(SapIvfError::DimensionMismatch { query_dim: 1, index_dim: 4 })
    ));
}

#[test]
fn clustered_costs() {
    // a skewed corpus of four clusters
    let sizes = [20usize, 8, 4, 3];
    let estimate = ivf::communication_cost(&sizes, 4, 1, 10);
    assert_eq!(estimate.query_bytes, 8);
    assert_eq!(estimate.cluster_response_bytes, 8 * 8);
    assert_eq!(estimate.response_bytes, 4 * 8 * 8);
    assert_eq!(estimate.effective_bytes_per_query, 4 * 8 * 4);
    let realised = ivf::realise_cost(estimate, &sizes, 1, 40);
    assert_eq!(realised.response_bytes, 35 * 8);
    assert_eq!(realised.effective_bytes_per_query, 35 * 4);
    assert_eq!(ivf::realise_cost(estimate, &[20], 1, 10).response_bytes, 80);
}
