use private_scoring::emvp::crypto::{compute_products, generate_d};
use private_scoring::emvp::ivf::{
    any_empty, cache_parts, communication_cost, decode_cluster, decode_probed, derive_r_seed,
    encrypt_clusters, encrypt_numbered_cluster, products_in_cluster, products_of_probed,
    realise_cost, score, score_batch, score_masked, score_probed, score_with_sizes, sizes_of,
    validate_upload, EmvpIvfConfig, EmvpIvfError, EmvpIvfHandle, EmvpIvfScorer, EncryptedCluster,
};
use private_scoring::emvp::ivf_cache::{
    load_emvp_ivf_cache, read_ciphertext, save_emvp_ivf_cache, write_front, write_record,
    HEADER_BYTES,
};
use private_scoring::emvp::params::{FIELD_BYTES, K, N, Q, S};
use private_scoring::emvp::scorer::encode;
use private_scoring::hits::{rank, Hit};
use private_scoring::ivf::{IvfIndex, Member};
use private_scoring::scoring::{Device, Obtained};
use rand::rngs::ChaCha20Rng;
use rand::{RngExt, SeedableRng};

fn config() -> EmvpIvfConfig {
    EmvpIvfConfig {
        n_centroids: 4,
        nprobe: 2,
        train_seed: 42,
        max_iter: 25,
        key_seed: [7u8; 32],
        upload_seed: 42,
        device: Device::Cpu,
        vram_budget_bytes: None,
    }
}

fn vector(id: u32, dim: usize) -> Vec<i64> {
    let mut rng = ChaCha20Rng::seed_from_u64(id as u64);
    (0..dim).map(|_| rng.random_range(-(Q as i64)..=Q as i64)).collect()
}

/// Encrypted clusters of given sizes; vectors are numbered through.
struct Fixture {
    rows: Vec<Vec<Vec<i64>>>,
    membership: Vec<Vec<u32>>,
    encrypted: Vec<(Vec<u64>, [u8; 32])>,
    d_mat: Vec<u64>,
    dim: usize,
}

impl Fixture {
    fn new(sizes: &[usize], dim: usize) -> Self {
        let mut next = 0u32;
        let mut rows = Vec::new();
        let mut membership = Vec::new();
        for &size in sizes {
            let ids: Vec<u32> = (next..next + size as u32).collect();
            next += size as u32;
            rows.push(ids.iter().map(|&id| vector(id, dim)).collect());
            membership.push(ids);
        }
        let d_mat = generate_d(&[7u8; 32]);
        let encrypted = encrypt_clusters(&d_mat, 42, &rows, |_| {});
        Fixture { rows, membership, encrypted, d_mat, dim }
    }

    fn clusters(&self) -> Vec<EncryptedCluster<'_>> {
        self.encrypted
            .iter()
            .zip(&self.rows)
            .map(|((m_hat, r_seed), rows)| EncryptedCluster {
                m_hat,
                r_seed: *r_seed,
                m: rows.len(),
            })
            .collect()
    }

    fn handle<'a>(
        &'a self,
        clusters: &'a [EncryptedCluster<'a>],
        nprobe: usize,
    ) -> EmvpIvfHandle<'a> {
        EmvpIvfHandle {
            clusters,
            membership: &self.membership,
            d_mat: &self.d_mat,
            nprobe,
            dim: self.dim,
        }
    }

    /// The best hits of some clusters, in the clear.
    fn expected(&self, probes: &[usize], query: &[i64], k: usize) -> Vec<Hit> {
        let mut hits: Vec<Hit> = probes
            .iter()
            .flat_map(|&c| self.membership[c].iter().zip(&self.rows[c]))
            .map(|(&id, v)| Hit {
                id,
                score: v.iter().zip(query).map(|(a, b)| a * b).sum(),
            })
            .collect();
        hits.sort_by_key(|h| (std::cmp::Reverse(h.score), h.id));
        hits.truncate(k);
        hits
    }
}

fn bits(distances: &[f32]) -> Vec<u32> {
    distances.iter().map(|d| d.to_bits()).collect()
}

#[test]
fn probed_clusters_are_scored_in_the_clear() {
    let fixture = Fixture::new(&[3, 1, 4], 8);
    let clusters = fixture.clusters();
    let handle = fixture.handle(&clusters, 2);
    let query = vector(900, 8);
    let distances = bits(&[3.0, 1.0, 2.0]);
    let expected = fixture.expected(&[1, 2], &query, 4);
    assert_eq!(score(&handle, &query, &distances, 4).unwrap(), expected);
    assert_eq!(score_masked(&handle, &query, &distances, &vec![11u64; K], 4).unwrap(), expected);
    let (hits, sizes) = score_with_sizes(&handle, &query, &distances, 4).unwrap();
    assert_eq!(hits, expected);
    assert_eq!(sizes, vec![1, 4]);
    assert_eq!(sizes_of(&handle, &[2, 0]), vec![4, 3]);

    let q_hat = encode(&fixture.d_mat, &query, &vec![5u64; K]);
    assert_eq!(score_probed(&handle, &[1, 2], &q_hat, 4), expected);
}

#[test]
fn the_steps_of_a_query_make_up_its_score() {
    let fixture = Fixture::new(&[3, 0, 4], 8);
    let clusters = fixture.clusters();
    let handle = fixture.handle(&clusters, 3);
    let query = vector(902, 8);
    let q_hat = encode(&fixture.d_mat, &query, &vec![9u64; K]);
    let products = products_of_probed(&handle, &[2, 1, 0], &q_hat);
    assert_eq!(products.len(), 3);
    assert_eq!(products[0], compute_products(clusters[2].m_hat, 4, &q_hat));
    assert!(products[1].is_empty());
    assert_eq!(products[2], products_in_cluster(&handle, 0, &q_hat));

    let found = decode_probed(&handle, &[2, 1, 0], &q_hat, &products);
    let members: Vec<u32> = found.iter().map(|h| h.id).collect();
    assert_eq!(members, [fixture.membership[2].clone(), fixture.membership[0].clone()].concat());
    assert_eq!(found[..4], decode_cluster(&handle, 2, &q_hat, &products[0]));
    assert_eq!(rank(&found, 5), fixture.expected(&[2, 1, 0], &query, 5));
    assert_eq!(rank(&found, 5), score_probed(&handle, &[2, 1, 0], &q_hat, 5));
}

#[test]
fn a_full_probe_ranks_all_vectors() {
    let fixture = Fixture::new(&[3, 1, 4], 8);
    let clusters = fixture.clusters();
    let handle = fixture.handle(&clusters, 3);
    let query = vector(901, 8);
    let hits = score(&handle, &query, &bits(&[1.0, 1.0, 0.5]), 20).unwrap();
    assert_eq!(hits, fixture.expected(&[0, 1, 2], &query, 20));
    assert_eq!(hits.len(), 8);
}

#[test]
fn batches_of_probes_score_like_single_queries() {
    let fixture = Fixture::new(&[3, 1, 4], 8);
    let clusters = fixture.clusters();
    let handle = fixture.handle(&clusters, 2);
    let queries: Vec<Vec<i64>> = (0..5).map(|i| vector(910 + i, 8)).collect();
    let distances: Vec<Vec<u32>> = [
        [1.0f32, 2.0, 3.0],
        [3.0, 2.0, 1.0],
        [2.0, 1.0, 3.0],
        [1.0, 3.0, 2.0],
        [0.0, 0.0, 0.0],
    ]
    .iter()
    .map(|d| bits(d))
    .collect();
    let single: Vec<Vec<Hit>> = queries
        .iter()
        .zip(&distances)
        .map(|(q, d)| score(&handle, q, d, 3).unwrap())
        .collect();
    assert_eq!(score_batch(&handle, &queries, &distances, 3).unwrap(), single);
    assert!(score_batch(&handle, &[], &[], 3).unwrap().is_empty());
}

#[test]
fn queries_of_another_dimension_are_refused() {
    let fixture = Fixture::new(&[1], 8);
    let clusters = fixture.clusters();
    let handle = fixture.handle(&clusters, 1);
    let distances = bits(&[1.0]);
    assert!(matches!(
        score(&handle, &[1; 7], &distances, 1),
        Err(EmvpIvfError::DimensionMismatch { query_dim: 7, index_dim: 8 })
    ));
    assert!(matches!(
        score_batch(
            &handle,
            &[vec![0; 8], vec![0; 9]],
            &[distances.clone(), distances.clone()],
            1
        ),
        Err(EmvpIvfError::DimensionMismatch { query_dim: 9, index_dim: 8 })
    ));
}

#[test]
fn uploads_are_checked() {
    assert!(validate_upload(&config(), 4, 1024).is_ok());
    assert!(matches!(validate_upload(&config(), 0, 8), Err(EmvpIvfError::EmptyCorpus)));
    assert!(matches!(validate_upload(&config(), 3, 8), Err(EmvpIvfError::TooManyCentroids(4))));
    let none = EmvpIvfConfig { nprobe: 0, ..config() };
    assert!(matches!(
        validate_upload(&none, 9, 8),
        Err(EmvpIvfError::InvalidNprobe { nprobe: 0, n_centroids: 4 })
    ));
    let many = EmvpIvfConfig { nprobe: 5, ..config() };
    assert!(matches!(
        validate_upload(&many, 9, 8),
        Err(EmvpIvfError::InvalidNprobe { nprobe: 5, n_centroids: 4 })
    ));
    assert!(matches!(
        validate_upload(&config(), 9, 1025),
        Err(EmvpIvfError::DimensionTooLarge { actual: 1025, ell0: 1024 })
    ));
}

#[test]
fn seeds_of_clusters_differ() {
    let seed = derive_r_seed(42, 0);
    assert_eq!(seed, derive_r_seed(42, 0));
    assert_ne!(seed, derive_r_seed(42, 1));
    assert_ne!(seed, derive_r_seed(43, 0));
    let mut from = [0u8; 32];
    from[..8].copy_from_slice(&42u64.to_le_bytes());
    from[8..16].copy_from_slice(&3u64.to_le_bytes());
    let mut stream = ChaCha20Rng::from_seed(from);
    let expected: Vec<u8> = (0..32).map(|_| stream.random()).collect();
    assert_eq!(derive_r_seed(42, 3).to_vec(), expected);
}

#[test]
fn clusters_without_vectors_encrypt_to_nothing() {
    let d_mat = generate_d(&[7u8; 32]);
    let seen = std::cell::RefCell::new(Vec::new());
    let encrypted =
        encrypt_clusters(&d_mat, 42, &[vec![], vec![vec![1, 2]]], |c| seen.borrow_mut().push(c));
    assert_eq!(*seen.borrow(), vec![0, 1]);
    assert!(encrypted[0].0.is_empty());
    assert_eq!(encrypted[1].0.len(), N);
    assert_eq!(encrypted[1], encrypt_numbered_cluster(&d_mat, 42, 1, &[vec![1, 2]]));
    assert!(any_empty(&[3, 0, 1]));
    assert!(!any_empty(&[3, 1]));
}

#[test]
fn costs_are_estimated_by_means_and_realised_by_sizes() {
    let per_vector = (S * FIELD_BYTES) as u64;
    let row = (N * FIELD_BYTES) as u64;
    let estimate = communication_cost(&[80, 20, 0, 0], 2, 25 * per_vector, 25);
    assert_eq!(estimate.query_bytes, row);
    assert_eq!(estimate.cluster_response_bytes, 25 * per_vector);
    assert_eq!(estimate.response_bytes, 2 * 25 * per_vector);
    assert_eq!(estimate.setup_bytes, 100 * row);
    assert_eq!(estimate.effective_bytes_per_query, 50 * row);
    assert_eq!(estimate.pre_query_offline_up_bytes, 0);
    assert_eq!(estimate.pre_query_offline_down_bytes, 0);

    let a = realise_cost(estimate, &[80]);
    let b = realise_cost(estimate, &[20]);
    assert_eq!(a.response_bytes, 80 * per_vector);
    assert_eq!(b.response_bytes, 20 * per_vector);
    assert_eq!(realise_cost(estimate, &[80, 20]).response_bytes, 100 * per_vector);
    assert_eq!(realise_cost(estimate, &[80, 20]).cluster_response_bytes, 50 * per_vector);
    assert_eq!(realise_cost(estimate, &[80, 20]).effective_bytes_per_query, 100 * row);
    assert_eq!(realise_cost(estimate, &[]).cluster_response_bytes, 0);

    let uniform = communication_cost(&[5, 5, 5], 2, 5 * per_vector, 5);
    assert_eq!(realise_cost(uniform, &[5, 5]), uniform);
}

#[test]
fn states_are_kept_unless_a_cluster_is_empty() {
    let mut scorer: EmvpIvfScorer<&str> = EmvpIvfScorer::new();
    assert!(scorer.recall(b"a").is_none());
    assert!(matches!(
        scorer.finish_upload(b"a", Obtained::Built("x"), &[1, 0], Device::Cpu, false),
        Err(EmvpIvfError::EmptyCluster)
    ));
    assert!(scorer.recall(b"a").is_none());
    let (state, hit) =
        scorer.finish_upload(b"a", Obtained::Built("x"), &[1, 2], Device::Cpu, false).unwrap();
    assert_eq!((*state, hit), ("x", false));
    assert_eq!(*scorer.recall(b"a").unwrap(), "x");
    let (state, hit) =
        scorer.finish_upload(b"a", Obtained::Kept, &[1, 2], Device::Cpu, false).unwrap();
    assert_eq!((*state, hit), ("x", true));
    // an empty cluster in what was stored is let pass
    let (state, hit) =
        scorer.finish_upload(b"b", Obtained::Stored("y"), &[0], Device::Cpu, false).unwrap();
    assert_eq!((*state, hit), ("y", true));
    assert!(matches!(
        scorer.finish_upload(b"c", Obtained::Built("z"), &[1], Device::Gpu, false),
        Err(EmvpIvfError::GpuFeatureNotEnabled)
    ));
    assert_eq!(*scorer.recall(b"c").unwrap(), "z");
}

#[test]
fn parts_of_an_index_name_its_settings() {
    let parts = cache_parts(&config(), 20);
    assert_eq!(parts.len(), 7);
    assert_eq!(parts[0], b"emvp-ivf");
    assert_eq!(parts[1], 4u64.to_le_bytes());
    assert_eq!(parts[2], 42u64.to_le_bytes());
    assert_eq!(parts[3], 25u64.to_le_bytes());
    assert_eq!(parts[4], 20u64.to_le_bytes());
    assert_eq!(parts[5], 42u64.to_le_bytes());
    assert_eq!(parts[6], [7u8; 32]);
    assert_eq!(cache_parts(&EmvpIvfConfig { nprobe: 4, ..config() }, 20), parts);
    assert_ne!(cache_parts(&EmvpIvfConfig { key_seed: [8u8; 32], ..config() }, 20), parts);
}

#[test]
fn stored_clusters_are_read_back() {
    let fixture = Fixture::new(&[2, 1], 3);
    let clusters = fixture.clusters();
    let member = |id: u32| Member { id, components: vec![id, 7, 0x3F80_0000] };
    let index = IvfIndex {
        centroids: vec![vec![1, 2, 3], vec![4, 5, 6]],
        clusters: vec![vec![member(0), member(1)], vec![member(2)]],
    };
    let body = save_emvp_ivf_cache(&index, 3, &clusters, &fixture.d_mat);
    let mut streamed = write_front(&index, 3);
    for cluster in &clusters {
        streamed.extend_from_slice(&write_record(cluster));
    }
    assert_eq!(body[..streamed.len()], streamed[..]);

    let mut file = vec![0u8; HEADER_BYTES];
    file.extend_from_slice(&body);
    let loaded = load_emvp_ivf_cache(&file).expect("loaded");
    assert_eq!(loaded.dim, 3);
    assert_eq!(loaded.d_mat, fixture.d_mat);
    assert_eq!(loaded.index.centroids, index.centroids);
    assert_eq!(loaded.index.clusters[0][1].id, 1);
    assert_eq!(loaded.index.clusters[1][0].components, vec![2, 7, 0x3F80_0000]);
    for (place, cluster) in loaded.clusters.iter().zip(&clusters) {
        assert_eq!(place.m, cluster.m);
        assert_eq!(place.r_seed, cluster.r_seed);
        assert_eq!(place.len_u64s, cluster.m * N);
        assert_eq!(place.byte_offset % 8, 0);
        assert_eq!(read_ciphertext(&file, place), cluster.m_hat);
    }

    for cut in [0usize, 19, 60, file.len() / 2, file.len() - 1] {
        assert!(load_emvp_ivf_cache(&file[..cut]).is_none(), "cut at {cut}");
    }
}
