use private_scoring::emvp::crypto::{
    cluster_response_bytes, compute_products, compute_products_avx512, compute_products_batch,
    decode_scores, encode_query, encrypt_cluster, generate_d, setup_bytes,
};
use private_scoring::emvp::field::{decode_field, fp_add, fp_mul, fp_neg, fp_reduce, quantize};
use private_scoring::emvp::params::{EmvpParams, ELL0, FIELD_BYTES, K, N, P, Q, S};
use private_scoring::emvp::scorer::{
    cache_parts, communication_cost, decode_best, encode, encode_masked, load_emvp_cache, products,
    save_emvp_cache, score, score_batch, score_masked, top_k_from_scores, EmvpConfig, EmvpError, EmvpHandle, EmvpScorer,
};
use private_scoring::hits::Hit;
use private_scoring::scoring::Device;
use rand::rngs::ChaCha20Rng;
use rand::{RngExt, SeedableRng};

/// Components as fixed-point numbers.
fn fixed(v: &[f32]) -> Vec<i64> {
    v.iter().map(|&x| (x as f64 * Q as f64).round() as i64).collect()
}

fn random_vectors(n: usize, d: usize, seed: u64) -> Vec<Vec<i64>> {
    let mut rng = ChaCha20Rng::seed_from_u64(seed);
    (0..n)
        .map(|_| {
            let v: Vec<f32> = (0..d).map(|_| rng.random_range(-1.0_f32..1.0_f32)).collect();
            let norm = v.iter().map(|x| x * x).sum::<f32>().sqrt().max(f32::EPSILON);
            fixed(&v.into_iter().map(|x| x / norm).collect::<Vec<f32>>())
        })
        .collect()
}

fn config() -> EmvpConfig {
    EmvpConfig {
        key_seed: [42u8; 32],
        device: Device::Cpu,
        vram_budget_bytes: None,
    }
}

fn upload(vectors: &[Vec<i64>]) -> EmvpHandle {
    let (handle, hit) = EmvpScorer::new()
        .upload_cluster(&config(), vectors, b"print", None, false, |_| {})
        .expect("upload");
    assert!(!hit);
    handle
}

fn inner_product(a: &[i64], b: &[i64]) -> i64 {
    a.iter().zip(b).map(|(x, y)| x * y).sum()
}

#[test]
fn fp_add_wraps() {
    assert_eq!(fp_add(P - 1, 1), 0);
    assert_eq!(fp_add(P - 1, P - 1), P - 2);
}

#[test]
fn compute_products_avx512_matches_scalar() {
    let params = EmvpParams::sec128();
    let n = params.n;
    let m = 64usize;

    let mut rng = ChaCha20Rng::seed_from_u64(0xC0DE_BEEF ^ 0xE);
    let m_hat: Vec<u64> = (0..m * n).map(|_| rng.random_range(0..P)).collect();
    let q_hat: Vec<u64> = (0..n).map(|_| rng.random_range(0..P)).collect();

    let scalar = compute_products(&m_hat, m, &q_hat);
    let simd = compute_products_avx512(&m_hat, m, &q_hat);

    assert_eq!(
        simd, scalar,
        "compute_products_avx512 vs scalar drift on EMVP SEC128 m={m}"
    );
}

#[test]
fn products_of_blocks_are_sums_of_products() {
    let m = 5usize;
    let mut rng = ChaCha20Rng::seed_from_u64(77);
    let m_hat: Vec<u64> = (0..m * N).map(|_| rng.random_range(0..P)).collect();
    let q_hats: Vec<Vec<u64>> =
        (0..3).map(|_| (0..N).map(|_| rng.random_range(0..P)).collect()).collect();
    let expected = |q_hat: &[u64]| -> Vec<u64> {
        let b = N / S;
        let mut out = vec![0u64; S * m];
        for si in 0..S {
            for i in 0..m {
                let mut sum: u128 = 0;
                for j in 0..b {
                    let p = si * b + j;
                    sum = (sum + m_hat[i * N + p] as u128 * q_hat[p] as u128) % P as u128;
                }
                out[si * m + i] = sum as u64;
            }
        }
        out
    };
    let refs: Vec<&[u64]> = q_hats.iter().map(|q| q.as_slice()).collect();
    let batch = compute_products_batch(&m_hat, m, &refs);
    for (q, q_hat) in q_hats.iter().enumerate() {
        assert_eq!(compute_products(&m_hat, m, q_hat), expected(q_hat));
        assert_eq!(batch[q], expected(q_hat));
    }
}

#[test]
fn fp_mul_identity() {
    assert_eq!(fp_mul(1, 42), 42);
    assert_eq!(fp_mul(P - 1, P - 1), 1);
}

#[test]
fn field_edges() {
    assert_eq!(fp_reduce(0), 0);
    assert_eq!(fp_reduce(P as u128), 0);
    assert_eq!(fp_reduce((P as u128 - 1) * (P as u128 - 1)), 1);
    assert_eq!(fp_neg(0), 0);
    assert_eq!(fp_neg(1), P - 1);
    assert_eq!(quantize(-1), P - 1);
    assert_eq!(decode_field(P - 1), -1);
    assert_eq!(decode_field(P / 2), (P / 2) as i64);
    assert_eq!(decode_field(P / 2 + 1), -((P / 2) as i64));
}

#[test]
fn quantize_roundtrip() {
    let v = 0.5f32;
    let q = quantize((v * Q as f32).round() as i64);
    assert_eq!(q, (v * Q as f32).round() as u64);
}

#[test]
fn encode_decode_single_vector() {
    let params = EmvpParams::sec128();
    let dim = params.ell0;

    let v: Vec<f32> = (0..dim).map(|i| (i as f32 / dim as f32) * 0.01).collect();
    let q: Vec<f64> = (0..dim)
        .map(|i| ((dim - i) as f64 / dim as f64) * 0.01)
        .collect();

    let key_seed = [0u8; 32];
    let r_seed = [1u8; 32];
    let d_mat = generate_d(&key_seed);
    let m_hat = encrypt_cluster(&d_mat, &r_seed, &[fixed(&v)], |_| {});

    let u = vec![0u64; params.k];
    let q_fixed: Vec<i64> = q.iter().map(|&x| (x as f32 as f64 * Q as f64).round() as i64).collect();
    let q_hat = encode_query(&d_mat, &q_fixed, &u);
    let partials = compute_products(&m_hat, 1, &q_hat);
    let scores = decode_scores(1, &r_seed, &q_hat, &partials);

    let ip_f32: f32 = v.iter().zip(&q).map(|(&a, &b)| a * b as f32).sum();
    let decoded = (scores[0] as f64 / (Q as f64 * Q as f64)) as f32;

    let rel_err = ((decoded - ip_f32) / ip_f32.abs().max(1e-9)).abs();
    assert!(
        rel_err < 1e-3,
        "decoded {decoded} vs ip_f32 {ip_f32}, rel_err {rel_err}"
    );
}

#[test]
fn the_matrix_d_starts_with_units() {
    let d = generate_d(&[7u8; 32]);
    assert_eq!(d.len(), ELL0 * N);
    for i in [0usize, 1, 500, 1023] {
        for j in [0usize, 1, 500, 1023] {
            assert_eq!(d[i * N + j], if i == j { 1 } else { 0 });
        }
    }
    assert!(d.iter().all(|&x| x < P));
    assert_ne!(d, generate_d(&[8u8; 32]));
}

#[test]
fn rows_are_encrypted_under_masks_of_their_own() {
    let d = generate_d(&[7u8; 32]);
    let v = fixed(&[0.5, -0.25]);
    let rows = std::sync::Mutex::new(Vec::new());
    let m_hat = encrypt_cluster(&d, &[9u8; 32], &[v.clone(), v], |i| rows.lock().unwrap().push(i));
    assert_eq!(m_hat.len(), 2 * N);
    assert_ne!(m_hat[..N], m_hat[N..]);
    let mut rows = rows.into_inner().unwrap();
    rows.sort();
    assert_eq!(rows, vec![0, 1]);
}

#[test]
fn scores_are_the_inner_products_under_any_mask() {
    let vectors = random_vectors(10, 32, 1);
    let handle = upload(&vectors);
    assert_eq!(handle.m(), 10);
    assert_eq!(handle.dim(), 32);
    assert_eq!(handle.m_hat().len(), 10 * N);
    let query = random_vectors(1, 32, 99).remove(0);
    let mut expected: Vec<Hit> = vectors
        .iter()
        .enumerate()
        .map(|(i, v)| Hit { id: i as u32, score: inner_product(v, &query) })
        .collect();
    expected.sort_by(|a, b| b.score.partial_cmp(&a.score).unwrap());
    expected.truncate(3);
    assert_eq!(score(&handle, &query, 3).unwrap(), expected);
    for seed in 0..3u64 {
        let mut rng = ChaCha20Rng::seed_from_u64(seed);
        let draws: Vec<u64> = (0..K).map(|_| rng.random()).collect();
        assert_eq!(score_masked(&handle, &query, &draws, 3).unwrap(), expected);
    }
}

#[test]
fn the_steps_of_scoring_make_up_the_score() {
    let handle = upload(&random_vectors(7, 32, 5));
    let query = random_vectors(1, 32, 98).remove(0);
    let draws = vec![3u64; K];
    let q_hat = encode_masked(&handle, &query, &draws).unwrap();
    assert_eq!(q_hat, encode(&generate_d(&[42u8; 32]), &query, &draws));
    let partials = products(&handle, &q_hat);
    assert_eq!(partials, compute_products(handle.m_hat(), 7, &q_hat));
    let best = decode_best(&handle, &q_hat, &partials, 4);
    assert_eq!(best, score_masked(&handle, &query, &draws, 4).unwrap());
    assert_eq!(best, score(&handle, &query, 4).unwrap());
    assert!(matches!(
        encode_masked(&handle, &vec![0i64; ELL0 + 1], &draws),
        Err(EmvpError::DimensionTooLarge { actual, ell0 }) if actual == ELL0 + 1 && ell0 == ELL0
    ));
}

#[test]
fn masks_change_what_is_sent() {
    let d = generate_d(&[42u8; 32]);
    let query = fixed(&[0.5, 0.25]);
    let plain = encode(&d, &query, &vec![0u64; K]);
    assert_eq!(plain[0], (Q / 2));
    assert_ne!(plain, encode(&d, &query, &vec![1u64; K]));
}

#[test]
fn hits_are_capped_at_the_number_of_vectors() {
    let handle = upload(&random_vectors(3, 16, 2));
    let query = random_vectors(1, 16, 100).remove(0);
    assert_eq!(score(&handle, &query, 10).unwrap().len(), 3);
}

#[test]
fn costs_follow_the_parameters() {
    let m = 5usize;
    let handle = upload(&random_vectors(m, 8, 3));
    let cost = communication_cost(&handle);
    assert_eq!(cost.query_bytes, (1292 * 8) as u64);
    assert_eq!(cost.cluster_response_bytes, (m * 76 * 8) as u64);
    assert_eq!(cost.response_bytes, cost.cluster_response_bytes);
    assert_eq!(cost.setup_bytes, (m * 1292 * 8) as u64);
    assert_eq!(cost.pre_query_offline_up_bytes, 0);
    assert_eq!(cost.pre_query_offline_down_bytes, 0);
    assert_eq!(cost.effective_bytes_per_query, (m * 1292 * 8) as u64);
    assert_eq!(cluster_response_bytes(m), (m * S * FIELD_BYTES) as u64);
    assert_eq!(setup_bytes(m), (m * N * FIELD_BYTES) as u64);
}

#[test]
fn batches_score_like_single_queries() {
    let vectors = random_vectors(12, 64, 47);
    let handle = upload(&vectors);
    let queries = random_vectors(8, 64, 48);
    let single: Vec<Vec<Hit>> = queries.iter().map(|q| score(&handle, q, 5).unwrap()).collect();
    for b in [0usize, 1, 8] {
        assert_eq!(score_batch(&handle, &queries[..b], 5).unwrap(), single[..b]);
    }
}

#[test]
fn long_vectors_and_queries_are_refused() {
    let mut scorer = EmvpScorer::new();
    let long = vec![vec![0i64; 1025]];
    assert!(matches!(
        scorer.upload_cluster(&config(), &long, b"p", None, false, |_| {}),
        Err(EmvpError::DimensionTooLarge { actual: 1025, ell0: 1024 })
    ));
    let handle = upload(&random_vectors(2, 4, 5));
    assert!(matches!(
        score(&handle, &long[0], 1),
        Err(EmvpError::DimensionTooLarge { actual: 1025, ell0: 1024 })
    ));
    assert!(matches!(
        score_batch(&handle, &[vec![0; 4], vec![0; 1026], long[0].clone()], 1),
        Err(EmvpError::DimensionTooLarge { actual: 1026, ell0: 1024 })
    ));
}

#[test]
fn nothing_can_be_scored_without_vectors() {
    let handle = upload(&[]);
    assert!(matches!(score(&handle, &[1, 2], 1), Err(EmvpError::SpawnPanic)));
}

#[test]
fn a_graphics_card_must_be_available() {
    let mut scorer = EmvpScorer::new();
    let config = EmvpConfig { device: Device::Gpu, ..config() };
    let vectors = random_vectors(2, 4, 5);
    assert!(matches!(
        scorer.upload_cluster(&config, &vectors, b"p", None, false, |_| {}),
        Err(EmvpError::GpuFeatureNotEnabled)
    ));
    // the ciphertext is kept all the same
    assert!(scorer.keeps(2, 4, b"p"));
    let (_, hit) = scorer.upload_cluster(&config, &vectors, b"p", None, true, |_| {}).unwrap();
    assert!(hit);
}

#[test]
fn uploads_are_kept_and_stored() {
    let vectors = random_vectors(8, 16, 5);
    let query = random_vectors(1, 16, 300).remove(0);
    let mut scorer = EmvpScorer::new();
    let (first, hit) =
        scorer.upload_cluster(&config(), &vectors, b"print", None, false, |_| {}).unwrap();
    assert!(!hit);
    let (again, hit) = scorer
        .upload_cluster(&config(), &vectors, b"print", None, false, |_| panic!("encrypted again"))
        .unwrap();
    assert!(hit);
    assert_eq!(first.m_hat(), again.m_hat());

    let stored = save_emvp_cache(first.m_hat(), first.r_seed(), N);
    assert_eq!(stored.len(), 48 + 8 * 8 * N);
    let (loaded, seed) = load_emvp_cache(&stored, N).expect("stored");
    assert_eq!(loaded, first.m_hat());
    assert_eq!(&seed, first.r_seed());

    let mut other = EmvpScorer::new();
    let (handle, hit) = other
        .upload_cluster(&config(), &vectors, b"print", Some(&stored), false, |_| {
            panic!("encrypted again")
        })
        .unwrap();
    assert!(hit);
    assert_eq!(score(&handle, &query, 3).unwrap(), score(&first, &query, 3).unwrap());
}

#[test]
fn stored_ciphertexts_of_another_shape_are_not_used() {
    let vectors = random_vectors(2, 16, 5);
    let handle = upload(&vectors);
    let stored = save_emvp_cache(handle.m_hat(), handle.r_seed(), N);
    assert!(load_emvp_cache(&stored, N - 1).is_none());
    assert!(load_emvp_cache(&stored[..stored.len() - 1], N).is_none());
    assert!(load_emvp_cache(&stored[..40], N).is_none());
    let mut scorer = EmvpScorer::new();
    let three = random_vectors(3, 16, 6);
    let (_, hit) =
        scorer.upload_cluster(&config(), &three, b"print", Some(&stored), false, |_| {}).unwrap();
    assert!(!hit);
}

#[test]
fn masks_are_seeded_afresh() {
    let vectors = random_vectors(1, 4, 5);
    assert_ne!(upload(&vectors).r_seed(), upload(&vectors).r_seed());
}

#[test]
fn parts_name_the_shape_and_the_seed() {
    let parts = cache_parts(3, 258, &[1u8; 32]);
    assert_eq!(
        parts,
        vec![
            b"emvp-flat".to_vec(),
            vec![3, 0, 0, 0, 0, 0, 0, 0],
            vec![2, 1, 0, 0, 0, 0, 0, 0],
            vec![1u8; 32],
        ]
    );
}

#[test]
fn ties_are_ranked_by_number() {
    assert_eq!(
        top_k_from_scores(&[5, 9, 5, -1], 3),
        vec![
            Hit { id: 1, score: 9 },
            Hit { id: 0, score: 5 },
            Hit { id: 2, score: 5 },
        ]
    );
    assert!(top_k_from_scores(&[], 3).is_empty());
}
