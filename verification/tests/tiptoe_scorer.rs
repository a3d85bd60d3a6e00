use std::sync::Arc;

use private_scoring::hits::Hit;
use private_scoring::ivf::{IvfIndex, Member};
use private_scoring::tiptoe::bfv::tiptoe_text_params;
use private_scoring::tiptoe::cluster::ScaledVector;
use private_scoring::tiptoe::compress::CompressError;
use private_scoring::tiptoe::encoding::EncodingError;
use private_scoring::tiptoe::lwe::{secret_from_seed, Params, SecretKey};
use private_scoring::tiptoe::ranking::{
    decode_hits, decompress, prepare_query, score_query, TiptoeError, TiptoeHandle,
};
use private_scoring::tiptoe::scorer::{
    bfv_fingerprint_bytes, build_parts, cache_parts, communication_cost, derive_pir_seed,
    load_tiptoe_cache, lwe_fingerprint_bytes, restore_parts, save_tiptoe_cache, validate_upload,
    TiptoeConfig, TiptoeScorer, CACHE_SCHEMA_VERSION,
};
use private_scoring::tiptoe::simplepir::PirSetup;

/// Parameters with a short secret, so that the token is small.
fn short_params() -> Params {
    Params { n: 24, ..Params::tiptoe_text() }
}

/// Two clusters of slots.
fn clusters() -> Vec<Vec<ScaledVector>> {
    let vector = |id: u32, slots: [i64; 3]| ScaledVector {
        id,
        components: slots.iter().map(|&x| Some(x)).collect(),
    };
    vec![
        vec![vector(10, [15, -3, 2]), vector(11, [-15, 7, 1]), vector(12, [0, 0, 9])],
        vec![vector(20, [4, 4, 4])],
    ]
}

fn handle() -> TiptoeHandle {
    let bfv = tiptoe_text_params().expect("parameters");
    let parts = build_parts(&clusters(), 3, 4, 7, &short_params(), &bfv, |_: usize| {})
        .expect("parts");
    TiptoeHandle {
        encoded: Arc::new(parts.encoded),
        pir_setup: Arc::new(parts.pir_setup),
        compressed_hint: Arc::new(parts.compressed_hint),
        lwe_params: short_params(),
        bfv_params: bfv,
        quantisation_bits: 4,
        dim: 3,
    }
}

fn query(slots: [i64; 3]) -> Vec<Option<i64>> {
    slots.iter().map(|&x| Some(x)).collect()
}

fn bits(distances: &[f32]) -> Vec<u32> {
    distances.iter().map(|d| d.to_bits()).collect()
}

#[test]
fn private_scores_are_inner_products() {
    let handle = handle();
    assert_eq!(handle.encoded().m_max(), 3);
    assert_eq!(handle.quantisation_bits(), 4);
    let (secret, _) = secret_from_seed(&handle.lwe_params, 1);
    let noise = [81920i64, -163840, 5, 0, -7, 200000];
    let near_first = bits(&[0.5, 1.0]);
    let hits = score_query(&handle, &query([2, -1, 3]), &near_first, 2, &secret, &noise, 9).unwrap();
    assert_eq!(
        hits,
        vec![
            Hit { id: 10, score: 30 + 3 + 6 },
            Hit { id: 12, score: 27 },
        ]
    );
    let near_second = bits(&[1.0, 0.5]);
    let hits = score_query(&handle, &query([2, -1, 3]), &near_second, 9, &secret, &noise, 9).unwrap();
    assert_eq!(hits, vec![Hit { id: 20, score: 16 }]);
}

#[test]
fn queries_are_prepared_for_their_cluster() {
    let handle = handle();
    let p = handle.lwe_params.p();
    let prepared = prepare_query(&handle, &query([2, -1, 3]), &bits(&[1.0, 0.5])).unwrap();
    assert_eq!(prepared.cluster_idx, 1);
    assert_eq!(prepared.q_tilde, vec![0, 0, 0, 2, p - 1, 3]);
    assert!(matches!(
        prepare_query(&handle, &query([2, -1, 3])[..2], &bits(&[1.0, 0.5])),
        Err(TiptoeError::DimensionMismatch { query_dim: 2, index_dim: 3 })
    ));
    assert!(matches!(
        prepare_query(&handle, &[Some(1), None, None], &bits(&[1.0, 0.5])),
        Err(TiptoeError::QuantisationOverflow(EncodingError::NonFinite { index: 1 }))
    ));
}

#[test]
fn the_hint_times_the_secret_is_recovered() {
    let handle = handle();
    let n = handle.lwe_params.n;
    let (secret, _) = secret_from_seed(&handle.lwe_params, 3);
    let recovered = decompress(&handle, &secret, 5).unwrap();
    for (row, &got) in recovered.iter().enumerate() {
        let hint = &handle.pir_setup.hint[row * n..(row + 1) * n];
        let exact = hint
            .iter()
            .zip(secret.as_slice())
            .fold(0u64, |acc, (&h, &s)| acc.wrapping_add(h.wrapping_mul(s as u64)));
        // the lower halves of the hint are dropped
        let off = exact.wrapping_sub(got);
        assert!(off < 2 * n as u64 * (1 << 32), "row {row}: off by {off}");
    }
    let refused = SecretKey::from_entries(vec![9u8; n]);
    assert!(matches!(
        decompress(&handle, &refused, 5),
        Err(TiptoeError::BfvCompositionFailed(_))
    ));
}

#[test]
fn answers_are_decoded_to_signed_scores() {
    let handle = handle();
    let delta = handle.lwe_params.delta();
    let h_s = [1u64, 2, u64::MAX];
    let ans: Vec<u64> = [5i64, -4, 6]
        .iter()
        .zip(&h_s)
        .map(|(&score, &h)| h.wrapping_add(delta.wrapping_mul(score as u64)).wrapping_add(99))
        .collect();
    assert_eq!(
        decode_hits(&handle, 0, &ans, &h_s, 3),
        vec![
            Hit { id: 12, score: 6 },
            Hit { id: 10, score: 5 },
            Hit { id: 11, score: -4 },
        ]
    );
    assert_eq!(decode_hits(&handle, 1, &ans, &h_s, 3), vec![Hit { id: 20, score: 5 }]);
}

#[test]
fn settings_are_checked() {
    let config = TiptoeConfig::default();
    let lwe = Params::tiptoe_text();
    assert!(validate_upload(&config, &lwe, config.n_centroids, 64).is_ok());
    assert!(matches!(validate_upload(&config, &lwe, 0, 0), Err(TiptoeError::EmptyCorpus)));
    let many = TiptoeConfig { n_centroids: 9, ..TiptoeConfig::default() };
    assert!(matches!(validate_upload(&many, &lwe, 8, 64), Err(TiptoeError::TooManyCentroids(9))));
    let wide = TiptoeConfig { quantisation_bits: 17, ..TiptoeConfig::default() };
    assert!(matches!(
        validate_upload(&wide, &lwe, 100, 0),
        Err(TiptoeError::QuantisationOverflow(EncodingError::QuantisationOverflow {
            q: 17,
            log2_p: 17
        }))
    ));
}

#[test]
fn inner_products_must_not_wrap() {
    let lwe = Params::tiptoe_text();
    let check = |bits: u8, dim: usize| {
        let config = TiptoeConfig { quantisation_bits: bits, ..TiptoeConfig::default() };
        match validate_upload(&config, &lwe, 2, dim) {
            Ok(()) => true,
            Err(TiptoeError::QuantisationOverflow(EncodingError::QuantisationOverflow {
                q,
                log2_p,
            })) => {
                assert_eq!((q, log2_p), (bits, 17));
                false
            }
            Err(_) => panic!("expected QuantisationOverflow"),
        }
    };
    assert!(check(3, 768));
    assert!(!check(4, 768));
    // 2 * 4^4 * 256 is the modulus itself
    assert!(check(4, 255));
    assert!(!check(4, 256));
    assert!(check(0, 65535));
    assert!(!check(0, 65536));
    assert!(!check(8, 1));
    assert!(check(16, 0));
    let large = Params { log2_p: 200, ..lwe };
    let config = TiptoeConfig { quantisation_bits: 4, ..TiptoeConfig::default() };
    assert!(validate_upload(&config, &large, 2, usize::MAX).is_ok());
}

#[test]
fn components_that_are_not_finite_cannot_be_uploaded() {
    let bfv = tiptoe_text_params().expect("parameters");
    let mut clusters = clusters();
    clusters[1][0].components[2] = None;
    assert!(matches!(
        build_parts(&clusters, 3, 4, 7, &short_params(), &bfv, |_: usize| {}),
        Err(TiptoeError::QuantisationOverflow(EncodingError::NonFinite { index: 2 }))
    ));
}

#[test]
fn costs_split_the_token_from_the_setup() {
    let handle = handle();
    let cost = communication_cost(&handle);
    let ct = 2 * 2048 * 5u64;
    assert_eq!(cost.query_bytes, 6 * 8);
    assert_eq!(cost.response_bytes, 3 * 8);
    assert_eq!(cost.setup_bytes, 3 * 24 * 8);
    assert_eq!(cost.pre_query_offline_up_bytes, 24 * ct);
    assert_eq!(cost.pre_query_offline_down_bytes, 8 * ct);
}

#[test]
fn what_was_built_can_be_restored_and_kept() {
    let bfv = tiptoe_text_params().expect("parameters");
    let lwe = short_params();
    let parts = build_parts(&clusters(), 3, 4, 7, &lwe, &bfv, |_: usize| {}).expect("parts");
    assert_eq!(parts.pir_setup.seed, derive_pir_seed(7));
    let copy = |setup: &PirSetup| PirSetup {
        seed: setup.seed,
        hint: setup.hint.clone(),
        r: setup.r,
        c: setup.c,
        n: setup.n,
    };
    let restored =
        restore_parts(&clusters(), 3, 4, copy(&parts.pir_setup), &lwe, &bfv).expect("restored");
    assert_eq!(restored.encoded.matrix(), parts.encoded.matrix());
    let other = PirSetup { r: 2, ..copy(&parts.pir_setup) };
    assert!(matches!(
        restore_parts(&clusters(), 3, 4, other, &lwe, &bfv),
        Err(TiptoeError::SpawnPanic)
    ));
    let wider = PirSetup { c: 7, ..copy(&parts.pir_setup) };
    assert!(matches!(
        restore_parts(&clusters(), 3, 4, wider, &lwe, &bfv),
        Err(TiptoeError::SpawnPanic)
    ));

    let mut scorer = TiptoeScorer::new();
    assert!(scorer.recall(b"print", lwe, bfv.clone(), 4, 3).is_none());
    scorer.keep(b"print", parts);
    let kept = scorer.recall(b"print", lwe, bfv, 4, 3).expect("kept");
    assert_eq!(kept.encoded().m_max(), 3);
    assert_eq!(kept.dim, 3);
}

#[test]
fn stored_hints_of_another_length_are_refused() {
    let bfv = tiptoe_text_params().expect("parameters");
    let lwe = short_params();
    let stored = |n: usize, len: usize| PirSetup {
        seed: [0u8; 32],
        hint: vec![5u64; len],
        r: 3,
        c: 6,
        n,
    };
    for (n, len) in [(12usize, 36usize), (24, 71), (48, 144)] {
        match restore_parts(&clusters(), 3, 4, stored(n, len), &lwe, &bfv) {
            Err(TiptoeError::BfvCompositionFailed(CompressError::HintLengthMismatch {
                actual,
                expected,
                r,
                n_lwe,
            })) => {
                assert_eq!((actual, expected, r, n_lwe), (len, 72, 3, 24));
            }
            other => panic!("unexpected: {:?}", other.err()),
        }
    }
    let restored = restore_parts(&clusters(), 3, 4, stored(12, 72), &lwe, &bfv).expect("whole");
    assert_eq!(restored.pir_setup.n, 12);
    assert_eq!(restored.compressed_hint.num_limbs(), 8);
}

#[test]
fn stored_setups_are_read_back() {
    let member = |id: u32| Member { id, components: vec![id, 1] };
    let index = IvfIndex {
        centroids: vec![vec![1, 2]],
        clusters: vec![vec![member(3), member(4)]],
    };
    let setup = PirSetup { seed: [6u8; 32], hint: vec![1, u64::MAX, 3], r: 1, c: 2, n: 3 };
    let stored = save_tiptoe_cache(&index, 2, &setup);
    assert_eq!(stored[..4], CACHE_SCHEMA_VERSION.to_le_bytes());
    let (read, dim, read_setup) = load_tiptoe_cache(&stored).expect("stored");
    assert_eq!(dim, 2);
    assert_eq!(read.centroids, index.centroids);
    assert_eq!(read.clusters[0][1].id, 4);
    assert_eq!(read_setup.seed, setup.seed);
    assert_eq!(read_setup.hint, setup.hint);
    assert_eq!((read_setup.r, read_setup.c, read_setup.n), (1, 2, 3));
    assert!(load_tiptoe_cache(&stored[..stored.len() - 1]).is_none());
    let mut newer = stored;
    newer[0] += 1;
    assert!(load_tiptoe_cache(&newer).is_none());
}

#[test]
fn fingerprints_name_all_parameters() {
    let lwe = lwe_fingerprint_bytes(&Params::tiptoe_text());
    let mut expected = 2048u64.to_le_bytes().to_vec();
    expected.extend_from_slice(&17u64.to_le_bytes());
    expected.extend_from_slice(&81920.0f64.to_le_bytes());
    assert_eq!(lwe, expected);
    let bfv = bfv_fingerprint_bytes(&tiptoe_text_params().expect("parameters"));
    let mut expected = 2048u64.to_le_bytes().to_vec();
    expected.extend_from_slice(&65537u64.to_le_bytes());
    expected.extend_from_slice(&38u64.to_le_bytes());
    assert_eq!(bfv, expected);

    let config = TiptoeConfig::default();
    let parts = cache_parts(&config, 20, 8, &lwe, &bfv);
    assert!(parts.contains(&lwe));
    assert!(parts.contains(&bfv));
    assert!(parts.contains(&20u64.to_le_bytes().to_vec()));
    assert!(parts.contains(&8u64.to_le_bytes().to_vec()));
}
