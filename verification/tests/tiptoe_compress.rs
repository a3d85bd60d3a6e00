use fhe::bfv::Encoding;
use fhe_traits::FheDecoder;
use private_scoring::tiptoe::bfv::{tiptoe_text_params, BfvContext, BfvSecretKey};
use private_scoring::tiptoe::compress::{
    apply_hint, count_chunks, decompose_hint, encrypt_secret_under_bfv, from_modulo_p, get_chunk,
    limb_plane, recombine, recover_h_s, secret_polynomial, CompressError, BITS_PER_LIMB,
    MAX_LIMBS_64, NUM_LIMBS_64,
};
use private_scoring::tiptoe::lwe::{gen_secret, Params, SecretKey};
use private_scoring::tiptoe::simplepir::{encrypt_lhe, preprocess, server_answer};
use rand_chacha::rand_core::SeedableRng;
use rand_chacha::ChaCha20Rng;
use rand_distr::{Distribution, Normal};

const RECOVERED_MASK: u64 = !((1u64 << (BITS_PER_LIMB * (MAX_LIMBS_64 - NUM_LIMBS_64))) - 1);

fn params() -> BfvContext {
    tiptoe_text_params().expect("parameters")
}

fn fhe_rng() -> ChaCha20Rng {
    ChaCha20Rng::seed_from_u64(42)
}

fn lwe_rng() -> rand::rngs::ChaCha20Rng {
    <rand::rngs::ChaCha20Rng as rand::SeedableRng>::seed_from_u64(42)
}

/// The hint times a secret.
fn h_times_s_oracle(hint: &[u64], r: usize, n_lwe: usize, s: &[u8]) -> Vec<u64> {
    assert_eq!(hint.len(), r * n_lwe);
    assert_eq!(s.len(), n_lwe);
    let mut out = vec![0u64; r];
    for i in 0..r {
        let mut acc: u64 = 0;
        for j in 0..n_lwe {
            acc = acc.wrapping_add(hint[i * n_lwe + j].wrapping_mul(s[j] as u64));
        }
        out[i] = acc;
    }
    out
}

#[test]
fn get_chunk_extracts_4_bit_chunks_low_to_high() {
    let v: u64 = 0xFEDC_BA98_7654_3210;
    for i in 0..MAX_LIMBS_64 {
        assert_eq!(get_chunk(v, i), i as u64, "limb {i}");
    }
}

#[test]
fn get_chunk_zero_and_max() {
    assert_eq!(get_chunk(0, 0), 0);
    assert_eq!(get_chunk(0, 15), 0);
    assert_eq!(get_chunk(u64::MAX, 0), 0xF);
    assert_eq!(get_chunk(u64::MAX, 15), 0xF);
}

#[test]
fn from_modulo_p_signed_mapping() {
    let t: u64 = 65537;
    assert_eq!(from_modulo_p(t, 0), 0);
    assert_eq!(from_modulo_p(t, 1), 1);
    assert_eq!(from_modulo_p(t, t / 2), (t / 2) as i64);
    assert_eq!(from_modulo_p(t, t / 2 + 1), -((t / 2) as i64));
    assert_eq!(from_modulo_p(t, t - 1), -1);
}

#[test]
fn decompose_hint_top_8_limbs_recombine_to_top_32_bits() {
    let params = params();
    let r = 3;
    let n_lwe = 4;
    let hint: Vec<u64> = vec![
        0xFEDC_BA98_7654_3210,
        0x0123_4567_89AB_CDEF,
        0x0000_0000_FFFF_FFFF,
        0xFFFF_FFFF_0000_0000,
        0xDEAD_BEEF_CAFE_BABE,
        0x1111_2222_3333_4444,
        0xAAAA_5555_AAAA_5555,
        0,
        u64::MAX,
        0x1,
        0x8000_0000_0000_0000,
        0x0FFF_FFFF_FFFF_FFFF,
    ];
    assert_eq!(hint.len(), r * n_lwe);

    let compressed = decompose_hint(&hint, r, n_lwe, &params).expect("decompose");
    assert_eq!(compressed.num_limbs(), NUM_LIMBS_64);
    assert_eq!(compressed.r(), r);
    assert_eq!(compressed.n_lwe(), n_lwe);
    assert_eq!(compressed.chunks(), 1);

    for b in 0..compressed.num_limbs() {
        let limb_idx = MAX_LIMBS_64 - b - 1;
        for (col, pt) in compressed.limb_plaintexts(b).iter().enumerate() {
            let coeffs = Vec::<u64>::try_decode(pt, Encoding::poly()).expect("decode");
            for (row, &expected_entry) in hint.iter().skip(col).step_by(n_lwe).take(r).enumerate() {
                let expected_limb = get_chunk(expected_entry, limb_idx);
                assert_eq!(coeffs[row], expected_limb, "b={b} col={col} row={row}");
            }
        }
    }

    for col in 0..n_lwe {
        for row in 0..r {
            let mut reassembled: u64 = 0;
            for b in 0..compressed.num_limbs() {
                let limb_idx = MAX_LIMBS_64 - b - 1;
                let coeffs =
                    Vec::<u64>::try_decode(&compressed.limb_plaintexts(b)[col], Encoding::poly())
                        .expect("decode");
                reassembled |= coeffs[row] << (BITS_PER_LIMB * limb_idx);
            }
            let mask: u64 = !((1u64 << (BITS_PER_LIMB * (MAX_LIMBS_64 - NUM_LIMBS_64))) - 1);
            let expected = hint[row * n_lwe + col] & mask;
            assert_eq!(reassembled, expected, "row={row} col={col}");
        }
    }
}

#[test]
fn decompose_hint_rejects_size_mismatch() {
    let params = params();
    let hint = vec![0u64; 5];
    let err = decompose_hint(&hint, 2, 3, &params).err().expect("size mismatch");
    match err {
        CompressError::HintLengthMismatch {
            actual, expected, ..
        } => {
            assert_eq!(actual, 5);
            assert_eq!(expected, 6);
        }
        other => panic!("unexpected: {other:?}"),
    }
}

#[test]
fn apply_hint_recovers_top_32_bits_of_h_times_s_small() {
    let params = params();
    let lwe_params = Params::tiptoe_text();
    let n_lwe = lwe_params.n;

    let r = 4;
    let hint: Vec<u64> = (0..r * n_lwe)
        .map(|k| ((k as u64 * 17 + 3) & 0xFFFF) << 32)
        .collect();

    let mut lwe_rng = lwe_rng();
    let mut bfv_rng = fhe_rng();

    let lwe_secret = gen_secret(&lwe_params, &mut lwe_rng);
    let bfv_sk = BfvSecretKey::random(&params, &mut bfv_rng);

    let compressed = decompose_hint(&hint, r, n_lwe, &params).expect("decompose");
    let enc_secret = encrypt_secret_under_bfv(&lwe_secret, &bfv_sk, &params, &mut bfv_rng)
        .ok()
        .expect("encrypt secret");
    let answers = apply_hint(&compressed, &enc_secret).ok().expect("apply hint");
    let recovered = recover_h_s(&answers, &bfv_sk, r, &params).expect("recover");

    let oracle = h_times_s_oracle(&hint, r, n_lwe, lwe_secret.as_slice());
    for i in 0..r {
        assert_eq!(
            recovered[i] & RECOVERED_MASK,
            oracle[i] & RECOVERED_MASK,
            "row {i}: recovered={:016x} oracle={:016x}",
            recovered[i],
            oracle[i]
        );
    }
}

#[test]
fn apply_hint_compose_with_simplepir_decrypts_to_m_db_times_q() {
    let bfv_params = params();
    let lwe_params = Params::tiptoe_text();
    let n_lwe = lwe_params.n;

    let r = 2;
    let c = 3;
    let m_db: Vec<u64> = (0..r * c)
        .map(|i| (i as u64 * 23 + 7) % lwe_params.p())
        .collect();
    let seed = [9u8; 32];
    let setup = preprocess(&m_db, r, c, seed, &lwe_params);
    assert_eq!(setup.hint.len(), r * n_lwe);

    let mut lwe_rng = lwe_rng();
    let mut bfv_rng = fhe_rng();

    let lwe_secret = gen_secret(&lwe_params, &mut lwe_rng);
    let bfv_sk = BfvSecretKey::random(&bfv_params, &mut bfv_rng);

    let enc_secret = encrypt_secret_under_bfv(&lwe_secret, &bfv_sk, &bfv_params, &mut bfv_rng)
        .ok()
        .expect("encrypt secret");

    let compressed = decompose_hint(&setup.hint, r, n_lwe, &bfv_params).expect("decompose");
    let answers = apply_hint(&compressed, &enc_secret).ok().expect("apply hint");
    let recovered_h_s = recover_h_s(&answers, &bfv_sk, r, &bfv_params).expect("recover");

    let query: Vec<u64> = vec![1, 2, 3];
    let normal = Normal::new(0.0, f64::from_bits(lwe_params.sigma_bits)).unwrap();
    let noise: Vec<i64> = (0..c).map(|_| normal.sample(&mut lwe_rng).round() as i64).collect();
    let ct = encrypt_lhe(&setup, &lwe_secret, &query, &lwe_params, &noise);
    let ans = server_answer(&m_db, r, c, &ct);

    let recovered_plaintext: Vec<u64> = ans
        .iter()
        .zip(recovered_h_s.iter())
        .map(|(&a, &h)| lwe_params.round(a.wrapping_sub(h)))
        .collect();

    let p = lwe_params.p();
    let expected: Vec<u64> = (0..r)
        .map(|i| {
            let mut acc: u64 = 0;
            for (j, &q_j) in query.iter().enumerate() {
                acc = acc.wrapping_add(m_db[i * c + j].wrapping_mul(q_j));
            }
            acc % p
        })
        .collect();
    assert_eq!(recovered_plaintext, expected);
}

#[test]
fn apply_hint_rejects_wrong_secret_length() {
    let params = params();
    let lwe_params = Params::tiptoe_text();
    let r = 1;
    let n_lwe = lwe_params.n;
    let hint = vec![0u64; r * n_lwe];

    let compressed = decompose_hint(&hint, r, n_lwe, &params).expect("decompose");

    let mut bfv_rng = fhe_rng();
    let bfv_sk = BfvSecretKey::random(&params, &mut bfv_rng);
    let short = SecretKey::from_entries(vec![0u8; n_lwe - 1]);
    let bad = encrypt_secret_under_bfv(&short, &bfv_sk, &params, &mut bfv_rng)
        .ok()
        .expect("encrypt secret");

    let err = apply_hint(&compressed, &bad).err().expect("len mismatch");
    match err {
        CompressError::EncSecretLengthMismatch { actual, expected } => {
            assert_eq!(actual, n_lwe - 1);
            assert_eq!(expected, n_lwe);
        }
        other => panic!("unexpected: {other:?}"),
    }
}

#[test]
fn secrets_that_are_not_ternary_are_refused() {
    let params = params();
    let mut rng = fhe_rng();
    let key = BfvSecretKey::random(&params, &mut rng);
    let secret = SecretKey::from_entries(vec![0, 2, 3, 1]);
    match encrypt_secret_under_bfv(&secret, &key, &params, &mut rng) {
        Err(CompressError::LweSecretOutOfRange { index, value }) => {
            assert_eq!((index, value), (2, 3));
        }
        _ => panic!("expected LweSecretOutOfRange"),
    }
}

#[test]
fn a_hint_of_units_gives_the_secret_back() {
    // one limb is one, so each answer holds the sum of the secret in that limb's place
    let params = params();
    let mut rng = fhe_rng();
    let key = BfvSecretKey::random(&params, &mut rng);
    let secret = SecretKey::from_entries(vec![2, 0, 1]);
    let token =
        encrypt_secret_under_bfv(&secret, &key, &params, &mut rng).ok().expect("encrypt secret");
    assert_eq!(token.len(), 3);
    let hint = vec![1u64 << 32, 0, 0, 0, 1 << 36, 0, 0, 0, 1 << 60];
    let compressed = decompose_hint(&hint, 3, 3, &params).expect("decompose");
    let answers = apply_hint(&compressed, &token).ok().expect("apply hint");
    let recovered = recover_h_s(&answers, &key, 3, &params).expect("recover");
    assert_eq!(recovered, vec![2 << 32, 0, 1 << 60]);
}

#[test]
fn an_answer_with_missing_chunks_is_refused() {
    let params = params();
    let mut rng = fhe_rng();
    let key = BfvSecretKey::random(&params, &mut rng);
    assert!(matches!(
        recover_h_s(&[], &key, 3, &params),
        Err(CompressError::AnswersShapeMismatch { limbs: 0, expected_limbs: 8, expected_chunks: 1 })
    ));
}

#[test]
fn chunks_cover_the_rows() {
    assert_eq!(count_chunks(0, 2048), 0);
    assert_eq!(count_chunks(1, 2048), 1);
    assert_eq!(count_chunks(2048, 2048), 1);
    assert_eq!(count_chunks(2049, 2048), 2);
}

#[test]
fn limb_planes_hold_one_limb_of_one_column() {
    let hint = vec![0x10u64, 0x21, 0x32, 0x43, 0x54, 0x65];
    // three rows, two columns, two coefficients to a chunk
    assert_eq!(limb_plane(&hint, 3, 2, 2, 1, 0, 0), vec![1, 3]);
    assert_eq!(limb_plane(&hint, 3, 2, 2, 0, 1, 1), vec![5, 0]);
}

#[test]
fn secret_polynomials_are_constants() {
    assert_eq!(secret_polynomial(2, 4), vec![2, 0, 0, 0]);
}

#[test]
fn limbs_are_put_together_as_signed_numbers() {
    let t = 65537u64;
    let mut coeffs = vec![vec![vec![0u64; 2]]; NUM_LIMBS_64];
    coeffs[0][0][0] = 3;
    coeffs[NUM_LIMBS_64 - 1][0][0] = 5;
    coeffs[NUM_LIMBS_64 - 1][0][1] = t - 1;
    assert_eq!(
        recombine(&coeffs, 2, 2, t),
        vec![(3 << 60) + (5 << 32), 0u64.wrapping_sub(1 << 32)]
    );
}

#[test]
fn keys_follow_their_seed() {
    let params = params();
    let mut rng = fhe_rng();
    let key = BfvSecretKey::random(&params, &mut rng);
    let same = BfvSecretKey::random(&params, &mut fhe_rng());
    let secret = SecretKey::from_entries(vec![1, 2]);
    let token =
        encrypt_secret_under_bfv(&secret, &key, &params, &mut rng).ok().expect("encrypt secret");
    let compressed = decompose_hint(&[1 << 40, 1 << 44], 1, 2, &params).expect("decompose");
    let answers = apply_hint(&compressed, &token).ok().expect("apply hint");
    let recovered = recover_h_s(&answers, &same, 1, &params).expect("recover");
    assert_eq!(recovered, vec![(1 << 40) + (2 << 44)]);
    let other = BfvSecretKey::random(&params, &mut ChaCha20Rng::seed_from_u64(43));
    assert_ne!(recover_h_s(&answers, &other, 1, &params).expect("recover"), recovered);
}

#[test]
fn keys_for_other_parameters_do_not_decrypt() {
    let first = params();
    let second = params();
    let mut rng = fhe_rng();
    let key = BfvSecretKey::random(&first, &mut rng);
    let secret = SecretKey::from_entries(vec![1]);
    let token =
        encrypt_secret_under_bfv(&secret, &key, &first, &mut rng).ok().expect("encrypt secret");
    let compressed = decompose_hint(&[1 << 40], 1, 1, &first).expect("decompose");
    let answers = apply_hint(&compressed, &token).ok().expect("apply hint");
    assert!(recover_h_s(&answers, &key, 1, &first).is_ok());
    let foreign = BfvSecretKey::random(&second, &mut fhe_rng());
    assert!(matches!(recover_h_s(&answers, &foreign, 1, &second), Err(CompressError::Fhe(_))));
}

#[test]
fn an_empty_secret_has_no_product() {
    let params = params();
    let mut rng = fhe_rng();
    let key = BfvSecretKey::random(&params, &mut rng);
    let token =
        encrypt_secret_under_bfv(&SecretKey::from_entries(Vec::new()), &key, &params, &mut rng)
            .ok()
            .expect("encrypt secret");
    let compressed = decompose_hint(&[], 1, 0, &params).expect("decompose");
    assert!(matches!(apply_hint(&compressed, &token), Err(CompressError::Fhe(_))));
}
