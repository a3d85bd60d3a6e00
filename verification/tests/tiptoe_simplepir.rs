use private_scoring::tiptoe::lwe::{encrypt_vec, gen_secret, Params, SecretKey};
use private_scoring::tiptoe::simplepir::{
    client_recover, encrypt_lhe, expand_a, mat_mul_u64, preprocess, preprocess_with_progress,
    server_answer, PirSetup,
};
use rand::rngs::ChaCha20Rng;
use rand::{RngExt, SeedableRng};
use rand_distr::{Distribution, Normal};

fn rng() -> ChaCha20Rng {
    ChaCha20Rng::seed_from_u64(42)
}

fn noise(params: &Params, rng: &mut ChaCha20Rng, count: usize) -> Vec<i64> {
    let normal = Normal::new(0.0, f64::from_bits(params.sigma_bits)).unwrap();
    (0..count).map(|_| normal.sample(rng).round() as i64).collect()
}

#[test]
fn expand_a_is_deterministic_in_seed() {
    let seed = [3u8; 32];
    let a1 = expand_a(&seed, 8, 16);
    let a2 = expand_a(&seed, 8, 16);
    assert_eq!(a1, a2);
    let a3 = expand_a(&[4u8; 32], 8, 16);
    assert_ne!(a1, a3);
}

#[test]
fn expand_a_is_the_stream_of_its_seed() {
    let seed = [3u8; 32];
    let mut stream = ChaCha20Rng::from_seed(seed);
    let expected: Vec<u64> = (0..8 * 16).map(|_| stream.random()).collect();
    assert_eq!(expand_a(&seed, 8, 16), expected);
}

#[test]
fn mat_mul_correctness_small() {
    let m = vec![1u64, 2, 3, 4, 5, 6];
    let x = vec![1u64, 0, 0, 1, 1, 1];
    let rows_seen = std::sync::Mutex::new(Vec::new());
    let y = mat_mul_u64(&m, 2, 3, &x, 2, |i| rows_seen.lock().unwrap().push(i));
    assert_eq!(y, vec![4, 5, 10, 11]);
    let mut seen = rows_seen.into_inner().unwrap();
    seen.sort();
    assert_eq!(seen, vec![0, 1]);
}

#[test]
fn unit_query_extracts_column() {
    let params = Params::tiptoe_text();
    let mut r = rng();

    let r_dim = 4;
    let c_dim = 8;
    let m_db: Vec<u64> = (0..r_dim * c_dim)
        .map(|i| (i as u64 * 31 + 5) % params.p())
        .collect();
    let seed = [7u8; 32];
    let setup = preprocess(&m_db, r_dim, c_dim, seed, &params);
    assert_eq!(setup.hint.len(), r_dim * params.n);
    assert_eq!(setup.c, c_dim);
    assert_eq!(setup.r, r_dim);

    for col in 0..c_dim {
        let mut query = vec![0u64; c_dim];
        query[col] = 1;

        let secret = gen_secret(&params, &mut r);
        let e = noise(&params, &mut r, c_dim);
        let ct = encrypt_lhe(&setup, &secret, &query, &params, &e);
        let ans = server_answer(&m_db, r_dim, c_dim, &ct);
        let recovered = client_recover(&ans, &setup, &secret, &params);

        let expected: Vec<u64> = (0..r_dim).map(|i| m_db[i * c_dim + col]).collect();
        assert_eq!(recovered, expected, "col={col}");
    }
}

#[test]
fn general_lhe_query_decrypts_to_matrix_vector_mod_p() {
    let params = Params::tiptoe_text();
    let mut r = rng();

    let r_dim = 4;
    let c_dim = 6;
    let m_db: Vec<u64> = (0..r_dim * c_dim)
        .map(|i| (i as u64 * 17 + 3) % params.p())
        .collect();
    let query: Vec<u64> = (1..=c_dim as u64).collect();

    let seed = [11u8; 32];
    let setup = preprocess(&m_db, r_dim, c_dim, seed, &params);

    let secret = gen_secret(&params, &mut r);
    let e = noise(&params, &mut r, c_dim);
    let ct = encrypt_lhe(&setup, &secret, &query, &params, &e);
    let ans = server_answer(&m_db, r_dim, c_dim, &ct);
    let recovered = client_recover(&ans, &setup, &secret, &params);

    let p = params.p();
    let expected: Vec<u64> = (0..r_dim)
        .map(|i| {
            let mut acc: u64 = 0;
            for (j, &q_j) in query.iter().enumerate() {
                acc = acc.wrapping_add(m_db[i * c_dim + j].wrapping_mul(q_j));
            }
            acc % p
        })
        .collect();
    assert_eq!(recovered, expected);
}

#[test]
fn zero_query_returns_zero_vector() {
    let params = Params::tiptoe_text();
    let mut r = rng();

    let r_dim = 3;
    let c_dim = 5;
    let m_db: Vec<u64> = (0..r_dim * c_dim).map(|i| i as u64 % params.p()).collect();
    let seed = [13u8; 32];
    let setup = preprocess(&m_db, r_dim, c_dim, seed, &params);

    let query = vec![0u64; c_dim];
    let secret = gen_secret(&params, &mut r);
    let e = noise(&params, &mut r, c_dim);
    let ct = encrypt_lhe(&setup, &secret, &query, &params, &e);
    let ans = server_answer(&m_db, r_dim, c_dim, &ct);
    let recovered = client_recover(&ans, &setup, &secret, &params);
    assert_eq!(recovered, vec![0u64; r_dim]);
}

#[test]
fn encrypt_lhe_matches_materialised_a() {
    let params = Params::tiptoe_text();
    let setup_seed = [0xABu8; 32];
    let secret_seed = 12_345u64;
    let query_seed = 67_890u64;
    let noise_seed = 11_111u64;

    let r_dim = 4;
    let c_dim = 1024;
    let n = params.n;

    let setup = PirSetup {
        seed: setup_seed,
        hint: Vec::new(),
        r: r_dim,
        c: c_dim,
        n,
    };

    let mut secret_rng = ChaCha20Rng::seed_from_u64(secret_seed);
    let secret = gen_secret(&params, &mut secret_rng);

    let mut query_rng = ChaCha20Rng::seed_from_u64(query_seed);
    let query: Vec<u64> = (0..c_dim)
        .map(|_| query_rng.random_range(0u64..params.p()))
        .collect();

    let mut noise_rng_a = ChaCha20Rng::seed_from_u64(noise_seed);
    let a_mat = expand_a(&setup_seed, c_dim, n);
    let noise_a = noise(&params, &mut noise_rng_a, c_dim);
    let ct_pre_fix = encrypt_vec(&secret, &query, &a_mat, &params, &noise_a);

    let mut noise_rng_b = ChaCha20Rng::seed_from_u64(noise_seed);
    let noise_b = noise(&params, &mut noise_rng_b, c_dim);
    let ct_streaming = encrypt_lhe(&setup, &secret, &query, &params, &noise_b);

    assert_eq!(
        ct_pre_fix, ct_streaming,
        "streaming encrypt_lhe must be byte-for-byte equal to materialised-A path"
    );
}

#[test]
fn fresh_secrets_per_query_decrypt_correctly() {
    let params = Params::tiptoe_text();
    let mut r = rng();

    let r_dim = 4;
    let c_dim = 6;
    let m_db: Vec<u64> = (0..r_dim * c_dim)
        .map(|i| (i as u64 * 23 + 1) % params.p())
        .collect();
    let seed = [17u8; 32];
    let setup = preprocess(&m_db, r_dim, c_dim, seed, &params);

    let query = vec![2u64, 0, 5, 1, 3, 7];
    let p = params.p();
    let expected: Vec<u64> = (0..r_dim)
        .map(|i| {
            let mut acc: u64 = 0;
            for (j, &q_j) in query.iter().enumerate() {
                acc = acc.wrapping_add(m_db[i * c_dim + j].wrapping_mul(q_j));
            }
            acc % p
        })
        .collect();

    for trial in 0..3 {
        let secret = gen_secret(&params, &mut r);
        let e = noise(&params, &mut r, c_dim);
        let ct = encrypt_lhe(&setup, &secret, &query, &params, &e);
        let ans = server_answer(&m_db, r_dim, c_dim, &ct);
        let recovered = client_recover(&ans, &setup, &secret, &params);
        assert_eq!(recovered, expected, "trial={trial}");
    }
}

#[test]
fn preprocessing_reports_its_rows_and_multiplies() {
    let params = Params { n: 4, log2_p: 17, sigma_bits: 0 };
    let m_db = vec![1u64, 2, 3, 4, 5, 6];
    let seed = [1u8; 32];
    let rows = std::sync::Mutex::new(Vec::new());
    let setup =
        preprocess_with_progress(&m_db, 2, 3, seed, &params, |i| rows.lock().unwrap().push(i));
    let mut rows = rows.into_inner().unwrap();
    rows.sort();
    assert_eq!(rows, vec![0, 1]);
    let a = expand_a(&seed, 3, 4);
    assert_eq!(setup.hint, mat_mul_u64(&m_db, 2, 3, &a, 4, |_| {}));
    assert_eq!(setup.seed, seed);

    // without noise an answer is exact
    let secret = SecretKey::from_entries(vec![0, 1, 2, 1]);
    let ct = encrypt_lhe(&setup, &secret, &[1, 0, 2], &params, &[0, 0, 0]);
    let ans = server_answer(&m_db, 2, 3, &ct);
    assert_eq!(client_recover(&ans, &setup, &secret, &params), vec![7, 16]);
}
