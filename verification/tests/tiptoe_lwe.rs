use private_scoring::tiptoe::lwe::{
    compute_a_s, decrypt_vec, encrypt_vec, gen_secret, secret_from_seed, Params, SecretKey,
};
use rand::rngs::ChaCha20Rng;
use rand::{RngExt, SeedableRng};
use rand_distr::{Distribution, Normal};

fn rng() -> ChaCha20Rng {
    ChaCha20Rng::seed_from_u64(42)
}

/// A uniform `m` by `n` matrix.
fn random_a(rng: &mut ChaCha20Rng, m: usize, n: usize) -> Vec<u64> {
    let mut a = vec![0u64; m * n];
    for slot in a.iter_mut() {
        *slot = rng.random();
    }
    a
}

/// Rounded normal noise of the width of the parameters.
fn noise(params: &Params, rng: &mut ChaCha20Rng, count: usize) -> Vec<i64> {
    let normal = Normal::new(0.0, f64::from_bits(params.sigma_bits)).unwrap();
    (0..count).map(|_| normal.sample(rng).round() as i64).collect()
}

#[test]
fn params_text_constants() {
    let p = Params::tiptoe_text();
    assert_eq!(p.n, 2048);
    assert_eq!(p.log2_p, 17);
    assert_eq!(f64::from_bits(p.sigma_bits), 81920.0);
    assert_eq!(p.p(), 1 << 17);
    assert_eq!(p.delta(), 1u64 << 47);
}

#[test]
fn round_zero() {
    let p = Params::tiptoe_text();
    assert_eq!(p.round(0), 0);
}

#[test]
fn round_exact_multiples_of_delta() {
    let p = Params::tiptoe_text();
    let delta = p.delta();
    for m in [0u64, 1, 2, 100, p.p() - 1] {
        assert_eq!(p.round(delta.wrapping_mul(m)), m, "exact m={m}");
    }
}

#[test]
fn round_handles_small_positive_noise() {
    let p = Params::tiptoe_text();
    let delta = p.delta();
    for e in [0u64, 1, 100, 1_000_000, delta / 2 - 1] {
        assert_eq!(p.round(delta.wrapping_mul(7).wrapping_add(e)), 7, "e={e}");
    }
}

#[test]
fn round_handles_small_negative_noise() {
    let p = Params::tiptoe_text();
    let delta = p.delta();
    for e_pos in [1u64, 100, 1_000_000, delta / 2 - 1] {
        let neg = (0u64).wrapping_sub(e_pos);
        assert_eq!(
            p.round(delta.wrapping_mul(7).wrapping_add(neg)),
            7,
            "e=-{e_pos}"
        );
    }
}

#[test]
fn rounding_wraps_at_the_top() {
    let p = Params::tiptoe_text();
    assert_eq!(p.round(u64::MAX), 0);
    assert_eq!(p.round(p.delta() / 2), 1);
    assert_eq!(p.round(p.delta() / 2 - 1), 0);
}

#[test]
fn gen_secret_is_ternary() {
    let mut rng = rng();
    let p = Params::tiptoe_text();
    let s = gen_secret(&p, &mut rng);
    assert_eq!(s.len(), 2048);
    assert!(!s.is_empty());
    for &v in s.as_slice() {
        assert!(v <= 2, "secret entry {v} out of range");
    }
}

#[test]
fn gen_secret_distribution_is_balanced() {
    let mut rng = rng();
    let p = Params::tiptoe_text();
    let s = gen_secret(&p, &mut rng);
    let mut counts = [0usize; 3];
    for &v in s.as_slice() {
        counts[v as usize] += 1;
    }
    for (i, c) in counts.iter().enumerate() {
        assert!(*c > 2048 / 4, "value {i} severely under-represented: {c}");
    }
}

#[test]
fn secrets_follow_their_seed() {
    let p = Params::tiptoe_text();
    let (a, _) = secret_from_seed(&p, 42);
    let (b, _) = secret_from_seed(&p, 42);
    let (c, _) = secret_from_seed(&p, 43);
    assert_eq!(a.as_slice(), b.as_slice());
    assert_ne!(a.as_slice(), c.as_slice());
    assert_eq!(a.as_slice(), gen_secret(&p, &mut rng()).as_slice());
}

#[test]
fn products_with_a_secret_wrap() {
    let s = SecretKey::from_entries(vec![2, 0, 1]);
    let a = vec![1u64, 2, 3, u64::MAX, 7, 3];
    assert_eq!(compute_a_s(&a, &s, 2), vec![5, 1]);
}

#[test]
fn encrypt_decrypt_roundtrip_small() {
    let params = Params::tiptoe_text();
    let mut rng = rng();
    let s = gen_secret(&params, &mut rng);
    let m = 4usize;
    let a = random_a(&mut rng, m, params.n);
    let msg = vec![0u64, 1, params.p() - 1, params.p() / 2];

    let e = noise(&params, &mut rng, m);
    let ct = encrypt_vec(&s, &msg, &a, &params, &e);
    let a_s = compute_a_s(&a, &s, m);
    let recovered = decrypt_vec(&ct, &a_s, &params);

    assert_eq!(recovered, msg);
}

#[test]
fn homomorphic_addition_under_encryption() {
    let params = Params::tiptoe_text();
    let mut rng = rng();
    let s = gen_secret(&params, &mut rng);
    let m = 4usize;
    let a = random_a(&mut rng, m, params.n);
    let v1 = vec![3u64, 100, params.p() / 4, 7];
    let v2 = vec![5u64, 200, params.p() / 4, 11];

    let e1 = noise(&params, &mut rng, m);
    let e2 = noise(&params, &mut rng, m);
    let ct1 = encrypt_vec(&s, &v1, &a, &params, &e1);
    let ct2 = encrypt_vec(&s, &v2, &a, &params, &e2);

    let ct_sum: Vec<u64> = ct1
        .iter()
        .zip(ct2.iter())
        .map(|(&a, &b)| a.wrapping_add(b))
        .collect();
    let a_s = compute_a_s(&a, &s, m);
    let two_a_s: Vec<u64> = a_s.iter().map(|&v| v.wrapping_add(v)).collect();
    let recovered = decrypt_vec(&ct_sum, &two_a_s, &params);

    let p = params.p();
    let expected: Vec<u64> = v1.iter().zip(&v2).map(|(a, b)| (a + b) % p).collect();
    assert_eq!(recovered, expected);
}

#[test]
fn ciphertext_independent_of_message_size_within_p() {
    let params = Params::tiptoe_text();
    let mut rng = rng();
    let s = gen_secret(&params, &mut rng);
    let m = 3usize;
    let a = random_a(&mut rng, m, params.n);
    let msg = vec![params.p() - 1, params.p() - 2, params.p() - 3];

    let e = noise(&params, &mut rng, m);
    let ct = encrypt_vec(&s, &msg, &a, &params, &e);
    let a_s = compute_a_s(&a, &s, m);
    let recovered = decrypt_vec(&ct, &a_s, &params);

    assert_eq!(recovered, msg);
}
