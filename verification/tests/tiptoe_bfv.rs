use fhe::bfv::{Ciphertext, Encoding, Plaintext, PublicKey, SecretKey};
use fhe_traits::{FheDecoder, FheDecrypter, FheEncoder, FheEncrypter};
use private_scoring::tiptoe::bfv::{tiptoe_text_params, BfvContext};
use private_scoring::tiptoe::seal_compat::{
    expected_coeff_modulus_bits, verify, SealCompatError, EXPECTED_PLAINTEXT_MODULUS,
    EXPECTED_POLY_DEGREE,
};
use rand_chacha::rand_core::SeedableRng;
use rand_chacha::ChaCha20Rng;

#[test]
fn tiptoe_text_params_pass_parity_gate() {
    let params = tiptoe_text_params().expect("parameters");
    verify(&params).expect("parity must hold");
    assert_eq!(params.degree(), 2048);
    assert_eq!(params.plaintext(), 65537);
    assert_eq!(params.moduli_sizes(), &[38][..]);
}

#[test]
fn fhe_bfv_encrypt_decrypt_roundtrip_at_tiptoe_params() {
    let context = tiptoe_text_params().expect("parameters");
    let params = context.handle();
    let mut rng = ChaCha20Rng::seed_from_u64(42);

    let sk = SecretKey::random(params, &mut rng);
    let pk = PublicKey::new(&sk, &mut rng);

    let msg: Vec<u64> = vec![1, 2, 3, 4, 5];
    let pt = Plaintext::try_encode(&msg, Encoding::poly(), params)
        .expect("encode should succeed for short u64 slice");
    let ct: Ciphertext = pk
        .try_encrypt(&pt, &mut rng)
        .expect("encrypt should succeed");

    let pt_back = sk.try_decrypt(&ct).expect("decrypt should succeed");
    let recovered =
        Vec::<u64>::try_decode(&pt_back, Encoding::poly()).expect("decode should succeed");

    assert_eq!(&recovered[..msg.len()], &msg[..]);
    assert!(recovered[msg.len()..].iter().all(|&v| v == 0));
}

#[test]
fn canonical_params_pass() {
    let p = BfvContext::build(
        EXPECTED_POLY_DEGREE,
        EXPECTED_PLAINTEXT_MODULUS,
        &expected_coeff_modulus_bits(),
    )
    .expect("canonical SEAL-parity params must build under fhe");
    verify(&p).expect("canonical params must verify");
}

#[test]
fn wrong_poly_degree_fails() {
    let p = BfvContext::build(4096, EXPECTED_PLAINTEXT_MODULUS, &expected_coeff_modulus_bits())
        .expect("4096-degree should still build under fhe");
    match verify(&p) {
        Err(SealCompatError::PolyDegree { actual, expected }) => {
            assert_eq!(actual, 4096);
            assert_eq!(expected, EXPECTED_POLY_DEGREE);
        }
        other => panic!("expected PolyDegree error, got {other:?}"),
    }
}

#[test]
fn wrong_plaintext_modulus_fails() {
    let p = BfvContext::build(EXPECTED_POLY_DEGREE, 1024, &expected_coeff_modulus_bits())
        .expect("plaintext=1024 should still build under fhe");
    match verify(&p) {
        Err(SealCompatError::PlaintextModulus { actual, expected }) => {
            assert_eq!(actual, 1024);
            assert_eq!(expected, EXPECTED_PLAINTEXT_MODULUS);
        }
        other => panic!("expected PlaintextModulus error, got {other:?}"),
    }
}

#[test]
fn wrong_coeff_modulus_length_fails() {
    let p = BfvContext::build(EXPECTED_POLY_DEGREE, EXPECTED_PLAINTEXT_MODULUS, &[38, 38])
        .expect("two-modulus chain should still build under fhe");
    match verify(&p) {
        Err(SealCompatError::CoeffModulusLength { actual, expected }) => {
            assert_eq!(actual, 2);
            assert_eq!(expected, 1);
        }
        other => panic!("expected CoeffModulusLength error, got {other:?}"),
    }
}

#[test]
fn wrong_coeff_modulus_bits_fails() {
    let p = BfvContext::build(EXPECTED_POLY_DEGREE, EXPECTED_PLAINTEXT_MODULUS, &[40])
        .expect("40-bit modulus should still build under fhe");
    match verify(&p) {
        Err(SealCompatError::CoeffModulusBits { actual, expected }) => {
            assert_eq!(actual, vec![40]);
            assert_eq!(expected, vec![38]);
        }
        other => panic!("expected CoeffModulusBits error, got {other:?}"),
    }
}

#[test]
fn a_degree_below_eight_is_refused() {
    assert!(BfvContext::build(4, EXPECTED_PLAINTEXT_MODULUS, &[38]).is_err());
}
