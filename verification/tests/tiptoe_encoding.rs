use private_scoring::tiptoe::encoding::{
    dequantise_component, encode_vector, max_magnitude, quantise_component, validate_params,
    EncodingError,
};
use private_scoring::tiptoe::lwe::Params;

/// A component, scaled to the slots and rounded.
fn scale(x: f32, quantisation_bits: u8) -> i64 {
    (x * max_magnitude(quantisation_bits) as f32).round() as i64
}

/// Components, scaled and rounded; numbers that are not finite cannot be.
fn scaled(v: &[f32], quantisation_bits: u8) -> Vec<Option<i64>> {
    v.iter()
        .map(|&x| if x.is_finite() { Some(scale(x, quantisation_bits)) } else { None })
        .collect()
}

/// A slot as a component.
fn back(z: u64, quantisation_bits: u8, p: u64) -> f32 {
    dequantise_component(z, p) as f32 / max_magnitude(quantisation_bits) as f32
}

#[test]
fn max_magnitude_matches_paper() {
    assert_eq!(max_magnitude(4), 15);
    assert_eq!(max_magnitude(5), 31);
    assert_eq!(max_magnitude(8), 255);
}

#[test]
fn quantise_zero_is_zero() {
    let p = Params::tiptoe_text().p();
    assert_eq!(quantise_component(scale(0.0, 4), 4, p), 0);
    assert_eq!(quantise_component(scale(0.0, 8), 8, p), 0);
}

#[test]
fn quantise_one_is_max_magnitude() {
    let p = Params::tiptoe_text().p();
    assert_eq!(quantise_component(scale(1.0, 4), 4, p), 15);
}

#[test]
fn quantise_negative_one_is_p_minus_max_magnitude() {
    let p = Params::tiptoe_text().p();
    assert_eq!(quantise_component(scale(-1.0, 4), 4, p), p - 15);
}

#[test]
fn quantise_clamps_out_of_range_input() {
    let p = Params::tiptoe_text().p();
    assert_eq!(quantise_component(scale(2.5, 4), 4, p), 15);
    assert_eq!(quantise_component(scale(-2.5, 4), 4, p), p - 15);
}

#[test]
fn dequantise_inverts_quantise_within_step() {
    let p = Params::tiptoe_text().p();
    let q = 4;
    let mag = max_magnitude(q) as f32;
    for k in -15..=15 {
        let x = k as f32 / mag;
        let z = quantise_component(scale(x, q), q, p);
        let back = back(z, q, p);
        assert!(
            (back - x).abs() < 0.5 / mag,
            "k={k}: x={x}, z={z}, back={back}"
        );
    }
}

#[test]
fn encode_vector_round_trip_inside_slot_range() {
    let p = Params::tiptoe_text().p();
    let q = 4;
    let mag = max_magnitude(q) as f32;
    let v: Vec<f32> = (-7..=7).map(|k| k as f32 / mag).collect();
    let mut out = vec![0u64; v.len()];
    encode_vector(&scaled(&v, q), q, p, &mut out).unwrap();
    for (i, (&x, &z)) in v.iter().zip(out.iter()).enumerate() {
        let back = back(z, q, p);
        assert!((back - x).abs() < 0.5 / mag, "i={i}");
    }
}

#[test]
fn encode_vector_rejects_non_finite() {
    let p = Params::tiptoe_text().p();
    let v = vec![0.1, f32::NAN, 0.3];
    let mut out = vec![0u64; 3];
    let err = encode_vector(&scaled(&v, 4), 4, p, &mut out).unwrap_err();
    assert_eq!(err, EncodingError::NonFinite { index: 1 });

    let v = vec![0.1, 0.2, f32::INFINITY];
    let err = encode_vector(&scaled(&v, 4), 4, p, &mut out).unwrap_err();
    assert_eq!(err, EncodingError::NonFinite { index: 2 });
}

#[test]
fn validate_params_accepts_paper_default() {
    validate_params(4, 17).unwrap();
    validate_params(5, 17).unwrap();
    validate_params(8, 17).unwrap();
    validate_params(15, 17).unwrap();
}

#[test]
fn validate_params_rejects_overflow() {
    assert!(matches!(
        validate_params(17, 17),
        Err(EncodingError::QuantisationOverflow { .. })
    ));
    assert!(matches!(
        validate_params(20, 17),
        Err(EncodingError::QuantisationOverflow { .. })
    ));
}

#[test]
fn validate_params_names_what_overflows() {
    assert_eq!(
        validate_params(17, 17),
        Err(EncodingError::QuantisationOverflow { q: 17, log2_p: 17 })
    );
}

#[test]
fn signed_dot_product_matches_plaintext_within_slot_budget() {
    let p = Params::tiptoe_text().p();
    let q = 4;
    let mag = max_magnitude(q) as f32;
    let a: Vec<f32> = vec![0.5, -0.3, 0.7, -1.0];
    let b: Vec<f32> = vec![1.0, -0.5, 0.2, 0.4];

    let mut a_enc = vec![0u64; a.len()];
    let mut b_enc = vec![0u64; b.len()];
    encode_vector(&scaled(&a, q), q, p, &mut a_enc).unwrap();
    encode_vector(&scaled(&b, q), q, p, &mut b_enc).unwrap();

    let dot_zp: u64 = a_enc.iter().zip(b_enc.iter()).fold(0u64, |acc, (&x, &y)| {
        acc.wrapping_add(x.wrapping_mul(y)) % p
    });

    let dot_signed: i64 = a
        .iter()
        .zip(b.iter())
        .map(|(&x, &y)| {
            let xs = (x * mag).round() as i64;
            let ys = (y * mag).round() as i64;
            xs * ys
        })
        .sum();
    let dot_signed_zp = dot_signed.rem_euclid(p as i64) as u64;

    assert_eq!(dot_zp, dot_signed_zp);
}

#[test]
fn slots_above_half_are_negative() {
    assert_eq!(dequantise_component(0, 131072), 0);
    assert_eq!(dequantise_component(65535, 131072), 65535);
    assert_eq!(dequantise_component(65536, 131072), -65536);
    assert_eq!(dequantise_component(65537, 131072), -65535);
    assert_eq!(dequantise_component(131071, 131072), -1);
}
