//! The parameters of the BFV scheme that the noise budget of the compression rests on.

use vstd::prelude::*;

use crate::tiptoe::bfv::BfvContext;

verus! {

/// The expected degree.
pub const EXPECTED_POLY_DEGREE: usize = 2048;

/// The expected plaintext modulus, `2^16 + 1`.
pub const EXPECTED_PLAINTEXT_MODULUS: u64 = 65537;

/// The expected sizes of the ciphertext moduli: one of 38 bits.
pub open spec fn expected_moduli_sizes() -> Seq<usize> {
    seq![38usize]
}

/// The expected sizes of the ciphertext moduli: one of 38 bits.
pub fn expected_coeff_modulus_bits() -> (r: Vec<usize>)
    ensures
        r@ == expected_moduli_sizes(),
{
    let mut r: Vec<usize> = Vec::new();
    r.push(38);
    assert(r@ =~= expected_moduli_sizes());
    r
}

/// How parameters differ from the expected ones.
#[derive(Debug, PartialEq, Eq)]
#[allow(inconsistent_fields)]
pub enum SealCompatError {
    /// The degree differs.
    PolyDegree { actual: usize, expected: usize },
    /// The plaintext modulus differs.
    PlaintextModulus { actual: u64, expected: u64 },
    /// The number of ciphertext moduli differs.
    CoeffModulusLength { actual: usize, expected: usize },
    /// The size of a ciphertext modulus differs.
    CoeffModulusBits { actual: Vec<usize>, expected: Vec<usize> },
}

/// Compares parameters with the expected ones and reports the first difference: of the degree,
/// the plaintext modulus, the number of moduli, their sizes.
pub fn verify(params: &BfvContext) -> (r: Result<(), SealCompatError>)
    ensures
        r is Ok <==> params.spec_degree() == EXPECTED_POLY_DEGREE && params.spec_plaintext()
            == EXPECTED_PLAINTEXT_MODULUS && params.spec_moduli_sizes() == expected_moduli_sizes(),
        params.spec_degree() != EXPECTED_POLY_DEGREE ==> (r matches Err(
            SealCompatError::PolyDegree { actual, expected },
        ) && actual == params.spec_degree() && expected == EXPECTED_POLY_DEGREE),
        params.spec_degree() == EXPECTED_POLY_DEGREE && params.spec_plaintext()
            != EXPECTED_PLAINTEXT_MODULUS ==> (r matches Err(
            SealCompatError::PlaintextModulus { actual, expected },
        ) && actual == params.spec_plaintext() && expected == EXPECTED_PLAINTEXT_MODULUS),
        params.spec_degree() == EXPECTED_POLY_DEGREE && params.spec_plaintext()
            == EXPECTED_PLAINTEXT_MODULUS && params.spec_moduli_sizes().len() != 1 ==> (r matches Err(
            SealCompatError::CoeffModulusLength { actual, expected },
        ) && actual == params.spec_moduli_sizes().len() && expected == 1),
        params.spec_degree() == EXPECTED_POLY_DEGREE && params.spec_plaintext()
            == EXPECTED_PLAINTEXT_MODULUS && params.spec_moduli_sizes().len() == 1
            && params.spec_moduli_sizes() != expected_moduli_sizes() ==> (r matches Err(
            SealCompatError::CoeffModulusBits { actual, expected },
        ) && actual@ == params.spec_moduli_sizes() && expected@ == expected_moduli_sizes()),
{
    let degree: usize = params.degree();
    if degree != EXPECTED_POLY_DEGREE {
        return Err(
            SealCompatError::PolyDegree { actual: degree, expected: EXPECTED_POLY_DEGREE },
        );
    }
    let plaintext: u64 = params.plaintext();
    if plaintext != EXPECTED_PLAINTEXT_MODULUS {
        return Err(
            SealCompatError::PlaintextModulus {
                actual: plaintext,
                expected: EXPECTED_PLAINTEXT_MODULUS,
            },
        );
    }
    let sizes: &[usize] = params.moduli_sizes();
    let expected: Vec<usize> = expected_coeff_modulus_bits();
    if sizes.len() != expected.len() {
        return Err(
            SealCompatError::CoeffModulusLength { actual: sizes.len(), expected: expected.len() },
        );
    }
    if sizes[0] != expected[0] {
        assert(sizes@[0] != expected_moduli_sizes()[0]);
        return Err(
            SealCompatError::CoeffModulusBits {
                actual: vstd::slice::slice_to_vec(sizes),
                expected,
            },
        );
    }
    assert(sizes@ =~= expected_moduli_sizes());
    Ok(())
}

} // verus!
