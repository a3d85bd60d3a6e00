//! Parameters of the encrypted matrix-vector product.

use vstd::prelude::*;

verus! {

/// The field modulus, the Mersenne prime `2^61 - 1`.
pub const P: u64 = 0x1FFF_FFFF_FFFF_FFFF;

/// Bytes that one field element takes on the wire.
pub const FIELD_BYTES: usize = 8;

/// The quantisation scale, `2^20`.
pub const Q: u64 = 0x10_0000;

/// The shape of the scheme: ciphertext rows have `n = ell0 + k` elements, which the server
/// handles in `s` blocks of `b`.
#[derive(Debug, Clone, Copy, PartialEq, Eq, Structural)]
pub struct EmvpParams {
    /// Elements of a ciphertext row.
    pub n: usize,
    /// Elements of a query mask.
    pub k: usize,
    /// Number of blocks.
    pub s: usize,
    /// Elements of a block.
    pub b: usize,
    /// Longest vector that can be encrypted.
    pub ell0: usize,
}

/// Elements of a ciphertext row at 128 bits of security.
pub const N: usize = 1292;

/// Elements of a query mask at 128 bits of security.
pub const K: usize = 268;

/// Number of blocks at 128 bits of security.
pub const S: usize = 76;

/// Elements of a block at 128 bits of security.
pub const B: usize = 17;

/// Longest vector that can be encrypted at 128 bits of security.
pub const ELL0: usize = 1024;

impl EmvpParams {
    /// The parameter set for 128 bits of security.
    pub fn sec128() -> (params: Self)
        ensures
            params == (EmvpParams { n: N, k: K, s: S, b: B, ell0: ELL0 }),
            params.n == params.ell0 + params.k,
            params.n == params.s * params.b,
    {
        assert(S * B == N) by (nonlinear_arith);
        EmvpParams { n: N, k: K, s: S, b: B, ell0: ELL0 }
    }
}

} // verus!
