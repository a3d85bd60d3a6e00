//! The BFV scheme of the `fhe` crate, as far as the compression of hints needs it.

use std::sync::Arc;

use fhe::bfv::SecretKey as SchemeKey;
use fhe::bfv::{
    dot_product_scalar, BfvParameters, BfvParametersBuilder, Ciphertext, Encoding, Plaintext,
};
use fhe_traits::{FheDecoder, FheDecrypter, FheEncoder, FheEncrypter};
use rand_chacha::rand_core::{RngCore, SeedableRng};
use rand_chacha::ChaCha20Rng;
use vstd::arithmetic::power2::{lemma2_to64_rest, pow2};
use vstd::prelude::*;

use crate::tiptoe::seal_compat;
use crate::tiptoe::seal_compat::SealCompatError;

verus! {

/// Parameters and tables of the scheme.
#[verifier::external_type_specification]
#[verifier::external_body]
pub struct ExBfvParameters(BfvParameters);

/// A polynomial of small coefficients.
#[verifier::external_type_specification]
#[verifier::external_body]
pub struct ExPlaintext(Plaintext);

/// An encrypted polynomial: the polynomials of a `Ciphertext` of the scheme.
#[verifier::external_body]
pub struct BfvCiphertext {
    inner: Ciphertext,
}

/// A secret key of the scheme.
#[verifier::external_type_specification]
#[verifier::external_body]
pub struct ExSchemeKey(SchemeKey);

/// A failure of the scheme.
#[verifier::external_type_specification]
#[verifier::external_body]
pub struct ExFheError(fhe::Error);

/// The generator that the scheme draws from.
#[verifier::external_type_specification]
#[verifier::external_body]
pub struct ExBfvRng(rand_chacha::ChaCha20Rng);

/// Parameters of the scheme with the numbers that the library reads of them.
#[derive(Clone)]
pub struct BfvContext {
    degree: usize,
    plaintext: u64,
    moduli_sizes: Arc<Vec<usize>>,
    handle: Arc<BfvParameters>,
}

/// A secret key with the parameters that it was drawn for.
pub struct BfvSecretKey {
    degree: usize,
    plaintext: u64,
    moduli_sizes: Arc<Vec<usize>>,
    handle: Arc<BfvParameters>,
    key: SchemeKey,
}

/// The generator that is started with a 64-bit seed.
pub uninterp spec fn generator_started(seed: u64) -> ChaCha20Rng;

/// The generator that is started with 32 bytes.
pub uninterp spec fn generator_started_with(seed: Seq<u8>) -> ChaCha20Rng;

/// The 32 bytes that a generator hands out next, and the generator after that.
pub uninterp spec fn seed_drawn(rng: ChaCha20Rng) -> (Seq<u8>, ChaCha20Rng);

/// The key that is drawn for parameters, and the generator after that.
pub uninterp spec fn key_drawn(parameters: BfvParameters, rng: ChaCha20Rng) -> (
    SchemeKey,
    ChaCha20Rng,
);

/// The parameters that a plaintext was encoded for.
pub uninterp spec fn plaintext_parameters(pt: Plaintext) -> BfvParameters;

/// The parameters that a ciphertext was made under.
pub uninterp spec fn ciphertext_parameters(ct: BfvCiphertext) -> BfvParameters;

/// The coefficients that a plaintext holds.
pub uninterp spec fn plaintext_coefficients(pt: Plaintext) -> Seq<u64>;

/// What a ciphertext decrypts to under a key, if it can be decrypted.
pub uninterp spec fn bfv_decryption(key: SchemeKey, ct: BfvCiphertext) -> Option<Seq<u64>>;

/// The sum of the products of ciphertexts with plaintexts, if it can be formed.
pub uninterp spec fn bfv_dot_product(cts: Seq<BfvCiphertext>, pts: Seq<Plaintext>) -> Option<
    BfvCiphertext,
>;

/// Parameters that can be asked for: the degree is at most `2^15`, there are at most sixteen
/// moduli, and the plaintext modulus is below each of them.
pub open spec fn can_build(degree: usize, plaintext: u64, moduli_sizes: Seq<usize>) -> bool {
    &&& degree <= 0x8000
    &&& moduli_sizes.len() <= 16
    &&& forall|i: int|
        0 <= i < moduli_sizes.len() && 10 <= #[trigger] moduli_sizes[i] <= 62 ==> plaintext < pow2(
            (moduli_sizes[i] - 1) as nat,
        )
}

/// What the scheme asks of parameters: a degree that is at least eight, a plaintext modulus of two
/// up to 62 bits, and moduli of 10 to 62 bits.
pub open spec fn in_range(degree: usize, plaintext: u64, moduli_sizes: Seq<usize>) -> bool {
    &&& 8 <= degree
    &&& 2 <= plaintext < 0x4000_0000_0000_0000
    &&& 0 < moduli_sizes.len()
    &&& forall|i: int| 0 <= i < moduli_sizes.len() ==> 10 <= #[trigger] moduli_sizes[i] <= 62
}

/// The parameters of the text search.
pub open spec fn are_for_text(degree: int, plaintext: u64, moduli_sizes: Seq<usize>) -> bool {
    &&& degree == seal_compat::EXPECTED_POLY_DEGREE
    &&& plaintext == seal_compat::EXPECTED_PLAINTEXT_MODULUS
    &&& moduli_sizes == seal_compat::expected_moduli_sizes()
}

/// Builds parameters and reads back degree, plaintext modulus and sizes of the moduli.
///
/// Calls `BfvParametersBuilder::build` and the getters of `BfvParameters`. Believed of them: what
/// was asked for is what was built; what is out of range is refused; and the parameters of the text
/// search are built. Whether there are enough primes for others is not said. Left out are plaintext
/// moduli that may share a factor with a ciphertext modulus, on which building panics, and degrees
/// and numbers of moduli for which the primes of the multiplication may run out.
///
/// Parameters count as equal where they come from the same call, as the scheme tells them apart.
#[verifier::external_body]
fn build_parameters(degree: usize, plaintext: u64, moduli_sizes: &[usize]) -> (r: Result<
    (Arc<BfvParameters>, usize, u64, Vec<usize>),
    fhe::Error,
>)
    requires
        can_build(degree, plaintext, moduli_sizes@),
    ensures
        r matches Ok(built) ==> built.1 == degree && built.2 == plaintext && built.3@
            == moduli_sizes@,
        r is Ok ==> in_range(degree, plaintext, moduli_sizes@),
        are_for_text(degree as int, plaintext, moduli_sizes@) ==> r is Ok,
{
    let mut builder = BfvParametersBuilder::new();
    builder.set_degree(degree).set_plaintext_modulus(plaintext).set_moduli_sizes(moduli_sizes);
    let handle = builder.build_arc()?;
    let sizes = handle.moduli_sizes().to_vec();
    Ok((handle.clone(), handle.degree(), handle.plaintext(), sizes))
}

/// Encodes numbers as the coefficients of a polynomial.
///
/// Calls `Plaintext::try_encode` with `Encoding::poly`. Believed of it, for numbers below 512: it
/// fails only on more numbers than the degree, and the plaintext holds the numbers followed by
/// zeros, for the parameters that were given.
///
/// With one modulus the call hands the numbers unreduced to a transform that asserts that they are
/// below four times the modulus, and whose sums can overflow on larger ones. A modulus has at least
/// ten bits, so that numbers below 512 are below every modulus.
#[verifier::external_body]
pub(crate) fn encode(context: &BfvContext, values: &[u64]) -> (r: Result<Plaintext, fhe::Error>)
    requires
        forall|i: int| 0 <= i < values@.len() ==> #[trigger] values@[i] < 512,
    ensures
        r is Ok <==> values@.len() <= context.spec_degree(),
        r matches Ok(pt) ==> plaintext_coefficients(pt) == padded(values@, context.spec_degree()),
        r matches Ok(pt) ==> plaintext_parameters(pt) == *context.spec_handle(),
{
    Plaintext::try_encode(values, Encoding::poly(), &context.handle)
}

/// A generator that is started with a 64-bit seed.
///
/// Calls `ChaCha20Rng::seed_from_u64`. Believed of it: the generator depends on the seed alone.
#[verifier::external_body]
pub(crate) fn seeded_generator(seed: u64) -> (rng: ChaCha20Rng)
    ensures
        rng == generator_started(seed),
{
    ChaCha20Rng::seed_from_u64(seed)
}

/// Draws the seed of another generator.
///
/// Calls `RngCore::fill_bytes`. Believed of it: the bytes, and how the generator goes on, depend on
/// the generator alone.
#[verifier::external_body]
pub(crate) fn next_seed(rng: &mut ChaCha20Rng) -> (seed: [u8; 32])
    ensures
        (seed@, *final(rng)) == seed_drawn(*old(rng)),
{
    let mut seed = [0u8; 32];
    rng.fill_bytes(&mut seed);
    seed
}

/// A generator that is started with 32 bytes.
///
/// Calls `ChaCha20Rng::from_seed`. Believed of it: the generator depends on the bytes alone.
#[verifier::external_body]
pub(crate) fn generator_of(seed: &[u8; 32]) -> (rng: ChaCha20Rng)
    ensures
        rng == generator_started_with(seed@),
{
    ChaCha20Rng::from_seed(*seed)
}

/// Draws a secret key.
///
/// Calls `SecretKey::random`. Believed of it: the key, and how the generator goes on, depend on the
/// parameters and the generator alone.
#[verifier::external_body]
fn random_key(handle: &Arc<BfvParameters>, rng: &mut ChaCha20Rng) -> (key: SchemeKey)
    ensures
        (key, *final(rng)) == key_drawn(**handle, *old(rng)),
{
    SchemeKey::random(handle, rng)
}

/// Encrypts the polynomial with the given coefficients.
///
/// Calls `Plaintext::try_encode` and `SecretKey::try_encrypt`. Believed of them: no more numbers
/// than the degree can be encrypted, the ciphertext is one for the key's parameters, and under the
/// parameters of the text search it decrypts to the coefficients. The noise that is added to a
/// coefficient is at most twenty in size, and a modulus of 38 bits leaves room for more than
/// `2^19`. Otherwise the ciphertext is random: half of it comes from the thread's generator. Nothing
/// is said of what it decrypts to under parameters that may leave less room.
#[verifier::external_body]
pub(crate) fn encrypt(key: &BfvSecretKey, values: &[u64], rng: &mut ChaCha20Rng) -> (r: Result<
    BfvCiphertext,
    fhe::Error,
>)
    requires
        values@.len() <= key.spec_degree(),
        forall|i: int| 0 <= i < values@.len() ==> #[trigger] values@[i] < key.spec_plaintext(),
    ensures
        r is Ok,
        ciphertext_parameters(r->Ok_0) == *key.spec_handle(),
        key.leaves_room() ==> bfv_decryption(key.spec_key(), r->Ok_0) == Some(
            padded(values@, key.spec_degree()),
        ),
{
    let pt = Plaintext::try_encode(values, Encoding::poly(), &key.handle)?;
    Ok(BfvCiphertext { inner: key.key.try_encrypt(&pt, rng)? })
}

/// Ciphertexts and plaintexts for the same parameters.
pub open spec fn are_for_same(
    cts: Seq<BfvCiphertext>,
    pts: Seq<Plaintext>,
    parameters: BfvParameters,
) -> bool {
    &&& forall|i: int| 0 <= i < cts.len() ==> ciphertext_parameters(#[trigger] cts[i]) == parameters
    &&& forall|i: int| 0 <= i < pts.len() ==> plaintext_parameters(#[trigger] pts[i]) == parameters
}

/// Multiplies ciphertexts with plaintexts and adds the products up.
///
/// Calls `dot_product_scalar`. Believed of it: the result depends on the arguments alone. The sum of
/// one product or more can be formed where ciphertexts and plaintexts are for the same parameters,
/// as all ciphertexts have two polynomials, and is a ciphertext for the parameters of the first.
#[verifier::external_body]
pub(crate) fn dot_product(cts: &[BfvCiphertext], pts: &[Plaintext]) -> (r: Result<
    BfvCiphertext,
    fhe::Error,
>)
    ensures
        r is Ok <==> bfv_dot_product(cts@, pts@) is Some,
        r matches Ok(ct) ==> bfv_dot_product(cts@, pts@) == Some(ct),
        r matches Ok(ct) ==> 0 < cts@.len() && 0 < pts@.len() && ciphertext_parameters(ct)
            == ciphertext_parameters(cts@[0]),
        0 < cts@.len() && 0 < pts@.len() && are_for_same(cts@, pts@, ciphertext_parameters(cts@[0]))
            ==> r is Ok,
{
    let inner = dot_product_scalar(cts.iter().map(|ct| &ct.inner), pts.iter())?;
    Ok(BfvCiphertext { inner })
}

/// Decrypts to coefficients.
///
/// Calls `SecretKey::try_decrypt` and `Vec::<u64>::try_decode` with `Encoding::poly`. Believed of
/// them: a ciphertext can be decrypted exactly if it is for the key's parameters, the result depends
/// on key and ciphertext alone, and it has as many coefficients as the degree, each below the
/// plaintext modulus.
#[verifier::external_body]
pub(crate) fn decrypt(key: &BfvSecretKey, ct: &BfvCiphertext) -> (r: Result<Vec<u64>, fhe::Error>)
    ensures
        r is Ok <==> bfv_decryption(key.spec_key(), *ct) is Some,
        r is Ok <==> ciphertext_parameters(*ct) == *key.spec_handle(),
        r matches Ok(values) ==> bfv_decryption(key.spec_key(), *ct) == Some(values@),
        r matches Ok(values) ==> values@.len() == key.spec_degree(),
        r matches Ok(values) ==> forall|i: int|
            0 <= i < values@.len() ==> #[trigger] values@[i] < key.spec_plaintext(),
{
    let pt = key.key.try_decrypt(&ct.inner)?;
    Vec::<u64>::try_decode(&pt, Encoding::poly())
}

/// Numbers followed by zeros.
pub open spec fn padded(values: Seq<u64>, len: int) -> Seq<u64> {
    Seq::new(
        len as nat,
        |i: int|
            if i < values.len() {
                values[i]
            } else {
                0
            },
    )
}

impl BfvContext {
    /// Number of coefficients of a polynomial.
    pub closed spec fn spec_degree(&self) -> int {
        self.degree as int
    }

    /// The plaintext modulus.
    pub closed spec fn spec_plaintext(&self) -> u64 {
        self.plaintext
    }

    /// Sizes of the ciphertext moduli in bits.
    pub closed spec fn spec_moduli_sizes(&self) -> Seq<usize> {
        self.moduli_sizes@
    }

    /// The parameters as the scheme takes them.
    pub closed spec fn spec_handle(&self) -> Arc<BfvParameters> {
        self.handle
    }

    /// Builds parameters of the given degree, plaintext modulus and sizes of the moduli.
    ///
    /// Whether there are enough primes for them is left to the scheme. There are for the parameters
    /// of the text search.
    pub fn build(degree: usize, plaintext: u64, moduli_sizes: &[usize]) -> (r: Result<
        BfvContext,
        fhe::Error,
    >)
        requires
            can_build(degree, plaintext, moduli_sizes@),
        ensures
            r matches Ok(context) ==> context.spec_degree() == degree && context.spec_plaintext()
                == plaintext && context.spec_moduli_sizes() == moduli_sizes@,
            r is Ok ==> in_range(degree, plaintext, moduli_sizes@),
            are_for_text(degree as int, plaintext, moduli_sizes@) ==> r is Ok,
    {
        match build_parameters(degree, plaintext, moduli_sizes) {
            Ok((handle, degree, plaintext, moduli_sizes)) => Ok(
                BfvContext { degree, plaintext, moduli_sizes: Arc::new(moduli_sizes), handle },
            ),
            Err(e) => Err(e),
        }
    }

    /// Number of coefficients of a polynomial.
    pub fn degree(&self) -> (r: usize)
        ensures
            r == self.spec_degree(),
    {
        self.degree
    }

    /// The plaintext modulus.
    pub fn plaintext(&self) -> (r: u64)
        ensures
            r == self.spec_plaintext(),
    {
        self.plaintext
    }

    /// The parameters as the scheme takes them.
    pub fn handle(&self) -> (r: &Arc<BfvParameters>)
        ensures
            *r == self.spec_handle(),
    {
        &self.handle
    }

    /// Sizes of the ciphertext moduli in bits.
    pub fn moduli_sizes(&self) -> (r: &[usize])
        ensures
            r@ == self.spec_moduli_sizes(),
    {
        self.moduli_sizes.as_slice()
    }
}

impl BfvSecretKey {
    /// Number of coefficients of a polynomial.
    pub closed spec fn spec_degree(&self) -> int {
        self.degree as int
    }

    /// The plaintext modulus.
    pub closed spec fn spec_plaintext(&self) -> u64 {
        self.plaintext
    }

    /// Sizes of the ciphertext moduli in bits.
    pub closed spec fn spec_moduli_sizes(&self) -> Seq<usize> {
        self.moduli_sizes@
    }

    /// The parameters are those of the text search, which leave room for the noise of an
    /// encryption.
    pub open spec fn leaves_room(&self) -> bool {
        are_for_text(self.spec_degree(), self.spec_plaintext(), self.spec_moduli_sizes())
    }

    /// The parameters as the scheme takes them.
    pub closed spec fn spec_handle(&self) -> Arc<BfvParameters> {
        self.handle
    }

    /// The key itself.
    pub closed spec fn spec_key(&self) -> SchemeKey {
        self.key
    }

    /// Draws a secret key for the given parameters.
    pub fn random(context: &BfvContext, rng: &mut ChaCha20Rng) -> (key: BfvSecretKey)
        ensures
            key.spec_degree() == context.spec_degree(),
            key.spec_plaintext() == context.spec_plaintext(),
            key.spec_moduli_sizes() == context.spec_moduli_sizes(),
            key.spec_handle() == context.spec_handle(),
            (key.spec_key(), *final(rng)) == key_drawn(*context.spec_handle(), *old(rng)),
    {
        let key: SchemeKey = random_key(&context.handle, rng);
        BfvSecretKey {
            degree: context.degree,
            plaintext: context.plaintext,
            moduli_sizes: Arc::clone(&context.moduli_sizes),
            handle: Arc::clone(&context.handle),
            key,
        }
    }
}

/// Why the parameters of the text search could not be had.
#[derive(Debug)]
pub enum BfvSetupError {
    /// The scheme refused them.
    Build(fhe::Error),
    /// They differ from the expected ones.
    Parity(SealCompatError),
}

/// Builds the parameters of the text search and checks them: no other parameters get out.
pub fn tiptoe_text_params() -> (r: Result<BfvContext, BfvSetupError>)
    ensures
        r is Ok,
        are_for_text(
            r->Ok_0.spec_degree(),
            r->Ok_0.spec_plaintext(),
            r->Ok_0.spec_moduli_sizes(),
        ),
{
    let sizes: Vec<usize> = seal_compat::expected_coeff_modulus_bits();
    proof {
        lemma2_to64_rest();
    }
    let context: BfvContext = match BfvContext::build(
        seal_compat::EXPECTED_POLY_DEGREE,
        seal_compat::EXPECTED_PLAINTEXT_MODULUS,
        &sizes,
    ) {
        Ok(context) => context,
        Err(e) => return Err(BfvSetupError::Build(e)),
    };
    match seal_compat::verify(&context) {
        Ok(()) => Ok(context),
        Err(e) => Err(BfvSetupError::Parity(e)),
    }
}

/// Padding keeps every number in its place and fills up with zeros.
pub proof fn padding_keeps_every_number(values: Seq<u64>, len: nat)
    requires
        values.len() <= len,
    ensures
        padded(values, len as int) == values + Seq::new(
            (len - values.len()) as nat,
            |i: int| 0u64,
        ),
{
}

} // verus!
