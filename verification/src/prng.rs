//! Deterministic pseudorandom streams.

use rand::rngs::ChaCha20Rng;
use rand::RngExt;
use rand::SeedableRng;
use vstd::prelude::*;

verus! {

/// Word `index` of the ChaCha20 stream of a 32-byte seed.
pub uninterp spec fn chacha20_word(seed: Seq<u8>, index: nat) -> u32;

/// The 32-byte seed that stands for a 64-bit seed.
pub uninterp spec fn expanded_seed(seed: u64) -> Seq<u8>;

/// Reads `count` words of a ChaCha20 stream, starting at word `first`.
///
/// Calls `ChaCha20Rng::from_seed`, `ChaCha20Rng::set_word_pos` and `RngExt::fill`. Believed of
/// them: the words of a seed form one fixed sequence, `set_word_pos` moves to a position in it, and
/// `fill` hands out the words from there in order.
#[verifier::external_body]
fn chacha20_words(seed: &[u8; 32], first: u64, count: usize) -> (words: Vec<u32>)
    ensures
        words@.len() == count,
        forall|i: int| 0 <= i < count ==> words@[i] == chacha20_word(seed@, (first + i) as nat),
{
    let mut rng = ChaCha20Rng::from_seed(*seed);
    rng.set_word_pos(first as u128);
    let mut words = vec![0u32; count];
    rng.fill(&mut words[..]);
    words
}

/// Expands a 64-bit seed to the 32 bytes that a ChaCha20 generator is started with.
///
/// Calls `ChaCha20Rng::seed_from_u64` and `ChaCha20Rng::get_seed`. Believed of them: the bytes
/// depend on the 64-bit seed alone.
#[verifier::external_body]
pub(crate) fn expand_seed(seed: u64) -> (bytes: [u8; 32])
    ensures
        bytes@ == expanded_seed(seed),
{
    ChaCha20Rng::seed_from_u64(seed).get_seed()
}

/// Draws a number from the thread's generator.
///
/// Calls `rand::rng` and `RngExt::random`. Nothing is believed of the number.
#[verifier::external_body]
fn draw_u64() -> (x: u64) {
    rand::rng().random()
}

/// Draws 32 bytes from the thread's generator.
///
/// Calls `rand::rng` and `RngExt::random`. Nothing is believed of the bytes.
#[verifier::external_body]
pub(crate) fn draw_seed() -> (seed: [u8; 32]) {
    rand::rng().random()
}

/// Draws 16 bytes from the thread's generator.
///
/// Calls `rand::rng` and `RngExt::random`. Nothing is believed of the bytes.
#[verifier::external_body]
pub(crate) fn draw_nonce() -> (nonce: [u8; 16]) {
    rand::rng().random()
}

/// Draws `count` numbers from the thread's generator.
pub fn draw_u64s(count: usize) -> (numbers: Vec<u64>)
    ensures
        numbers@.len() == count,
{
    let mut numbers: Vec<u64> = Vec::with_capacity(count);
    for i in 0..count
        invariant
            numbers@.len() == i,
    {
        numbers.push(draw_u64());
    }
    numbers
}

/// The `index`-th 64-bit number of a stream: two words, the low half first.
pub open spec fn chacha20_u64(seed: Seq<u8>, index: nat) -> u64 {
    (chacha20_word(seed, 2 * index) + 0x1_0000_0000 * chacha20_word(seed, 2 * index + 1)) as u64
}

/// The `index`-th byte of a stream of bytes: the low byte of a word each.
pub open spec fn chacha20_u8(seed: Seq<u8>, index: nat) -> u8 {
    (chacha20_word(seed, index) % 256) as u8
}

/// Draws `count` 64-bit numbers, starting at number `first` of the stream.
pub fn chacha20_u64s(seed: &[u8; 32], first: u64, count: usize) -> (numbers: Vec<u64>)
    requires
        2 * first <= u64::MAX,
        2 * count <= usize::MAX,
    ensures
        numbers@.len() == count,
        forall|i: int|
            0 <= i < count ==> numbers@[i] == chacha20_u64(seed@, (first + i) as nat),
{
    let words: Vec<u32> = chacha20_words(seed, 2 * first, 2 * count);
    let mut numbers: Vec<u64> = Vec::with_capacity(count);
    for i in 0..count
        invariant
            2 * count <= usize::MAX,
            words@.len() == 2 * count,
            forall|j: int|
                0 <= j < 2 * count ==> words@[j] == chacha20_word(seed@, (2 * first + j) as nat),
            numbers@.len() == i,
            forall|j: int| 0 <= j < i ==> numbers@[j] == chacha20_u64(seed@, (first + j) as nat),
    {
        let lo: u64 = words[2 * i] as u64;
        let hi: u64 = words[2 * i + 1] as u64;
        numbers.push(lo + 0x1_0000_0000 * hi);
        proof {
            assert((2 * first + 2 * i) as nat == 2 * ((first + i) as nat));
            assert((2 * first + (2 * i + 1)) as nat == 2 * ((first + i) as nat) + 1);
        }
    }
    numbers
}

/// Draws the first `count` bytes of a stream.
pub fn chacha20_u8s(seed: &[u8; 32], count: usize) -> (bytes: Vec<u8>)
    ensures
        bytes@.len() == count,
        forall|i: int| 0 <= i < count ==> bytes@[i] == chacha20_u8(seed@, i as nat),
{
    let words: Vec<u32> = chacha20_words(seed, 0, count);
    let mut bytes: Vec<u8> = Vec::with_capacity(count);
    for i in 0..count
        invariant
            words@.len() == count,
            forall|j: int| 0 <= j < count ==> words@[j] == chacha20_word(seed@, j as nat),
            bytes@.len() == i,
            forall|j: int| 0 <= j < i ==> bytes@[j] == chacha20_u8(seed@, j as nat),
    {
        bytes.push((words[i] % 256) as u8);
    }
    bytes
}

/// The numbers of a stream use up its words two by two and in order: no two numbers share a word, and
/// a number's low half is the first of its words.
pub proof fn numbers_take_words_in_pairs(seed: Seq<u8>, index: nat)
    ensures
        chacha20_u64(seed, index) as int % 0x1_0000_0000 == chacha20_word(seed, 2 * index),
        chacha20_u64(seed, index) as int / 0x1_0000_0000 == chacha20_word(seed, 2 * index + 1),
{
}

/// The bytes of a stream are the low bytes of its words, one of each.
pub proof fn bytes_are_low_bytes_of_words(seed: Seq<u8>, index: nat)
    ensures
        (chacha20_word(seed, index) - chacha20_u8(seed, index)) % 256 == 0,
{
}

} // verus!
