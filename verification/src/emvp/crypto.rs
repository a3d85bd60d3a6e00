//! Encryption of a cluster, encoding of a query, the server's products and the client's decoding.
//!
//! A cluster is a matrix `M0` of quantised vectors, one per row. With `D = [I | D']` and a mask
//! `R`, both pseudorandom, the server holds `M0 * D + R`. A query `q` is sent as
//! `(q - D' * u | u)` for a random `u`, so that `D` times the sent vector is `q`. The client takes
//! `R` times the sent vector off what the server returns.

use vstd::prelude::*;

use crate::emvp::field;
use crate::emvp::field::{decode_field, fp_add, fp_mul, fp_neg, fp_reduce, quantize};
use crate::emvp::params::{B, ELL0, FIELD_BYTES, K, N, P, S};
use crate::math::congruence;
use crate::math::layout;
use crate::math::sums;
use crate::parallel::parallel_map;
use crate::prng;
use crate::prng::chacha20_u64s;

verus! {

/// Every number is a field element.
pub open spec fn in_field(v: Seq<u64>) -> bool {
    forall|i: int| 0 <= i < v.len() ==> #[trigger] v[i] < P
}

/// The products of two strided runs of field elements, summed in the field.
fn fp_dot(
    a: &[u64],
    a_from: usize,
    a_step: usize,
    b: &[u64],
    b_from: usize,
    b_step: usize,
    count: usize,
) -> (r: u64)
    requires
        in_field(a@),
        in_field(b@),
        count > 0 ==> a_from + (count - 1) * a_step < a@.len(),
        count > 0 ==> b_from + (count - 1) * b_step < b@.len(),
    ensures
        r == sums::strided_dot(
            a@,
            a_from as int,
            a_step as int,
            b@,
            b_from as int,
            b_step as int,
            count as int,
        ) % P as int,
{
    let ghost f = |t: int| a@[a_from + t * a_step] * b@[b_from + t * b_step];
    let mut acc: u64 = 0;
    for t in 0..count
        invariant
            a.len() == a@.len(),
            b.len() == b@.len(),
            in_field(a@),
            in_field(b@),
            count > 0 ==> a_from + (count - 1) * a_step < a@.len(),
            count > 0 ==> b_from + (count - 1) * b_step < b@.len(),
            f == (|t: int| a@[a_from + t * a_step] * b@[b_from + t * b_step]),
            acc == sums::sum(t as int, f) % P as int,
            acc < P,
    {
        assert(0 <= t * a_step <= (count - 1) * a_step) by (nonlinear_arith)
            requires
                0 <= t <= count - 1,
                0 <= a_step,
        ;
        assert(0 <= t * b_step <= (count - 1) * b_step) by (nonlinear_arith)
            requires
                0 <= t <= count - 1,
                0 <= b_step,
        ;
        let x: u64 = a[a_from + t * a_step];
        let y: u64 = b[b_from + t * b_step];
        let product: u64 = fp_mul(x, y);
        proof {
            let before = sums::sum(t as int, f);
            congruence::lemma_congruent_remainder(before, P as int);
            congruence::lemma_congruent_remainder(x * y, P as int);
            congruence::lemma_congruent_sum(
                before % P as int,
                before,
                (x * y) % P as int,
                x * y,
                P as int,
            );
            congruence::lemma_congruent_iff_same_remainder(
                acc + product,
                before + x * y,
                P as int,
            );
            assert(sums::sum(t + 1, f) == before + f(t as int));
        }
        acc = fp_add(acc, product);
    }
    acc
}

/// Entry `(i, j)` of the matrix `D = [I | D']` of a key.
pub open spec fn d_entry(key_seed: Seq<u8>, i: int, j: int) -> u64 {
    if j < ELL0 {
        if i == j {
            1
        } else {
            0
        }
    } else {
        (prng::chacha20_u64(key_seed, (i * K + (j - ELL0)) as nat) % P) as u64
    }
}

/// A matrix of `ELL0` rows of `N` field elements whose first `ELL0` columns are the identity.
pub open spec fn is_d_matrix(d: Seq<u64>) -> bool {
    &&& d.len() == ELL0 * N
    &&& in_field(d)
    &&& forall|i: int, j: int|
        0 <= i < ELL0 && 0 <= j < ELL0 ==> #[trigger] d[i * N + j] == (if i == j {
            1u64
        } else {
            0u64
        })
}

/// Builds `D = [I | D']` from a key; `D'` is drawn row by row from the key's stream.
pub fn generate_d(key_seed: &[u8; 32]) -> (d: Vec<u64>)
    ensures
        is_d_matrix(d@),
        forall|i: int, j: int|
            0 <= i < ELL0 && 0 <= j < N ==> #[trigger] d@[i * N + j] == d_entry(key_seed@, i, j),
{
    assert(ELL0 * K == 274432 && ELL0 * N == 1323008) by (nonlinear_arith);
    let draws: Vec<u64> = chacha20_u64s(key_seed, 0, ELL0 * K);
    let mut d: Vec<u64> = Vec::with_capacity(ELL0 * N);
    for i in 0..ELL0
        invariant
            ELL0 * K == 274432,
            ELL0 * N == 1323008,
            draws@.len() == ELL0 * K,
            forall|t: int|
                0 <= t < ELL0 * K ==> draws@[t] == prng::chacha20_u64(key_seed@, t as nat),
            d@.len() == i * N,
            forall|t: int|
                0 <= t < d@.len() ==> #[trigger] d@[t] == d_entry(
                    key_seed@,
                    t / (N as int),
                    t % (N as int),
                ),
    {
        for j in 0..N
            invariant
                0 <= i < ELL0,
                ELL0 * K == 274432,
                ELL0 * N == 1323008,
                draws@.len() == ELL0 * K,
                forall|t: int|
                    0 <= t < ELL0 * K ==> draws@[t] == prng::chacha20_u64(key_seed@, t as nat),
                d@.len() == i * N + j,
                forall|t: int|
                    0 <= t < d@.len() ==> #[trigger] d@[t] == d_entry(
                        key_seed@,
                        t / (N as int),
                        t % (N as int),
                    ),
        {
            proof {
                layout::lemma_entry_in_range(i as int, j as int, ELL0 as int, N as int);
            }
            if j < ELL0 {
                d.push(if i == j { 1 } else { 0 });
            } else {
                proof {
                    layout::lemma_entry_in_range(i as int, j - ELL0, ELL0 as int, K as int);
                }
                d.push(draws[i * K + (j - ELL0)] % P);
            }
        }
        assert(i * N + N == (i + 1) * N) by (nonlinear_arith);
    }
    proof {
        assert forall|i: int, j: int| 0 <= i < ELL0 && 0 <= j < N implies #[trigger] d@[i * N + j]
            == d_entry(key_seed@, i, j) by {
            layout::lemma_entry_in_range(i, j, ELL0 as int, N as int);
        }
    }
    d
}

/// The seed of the mask of one row: the row's number is mixed into the first eight bytes.
pub open spec fn masked_seed(r_seed: Seq<u8>, row: u64) -> Seq<u8> {
    Seq::new(
        32,
        |i: int|
            if i < 8 {
                r_seed[i] ^ vstd::bytes::spec_u64_to_le_bytes(row)[i]
            } else {
                r_seed[i]
            },
    )
}

/// Entry `(row, j)` of the mask matrix `R` of a cluster.
pub open spec fn mask_entry(r_seed: Seq<u8>, row: u64, j: int) -> u64 {
    (prng::chacha20_u64(masked_seed(r_seed, row), j as nat) % P) as u64
}

/// Derives the seed of one row's mask.
fn row_seed(r_seed: &[u8; 32], row: u64) -> (seed: [u8; 32])
    ensures
        seed@ == masked_seed(r_seed@, row),
{
    let row_bytes: Vec<u8> = vstd::bytes::u64_to_le_bytes(row);
    let mut seed: [u8; 32] = *r_seed;
    for i in 0..8usize
        invariant
            row_bytes@ == vstd::bytes::spec_u64_to_le_bytes(row),
            row_bytes@.len() == 8,
            forall|j: int| 0 <= j < i ==> seed@[j] == r_seed@[j] ^ row_bytes@[j],
            forall|j: int| i <= j < 32 ==> seed@[j] == r_seed@[j],
    {
        seed[i] = r_seed[i] ^ row_bytes[i];
    }
    assert(seed@ =~= masked_seed(r_seed@, row));
    seed
}

/// Draws one row of the mask matrix `R`.
fn mask_row(r_seed: &[u8; 32], row: u64) -> (mask: Vec<u64>)
    ensures
        mask@.len() == N,
        in_field(mask@),
        forall|j: int| 0 <= j < N ==> #[trigger] mask@[j] == mask_entry(r_seed@, row, j),
{
    let seed: [u8; 32] = row_seed(r_seed, row);
    let draws: Vec<u64> = chacha20_u64s(&seed, 0, N);
    let mut mask: Vec<u64> = Vec::with_capacity(N);
    for j in 0..N
        invariant
            draws@.len() == N,
            forall|t: int| 0 <= t < N ==> draws@[t] == prng::chacha20_u64(seed@, t as nat),
            seed@ == masked_seed(r_seed@, row),
            mask@.len() == j,
            forall|t: int| 0 <= t < j ==> #[trigger] mask@[t] == mask_entry(r_seed@, row, t),
    {
        mask.push(draws[j] % P);
    }
    mask
}

/// Component `l` of a vector that is padded with zeros.
pub open spec fn component(v: Seq<i64>, l: int) -> int {
    if 0 <= l < v.len() {
        v[l] as int
    } else {
        0
    }
}

/// Column `j` of `D` times the first `ELL0` components of a vector.
pub open spec fn times_column(d: Seq<u64>, v: Seq<i64>, j: int) -> int {
    sums::sum(ELL0 as int, |l: int| component(v, l) * d[l * N + j])
}

/// Entry `j` of the ciphertext of a vector as row `row` of a cluster.
pub open spec fn encrypted_entry(d: Seq<u64>, r_seed: Seq<u8>, row: u64, v: Seq<i64>, j: int) -> u64 {
    ((times_column(d, v, j) + mask_entry(r_seed, row, j)) % P as int) as u64
}

/// Encrypts one vector as row `row` of a cluster. Components past `ELL0` are left out.
pub fn encrypt_row(d_mat: &[u64], r_seed: &[u8; 32], row: u64, v: &[i64]) -> (out: Vec<u64>)
    requires
        d_mat@.len() == ELL0 * N,
        in_field(d_mat@),
    ensures
        out@.len() == N,
        in_field(out@),
        forall|j: int|
            0 <= j < N ==> #[trigger] out@[j] == encrypted_entry(d_mat@, r_seed@, row, v@, j),
{
    assert(ELL0 * N == 1323008 && (ELL0 - 1) * N == 1321716) by (nonlinear_arith);
    let mut m0_row: Vec<u64> = Vec::with_capacity(ELL0);
    for l in 0..ELL0
        invariant
            m0_row@.len() == l,
            forall|t: int|
                0 <= t < l ==> #[trigger] m0_row@[t] == component(v@, t) % P as int,
    {
        if l < v.len() {
            m0_row.push(quantize(v[l]));
        } else {
            m0_row.push(0);
        }
    }
    let mask: Vec<u64> = mask_row(r_seed, row);
    let mut out: Vec<u64> = Vec::with_capacity(N);
    for j in 0..N
        invariant
            (ELL0 - 1) * N == 1321716,
            ELL0 * N == 1323008,
            d_mat@.len() == ELL0 * N,
            in_field(d_mat@),
            m0_row@.len() == ELL0,
            forall|t: int|
                0 <= t < ELL0 ==> #[trigger] m0_row@[t] == component(v@, t) % P as int,
            mask@.len() == N,
            in_field(mask@),
            forall|t: int| 0 <= t < N ==> #[trigger] mask@[t] == mask_entry(r_seed@, row, t),
            out@.len() == j,
            in_field(out@),
            forall|t: int|
                0 <= t < j ==> #[trigger] out@[t] == encrypted_entry(d_mat@, r_seed@, row, v@, t),
    {
        assert(in_field(m0_row@));
        let dot: u64 = fp_dot(&m0_row, 0, 1, d_mat, j, N, ELL0);
        proof {
            let quantised = |t: int| m0_row@[0 + t * 1] * d_mat@[j + t * N];
            let signed = |l: int| component(v@, l) * d_mat@[l * N + j];
            assert forall|t: int| 0 <= t < ELL0 implies congruence::congruent(
                #[trigger] quantised(t),
                signed(t),
                P as int,
            ) by {
                congruence::lemma_congruent_remainder(component(v@, t), P as int);
                congruence::lemma_congruent_by_multiple(
                    d_mat@[j + t * N] as int,
                    d_mat@[j + t * N] as int,
                    0,
                    P as int,
                );
                congruence::lemma_congruent_product(
                    m0_row@[t] as int,
                    component(v@, t),
                    d_mat@[j + t * N] as int,
                    d_mat@[j + t * N] as int,
                    P as int,
                );
            }
            sums::lemma_sum_congruent(ELL0 as int, quantised, signed, P as int);
            let total = sums::sum(ELL0 as int, quantised);
            let column = times_column(d_mat@, v@, j as int);
            sums::lemma_sum_same(
                ELL0 as int,
                signed,
                |l: int| component(v@, l) * d_mat@[l * N + j],
            );
            congruence::lemma_congruent_remainder(total, P as int);
            congruence::lemma_congruent_chain(dot as int, total, column, P as int);
            congruence::lemma_congruent_by_multiple(
                mask@[j as int] as int,
                mask@[j as int] as int,
                0,
                P as int,
            );
            congruence::lemma_congruent_sum(
                dot as int,
                column,
                mask@[j as int] as int,
                mask@[j as int] as int,
                P as int,
            );
            congruence::lemma_congruent_iff_same_remainder(
                dot + mask@[j as int],
                column + mask@[j as int],
                P as int,
            );
        }
        out.push(fp_add(dot, mask[j]));
    }
    out
}

/// The ciphertext of a cluster: row `i` is the ciphertext of vector `i`.
pub open spec fn is_encryption(
    m_hat: Seq<u64>,
    d: Seq<u64>,
    r_seed: Seq<u8>,
    vectors: Seq<Seq<i64>>,
) -> bool {
    &&& m_hat.len() == vectors.len() * N
    &&& in_field(m_hat)
    &&& forall|i: int, j: int|
        0 <= i < vectors.len() && 0 <= j < N ==> #[trigger] m_hat[i * N + j] == encrypted_entry(
            d,
            r_seed,
            i as u64,
            vectors[i],
            j,
        )
}

/// The contents of a list of lists.
pub open spec fn rows_of(vectors: Seq<Vec<i64>>) -> Seq<Seq<i64>> {
    vectors.map_values(|v: Vec<i64>| v@)
}

/// A row of an encrypted matrix: the encryption of vector `i`.
pub open spec fn is_encrypted_row(
    row: Seq<u64>,
    d: Seq<u64>,
    r_seed: Seq<u8>,
    vectors: Seq<Vec<i64>>,
    i: usize,
) -> bool {
    &&& row.len() == N
    &&& in_field(row)
    &&& forall|j: int|
        0 <= j < N ==> #[trigger] row[j] == encrypted_entry(
            d,
            r_seed,
            i as u64,
            vectors[i as int]@,
            j,
        )
}

/// Encrypts a cluster: `M0 * D + R`, row by row.
pub fn encrypt_cluster<F: Fn(usize) + Sync + Send>(
    d_mat: &[u64],
    r_seed: &[u8; 32],
    vectors: &[Vec<i64>],
    on_row: F,
) -> (m_hat: Vec<u64>)
    requires
        d_mat@.len() == ELL0 * N,
        in_field(d_mat@),
        vectors@.len() * N <= usize::MAX,
        forall|i: usize| i < vectors@.len() ==> call_requires(on_row, (i,)),
    ensures
        is_encryption(m_hat@, d_mat@, r_seed@, rows_of(vectors@)),
{
    let m: usize = vectors.len();
    let rows: Vec<Vec<u64>> = parallel_map(
        m,
        |i: usize| -> (row: Vec<u64>)
            requires
                m > i,
            ensures
                is_encrypted_row(row@, d_mat@, r_seed@, vectors@, i)
            {
                let row: Vec<u64> = encrypt_row(d_mat, r_seed, i as u64, &vectors[i]);
                on_row(i);
                row
            },
    );
    assert forall|i: int| 0 <= i < m implies is_encrypted_row(
        (#[trigger] rows@[i])@,
        d_mat@,
        r_seed@,
        vectors@,
        i as usize,
    ) by {
        assert(rows@[i] == rows@[(i as usize) as int]);
    }
    let m_hat: Vec<u64> = layout::join_rows(rows, N);
    proof {
        assert forall|t: int| 0 <= t < m_hat@.len() implies #[trigger] m_hat@[t] < P by {
            layout::lemma_row_major(t, m as int, N as int);
            let i = t / N as int;
            let j = t % N as int;
            assert(is_encrypted_row(rows@[i]@, d_mat@, r_seed@, vectors@, i as usize));
            assert(m_hat@[i * N + j] == rows@[i]@[j]);
        }
        assert forall|i: int, j: int| 0 <= i < m && 0 <= j < N implies #[trigger] m_hat@[i * N + j]
            == encrypted_entry(d_mat@, r_seed@, i as u64, rows_of(vectors@)[i], j) by {
            assert(is_encrypted_row(rows@[i]@, d_mat@, r_seed@, vectors@, i as usize));
            assert(m_hat@[i * N + j] == rows@[i]@[j]);
        }
    }
    m_hat
}

/// Row `i` of `D'` times a mask.
pub open spec fn times_mask(d: Seq<u64>, u: Seq<u64>, i: int) -> int {
    sums::strided_dot(d, i * N + ELL0, 1, u, 0, 1, K as int)
}

/// Entry `j` of an encoded query: `(q - D' * u | u)`.
pub open spec fn encoded_entry(d: Seq<u64>, query: Seq<i64>, u: Seq<u64>, j: int) -> u64 {
    if j < ELL0 {
        ((query[j] - times_mask(d, u, j)) % P as int) as u64
    } else {
        u[j - ELL0]
    }
}

/// An encoded query.
pub open spec fn is_encoding(q_hat: Seq<u64>, d: Seq<u64>, query: Seq<i64>, u: Seq<u64>) -> bool {
    &&& q_hat.len() == N
    &&& in_field(q_hat)
    &&& forall|j: int| 0 <= j < N ==> #[trigger] q_hat[j] == encoded_entry(d, query, u, j)
}

/// Encodes a query of `ELL0` components as `(q - D' * u | u)` for a mask `u` of `K` elements.
pub fn encode_query(d_mat: &[u64], query: &[i64], u: &[u64]) -> (q_hat: Vec<u64>)
    requires
        d_mat@.len() == ELL0 * N,
        in_field(d_mat@),
        query@.len() >= ELL0,
        u@.len() == K,
        in_field(u@),
    ensures
        is_encoding(q_hat@, d_mat@, query@, u@),
{
    assert(ELL0 * N == 1323008) by (nonlinear_arith);
    let mut q_hat: Vec<u64> = Vec::with_capacity(N);
    for i in 0..ELL0
        invariant
            ELL0 * N == 1323008,
            d_mat@.len() == ELL0 * N,
            in_field(d_mat@),
            query@.len() >= ELL0,
            u@.len() == K,
            in_field(u@),
            q_hat@.len() == i,
            in_field(q_hat@),
            forall|j: int|
                0 <= j < i ==> #[trigger] q_hat@[j] == encoded_entry(d_mat@, query@, u@, j),
    {
        proof {
            layout::lemma_entry_in_range(i as int, N - 1, ELL0 as int, N as int);
        }
        let dp_u: u64 = fp_dot(d_mat, i * N + ELL0, 1, u, 0, 1, K);
        let plain: u64 = quantize(query[i]);
        let taken: u64 = fp_neg(dp_u);
        proof {
            let full = times_mask(d_mat@, u@, i as int);
            congruence::lemma_congruent_remainder(query@[i as int] as int, P as int);
            congruence::lemma_congruent_remainder(full, P as int);
            congruence::lemma_congruent_remainder(-dp_u, P as int);
            congruence::lemma_congruent_by_multiple(0, 0, 0, P as int);
            congruence::lemma_congruent_sum(0, 0, dp_u as int, full, P as int);
            congruence::lemma_congruent_chain(taken as int, -dp_u, -full, P as int);
            congruence::lemma_congruent_sum(
                plain as int,
                query@[i as int] as int,
                taken as int,
                -full,
                P as int,
            );
            congruence::lemma_congruent_iff_same_remainder(
                plain + taken,
                query@[i as int] - full,
                P as int,
            );
        }
        q_hat.push(fp_add(plain, taken));
    }
    for j in 0..K
        invariant
            u@.len() == K,
            in_field(u@),
            q_hat@.len() == ELL0 + j,
            in_field(q_hat@),
            forall|t: int|
                0 <= t < ELL0 + j ==> #[trigger] q_hat@[t] == encoded_entry(
                    d_mat@,
                    query@,
                    u@,
                    t,
                ),
    {
        q_hat.push(u[j]);
    }
    q_hat
}

/// The product of block `si` of row `i` of a ciphertext with block `si` of an encoded query.
pub open spec fn product_entry(m_hat: Seq<u64>, q_hat: Seq<u64>, si: int, i: int) -> u64 {
    (sums::strided_dot(m_hat, i * N + si * B, 1, q_hat, si * B, 1, B as int) % P as int) as u64
}

/// All block products of `m` rows, block by block.
pub open spec fn block_products(m_hat: Seq<u64>, m: int, q_hat: Seq<u64>) -> Seq<u64> {
    Seq::new((S * m) as nat, |t: int| product_entry(m_hat, q_hat, t / m, t % m))
}

/// The server's work on one cell: block `si` of row `i`.
fn block_product(m_hat: &[u64], m: usize, q_hat: &[u64], si: usize, i: usize) -> (r: u64)
    requires
        m_hat@.len() >= m * N,
        in_field(m_hat@),
        q_hat@.len() >= N,
        in_field(q_hat@),
        si < S,
        i < m,
    ensures
        r == product_entry(m_hat@, q_hat@, si as int, i as int),
        r < P,
{
    assert(m_hat.len() == m_hat@.len());
    assert(S * B == N) by (nonlinear_arith);
    proof {
        layout::lemma_entry_in_range(si as int, B - 1, S as int, B as int);
        layout::lemma_entry_in_range(i as int, si * B + B - 1, m as int, N as int);
    }
    fp_dot(m_hat, i * N + si * B, 1, q_hat, si * B, 1, B)
}

/// Products are field elements.
pub proof fn lemma_products_in_field(m_hat: Seq<u64>, m: int, q_hat: Seq<u64>)
    ensures
        in_field(block_products(m_hat, m, q_hat)),
{
}

/// Block `si` of the products of a ciphertext with an encoded query.
pub open spec fn is_block(block: Seq<u64>, m_hat: Seq<u64>, m: usize, q_hat: Seq<u64>, si: usize) -> bool {
    &&& block.len() == m
    &&& in_field(block)
    &&& forall|i: int|
        0 <= i < m ==> #[trigger] block[i] == product_entry(m_hat, q_hat, si as int, i)
}

/// The products of one block, row by row.
fn block_column(m_hat: &[u64], m: usize, q_hat: &[u64], si: usize) -> (block: Vec<u64>)
    requires
        m_hat@.len() >= m * N,
        in_field(m_hat@),
        q_hat@.len() >= N,
        in_field(q_hat@),
        si < S,
    ensures
        is_block(block@, m_hat@, m, q_hat@, si),
{
    let mut block: Vec<u64> = Vec::with_capacity(m);
    for i in 0..m
        invariant
            m_hat@.len() >= m * N,
            in_field(m_hat@),
            q_hat@.len() >= N,
            in_field(q_hat@),
            si < S,
            block@.len() == i,
            in_field(block@),
            forall|t: int|
                0 <= t < i ==> #[trigger] block@[t] == product_entry(m_hat@, q_hat@, si as int, t),
    {
        block.push(block_product(m_hat, m, q_hat, si, i));
    }
    block
}

/// Lays the blocks of the products out one after the other.
fn join_blocks(
    blocks: Vec<Vec<u64>>,
    m: usize,
    Ghost(m_hat): Ghost<Seq<u64>>,
    Ghost(q_hat): Ghost<Seq<u64>>,
) -> (results: Vec<u64>)
    requires
        S * m <= usize::MAX,
        blocks@.len() == S,
        forall|si: usize| si < S ==> is_block((#[trigger] blocks@[si as int])@, m_hat, m, q_hat, si),
    ensures
        results@ == block_products(m_hat, m as int, q_hat),
        in_field(results@),
{
    assert forall|si: int| 0 <= si < S implies is_block(
        (#[trigger] blocks@[si])@,
        m_hat,
        m,
        q_hat,
        si as usize,
    ) by {
        assert(blocks@[si] == blocks@[(si as usize) as int]);
    }
    let results: Vec<u64> = layout::join_rows(blocks, m);
    proof {
        assert forall|t: int| 0 <= t < results@.len() implies #[trigger] results@[t] < P
            && results@[t] == product_entry(m_hat, q_hat, t / m as int, t % m as int) by {
            assert(m > 0) by (nonlinear_arith)
                requires
                    0 <= t < S * m,
                    0 <= m,
            ;
            layout::lemma_row_major(t, S as int, m as int);
            let si = t / m as int;
            let i = t % m as int;
            assert(is_block(blocks@[si]@, m_hat, m, q_hat, si as usize));
            assert(results@[si * m + i] == blocks@[si]@[i]);
        }
        assert(results@ =~= block_products(m_hat, m as int, q_hat));
    }
    results
}

/// Computes the `S * m` block products of a ciphertext of `m` rows with an encoded query.
pub fn compute_products(m_hat: &[u64], m: usize, q_hat: &[u64]) -> (results: Vec<u64>)
    requires
        0 < m,
        m_hat@.len() >= m * N,
        in_field(m_hat@),
        q_hat@.len() >= N,
        in_field(q_hat@),
        S * m <= usize::MAX,
    ensures
        results@ == block_products(m_hat@, m as int, q_hat@),
        in_field(results@),
{
    let blocks: Vec<Vec<u64>> = parallel_map(
        S,
        |si: usize| -> (block: Vec<u64>)
            requires
                S > si,
            ensures
                is_block(block@, m_hat@, m, q_hat@, si)
            { block_column(m_hat, m, q_hat, si) },
    );
    join_blocks(blocks, m, Ghost(m_hat@), Ghost(q_hat@))
}

/// Folds a number once at bit 61, without a full reduction.
fn fold(v: u64) -> (r: u64)
    ensures
        congruence::congruent(r as int, v as int, P as int),
        r <= P + 7,
{
    let lo: u64 = v & 0x1FFF_FFFF_FFFF_FFFF;
    let hi: u64 = v >> 61;
    assert(v & 0x1FFF_FFFF_FFFF_FFFF == v % 0x2000_0000_0000_0000u64) by (bit_vector);
    assert(v >> 61 == v / 0x2000_0000_0000_0000u64) by (bit_vector);
    proof {
        assert(v == hi * 0x2000_0000_0000_0000 + lo);
        congruence::lemma_congruent_by_multiple((lo + hi) as int, v as int, -hi, P as int);
    }
    lo + hi
}

/// The products of 32-bit halves of two field elements: low by low, the two mixed ones together,
/// and high by high.
fn half_products(x: u64, y: u64) -> (r: (u64, u64, u64))
    requires
        x < P,
        y < P,
    ensures
        x * y == r.0 + 0x1_0000_0000 * r.1 + 0x1_0000_0000_0000_0000 * r.2,
        r.1 < 0x4000_0000_0000_0000,
        r.2 < 0x0400_0000_0000_0000,
{
    let x_lo: u64 = x & 0xFFFF_FFFF;
    let x_hi: u64 = x >> 32;
    let y_lo: u64 = y & 0xFFFF_FFFF;
    let y_hi: u64 = y >> 32;
    assert(x & 0xFFFF_FFFF == x % 0x1_0000_0000u64) by (bit_vector);
    assert(x >> 32 == x / 0x1_0000_0000u64) by (bit_vector);
    assert(y & 0xFFFF_FFFF == y % 0x1_0000_0000u64) by (bit_vector);
    assert(y >> 32 == y / 0x1_0000_0000u64) by (bit_vector);
    assert(x_hi < 0x2000_0000 && y_hi < 0x2000_0000);
    assert(0 <= x_lo * y_lo <= 0xFFFF_FFFF * 0xFFFF_FFFF) by (nonlinear_arith)
        requires
            x_lo <= 0xFFFF_FFFF,
            y_lo <= 0xFFFF_FFFF,
    ;
    assert(0 <= x_lo * y_hi <= 0xFFFF_FFFF * 0x1FFF_FFFF) by (nonlinear_arith)
        requires
            x_lo <= 0xFFFF_FFFF,
            y_hi <= 0x1FFF_FFFF,
    ;
    assert(0 <= x_hi * y_lo <= 0x1FFF_FFFF * 0xFFFF_FFFF) by (nonlinear_arith)
        requires
            x_hi <= 0x1FFF_FFFF,
            y_lo <= 0xFFFF_FFFF,
    ;
    assert(0 <= x_hi * y_hi <= 0x1FFF_FFFF * 0x1FFF_FFFF) by (nonlinear_arith)
        requires
            x_hi <= 0x1FFF_FFFF,
            y_hi <= 0x1FFF_FFFF,
    ;
    assert(x * y == x_lo * y_lo + 0x1_0000_0000 * (x_lo * y_hi + x_hi * y_lo)
        + 0x1_0000_0000_0000_0000 * (x_hi * y_hi)) by (nonlinear_arith)
        requires
            x == x_lo + 0x1_0000_0000 * x_hi,
            y == y_lo + 0x1_0000_0000 * y_hi,
    ;
    (x_lo * y_lo, x_lo * y_hi + x_hi * y_lo, x_hi * y_hi)
}

/// The dot product of two blocks of 17 field elements by 32-bit halves: eight lanes take two
/// elements each, sums of halves are folded rather than reduced, and the last element is a tail.
fn lane_dot_b17(m_chunk: &[u64], q_chunk: &[u64]) -> (r: u64)
    requires
        m_chunk@.len() == B,
        in_field(m_chunk@),
        q_chunk@.len() == B,
        in_field(q_chunk@),
    ensures
        r == sums::strided_dot(m_chunk@, 0, 1, q_chunk@, 0, 1, B as int) % P as int,
        r < P,
{
    let ghost f = |t: int| m_chunk@[0 + t * 1] * q_chunk@[0 + t * 1];
    let ghost pair = |t: int| f(t) + f(8 + t);
    let mut ll_sum: u128 = 0;
    let mut cross_sum: u128 = 0;
    let mut hh_sum: u128 = 0;
    proof {
        congruence::lemma_congruent_by_multiple(0, 0, 0, P as int);
    }
    for lane in 0..8usize
        invariant
            m_chunk@.len() == B,
            in_field(m_chunk@),
            q_chunk@.len() == B,
            in_field(q_chunk@),
            f == (|t: int| m_chunk@[0 + t * 1] * q_chunk@[0 + t * 1]),
            pair == (|t: int| f(t) + f(8 + t)),
            ll_sum <= lane * 0x4000_0000_0000_0010,
            cross_sum <= lane * 0x4000_0000_0000_0010,
            hh_sum <= lane * 0x0800_0000_0000_0000,
            congruence::congruent(
                ll_sum + 0x1_0000_0000 * cross_sum + 0x1_0000_0000_0000_0000 * hh_sum,
                sums::sum(lane as int, pair),
                P as int,
            ),
    {
        let (ll0, cross0, hh0): (u64, u64, u64) = half_products(m_chunk[lane], q_chunk[lane]);
        let (ll1, cross1, hh1): (u64, u64, u64) = half_products(
            m_chunk[lane + 8],
            q_chunk[lane + 8],
        );
        let ll_a: u64 = fold(ll0);
        let ll_b: u64 = fold(ll1);
        let cross_a: u64 = fold(cross0);
        let cross_b: u64 = fold(cross1);
        proof {
            let p = P as int;
            let scale = 0x1_0000_0000int;
            let wide = 0x1_0000_0000_0000_0000int;
            let before = ll_sum + scale * cross_sum + wide * hh_sum;
            let added = ll_a + ll_b + scale * (cross_a + cross_b) + wide * (hh0 + hh1);
            let plain = ll0 + ll1 + scale * (cross0 + cross1) + wide * (hh0 + hh1);
            congruence::lemma_congruent_sum(ll_a as int, ll0 as int, ll_b as int, ll1 as int, p);
            congruence::lemma_congruent_sum(
                cross_a as int,
                cross0 as int,
                cross_b as int,
                cross1 as int,
                p,
            );
            congruence::lemma_congruent_by_multiple(scale, scale, 0, p);
            congruence::lemma_congruent_product(
                scale,
                scale,
                cross_a + cross_b,
                cross0 + cross1,
                p,
            );
            congruence::lemma_congruent_sum(
                (ll_a + ll_b) as int,
                (ll0 + ll1) as int,
                scale * (cross_a + cross_b),
                scale * (cross0 + cross1),
                p,
            );
            congruence::lemma_congruent_by_multiple(
                wide * (hh0 + hh1),
                wide * (hh0 + hh1),
                0,
                p,
            );
            congruence::lemma_congruent_sum(
                ll_a + ll_b + scale * (cross_a + cross_b),
                ll0 + ll1 + scale * (cross0 + cross1),
                wide * (hh0 + hh1),
                wide * (hh0 + hh1),
                p,
            );
            assert(plain == pair(lane as int));
            congruence::lemma_congruent_sum(
                before,
                sums::sum(lane as int, pair),
                added,
                plain,
                p,
            );
            assert(sums::sum(lane + 1, pair) == sums::sum(lane as int, pair) + pair(lane as int));
        }
        ll_sum = ll_sum + (ll_a + ll_b) as u128;
        cross_sum = cross_sum + (cross_a + cross_b) as u128;
        hh_sum = hh_sum + (hh0 + hh1) as u128;
    }
    let r_ll: u128 = fp_reduce(ll_sum) as u128;
    let r_cross: u128 = fp_reduce(cross_sum) as u128;
    let r_hh: u128 = fp_reduce(hh_sum) as u128;
    let r_tail: u128 = fp_mul(m_chunk[16], q_chunk[16]) as u128;
    // 2^61 is 1 modulo P, hence 2^64 is 8
    let total: u128 = r_ll + r_cross * 0x1_0000_0000 + r_hh * 8 + r_tail;
    proof {
        let p = P as int;
        let scale = 0x1_0000_0000int;
        let wide = 0x1_0000_0000_0000_0000int;
        let tail = f(16);
        congruence::lemma_congruent_remainder(ll_sum as int, p);
        congruence::lemma_congruent_remainder(cross_sum as int, p);
        congruence::lemma_congruent_remainder(hh_sum as int, p);
        congruence::lemma_congruent_remainder(tail, p);
        congruence::lemma_congruent_by_multiple(scale, scale, 0, p);
        congruence::lemma_congruent_product(scale, scale, r_cross as int, cross_sum as int, p);
        congruence::lemma_congruent_by_multiple(8, wide, -8, p);
        congruence::lemma_congruent_product(8, wide, r_hh as int, hh_sum as int, p);
        congruence::lemma_congruent_sum(
            r_ll as int,
            ll_sum as int,
            scale * r_cross,
            scale * cross_sum,
            p,
        );
        congruence::lemma_congruent_sum(
            r_ll + scale * r_cross,
            ll_sum + scale * cross_sum,
            8 * r_hh,
            wide * hh_sum,
            p,
        );
        congruence::lemma_congruent_chain(
            r_ll + scale * r_cross + 8 * r_hh,
            ll_sum + scale * cross_sum + wide * hh_sum,
            sums::sum(8, pair),
            p,
        );
        congruence::lemma_congruent_sum(
            r_ll + scale * r_cross + 8 * r_hh,
            sums::sum(8, pair),
            r_tail as int,
            tail,
            p,
        );
        let second = |t: int| f(8 + t);
        sums::lemma_sum_cut(8, 8, f);
        sums::lemma_sum_same(8, second, |i: int| f(8 + i));
        sums::lemma_sum_add(8, f, second);
        sums::lemma_sum_same(8, pair, |i: int| f(i) + second(i));
        assert(sums::sum(17, f) == sums::sum(16, f) + f(16));
        congruence::lemma_congruent_iff_same_remainder(total as int, sums::sum(17, f), p);
    }
    fp_reduce(total)
}

/// The products of one block, row by row, in lanes.
fn lane_block_column(m_hat: &[u64], m: usize, q_hat: &[u64], si: usize) -> (block: Vec<u64>)
    requires
        m_hat@.len() >= m * N,
        in_field(m_hat@),
        q_hat@.len() >= N,
        in_field(q_hat@),
        si < S,
    ensures
        is_block(block@, m_hat@, m, q_hat@, si),
{
    let mut block: Vec<u64> = Vec::with_capacity(m);
    assert(S * B == N) by (nonlinear_arith);
    proof {
        layout::lemma_entry_in_range(si as int, B - 1, S as int, B as int);
    }
    let q_block: &[u64] = vstd::slice::slice_subrange(q_hat, si * B, si * B + B);
    for i in 0..m
        invariant
            m_hat@.len() >= m * N,
            m_hat.len() == m_hat@.len(),
            in_field(m_hat@),
            in_field(q_hat@),
            si < S,
            0 <= si * B,
            si * B + B <= N,
            si * B + B <= q_hat@.len(),
            q_block@ == q_hat@.subrange(si * B as int, si * B + B),
            block@.len() == i,
            in_field(block@),
            forall|t: int|
                0 <= t < i ==> #[trigger] block@[t] == product_entry(m_hat@, q_hat@, si as int, t),
    {
        proof {
            layout::lemma_entry_in_range(i as int, si * B + B - 1, m as int, N as int);
        }
        let base: usize = i * N + si * B;
        let m_block: &[u64] = vstd::slice::slice_subrange(m_hat, base, base + B);
        let r: u64 = lane_dot_b17(m_block, q_block);
        proof {
            sums::lemma_sum_same(
                B as int,
                |t: int| m_block@[0 + t * 1] * q_block@[0 + t * 1],
                |t: int| m_hat@[(i * N + si * B) + t * 1] * q_hat@[si * B + t * 1],
            );
        }
        block.push(r);
    }
    block
}

/// Computes what [`compute_products`] does, with each block taken by 32-bit halves in eight lanes.
pub fn compute_products_avx512(m_hat: &[u64], m: usize, q_hat: &[u64]) -> (results: Vec<u64>)
    requires
        0 < m,
        m_hat@.len() >= m * N,
        in_field(m_hat@),
        q_hat@.len() >= N,
        in_field(q_hat@),
        S * m <= usize::MAX,
    ensures
        results@ == block_products(m_hat@, m as int, q_hat@),
        in_field(results@),
{
    let blocks: Vec<Vec<u64>> = parallel_map(
        S,
        |si: usize| -> (block: Vec<u64>)
            requires
                S > si,
            ensures
                is_block(block@, m_hat@, m, q_hat@, si)
            { lane_block_column(m_hat, m, q_hat, si) },
    );
    join_blocks(blocks, m, Ghost(m_hat@), Ghost(q_hat@))
}

/// Block `si` of the products with several queries: row by row, and per row query by query.
pub open spec fn is_batch_block(
    block: Seq<u64>,
    m_hat: Seq<u64>,
    m: usize,
    q_hats: Seq<&[u64]>,
    si: usize,
) -> bool {
    &&& block.len() == m * q_hats.len()
    &&& forall|t: int|
        0 <= t < m * q_hats.len() ==> #[trigger] block[t] == product_entry(
            m_hat,
            q_hats[t % q_hats.len() as int]@,
            si as int,
            t / q_hats.len() as int,
        )
}

/// The products of one block with several queries. Each row is read once.
fn batch_block(m_hat: &[u64], m: usize, q_hats: &[&[u64]], si: usize) -> (block: Vec<u64>)
    requires
        m_hat@.len() >= m * N,
        in_field(m_hat@),
        0 < q_hats@.len(),
        forall|q: int|
            0 <= q < q_hats@.len() ==> (#[trigger] q_hats@[q])@.len() >= N && in_field(q_hats@[q]@),
        m * q_hats@.len() <= usize::MAX,
        si < S,
    ensures
        is_batch_block(block@, m_hat@, m, q_hats@, si),
{
    let big_b: usize = q_hats.len();
    let mut block_out: Vec<u64> = Vec::with_capacity(m * big_b);
    proof {
        vstd::arithmetic::mul::lemma_mul_basics(big_b as int);
    }
    for i in 0..m
        invariant
            m_hat@.len() >= m * N,
            in_field(m_hat@),
            si < S,
            big_b == q_hats@.len(),
            0 < big_b,
            forall|q: int|
                0 <= q < big_b ==> (#[trigger] q_hats@[q])@.len() >= N && in_field(q_hats@[q]@),
            block_out@.len() == i * big_b,
            forall|t: int|
                0 <= t < i * big_b ==> #[trigger] block_out@[t] == product_entry(
                    m_hat@,
                    q_hats@[t % big_b as int]@,
                    si as int,
                    t / big_b as int,
                ),
    {
        for q in 0..big_b
            invariant
                m_hat@.len() >= m * N,
                in_field(m_hat@),
                si < S,
                i < m,
                big_b == q_hats@.len(),
                forall|c: int|
                    0 <= c < big_b ==> (#[trigger] q_hats@[c])@.len() >= N && in_field(
                        q_hats@[c]@,
                    ),
                block_out@.len() == i * big_b + q,
                forall|t: int|
                    0 <= t < i * big_b + q ==> #[trigger] block_out@[t] == product_entry(
                        m_hat@,
                        q_hats@[t % big_b as int]@,
                        si as int,
                        t / big_b as int,
                    ),
        {
            proof {
                layout::lemma_entry_in_range(i as int, q as int, m as int, big_b as int);
            }
            block_out.push(block_product(m_hat, m, q_hats[q], si, i));
        }
        assert(i * big_b + big_b == (i + 1) * big_b) by (nonlinear_arith);
    }
    block_out
}

/// Computes the block products of one ciphertext with several encoded queries. Each row block is
/// read once and multiplied with every query.
pub fn compute_products_batch(m_hat: &[u64], m: usize, q_hats: &[&[u64]]) -> (results: Vec<Vec<u64>>)
    requires
        m_hat@.len() >= m * N,
        in_field(m_hat@),
        forall|q: int|
            0 <= q < q_hats@.len() ==> (#[trigger] q_hats@[q])@.len() >= N && in_field(q_hats@[q]@),
        S * m <= usize::MAX,
        m * q_hats@.len() <= usize::MAX,
    ensures
        results@.len() == q_hats@.len(),
        forall|q: int|
            0 <= q < q_hats@.len() ==> (#[trigger] results@[q])@ == block_products(
                m_hat@,
                m as int,
                q_hats@[q]@,
            ),
{
    let big_b: usize = q_hats.len();
    let mut results: Vec<Vec<u64>> = Vec::with_capacity(big_b);
    if big_b == 0 {
        return results;
    }
    let per_block: Vec<Vec<u64>> = parallel_map(
        S,
        |si: usize| -> (block: Vec<u64>)
            requires
                S > si,
            ensures
                is_batch_block(block@, m_hat@, m, q_hats@, si)
            { batch_block(m_hat, m, q_hats, si) },
    );
    assert forall|b: int| 0 <= b < S implies is_batch_block(
        (#[trigger] per_block@[b])@,
        m_hat@,
        m,
        q_hats@,
        b as usize,
    ) by {
        assert(per_block@[b] == per_block@[(b as usize) as int]);
    }
    for q in 0..big_b
        invariant
            S * m <= usize::MAX,
            m * big_b <= usize::MAX,
            big_b == q_hats@.len(),
            0 < big_b,
            per_block@.len() == S,
            forall|b: int|
                0 <= b < S ==> (#[trigger] per_block@[b])@.len() == m * big_b,
            forall|b: int, t: int|
                0 <= b < S && 0 <= t < m * big_b ==> #[trigger] per_block@[b]@[t]
                    == product_entry(
                    m_hat@,
                    q_hats@[t % big_b as int]@,
                    b,
                    t / big_b as int,
                ),
            results@.len() == q,
            forall|c: int|
                0 <= c < q ==> (#[trigger] results@[c])@ == block_products(
                    m_hat@,
                    m as int,
                    q_hats@[c]@,
                ),
    {
        let mut result: Vec<u64> = Vec::with_capacity(S * m);
        proof {
            vstd::arithmetic::mul::lemma_mul_basics(m as int);
        }
        for si in 0..S
            invariant
                m * big_b <= usize::MAX,
                q < big_b,
                per_block@.len() == S,
                forall|b: int|
                    0 <= b < S ==> (#[trigger] per_block@[b])@.len() == m * big_b,
                forall|b: int, t: int|
                    0 <= b < S && 0 <= t < m * big_b ==> #[trigger] per_block@[b]@[t]
                        == product_entry(
                        m_hat@,
                        q_hats@[t % big_b as int]@,
                        b,
                        t / big_b as int,
                    ),
                result@.len() == si * m,
                forall|t: int|
                    0 <= t < si * m ==> #[trigger] result@[t] == product_entry(
                        m_hat@,
                        q_hats@[q as int]@,
                        t / m as int,
                        t % m as int,
                    ),
        {
            let block_out: &Vec<u64> = &per_block[si];
            for i in 0..m
                invariant
                    m * big_b <= usize::MAX,
                    q < big_b,
                    si < S,
                    block_out@.len() == m * big_b,
                    forall|t: int|
                        0 <= t < m * big_b ==> #[trigger] block_out@[t] == product_entry(
                            m_hat@,
                            q_hats@[t % big_b as int]@,
                            si as int,
                            t / big_b as int,
                        ),
                    result@.len() == si * m + i,
                    forall|t: int|
                        0 <= t < si * m + i ==> #[trigger] result@[t] == product_entry(
                            m_hat@,
                            q_hats@[q as int]@,
                            t / m as int,
                            t % m as int,
                        ),
            {
                proof {
                    layout::lemma_entry_in_range(i as int, q as int, m as int, big_b as int);
                    layout::lemma_entry_in_range(si as int, i as int, S as int, m as int);
                }
                result.push(block_out[i * big_b + q]);
            }
            assert(si * m + m == (si + 1) * m) by (nonlinear_arith);
        }
        assert(result@ =~= block_products(m_hat@, m as int, q_hats@[q as int]@));
        results.push(result);
    }
    results
}

/// Bytes that one cluster's products take on the wire.
pub fn cluster_response_bytes(m: usize) -> (r: u64)
    requires
        S * m * FIELD_BYTES <= usize::MAX,
    ensures
        r == S * m * FIELD_BYTES,
{
    assert(S * m <= S * m * FIELD_BYTES) by (nonlinear_arith)
        requires
            0 <= S * m,
            FIELD_BYTES == 8,
    ;
    (S * m * FIELD_BYTES) as u64
}

/// Bytes of a cluster's ciphertext, which is sent once.
pub fn setup_bytes(m: usize) -> (r: u64)
    requires
        m * N * FIELD_BYTES <= usize::MAX,
    ensures
        r == m * N * FIELD_BYTES,
{
    assert(m * N <= m * N * FIELD_BYTES) by (nonlinear_arith)
        requires
            0 <= m * N,
            FIELD_BYTES == 8,
    ;
    (m * N * FIELD_BYTES) as u64
}

/// The sum of row `i`'s block products.
pub open spec fn block_sum(partials: Seq<u64>, m: int, i: int) -> int {
    sums::sum(S as int, |si: int| partials[si * m + i] as int)
}

/// Row `row` of the mask matrix times an encoded query.
pub open spec fn mask_dot(r_seed: Seq<u8>, row: u64, q_hat: Seq<u64>) -> int {
    sums::sum(N as int, |j: int| mask_entry(r_seed, row, j) * q_hat[j])
}

/// The integer that row `i`'s block products stand for.
pub open spec fn decoded(m: int, r_seed: Seq<u8>, q_hat: Seq<u64>, partials: Seq<u64>, i: int) -> int {
    field::centred(
        (block_sum(partials, m, i) - mask_dot(r_seed, i as u64, q_hat)) % P as int,
    )
}

/// Decodes the score of row `i`: sums its block products and takes the mask off.
pub fn decode_row(m: usize, i: usize, r_seed: &[u8; 32], q_hat: &[u64], partials: &[u64]) -> (score: i64)
    requires
        i < m,
        q_hat@.len() >= N,
        in_field(q_hat@),
        partials@.len() >= S * m,
        in_field(partials@),
    ensures
        score == decoded(m as int, r_seed@, q_hat@, partials@, i as int),
{
    assert(partials.len() == partials@.len());
    let ghost f = |si: int| partials@[si * m + i] as int;
    let mut total: u64 = 0;
    for si in 0..S
        invariant
            i < m,
            partials.len() == partials@.len(),
            partials@.len() >= S * m,
            in_field(partials@),
            f == (|si: int| partials@[si * m + i] as int),
            total == sums::sum(si as int, f) % P as int,
            total < P,
    {
        proof {
            layout::lemma_entry_in_range(si as int, i as int, S as int, m as int);
            let before = sums::sum(si as int, f);
            assert(sums::sum(si + 1, f) == before + f(si as int));
            congruence::lemma_congruent_remainder(before, P as int);
            congruence::lemma_congruent_by_multiple(
                f(si as int),
                f(si as int),
                0,
                P as int,
            );
            congruence::lemma_congruent_sum(
                total as int,
                before,
                f(si as int),
                f(si as int),
                P as int,
            );
            congruence::lemma_congruent_iff_same_remainder(
                total + f(si as int),
                before + f(si as int),
                P as int,
            );
        }
        total = fp_add(total, partials[si * m + i]);
    }
    let mask: Vec<u64> = mask_row(r_seed, i as u64);
    let r_dot: u64 = fp_dot(&mask, 0, 1, q_hat, 0, 1, N);
    let taken: u64 = fp_neg(r_dot);
    proof {
        let full = mask_dot(r_seed@, i as u64, q_hat@);
        let sum_all = block_sum(partials@, m as int, i as int);
        sums::lemma_sum_same(
            N as int,
            |t: int| mask@[0 + t * 1] * q_hat@[0 + t * 1],
            |j: int| mask_entry(r_seed@, i as u64, j) * q_hat@[j],
        );
        assert(r_dot == full % P as int);
        congruence::lemma_congruent_remainder(sum_all, P as int);
        congruence::lemma_congruent_remainder(full, P as int);
        congruence::lemma_congruent_remainder(-r_dot, P as int);
        congruence::lemma_congruent_by_multiple(0, 0, 0, P as int);
        congruence::lemma_congruent_sum(0, 0, r_dot as int, full, P as int);
        congruence::lemma_congruent_chain(taken as int, -r_dot, -full, P as int);
        congruence::lemma_congruent_sum(total as int, sum_all, taken as int, -full, P as int);
        congruence::lemma_congruent_iff_same_remainder(
            total + taken,
            sum_all - full,
            P as int,
        );
    }
    decode_field(fp_add(total, taken))
}

/// Decodes the scores of all `m` rows.
pub fn decode_scores(m: usize, r_seed: &[u8; 32], q_hat: &[u64], partials: &[u64]) -> (scores: Vec<i64>)
    requires
        q_hat@.len() >= N,
        in_field(q_hat@),
        partials@.len() >= S * m,
        in_field(partials@),
    ensures
        scores@.len() == m,
        forall|i: int|
            0 <= i < m ==> #[trigger] scores@[i] == decoded(
                m as int,
                r_seed@,
                q_hat@,
                partials@,
                i,
            ),
{
    let scores: Vec<i64> = parallel_map(
        m,
        |i: usize| -> (score: i64)
            requires
                m > i,
            ensures
                score == decoded(m as int, r_seed@, q_hat@, partials@, i as int)
            { decode_row(m, i, r_seed, q_hat, partials) },
    );
    assert forall|i: int| 0 <= i < m implies #[trigger] scores@[i] == decoded(
        m as int,
        r_seed@,
        q_hat@,
        partials@,
        i,
    ) by {
        assert(scores@[i] == scores@[(i as usize) as int]);
    }
    scores
}

/// The inner product of the first `ELL0` components of a vector and a query.
pub open spec fn inner_product(v: Seq<i64>, query: Seq<i64>) -> int {
    sums::sum(ELL0 as int, |l: int| component(v, l) * component(query, l))
}

/// `D` times an encoded query is the query, in the field, whatever the mask is.
pub proof fn d_times_encoding_is_the_query(
    d: Seq<u64>,
    query: Seq<i64>,
    u: Seq<u64>,
    q_hat: Seq<u64>,
    l: int,
)
    requires
        is_d_matrix(d),
        query.len() >= ELL0,
        u.len() == K,
        is_encoding(q_hat, d, query, u),
        0 <= l < ELL0,
    ensures
        congruence::congruent(
            sums::sum(N as int, |j: int| d[l * N + j] * q_hat[j]),
            query[l] as int,
            P as int,
        ),
{
    let f = |j: int| d[l * N + j] * q_hat[j];
    let tail = |t: int| f(ELL0 + t);
    sums::lemma_sum_cut(ELL0 as int, K as int, f);
    assert forall|j: int| 0 <= j < ELL0 && j != l implies #[trigger] f(j) == 0 by {
        assert(d[l * N + j] == 0);
        assert(0 * q_hat[j] == 0) by (nonlinear_arith);
    }
    sums::lemma_sum_single(ELL0 as int, l, f);
    assert(f(l) == q_hat[l]) by {
        assert(d[l * N + l] == 1);
        assert(1 * q_hat[l] == q_hat[l]) by (nonlinear_arith);
    }
    let masked = |t: int| d[(l * N + ELL0) + t * 1] * u[0 + t * 1];
    assert forall|t: int| 0 <= t < K implies #[trigger] tail(t) == masked(t) by {
        assert(q_hat[ELL0 + t] == encoded_entry(d, query, u, ELL0 + t));
    }
    sums::lemma_sum_same(K as int, tail, masked);
    sums::lemma_sum_same(K as int, |i: int| f(ELL0 + i), tail);
    assert(sums::sum(K as int, masked) == times_mask(d, u, l));
    assert(q_hat[l] == encoded_entry(d, query, u, l));
    let rest = times_mask(d, u, l);
    congruence::lemma_congruent_remainder(query[l] - rest, P as int);
    congruence::lemma_congruent_by_multiple(rest, rest, 0, P as int);
    congruence::lemma_congruent_sum(q_hat[l] as int, query[l] - rest, rest, rest, P as int);
}

/// The ciphertext of a row times an encoded query is the inner product plus the mask's share.
proof fn lemma_row_times_encoding(
    d: Seq<u64>,
    r_seed: Seq<u8>,
    row: u64,
    v: Seq<i64>,
    query: Seq<i64>,
    u: Seq<u64>,
    q_hat: Seq<u64>,
)
    requires
        is_d_matrix(d),
        query.len() >= ELL0,
        u.len() == K,
        is_encoding(q_hat, d, query, u),
    ensures
        congruence::congruent(
            sums::sum(N as int, |j: int| encrypted_entry(d, r_seed, row, v, j) * q_hat[j]),
            inner_product(v, query) + mask_dot(r_seed, row, q_hat),
            P as int,
        ),
{
    let p = P as int;
    let n = N as int;
    let ell0 = ELL0 as int;
    let cipher = |j: int| encrypted_entry(d, r_seed, row, v, j) * q_hat[j];
    let plain = |j: int| times_column(d, v, j) * q_hat[j];
    let mask = |j: int| mask_entry(r_seed, row, j) * q_hat[j];
    let both = |j: int| plain(j) + mask(j);
    assert forall|j: int| 0 <= j < n implies congruence::congruent(
        #[trigger] cipher(j),
        both(j),
        p,
    ) by {
        let entry = times_column(d, v, j) + mask_entry(r_seed, row, j);
        congruence::lemma_congruent_remainder(entry, p);
        congruence::lemma_congruent_by_multiple(q_hat[j] as int, q_hat[j] as int, 0, p);
        congruence::lemma_congruent_product(
            entry % p,
            entry,
            q_hat[j] as int,
            q_hat[j] as int,
            p,
        );
        assert(entry * q_hat[j] == plain(j) + mask(j)) by (nonlinear_arith)
            requires
                entry == times_column(d, v, j) + mask_entry(r_seed, row, j),
                plain(j) == times_column(d, v, j) * q_hat[j],
                mask(j) == mask_entry(r_seed, row, j) * q_hat[j],
        ;
    }
    sums::lemma_sum_congruent(n, cipher, both, p);
    sums::lemma_sum_add(n, plain, mask);
    sums::lemma_sum_same(n, both, |j: int| plain(j) + mask(j));
    sums::lemma_sum_same(n, mask, |j: int| mask_entry(r_seed, row, j) * q_hat[j]);

    // sum over j of (sum over l of v[l] * d[l][j]) * q_hat[j], taken the other way round
    let cell = |l: int, j: int| component(v, l) * (d[l * N + j] * q_hat[j]);
    let by_column = |j: int| sums::sum(ell0, |l: int| cell(l, j));
    let by_row = |l: int| sums::sum(n, |j: int| cell(l, j));
    assert forall|j: int| 0 <= j < n implies #[trigger] plain(j) == by_column(j) by {
        let column = |l: int| component(v, l) * d[l * N + j];
        sums::lemma_sum_scale(ell0, q_hat[j] as int, column);
        let scaled = |l: int| q_hat[j] as int * column(l);
        assert forall|l: int| 0 <= l < ell0 implies #[trigger] scaled(l) == cell(l, j) by {
            assert(q_hat[j] * (component(v, l) * d[l * N + j]) == component(v, l) * (d[l * N + j]
                * q_hat[j])) by (nonlinear_arith);
        }
        sums::lemma_sum_same(ell0, scaled, |l: int| cell(l, j));
        sums::lemma_sum_same(ell0, |i: int| q_hat[j] as int * column(i), scaled);
        assert(sums::sum(ell0, column) == times_column(d, v, j)) by {
            sums::lemma_sum_same(ell0, column, |l: int| component(v, l) * d[l * N + j]);
        }
        assert(q_hat[j] * times_column(d, v, j) == times_column(d, v, j) * q_hat[j])
            by (nonlinear_arith);
    }
    sums::lemma_sum_same(n, plain, by_column);
    sums::lemma_sum_swap(ell0, n, cell);
    sums::lemma_sum_same(n, by_column, |j: int| sums::sum(ell0, |i: int| cell(i, j)));
    sums::lemma_sum_same(ell0, by_row, |i: int| sums::sum(n, |j: int| cell(i, j)));
    assert(sums::sum(n, plain) == sums::sum(ell0, by_row));

    let product = |l: int| component(v, l) * component(query, l);
    assert forall|l: int| 0 <= l < ell0 implies congruence::congruent(
        #[trigger] by_row(l),
        product(l),
        p,
    ) by {
        let line = |j: int| d[l * N + j] * q_hat[j];
        d_times_encoding_is_the_query(d, query, u, q_hat, l);
        sums::lemma_sum_same(n, line, |j: int| d[l * N + j] * q_hat[j]);
        sums::lemma_sum_scale(n, component(v, l), line);
        sums::lemma_sum_same(
            n,
            |j: int| cell(l, j),
            |i: int| component(v, l) * line(i),
        );
        congruence::lemma_congruent_by_multiple(component(v, l), component(v, l), 0, p);
        congruence::lemma_congruent_product(
            component(v, l),
            component(v, l),
            sums::sum(n, line),
            query[l] as int,
            p,
        );
    }
    sums::lemma_sum_congruent(ell0, by_row, product, p);
    sums::lemma_sum_same(ell0, product, |l: int| component(v, l) * component(query, l));
    congruence::lemma_congruent_by_multiple(
        mask_dot(r_seed, row, q_hat),
        mask_dot(r_seed, row, q_hat),
        0,
        p,
    );
    congruence::lemma_congruent_sum(
        sums::sum(n, plain),
        inner_product(v, query),
        mask_dot(r_seed, row, q_hat),
        mask_dot(r_seed, row, q_hat),
        p,
    );
    congruence::lemma_congruent_chain(
        sums::sum(n, cipher),
        sums::sum(n, both),
        inner_product(v, query) + mask_dot(r_seed, row, q_hat),
        p,
    );
    sums::lemma_sum_same(n, cipher, |j: int| encrypted_entry(d, r_seed, row, v, j) * q_hat[j]);
}

/// Decoding undoes encryption: what the client decodes of the products of an encrypted cluster
/// with an encoded query is, modulo `P`, the inner product of each vector with the query, whatever
/// the key, the cluster's mask and the query's mask are.
pub proof fn decoding_gives_inner_products(
    d: Seq<u64>,
    r_seed: Seq<u8>,
    vectors: Seq<Seq<i64>>,
    query: Seq<i64>,
    u: Seq<u64>,
    m_hat: Seq<u64>,
    q_hat: Seq<u64>,
    i: int,
)
    requires
        is_d_matrix(d),
        query.len() >= ELL0,
        u.len() == K,
        is_encryption(m_hat, d, r_seed, vectors),
        is_encoding(q_hat, d, query, u),
        0 <= i < vectors.len(),
    ensures
        decoded(
            vectors.len() as int,
            r_seed,
            q_hat,
            block_products(m_hat, vectors.len() as int, q_hat),
            i,
        ) == field::centred(inner_product(vectors[i], query) % P as int),
{
    let p = P as int;
    let m = vectors.len() as int;
    let row = i as u64;
    let partials = block_products(m_hat, m, q_hat);
    let cipher = |j: int| m_hat[i * N + j] * q_hat[j];
    let blocks = |si: int| sums::sum(B as int, |t: int| cipher(si * B + t));
    let partial = |si: int| partials[si * m + i] as int;
    assert(S * B == N) by (nonlinear_arith);
    assert forall|si: int| 0 <= si < S implies congruence::congruent(
        #[trigger] partial(si),
        blocks(si),
        p,
    ) by {
        layout::lemma_entry_in_range(si, i, S as int, m);
        let whole = sums::strided_dot(m_hat, i * N + si * B, 1, q_hat, si * B, 1, B as int);
        congruence::lemma_congruent_remainder(whole, p);
        sums::lemma_sum_same(
            B as int,
            |t: int| m_hat[(i * N + si * B) + t * 1] * q_hat[si * B + t * 1],
            |t: int| cipher(si * B + t),
        );
    }
    sums::lemma_sum_congruent(S as int, partial, blocks, p);
    sums::lemma_sum_same(S as int, partial, |si: int| partials[si * m + i] as int);
    sums::lemma_sum_blocks(S as int, B as int, cipher);
    sums::lemma_sum_same(
        S as int,
        blocks,
        |k: int| sums::sum(B as int, |t: int| cipher(k * B + t)),
    );
    sums::lemma_sum_same(
        N as int,
        cipher,
        |j: int| encrypted_entry(d, r_seed, row, vectors[i], j) * q_hat[j],
    );
    lemma_row_times_encoding(d, r_seed, row, vectors[i], query, u, q_hat);
    let product = inner_product(vectors[i], query);
    let mask = mask_dot(r_seed, row, q_hat);
    congruence::lemma_congruent_chain(
        block_sum(partials, m, i),
        sums::sum(N as int, cipher),
        product + mask,
        p,
    );
    congruence::lemma_congruent_by_multiple(mask, mask, 0, p);
    congruence::lemma_congruent_sum(block_sum(partials, m, i), product + mask, mask, mask, p);
    congruence::lemma_congruent_iff_same_remainder(
        block_sum(partials, m, i) - mask,
        product,
        p,
    );
}

/// The masks cancel: what is decoded of the products of a cluster with a query is the same under
/// one key, mask of the cluster and mask of the query as under any others.
pub proof fn masks_cancel(
    vectors: Seq<Seq<i64>>,
    query: Seq<i64>,
    d: Seq<u64>,
    r_seed: Seq<u8>,
    u: Seq<u64>,
    m_hat: Seq<u64>,
    q_hat: Seq<u64>,
    other_d: Seq<u64>,
    other_r_seed: Seq<u8>,
    other_u: Seq<u64>,
    other_m_hat: Seq<u64>,
    other_q_hat: Seq<u64>,
    i: int,
)
    requires
        query.len() >= ELL0,
        0 <= i < vectors.len(),
        is_d_matrix(d),
        u.len() == K,
        is_encryption(m_hat, d, r_seed, vectors),
        is_encoding(q_hat, d, query, u),
        is_d_matrix(other_d),
        other_u.len() == K,
        is_encryption(other_m_hat, other_d, other_r_seed, vectors),
        is_encoding(other_q_hat, other_d, query, other_u),
    ensures
        ({
            let m = vectors.len() as int;
            decoded(m, r_seed, q_hat, block_products(m_hat, m, q_hat), i) == decoded(
                m,
                other_r_seed,
                other_q_hat,
                block_products(other_m_hat, m, other_q_hat),
                i,
            )
        }),
{
    decoding_gives_inner_products(d, r_seed, vectors, query, u, m_hat, q_hat, i);
    decoding_gives_inner_products(
        other_d,
        other_r_seed,
        vectors,
        query,
        other_u,
        other_m_hat,
        other_q_hat,
        i,
    );
}

/// Where the inner product lies within half the field, decoding gives it exactly.
pub proof fn decoding_is_exact_within_half_the_field(
    d: Seq<u64>,
    r_seed: Seq<u8>,
    vectors: Seq<Seq<i64>>,
    query: Seq<i64>,
    u: Seq<u64>,
    m_hat: Seq<u64>,
    q_hat: Seq<u64>,
    i: int,
)
    requires
        is_d_matrix(d),
        query.len() >= ELL0,
        u.len() == K,
        is_encryption(m_hat, d, r_seed, vectors),
        is_encoding(q_hat, d, query, u),
        0 <= i < vectors.len(),
        -(P / 2) <= inner_product(vectors[i], query) <= P / 2,
    ensures
        decoded(
            vectors.len() as int,
            r_seed,
            q_hat,
            block_products(m_hat, vectors.len() as int, q_hat),
            i,
        ) == inner_product(vectors[i], query),
{
    decoding_gives_inner_products(d, r_seed, vectors, query, u, m_hat, q_hat, i);
    field::decode_inverts_quantize(inner_product(vectors[i], query));
}

/// How many places two sequences of up to `ELL0` elements share.
spec fn shared_places(a: int, b: int) -> int {
    let shorter = if a < b {
        a
    } else {
        b
    };
    if shorter < ELL0 {
        shorter
    } else {
        ELL0 as int
    }
}

/// The inner product of a vector and a query pairs all their components, place by place: of the first
/// `ELL0` places none that both have is left out.
pub proof fn inner_products_pair_all_components(v: Seq<i64>, query: Seq<i64>)
    ensures
        v.len() <= query.len() && v.len() <= ELL0 ==> inner_product(v, query) == sums::sum(
            v.len() as int,
            |l: int| v[l] * query[l],
        ),
        query.len() <= v.len() && query.len() <= ELL0 ==> inner_product(v, query) == sums::sum(
            query.len() as int,
            |l: int| v[l] * query[l],
        ),
        v.len() >= ELL0 && query.len() >= ELL0 ==> inner_product(v, query) == sums::sum(
            ELL0 as int,
            |l: int| v[l] * query[l],
        ),
{
    let n = shared_places(v.len() as int, query.len() as int);
    let f = |l: int| component(v, l) * component(query, l);
    let rest = |i: int| f(n + i);
    sums::lemma_sum_cut(n, ELL0 - n, f);
    assert forall|i: int| 0 <= i < ELL0 - n implies #[trigger] rest(i) == 0 by {
        let (a, b) = (component(v, n + i), component(query, n + i));
        assert(a * b == 0) by (nonlinear_arith)
            requires
                a == 0 || b == 0,
        ;
    }
    sums::lemma_sum_zero(ELL0 - n, rest);
    sums::lemma_sum_same(n, f, |l: int| v[l] * query[l]);
}

/// An element of a ciphertext is, modulo `P`, the vector times the column of `D`, all of its
/// components up to `ELL0` taken, and the element of the row's mask.
pub proof fn ciphertexts_are_vectors_times_d_and_masks(
    d: Seq<u64>,
    r_seed: Seq<u8>,
    row: u64,
    v: Seq<i64>,
    j: int,
)
    requires
        v.len() <= ELL0,
        0 <= j < N,
    ensures
        encrypted_entry(d, r_seed, row, v, j) < P,
        congruence::congruent(
            encrypted_entry(d, r_seed, row, v, j) as int,
            sums::sum(v.len() as int, |l: int| v[l] * d[l * N + j]) + mask_entry(r_seed, row, j),
            P as int,
        ),
{
    let n = v.len() as int;
    let f = |l: int| component(v, l) * d[l * N + j];
    let rest = |i: int| f(n + i);
    sums::lemma_sum_cut(n, ELL0 - n, f);
    assert forall|i: int| 0 <= i < ELL0 - n implies #[trigger] rest(i) == 0 by {
        let b = d[(n + i) * N + j];
        assert(0 * b == 0) by (nonlinear_arith);
    }
    sums::lemma_sum_zero(ELL0 - n, rest);
    sums::lemma_sum_same(n, f, |l: int| v[l] * d[l * N + j]);
    congruence::lemma_congruent_remainder(
        times_column(d, v, j) + mask_entry(r_seed, row, j),
        P as int,
    );
}

/// Every row has a mask of its own: the masks of two rows are drawn from different seeds, and the
/// elements of a mask are the numbers of its seed's stream, each modulo `P`.
pub proof fn rows_have_masks_of_their_own(r_seed: Seq<u8>, row: u64, other: u64, j: int)
    requires
        r_seed.len() == 32,
        0 <= j,
    ensures
        row != other ==> masked_seed(r_seed, row) != masked_seed(r_seed, other),
        masked_seed(r_seed, row).len() == 32,
        forall|i: int|
            0 <= i < 8 ==> #[trigger] masked_seed(r_seed, row)[i] == r_seed[i]
                ^ vstd::bytes::spec_u64_to_le_bytes(row)[i],
        forall|i: int| 8 <= i < 32 ==> #[trigger] masked_seed(r_seed, row)[i] == r_seed[i],
        mask_entry(r_seed, row, j) as int == prng::chacha20_u64(
            masked_seed(r_seed, row),
            j as nat,
        ) as int % P as int,
{
    if row != other && masked_seed(r_seed, row) == masked_seed(r_seed, other) {
        let a = vstd::bytes::spec_u64_to_le_bytes(row);
        let b = vstd::bytes::spec_u64_to_le_bytes(other);
        crate::bytes::lemma_numbers();
        assert(crate::bytes::le64(row).len() == 8);
        assert(crate::bytes::le64(other).len() == 8);
        assert forall|i: int| 0 <= i < 8 implies a[i] == b[i] by {
            let (s, x, y) = (r_seed[i], a[i], b[i]);
            assert(masked_seed(r_seed, row)[i] == s ^ x);
            assert(masked_seed(r_seed, other)[i] == s ^ y);
            assert(s ^ x == s ^ y ==> x == y) by (bit_vector);
        }
        assert(a =~= b);
        assert(crate::bytes::le64(row) == crate::bytes::le64(other));
    }
}

/// The matrix `D` of a key is the identity beside numbers of the key's stream, each modulo `P`: entry
/// `t` of row `i` beside the identity is number `i * K + t`.
pub proof fn d_is_the_identity_beside_the_keys_numbers(key_seed: Seq<u8>, i: int, j: int)
    requires
        0 <= i < ELL0,
    ensures
        0 <= j < ELL0 ==> d_entry(key_seed, i, j) == (if i == j {
            1u64
        } else {
            0u64
        }),
        0 <= j < K ==> d_entry(key_seed, i, ELL0 + j) as int == prng::chacha20_u64(
            key_seed,
            (i * K + j) as nat,
        ) as int % P as int,
{
}

/// An encoded query ends with its mask.
pub proof fn encodings_carry_their_mask(
    d: Seq<u64>,
    query: Seq<i64>,
    u: Seq<u64>,
    q_hat: Seq<u64>,
    t: int,
)
    requires
        is_encoding(q_hat, d, query, u),
        0 <= t < K,
    ensures
        q_hat.len() == ELL0 + K,
        q_hat[ELL0 + t] == u[t],
{
    assert(q_hat[ELL0 + t] == encoded_entry(d, query, u, ELL0 + t));
}

/// The server's products stand block by block: product `si * m + i` is, modulo `P`, block `si` of row
/// `i` of the ciphertext times block `si` of the encoded query.
pub proof fn products_stand_block_by_block(
    m_hat: Seq<u64>,
    m: int,
    q_hat: Seq<u64>,
    si: int,
    i: int,
)
    requires
        0 <= si < S,
        0 <= i < m,
    ensures
        block_products(m_hat, m, q_hat).len() == S * m,
        0 <= si * m + i < S * m,
        block_products(m_hat, m, q_hat)[si * m + i] as int == sums::sum(
            B as int,
            |t: int| m_hat[i * N + si * B + t] * q_hat[si * B + t],
        ) % P as int,
{
    layout::lemma_entry_in_range(si, i, S as int, m);
    sums::lemma_sum_same(
        B as int,
        |t: int| m_hat[(i * N + si * B) + t * 1] * q_hat[si * B + t * 1],
        |t: int| m_hat[i * N + si * B + t] * q_hat[si * B + t],
    );
}

/// What is decoded lies within half the field and is, modulo `P`, the inner product of all components
/// of the vector and the query.
pub proof fn decoding_gives_sums_of_products(
    d: Seq<u64>,
    r_seed: Seq<u8>,
    vectors: Seq<Seq<i64>>,
    query: Seq<i64>,
    u: Seq<u64>,
    m_hat: Seq<u64>,
    q_hat: Seq<u64>,
    i: int,
)
    requires
        is_d_matrix(d),
        query.len() == ELL0,
        u.len() == K,
        is_encryption(m_hat, d, r_seed, vectors),
        is_encoding(q_hat, d, query, u),
        0 <= i < vectors.len(),
        vectors[i].len() <= ELL0,
    ensures
        ({
            let m = vectors.len() as int;
            let x = decoded(m, r_seed, q_hat, block_products(m_hat, m, q_hat), i);
            &&& -(P / 2) <= x <= P / 2
            &&& congruence::congruent(
                x,
                sums::sum(vectors[i].len() as int, |l: int| vectors[i][l] * query[l]),
                P as int,
            )
        }),
{
    decoding_gives_inner_products(d, r_seed, vectors, query, u, m_hat, q_hat, i);
    inner_products_pair_all_components(vectors[i], query);
    field::centred_numbers_are_congruent(inner_product(vectors[i], query));
}

/// A block of products holds, for every row of the ciphertext, the sum of the products of the block's
/// numbers in that row with those in the encoded query, modulo `P`.
pub proof fn blocks_hold_a_product_of_every_row(
    block: Seq<u64>,
    m_hat: Seq<u64>,
    m: usize,
    q_hat: Seq<u64>,
    si: usize,
    i: int,
)
    requires
        is_block(block, m_hat, m, q_hat, si),
        0 <= i < m,
    ensures
        block.len() == m,
        block[i] as int == sums::sum(
            B as int,
            |t: int| m_hat[i * N + si * B + t] * q_hat[si * B + t],
        ) % P as int,
{
    assert(block[i] == product_entry(m_hat, q_hat, si as int, i));
    sums::lemma_sum_same(
        B as int,
        |t: int| m_hat[(i * N + si * B) + t * 1] * q_hat[si * B + t * 1],
        |t: int| m_hat[i * N + si * B + t] * q_hat[si * B + t],
    );
}

/// A block of products with several queries holds one for every row and every query: row by row, and
/// query by query in a row.
pub proof fn batch_blocks_hold_a_product_of_every_row_and_query(
    block: Seq<u64>,
    m_hat: Seq<u64>,
    m: usize,
    q_hats: Seq<&[u64]>,
    si: usize,
    i: int,
    q: int,
)
    requires
        is_batch_block(block, m_hat, m, q_hats, si),
        0 <= i < m,
        0 <= q < q_hats.len(),
    ensures
        block.len() == m * q_hats.len(),
        0 <= i * q_hats.len() + q < m * q_hats.len(),
        block[i * q_hats.len() + q] as int == sums::sum(
            B as int,
            |t: int| m_hat[i * N + si * B + t] * q_hats[q]@[si * B + t],
        ) % P as int,
{
    let count = q_hats.len() as int;
    layout::lemma_entry_in_range(i, q, m as int, count);
    let at = i * count + q;
    assert(block[at] == product_entry(m_hat, q_hats[at % count]@, si as int, at / count));
    sums::lemma_sum_same(
        B as int,
        |t: int| m_hat[(i * N + si * B) + t * 1] * q_hats[q]@[si * B + t * 1],
        |t: int| m_hat[i * N + si * B + t] * q_hats[q]@[si * B + t],
    );
}

} // verus!
