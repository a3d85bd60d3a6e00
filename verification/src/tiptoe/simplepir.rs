//! Matrix-vector products under encryption.
//!
//! A server holds a matrix `M`. From a public pseudorandom matrix `A` it computes the hint
//! `H = M * A` once. A client sends `A * s + e + delta * q`; the server answers `M` times that; the
//! client takes `H * s` off and rounds, which leaves `M * q` modulo `P`.

use vstd::arithmetic::power2::pow2;
use vstd::prelude::*;

use crate::math::congruence;
use crate::math::layout;
use crate::math::sums;
use crate::math::wrapping;
use crate::parallel::parallel_map;
use crate::prng;
use crate::prng::chacha20_u64s;
use crate::tiptoe::lwe;
use crate::tiptoe::lwe::{compute_a_s, decrypt_vec, encrypt_component, Params, SecretKey};

verus! {

/// The seed of the public matrix.
pub type PirSeed = [u8; 32];

/// What a server computes of a matrix before the first query.
pub struct PirSetup {
    /// Seed of the public matrix `A` of `c` rows and `n` columns.
    pub seed: PirSeed,
    /// The hint `M * A`, row by row.
    pub hint: Vec<u64>,
    /// Rows of `M`.
    pub r: usize,
    /// Columns of `M`, which is the length of a query.
    pub c: usize,
    /// Length of a secret.
    pub n: usize,
}

/// The public matrix of a seed: `c` rows of `n` numbers, taken from the seed's stream in order.
pub open spec fn public_matrix(seed: Seq<u8>, c: int, n: int) -> Seq<u64> {
    Seq::new((c * n) as nat, |t: int| prng::chacha20_u64(seed, t as nat))
}

/// Expands a seed to the public matrix of `c` rows and `n` columns.
pub fn expand_a(seed: &PirSeed, c: usize, n: usize) -> (a: Vec<u64>)
    requires
        2 * c * n <= usize::MAX,
    ensures
        a@ == public_matrix(seed@, c as int, n as int),
{
    assert(2 * c * n == 2 * (c * n)) by (nonlinear_arith);
    let a: Vec<u64> = chacha20_u64s(seed, 0, c * n);
    assert(a@ =~= public_matrix(seed@, c as int, n as int));
    a
}

/// Entry `(i, j)` of the product of an `r x c` and a `c x k` matrix, before reduction.
pub open spec fn product_cell(m: Seq<u64>, c: int, x: Seq<u64>, k: int, i: int, j: int) -> int {
    sums::strided_dot(m, i * c, 1, x, j, k, c)
}

/// The product of an `r x c` and a `c x k` matrix, modulo `2^64`.
pub open spec fn matrix_product(m: Seq<u64>, r: int, c: int, x: Seq<u64>, k: int) -> Seq<u64> {
    Seq::new((r * k) as nat, |t: int| wrapping::wrap(product_cell(m, c, x, k, t / k, t % k)))
}

/// Computes row `i` of a matrix product, one multiple of a row of `x` after another.
pub fn mat_mul_row(m: &[u64], r: usize, c: usize, x: &[u64], k: usize, i: usize) -> (row: Vec<u64>)
    requires
        m@.len() == r * c,
        x@.len() == c * k,
        i < r,
    ensures
        row@.len() == k,
        forall|j: int|
            0 <= j < k ==> #[trigger] row@[j] == wrapping::wrap(
                product_cell(m@, c as int, x@, k as int, i as int, j),
            ),
{
    assert(m.len() == m@.len());
    assert(x.len() == x@.len());
    let ghost cell = |j: int, t: int| m@[i * c + t * 1] * x@[j + t * k];
    let mut row: Vec<u64> = vec![0u64; k];
    for t in 0..c
        invariant
            m.len() == m@.len(),
            x.len() == x@.len(),
            m@.len() == r * c,
            x@.len() == c * k,
            i < r,
            cell == (|j: int, t: int| m@[i * c + t * 1] * x@[j + t * k]),
            row@.len() == k,
            forall|j: int|
                0 <= j < k ==> #[trigger] row@[j] == wrapping::wrap(
                    sums::sum(t as int, |u: int| cell(j, u)),
                ),
    {
        proof {
            layout::lemma_entry_in_range(i as int, t as int, r as int, c as int);
        }
        let m_val: u64 = m[i * c + t];
        for j in 0..k
            invariant
                x.len() == x@.len(),
                x@.len() == c * k,
                t < c,
                m_val == m@[i * c + t * 1],
                cell == (|j: int, t: int| m@[i * c + t * 1] * x@[j + t * k]),
                row@.len() == k,
                forall|b: int|
                    0 <= b < j ==> #[trigger] row@[b] == wrapping::wrap(
                        sums::sum(t + 1, |u: int| cell(b, u)),
                    ),
                forall|b: int|
                    j <= b < k ==> #[trigger] row@[b] == wrapping::wrap(
                        sums::sum(t as int, |u: int| cell(b, u)),
                    ),
        {
            proof {
                layout::lemma_entry_in_range(t as int, j as int, c as int, k as int);
            }
            let x_val: u64 = x[t * k + j];
            proof {
                let term = |u: int| cell(j as int, u);
                wrapping::lemma_wrap_step(sums::sum(t as int, term), m_val as int, x_val as int);
                assert(sums::sum(t + 1, term) == sums::sum(t as int, term) + term(t as int));
            }
            let updated: u64 = wrapping::plus(row[j], wrapping::times(m_val, x_val));
            row.set(j, updated);
        }
    }
    proof {
        assert forall|j: int| 0 <= j < k implies #[trigger] row@[j] == wrapping::wrap(
            product_cell(m@, c as int, x@, k as int, i as int, j),
        ) by {
            sums::lemma_sum_same(
                c as int,
                |u: int| cell(j, u),
                |t: int| m@[i * c + t * 1] * x@[j + t * k],
            );
        }
    }
    row
}

/// Row `i` of the product of an `r x c` and a `c x k` matrix.
pub open spec fn is_product_row(row: Seq<u64>, m: Seq<u64>, c: usize, x: Seq<u64>, k: usize, i: usize) -> bool {
    &&& row.len() == k
    &&& forall|j: int|
        0 <= j < k ==> #[trigger] row[j] == wrapping::wrap(
            product_cell(m, c as int, x, k as int, i as int, j),
        )
}

/// Multiplies an `r x c` and a `c x k` matrix modulo `2^64` and calls `on_row` after each row.
pub fn mat_mul_u64<F: Fn(usize) + Sync + Send>(
    m: &[u64],
    r: usize,
    c: usize,
    x: &[u64],
    k: usize,
    on_row: F,
) -> (y: Vec<u64>)
    requires
        m@.len() == r * c,
        x@.len() == c * k,
        0 < k,
        r * k <= usize::MAX,
        forall|i: usize| i < r ==> call_requires(on_row, (i,)),
    ensures
        y@ == matrix_product(m@, r as int, c as int, x@, k as int),
{
    let rows: Vec<Vec<u64>> = parallel_map(
        r,
        |i: usize| -> (row: Vec<u64>)
            requires
                r > i,
            ensures
                is_product_row(row@, m@, c, x@, k, i)
            {
                let row: Vec<u64> = mat_mul_row(m, r, c, x, k, i);
                on_row(i);
                row
            },
    );
    assert forall|i: int| 0 <= i < r implies is_product_row(
        (#[trigger] rows@[i])@,
        m@,
        c,
        x@,
        k,
        i as usize,
    ) by {
        assert(rows@[i] == rows@[(i as usize) as int]);
    }
    let y: Vec<u64> = layout::join_rows(rows, k);
    proof {
        assert forall|t: int| 0 <= t < y@.len() implies #[trigger] y@[t] == wrapping::wrap(
            product_cell(m@, c as int, x@, k as int, t / k as int, t % k as int),
        ) by {
            layout::lemma_row_major(t, r as int, k as int);
            let i = t / k as int;
            assert(is_product_row(rows@[i]@, m@, c, x@, k, i as usize));
            assert(y@[i * k + t % k as int] == rows@[i]@[t % k as int]);
        }
        assert(y@ =~= matrix_product(m@, r as int, c as int, x@, k as int));
    }
    y
}

/// The setup of a matrix: its shape, the seed and the hint.
pub open spec fn is_setup_of(
    setup: PirSetup,
    m_db: Seq<u64>,
    r: int,
    c: int,
    seed: Seq<u8>,
    n: int,
) -> bool {
    &&& setup.r == r
    &&& setup.c == c
    &&& setup.n == n
    &&& setup.seed@ == seed
    &&& setup.hint@ == matrix_product(m_db, r, c, public_matrix(seed, c, n), n)
}

/// Computes the hint of an `r x c` matrix and calls `on_row` after each of its rows.
pub fn preprocess_with_progress<F: Fn(usize) + Sync + Send>(
    m_db: &[u64],
    r: usize,
    c: usize,
    seed: PirSeed,
    params: &Params,
    on_row: F,
) -> (setup: PirSetup)
    requires
        m_db@.len() == r * c,
        0 < params.n,
        2 * c * params.n <= usize::MAX,
        r * params.n <= usize::MAX,
        forall|i: usize| i < r ==> call_requires(on_row, (i,)),
    ensures
        is_setup_of(setup, m_db@, r as int, c as int, seed@, params.n as int),
{
    let n: usize = params.n;
    let a: Vec<u64> = expand_a(&seed, c, n);
    assert(0 <= c * n) by (nonlinear_arith)
        requires
            0 <= c,
            0 <= n,
    ;
    let hint: Vec<u64> = mat_mul_u64(m_db, r, c, &a, n, on_row);
    PirSetup { seed, hint, r, c, n }
}

/// Computes the hint of an `r x c` matrix.
pub fn preprocess(m_db: &[u64], r: usize, c: usize, seed: PirSeed, params: &Params) -> (setup: PirSetup)
    requires
        m_db@.len() == r * c,
        0 < params.n,
        2 * c * params.n <= usize::MAX,
        r * params.n <= usize::MAX,
    ensures
        is_setup_of(setup, m_db@, r as int, c as int, seed@, params.n as int),
{
    preprocess_with_progress(m_db, r, c, seed, params, |_i: usize| {})
}

/// Encrypts a query under the setup's public matrix, whose rows are drawn one at a time.
pub fn encrypt_lhe(
    setup: &PirSetup,
    secret: &SecretKey,
    query: &[u64],
    params: &Params,
    noise: &[i64],
) -> (ct: Vec<u64>)
    requires
        params.valid(),
        query@.len() == setup.c,
        secret@.len() == setup.n,
        noise@.len() == setup.c,
        2 * setup.c * setup.n <= usize::MAX,
    ensures
        ct@ == lwe::ciphertext(
            public_matrix(setup.seed@, setup.c as int, setup.n as int),
            secret@,
            query@,
            noise@,
            *params,
        ),
{
    let c: usize = setup.c;
    let n: usize = setup.n;
    let ghost a = public_matrix(setup.seed@, c as int, n as int);
    assert(2 * c * n == 2 * (c * n)) by (nonlinear_arith);
    let products: Vec<u64> = parallel_map(
        c,
        |i: usize| -> (product: u64)
            requires
                c > i,
            ensures
                product == wrapping::wrap(lwe::row_times_secret(a, secret@, i as int))
            {
                assert(0 <= i * n && i * n + n <= c * n && n <= c * n) by (nonlinear_arith)
                    requires
                        0 <= i < c,
                        0 <= n,
                ;
                let row: Vec<u64> = chacha20_u64s(&setup.seed, (i * n) as u64, n);
                let product: Vec<u64> = compute_a_s(&row, secret, 1);
                proof {
                    sums::lemma_sum_same(
                        n as int,
                        |t: int| row@[0 * secret@.len() + t * 1] * lwe::wide(secret@)[0 + t * 1],
                        |t: int| a[i * secret@.len() + t * 1] * lwe::wide(secret@)[0 + t * 1],
                    );
                }
                product[0]
            },
    );
    let mut ct: Vec<u64> = Vec::with_capacity(c);
    for i in 0..c
        invariant
            params.valid(),
            query@.len() == c,
            noise@.len() == c,
            products@.len() == c,
            forall|j: usize|
                j < c ==> #[trigger] products@[j as int] == wrapping::wrap(
                    lwe::row_times_secret(a, secret@, j as int),
                ),
            ct@.len() == i,
            forall|j: int|
                0 <= j < i ==> ct@[j] == lwe::ciphertext_entry(
                    a,
                    secret@,
                    query@,
                    noise@,
                    *params,
                    j,
                ),
    {
        ct.push(
            encrypt_component(
                products[i],
                noise[i],
                query[i],
                params,
                Ghost(lwe::row_times_secret(a, secret@, i as int)),
            ),
        );
    }
    assert(ct@ =~= lwe::ciphertext(a, secret@, query@, noise@, *params));
    ct
}

/// A row-major matrix times a vector, modulo `2^64`.
pub open spec fn answer(m_db: Seq<u64>, r: int, c: int, ct: Seq<u64>) -> Seq<u64> {
    Seq::new(r as nat, |i: int| wrapping::wrap(sums::strided_dot(m_db, i * c, 1, ct, 0, 1, c)))
}

/// Answers an encrypted query: the matrix times the ciphertext, modulo `2^64`.
pub fn server_answer(m_db: &[u64], r: usize, c: usize, ct: &[u64]) -> (ans: Vec<u64>)
    requires
        m_db@.len() == r * c,
        ct@.len() == c,
    ensures
        ans@ == answer(m_db@, r as int, c as int, ct@),
{
    let mut ans: Vec<u64> = Vec::with_capacity(r);
    for i in 0..r
        invariant
            m_db@.len() == r * c,
            m_db.len() == m_db@.len(),
            ct@.len() == c,
            ans@.len() == i,
            forall|j: int|
                0 <= j < i ==> ans@[j] == wrapping::wrap(
                    sums::strided_dot(m_db@, j * c, 1, ct@, 0, 1, c as int),
                ),
    {
        proof {
            if c > 0 {
                layout::lemma_entry_in_range(i as int, c - 1, r as int, c as int);
            }
            assert(0 <= i * c <= r * c) by (nonlinear_arith)
                requires
                    0 <= i <= r,
                    0 <= c,
            ;
        }
        ans.push(wrapping::dot(m_db, i * c, 1, ct, 0, 1, c));
    }
    assert(ans@ =~= answer(m_db@, r as int, c as int, ct@));
    ans
}

/// Recovers the matrix-vector product from the answer: takes `H * s` off and rounds.
pub fn client_recover(
    ans: &[u64],
    setup: &PirSetup,
    secret: &SecretKey,
    params: &Params,
) -> (product: Vec<u64>)
    requires
        params.valid(),
        ans@.len() == setup.r,
        secret@.len() == setup.n,
        setup.hint@.len() == setup.r * setup.n,
    ensures
        product@ == lwe::decryption(
            ans@,
            lwe::matrix_times_secret(setup.hint@, secret@, setup.r as int),
            *params,
        ),
{
    let h_s: Vec<u64> = compute_a_s(&setup.hint, secret, setup.r);
    decrypt_vec(ans, &h_s, params)
}

/// Row `i` of the matrix times a query, before reduction.
pub open spec fn row_times_query(m_db: Seq<u64>, c: int, query: Seq<u64>, i: int) -> int {
    sums::strided_dot(m_db, i * c, 1, query, 0, 1, c)
}

/// Row `i` of the matrix times a query whose entries are reduced modulo `P`.
pub open spec fn row_times_reduced(
    m_db: Seq<u64>,
    c: int,
    query: Seq<u64>,
    params: Params,
    i: int,
) -> int {
    sums::sum(c, |j: int| m_db[i * c + j] * (query[j] as int % params.plaintext_modulus()))
}

/// Row `i` of the matrix times the noise of a ciphertext.
pub open spec fn row_times_noise(m_db: Seq<u64>, c: int, noise: Seq<i64>, i: int) -> int {
    sums::sum(c, |j: int| m_db[i * c + j] * noise[j])
}

/// The hint times the secret is the matrix times the public matrix times the secret.
proof fn lemma_hint_times_secret(
    m_db: Seq<u64>,
    r: int,
    c: int,
    seed: Seq<u8>,
    s: Seq<u8>,
    i: int,
)
    requires
        0 <= c,
        m_db.len() == r * c,
        0 <= i < r,
    ensures
        congruence::congruent(
            lwe::row_times_secret(
                matrix_product(m_db, r, c, public_matrix(seed, c, s.len() as int), s.len() as int),
                s,
                i,
            ),
            sums::sum(
                c,
                |j: int|
                    m_db[i * c + j] * lwe::row_times_secret(
                        public_matrix(seed, c, s.len() as int),
                        s,
                        j,
                    ),
            ),
            wrapping::modulus(),
        ),
{
    let q = wrapping::modulus();
    let n = s.len() as int;
    let a = public_matrix(seed, c, n);
    let hint = matrix_product(m_db, r, c, a, n);
    let w = lwe::wide(s);
    let hinted = |t: int| hint[i * n + t * 1] * w[0 + t * 1];
    let cell = |k: int, j: int| m_db[i * c + j] * (a[j * n + k] * w[k]);
    let by_entry = |k: int| sums::sum(c, |j: int| cell(k, j));
    let by_row = |j: int| sums::sum(n, |k: int| cell(k, j));
    assert forall|k: int| 0 <= k < n implies congruence::congruent(
        #[trigger] hinted(k),
        by_entry(k),
        q,
    ) by {
        layout::lemma_entry_in_range(i, k, r, n);
        let exact = product_cell(m_db, c, a, n, i, k);
        wrapping::lemma_wrap(exact, 0);
        congruence::lemma_congruent_by_multiple(w[k] as int, w[k] as int, 0, q);
        congruence::lemma_congruent_product(
            hint[i * n + k] as int,
            exact,
            w[k] as int,
            w[k] as int,
            q,
        );
        let column = |t: int| m_db[i * c + t * 1] * a[k + t * n];
        sums::lemma_sum_scale(c, w[k] as int, column);
        let scaled = |t: int| w[k] as int * column(t);
        assert forall|t: int| 0 <= t < c implies #[trigger] scaled(t) == cell(k, t) by {
            assert(w[k] * (m_db[i * c + t * 1] * a[k + t * n]) == m_db[i * c + t] * (a[t * n + k]
                * w[k])) by (nonlinear_arith)
                requires
                    m_db[i * c + t * 1] == m_db[i * c + t],
                    a[k + t * n] == a[t * n + k],
            ;
        }
        sums::lemma_sum_same(c, scaled, |j: int| cell(k, j));
        sums::lemma_sum_same(c, |t: int| w[k] as int * column(t), scaled);
        sums::lemma_sum_same(c, column, |t: int| m_db[i * c + t * 1] * a[k + t * n]);
        assert(w[k] * exact == exact * w[k]) by (nonlinear_arith);
    }
    sums::lemma_sum_congruent(n, hinted, by_entry, q);
    sums::lemma_sum_same(n, hinted, |t: int| hint[i * n + t * 1] * w[0 + t * 1]);
    sums::lemma_sum_swap(n, c, cell);
    sums::lemma_sum_same(n, by_entry, |k: int| sums::sum(c, |j: int| cell(k, j)));
    sums::lemma_sum_same(c, by_row, |j: int| sums::sum(n, |k: int| cell(k, j)));
    let product = |j: int| m_db[i * c + j] * lwe::row_times_secret(a, s, j);
    assert forall|j: int| 0 <= j < c implies #[trigger] by_row(j) == product(j) by {
        let line = |t: int| a[j * n + t * 1] * w[0 + t * 1];
        sums::lemma_sum_scale(n, m_db[i * c + j] as int, line);
        sums::lemma_sum_same(
            n,
            |k: int| cell(k, j),
            |t: int| m_db[i * c + j] as int * line(t),
        );
        sums::lemma_sum_same(n, line, |t: int| a[j * n + t * 1] * w[0 + t * 1]);
    }
    sums::lemma_sum_same(c, by_row, product);
    sums::lemma_sum_same(c, product, |j: int| m_db[i * c + j] * lwe::row_times_secret(a, s, j));
}

/// An answer is the hint's share, the noise's share and the encoded product, modulo `2^64`.
pub proof fn lemma_answer_splits(
    m_db: Seq<u64>,
    r: int,
    c: int,
    seed: Seq<u8>,
    s: Seq<u8>,
    query: Seq<u64>,
    noise: Seq<i64>,
    params: Params,
    i: int,
)
    requires
        0 <= c,
        m_db.len() == r * c,
        query.len() == c,
        noise.len() == c,
        0 <= i < r,
    ensures
        congruence::congruent(
            answer(
                m_db,
                r,
                c,
                lwe::ciphertext(public_matrix(seed, c, s.len() as int), s, query, noise, params),
            )[i] as int,
            lwe::row_times_secret(
                matrix_product(m_db, r, c, public_matrix(seed, c, s.len() as int), s.len() as int),
                s,
                i,
            ) + row_times_noise(m_db, c, noise, i) + params.spacing() * row_times_reduced(
                m_db,
                c,
                query,
                params,
                i,
            ),
            wrapping::modulus(),
        ),
{
    let q = wrapping::modulus();
    let n = s.len() as int;
    let a = public_matrix(seed, c, n);
    let ct = lwe::ciphertext(a, s, query, noise, params);
    let d = params.spacing();
    let cipher = |t: int| m_db[i * c + t * 1] * ct[0 + t * 1];
    let masked = |j: int| m_db[i * c + j] * lwe::row_times_secret(a, s, j);
    let noisy = |j: int| m_db[i * c + j] * noise[j];
    let plain = |j: int| m_db[i * c + j] * (query[j] as int % params.plaintext_modulus());
    let encoded = |j: int| d * plain(j);
    let first = |j: int| masked(j) + noisy(j);
    let full = |j: int| first(j) + encoded(j);
    assert forall|j: int| 0 <= j < c implies congruence::congruent(
        #[trigger] cipher(j),
        full(j),
        q,
    ) by {
        let message = query[j] as int % params.plaintext_modulus();
        let entry = lwe::row_times_secret(a, s, j) + noise[j] + d * message;
        wrapping::lemma_wrap(entry, 0);
        let m_val = m_db[i * c + j] as int;
        congruence::lemma_congruent_by_multiple(m_val, m_val, 0, q);
        congruence::lemma_congruent_product(m_val, m_val, ct[j] as int, entry, q);
        assert(m_val * entry == full(j)) by (nonlinear_arith)
            requires
                entry == lwe::row_times_secret(a, s, j) + noise[j] + d * message,
                full(j) == m_val * lwe::row_times_secret(a, s, j) + m_val * noise[j] + d * (m_val
                    * message),
        ;
    }
    sums::lemma_sum_congruent(c, cipher, full, q);
    sums::lemma_sum_add(c, first, encoded);
    sums::lemma_sum_same(c, full, |j: int| first(j) + encoded(j));
    sums::lemma_sum_add(c, masked, noisy);
    sums::lemma_sum_same(c, first, |j: int| masked(j) + noisy(j));
    sums::lemma_sum_scale(c, d, plain);
    sums::lemma_sum_same(c, encoded, |j: int| d * plain(j));
    sums::lemma_sum_same(c, noisy, |j: int| m_db[i * c + j] * noise[j]);
    sums::lemma_sum_same(
        c,
        plain,
        |j: int| m_db[i * c + j] * (query[j] as int % params.plaintext_modulus()),
    );
    sums::lemma_sum_same(c, cipher, |t: int| m_db[i * c + t * 1] * ct[0 + t * 1]);
    sums::lemma_sum_same(c, masked, |j: int| m_db[i * c + j] * lwe::row_times_secret(a, s, j));
    lemma_hint_times_secret(m_db, r, c, seed, s, i);
    let hint = matrix_product(m_db, r, c, a, n);
    let hinted = lwe::row_times_secret(hint, s, i);
    let rest = row_times_noise(m_db, c, noise, i) + d * row_times_reduced(
        m_db,
        c,
        query,
        params,
        i,
    );
    congruence::lemma_congruent_chain(hinted, sums::sum(c, masked), sums::sum(c, masked), q);
    congruence::lemma_congruent_by_multiple(rest, rest, 0, q);
    congruence::lemma_congruent_sum(sums::sum(c, masked), hinted, rest, rest, q);
    wrapping::lemma_wrap(sums::sum(c, cipher), 0);
    congruence::lemma_congruent_chain(
        answer(m_db, r, c, ct)[i] as int,
        sums::sum(c, cipher),
        sums::sum(c, full),
        q,
    );
    congruence::lemma_congruent_chain(
        answer(m_db, r, c, ct)[i] as int,
        sums::sum(c, full),
        hinted + rest,
        q,
    );
}

/// Reducing the entries of a query does not change a product modulo `P`.
pub proof fn lemma_reduced_query(m_db: Seq<u64>, c: int, query: Seq<u64>, params: Params, i: int)
    requires
        params.valid(),
    ensures
        row_times_reduced(m_db, c, query, params, i) % params.plaintext_modulus()
            == row_times_query(m_db, c, query, i) % params.plaintext_modulus(),
{
    params.lemma_moduli();
    let p = params.plaintext_modulus();
    let reduced = |j: int| m_db[i * c + j] * (query[j] as int % p);
    let plain = |t: int| m_db[i * c + t * 1] * query[0 + t * 1];
    assert forall|j: int| 0 <= j < c implies congruence::congruent(
        #[trigger] reduced(j),
        plain(j),
        p,
    ) by {
        let m_val = m_db[i * c + j] as int;
        congruence::lemma_congruent_by_multiple(m_val, m_val, 0, p);
        congruence::lemma_congruent_remainder(query[j] as int, p);
        congruence::lemma_congruent_product(
            m_val,
            m_val,
            query[j] as int % p,
            query[j] as int,
            p,
        );
    }
    sums::lemma_sum_congruent(c, reduced, plain, p);
    sums::lemma_sum_same(
        c,
        reduced,
        |j: int| m_db[i * c + j] * (query[j] as int % params.plaintext_modulus()),
    );
    sums::lemma_sum_same(c, plain, |t: int| m_db[i * c + t * 1] * query[0 + t * 1]);
    congruence::lemma_congruent_iff_same_remainder(
        row_times_reduced(m_db, c, query, params, i),
        row_times_query(m_db, c, query, i),
        p,
    );
}

/// If what is taken off an answer falls short of the hint's share by `lost`, and the noise's share
/// and `lost` together stay below half the spacing, rounding gives the product modulo `P`.
pub proof fn answers_decrypt_up_to_a_loss(
    m_db: Seq<u64>,
    r: int,
    c: int,
    seed: Seq<u8>,
    s: Seq<u8>,
    query: Seq<u64>,
    noise: Seq<i64>,
    params: Params,
    i: int,
    taken: u64,
    lost: int,
)
    requires
        params.valid(),
        0 <= c,
        m_db.len() == r * c,
        query.len() == c,
        noise.len() == c,
        0 <= i < r,
        congruence::congruent(
            taken as int,
            lwe::row_times_secret(
                matrix_product(m_db, r, c, public_matrix(seed, c, s.len() as int), s.len() as int),
                s,
                i,
            ) - lost,
            wrapping::modulus(),
        ),
        -(params.spacing() / 2) <= row_times_noise(m_db, c, noise, i) + lost < params.spacing()
            / 2,
    ensures
        params.nearest(
            wrapping::wrap(
                answer(
                    m_db,
                    r,
                    c,
                    lwe::ciphertext(
                        public_matrix(seed, c, s.len() as int),
                        s,
                        query,
                        noise,
                        params,
                    ),
                )[i] - taken,
            ) as int,
        ) == row_times_query(m_db, c, query, i) % params.plaintext_modulus(),
{
    let q = wrapping::modulus();
    let n = s.len() as int;
    let a = public_matrix(seed, c, n);
    let hint = matrix_product(m_db, r, c, a, n);
    let hinted = lwe::row_times_secret(hint, s, i);
    let ans = answer(m_db, r, c, lwe::ciphertext(a, s, query, noise, params))[i] as int;
    let noisy = row_times_noise(m_db, c, noise, i);
    let plain = row_times_reduced(m_db, c, query, params, i);
    lemma_answer_splits(m_db, r, c, seed, s, query, noise, params, i);
    congruence::lemma_congruent_sum(
        ans,
        hinted + noisy + params.spacing() * plain,
        taken as int,
        hinted - lost,
        q,
    );
    wrapping::lemma_wrap(ans - taken, params.spacing() * plain + (noisy + lost));
    lwe::rounding_removes_noise(params, plain, noisy + lost);
    lemma_reduced_query(m_db, c, query, params, i);
}

/// The client recovers the matrix-vector product: where the noise's share of a row stays below
/// half the spacing, the recovered component is the product of the row with the query modulo `P`.
pub proof fn recovery_gives_matrix_vector_product(
    m_db: Seq<u64>,
    r: int,
    c: int,
    seed: Seq<u8>,
    s: Seq<u8>,
    query: Seq<u64>,
    noise: Seq<i64>,
    params: Params,
    i: int,
)
    requires
        params.valid(),
        0 <= c,
        m_db.len() == r * c,
        query.len() == c,
        noise.len() == c,
        0 <= i < r,
        -(params.spacing() / 2) <= row_times_noise(m_db, c, noise, i) < params.spacing() / 2,
    ensures
        ({
            let n = s.len() as int;
            let a = public_matrix(seed, c, n);
            let hint = matrix_product(m_db, r, c, a, n);
            let ans = answer(m_db, r, c, lwe::ciphertext(a, s, query, noise, params));
            lwe::decryption(ans, lwe::matrix_times_secret(hint, s, r), params)[i]
                == row_times_query(m_db, c, query, i) % params.plaintext_modulus()
        }),
{
    let n = s.len() as int;
    let a = public_matrix(seed, c, n);
    let hint = matrix_product(m_db, r, c, a, n);
    let exact = lwe::row_times_secret(hint, s, i);
    wrapping::lemma_wrap(exact, 0);
    answers_decrypt_up_to_a_loss(
        m_db,
        r,
        c,
        seed,
        s,
        query,
        noise,
        params,
        i,
        lwe::matrix_times_secret(hint, s, r)[i],
        0,
    );
}

/// The public matrix takes the numbers of the seed's stream one after the other, for every row and
/// column.
pub proof fn public_matrices_take_the_stream_in_order(seed: Seq<u8>, c: nat, n: nat, i: int, j: int)
    requires
        0 <= i < c,
        0 <= j < n,
    ensures
        public_matrix(seed, c as int, n as int).len() == c * n,
        public_matrix(seed, c as int, n as int)[i * n + j] == prng::chacha20_u64(
            seed,
            (i * n + j) as nat,
        ),
{
    layout::lemma_entry_in_range(i, j, c as int, n as int);
}

/// The product of two matrices holds, for every row and column, the sum of the products of the row
/// of the one with the column of the other, modulo `2^64`.
pub proof fn products_take_every_term(
    m: Seq<u64>,
    r: nat,
    c: nat,
    x: Seq<u64>,
    k: nat,
    i: int,
    j: int,
)
    requires
        0 <= i < r,
        0 <= j < k,
    ensures
        matrix_product(m, r as int, c as int, x, k as int).len() == r * k,
        congruence::congruent(
            matrix_product(m, r as int, c as int, x, k as int)[i * k + j] as int,
            sums::sum(c as int, |t: int| m[i * c + t] * x[t * k + j]),
            0x1_0000_0000_0000_0000,
        ),
{
    layout::lemma_entry_in_range(i, j, r as int, k as int);
    let strided = |t: int| m[i * c + t * 1] * x[j + t * k];
    let plain = |t: int| m[i * c + t] * x[t * k + j];
    assert forall|t: int| 0 <= t < c implies #[trigger] strided(t) == plain(t) by {
        assert(t * 1 == t);
    }
    sums::lemma_sum_same(c as int, strided, plain);
    wrapping::lemma_wrap(product_cell(m, c as int, x, k as int, i, j), 0);
}

/// An answer holds, for every row of the matrix, the sum of the products of its numbers with those of
/// the ciphertext, modulo `2^64`.
pub proof fn answers_take_every_number(m_db: Seq<u64>, r: nat, c: nat, ct: Seq<u64>, i: int)
    requires
        0 <= i < r,
    ensures
        answer(m_db, r as int, c as int, ct).len() == r,
        congruence::congruent(
            answer(m_db, r as int, c as int, ct)[i] as int,
            sums::sum(c as int, |j: int| m_db[i * c + j] * ct[j]),
            0x1_0000_0000_0000_0000,
        ),
{
    let strided = |t: int| m_db[i * c + t * 1] * ct[0 + t * 1];
    let plain = |j: int| m_db[i * c + j] * ct[j];
    assert forall|t: int| 0 <= t < c implies #[trigger] strided(t) == plain(t) by {
        assert(t * 1 == t);
    }
    sums::lemma_sum_same(c as int, strided, plain);
    wrapping::lemma_wrap(sums::strided_dot(m_db, i * c, 1, ct, 0, 1, c as int), 0);
}

/// What a query gets: for every row of the matrix, the sum of the products of all its numbers with
/// those of the query, modulo `2^log2_p`, if the sum of their products with the noise is less than
/// half of `2^64 / 2^log2_p` in size.
pub proof fn queries_get_every_sum_of_products(
    m_db: Seq<u64>,
    r: int,
    c: int,
    seed: Seq<u8>,
    s: Seq<u8>,
    query: Seq<u64>,
    noise: Seq<i64>,
    params: Params,
    i: int,
)
    requires
        params.valid(),
        0 <= c,
        m_db.len() == r * c,
        query.len() == c,
        noise.len() == c,
        0 <= i < r,
        ({
            let error = sums::sum(c, |j: int| m_db[i * c + j] * noise[j]);
            -(pow2((64 - params.log2_p) as nat) as int) <= 2 * error < pow2(
                (64 - params.log2_p) as nat,
            )
        }),
    ensures
        ({
            let n = s.len() as int;
            let a = public_matrix(seed, c, n);
            let hint = matrix_product(m_db, r, c, a, n);
            let ans = answer(m_db, r, c, lwe::ciphertext(a, s, query, noise, params));
            let product = lwe::decryption(ans, lwe::matrix_times_secret(hint, s, r), params);
            &&& product.len() == r
            &&& product[i] == sums::sum(c, |j: int| m_db[i * c + j] * query[j]) % (pow2(
                params.log2_p as nat,
            ) as int)
        }),
{
    params.lemma_moduli();
    sums::lemma_sum_same(
        c,
        |j: int| m_db[i * c + j] * noise[j],
        |j: int| m_db[i * c + j] * noise[j],
    );
    recovery_gives_matrix_vector_product(m_db, r, c, seed, s, query, noise, params, i);
    let strided = |t: int| m_db[i * c + t * 1] * query[0 + t * 1];
    let plain = |j: int| m_db[i * c + j] * query[j];
    assert forall|t: int| 0 <= t < c implies #[trigger] strided(t) == plain(t) by {
        assert(t * 1 == t);
    }
    sums::lemma_sum_same(c, strided, plain);
}

} // verus!
