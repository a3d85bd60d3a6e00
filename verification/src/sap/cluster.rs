//! A cluster of encrypted vectors.

use vstd::prelude::*;

use crate::float_bits;
use crate::float_bits::total_order_key_64;
use crate::hits;
use crate::hits::{rank, Hit};
use crate::parallel::parallel_map;
use crate::prng;
use crate::sap::crypto;
use crate::sap::crypto::derive_nonce;

verus! {

/// What `encrypt` makes of row `i` with the nonce that is derived for it.
pub open spec fn is_encrypted<T, E: Fn(usize, [u8; 16]) -> T>(
    encrypt: &E,
    base_seed: u64,
    i: usize,
    entry: T,
) -> bool {
    exists|nonce: [u8; 16]|
        nonce@ == crypto::nonce_of(base_seed, i as u64) && #[trigger] call_ensures(
            *encrypt,
            (i, nonce),
            entry,
        )
}

/// Encrypts `count` rows in parallel. `encrypt` is given the number of a row and its nonce, which
/// depends on the seed and the number alone. `on_row` is told each row that is done.
pub fn build_cluster<T: Send, E: Fn(usize, [u8; 16]) -> T + Sync + Send, F: Fn(usize) + Sync + Send>(
    count: usize,
    base_seed: u64,
    encrypt: E,
    on_row: F,
) -> (entries: Vec<T>)
    requires
        forall|i: usize, nonce: [u8; 16]| i < count ==> call_requires(encrypt, (i, nonce)),
        forall|i: usize| i < count ==> call_requires(on_row, (i,)),
    ensures
        entries@.len() == count,
        forall|i: int|
            0 <= i < count ==> is_encrypted(&encrypt, base_seed, i as usize, #[trigger] entries@[i]),
{
    let entries: Vec<T> = parallel_map(
        count,
        |i: usize| -> (entry: T)
            requires
                count > i,
            ensures
                is_encrypted(&encrypt, base_seed, i, entry)
            {
                let nonce: [u8; 16] = derive_nonce(base_seed, i as u64);
                let entry: T = encrypt(i, nonce);
                on_row(i);
                entry
            },
    );
    assert forall|i: int| 0 <= i < count implies is_encrypted(
        &encrypt,
        base_seed,
        i as usize,
        #[trigger] entries@[i],
    ) by {
        assert(entries@[i] == entries@[(i as usize) as int]);
    }
    entries
}

/// Entries at distances of double precision, as hits. Entries are numbered by their place.
pub open spec fn entry_hits(distances: Seq<u64>) -> Seq<Hit> {
    Seq::new(
        distances.len(),
        |i: int|
            Hit { id: i as u32, score: (-1 - float_bits::total_order_64(distances[i])) as i64 },
    )
}

/// Distances of the same entries that are in the same order.
pub open spec fn same_order(distances: Seq<u64>, others: Seq<u64>) -> bool {
    &&& distances.len() == others.len()
    &&& forall|i: int, j: int|
        0 <= i < distances.len() && 0 <= j < distances.len() ==> (float_bits::total_order_64(
            #[trigger] distances[i],
        ) < float_bits::total_order_64(#[trigger] distances[j]) <==> float_bits::total_order_64(
            others[i],
        ) < float_bits::total_order_64(others[j]))
}

/// The nearest entries go by the order of the distances alone: where encryption leaves the order of
/// the distances as it is in the clear, a query finds the same entries in the same order.
pub proof fn nearest_entries_go_by_the_order_of_distances(
    distances: Seq<u64>,
    others: Seq<u64>,
    k: nat,
)
    requires
        same_order(distances, others),
    ensures
        hits::ids(hits::best(entry_hits(distances), k as int)) == hits::ids(
            hits::best(entry_hits(others), k as int),
        ),
{
    let a = entry_hits(distances);
    let b = entry_hits(others);
    assert(hits::ids(a) =~= hits::ids(b));
    assert forall|i: int, j: int| 0 <= i < a.len() && 0 <= j < a.len() implies ((
    #[trigger] a[i]).score < (#[trigger] a[j]).score <==> b[i].score < b[j].score) by {
        assert(float_bits::total_order_64(distances[j]) < float_bits::total_order_64(distances[i])
            <==> float_bits::total_order_64(others[j]) < float_bits::total_order_64(others[i]));
    }
    hits::ranking_goes_by_the_order_of_scores(a, b, k);
}

/// Ranks entries by their distances and keeps the nearest `k`.
pub fn knn_with_scores(distances: &[u64], k: usize) -> (r: Vec<Hit>)
    ensures
        r@ == hits::best(entry_hits(distances@), k as int),
{
    let mut all: Vec<Hit> = Vec::with_capacity(distances.len());
    for i in 0..distances.len()
        invariant
            all@ == entry_hits(distances@).take(i as int),
    {
        let key: i64 = total_order_key_64(distances[i]);
        all.push(Hit { id: i as u32, score: -1 - key });
        assert(all@ =~= entry_hits(distances@).take(i + 1));
    }
    assert(all@ =~= entry_hits(distances@));
    rank(&all, k)
}

/// Column `q` of distances that are given row by row.
pub open spec fn column(rows: Seq<Vec<u64>>, q: int) -> Seq<u64> {
    Seq::new(rows.len(), |i: int| rows[i]@[q])
}

/// Ranks entries for several queries. The distances of an entry from all queries come together.
pub fn knn_with_scores_batch(rows: &[Vec<u64>], n_queries: usize, k: usize) -> (r: Vec<Vec<Hit>>)
    requires
        forall|i: int| 0 <= i < rows@.len() ==> (#[trigger] rows@[i])@.len() == n_queries,
    ensures
        r@.len() == n_queries,
        forall|q: int|
            0 <= q < n_queries ==> (#[trigger] r@[q])@ == hits::best(
                entry_hits(column(rows@, q)),
                k as int,
            ),
{
    let mut by_query: Vec<Vec<u64>> = Vec::with_capacity(n_queries);
    for q in 0..n_queries
        invariant
            by_query@.len() == q,
            forall|t: int| 0 <= t < q ==> (#[trigger] by_query@[t])@ == column(rows@, t).take(0),
    {
        by_query.push(Vec::with_capacity(rows.len()));
        assert(by_query@[q as int]@ =~= column(rows@, q as int).take(0));
    }
    for i in 0..rows.len()
        invariant
            forall|t: int| 0 <= t < rows@.len() ==> (#[trigger] rows@[t])@.len() == n_queries,
            by_query@.len() == n_queries,
            forall|t: int|
                0 <= t < n_queries ==> (#[trigger] by_query@[t])@ == column(rows@, t).take(
                    i as int,
                ),
    {
        let row: &Vec<u64> = &rows[i];
        for q in 0..n_queries
            invariant
                i < rows@.len(),
                *row == rows@[i as int],
                row@.len() == n_queries,
                by_query@.len() == n_queries,
                forall|t: int|
                    0 <= t < q ==> (#[trigger] by_query@[t])@ == column(rows@, t).take(i + 1),
                forall|t: int|
                    q <= t < n_queries ==> (#[trigger] by_query@[t])@ == column(rows@, t).take(
                        i as int,
                    ),
        {
            by_query[q].push(row[q]);
            assert(by_query@[q as int]@ =~= column(rows@, q as int).take(i + 1));
        }
    }
    let mut r: Vec<Vec<Hit>> = Vec::with_capacity(n_queries);
    for q in 0..n_queries
        invariant
            by_query@.len() == n_queries,
            forall|t: int|
                0 <= t < n_queries ==> (#[trigger] by_query@[t])@ == column(rows@, t).take(
                    rows@.len() as int,
                ),
            r@.len() == q,
            forall|t: int|
                0 <= t < q ==> (#[trigger] r@[t])@ == hits::best(
                    entry_hits(column(rows@, t)),
                    k as int,
                ),
    {
        assert(by_query@[q as int]@ =~= column(rows@, q as int));
        r.push(knn_with_scores(&by_query[q], k));
    }
    r
}

/// What is returned of entries at distances: `k` hits, or one for each entry; each stands for an
/// entry, with the entry's number and a score that falls as its distance rises; nearer ones come
/// first; and an entry that is nearer than one that is returned is returned too.
pub proof fn returned_entries_are_the_nearest(distances: Seq<u64>, k: nat)
    ensures
        ({
            let nearest = hits::best(entry_hits(distances), k as int);
            &&& nearest.len() == (if k < distances.len() {
                k
            } else {
                distances.len()
            })
            &&& forall|h: Hit| #[trigger]
                nearest.contains(h) ==> exists|e: int|
                    0 <= e < distances.len() && h.id == e as u32 && h.score == -1
                        - float_bits::total_order_64(#[trigger] distances[e])
            &&& forall|i: int, j: int|
                0 <= i < j < nearest.len() ==> (#[trigger] nearest[i]).score >= (
                #[trigger] nearest[j]).score
            &&& forall|i: int, e: int|
                0 <= i < nearest.len() && 0 <= e < distances.len() && -1
                    - float_bits::total_order_64(#[trigger] distances[e]) > (
                #[trigger] nearest[i]).score ==> exists|h: Hit| #[trigger]
                    nearest.contains(h) && h.id == e as u32 && h.score == -1
                        - float_bits::total_order_64(distances[e])
        }),
{
    let all = entry_hits(distances);
    let nearest = hits::best(all, k as int);
    hits::returned_hits_are_the_top(all, k);
    hits::nothing_better_is_left_out(all, k);
    assert forall|h: Hit| #[trigger] nearest.contains(h) implies exists|e: int|
        0 <= e < distances.len() && h.id == e as u32 && h.score == -1 - float_bits::total_order_64(
            #[trigger] distances[e],
        ) by {
        let i = choose|i: int| 0 <= i < nearest.len() && nearest[i] == h;
        assert(all.contains(nearest[i]));
        let e = choose|e: int| 0 <= e < all.len() && all[e] == h;
        assert(h.score == -1 - float_bits::total_order_64(distances[e]));
    }
    assert forall|i: int, e: int|
        0 <= i < nearest.len() && 0 <= e < distances.len() && -1 - float_bits::total_order_64(
            #[trigger] distances[e],
        ) > (#[trigger] nearest[i]).score implies exists|h: Hit| #[trigger]
        nearest.contains(h) && h.id == e as u32 && h.score == -1 - float_bits::total_order_64(
            distances[e],
        ) by {
        assert(all[e].score > nearest[i].score);
        assert(nearest.contains(all[e]));
    }
}

/// Entries whose numbers fit are returned once each, by rising distance, and none that is left out is
/// nearer than one that is returned.
pub proof fn no_nearer_entry_is_left_out(distances: Seq<u64>, k: nat)
    requires
        distances.len() <= 0x1_0000_0000,
    ensures
        ({
            let nearest = hits::best(entry_hits(distances), k as int);
            &&& forall|i: int|
                0 <= i < nearest.len() ==> (#[trigger] nearest[i]).id < distances.len()
                    && nearest[i].score == -1 - float_bits::total_order_64(
                    distances[nearest[i].id as int],
                )
            &&& forall|i: int, j: int|
                0 <= i < j < nearest.len() ==> (#[trigger] nearest[i]).id != (
                #[trigger] nearest[j]).id && float_bits::total_order_64(
                    distances[nearest[i].id as int],
                ) <= float_bits::total_order_64(distances[nearest[j].id as int])
            &&& forall|i: int, e: int|
                0 <= i < nearest.len() && 0 <= e < distances.len() && (forall|t: int|
                    0 <= t < nearest.len() ==> (#[trigger] nearest[t]).id != e)
                    ==> float_bits::total_order_64(distances[(#[trigger] nearest[i]).id as int])
                    <= float_bits::total_order_64(#[trigger] distances[e])
        }),
{
    let all = entry_hits(distances);
    let nearest = hits::best(all, k as int);
    hits::returned_hits_are_the_top(all, k);
    hits::nothing_better_is_left_out(all, k);
    assert forall|i: int| 0 <= i < nearest.len() implies (#[trigger] nearest[i]).id
        < distances.len() && nearest[i].score == -1 - float_bits::total_order_64(
        distances[nearest[i].id as int],
    ) by {
        assert(all.contains(nearest[i]));
        let e = choose|e: int| 0 <= e < all.len() && all[e] == nearest[i];
        assert(nearest[i].id == e);
    }
    assert forall|i: int, j: int| 0 <= i < j < all.len() implies (#[trigger] all[i]).id != (
    #[trigger] all[j]).id by {}
    assert forall|i: int, e: int|
        0 <= i < nearest.len() && 0 <= e < distances.len() && (forall|t: int|
            0 <= t < nearest.len() ==> (#[trigger] nearest[t]).id
                != e) implies float_bits::total_order_64(
        distances[(#[trigger] nearest[i]).id as int],
    ) <= float_bits::total_order_64(#[trigger] distances[e]) by {
        assert(all[e].id == e);
        if hits::ids(nearest).contains(all[e].id) {
            let t = choose|t: int| 0 <= t < nearest.len() && hits::ids(nearest)[t] == all[e].id;
            assert(nearest[t].id == e);
        }
        assert(all[e].score <= nearest[i].score);
    }
}

/// The distances of a query among several are its own: one per entry, in the order of the entries.
pub proof fn columns_hold_the_distances_of_one_query(rows: Seq<Vec<u64>>, q: int, i: int)
    requires
        0 <= i < rows.len(),
    ensures
        column(rows, q).len() == rows.len(),
        column(rows, q)[i] == rows[i]@[q],
{
}

/// An entry is made of its own row, with a nonce whose bytes are drawn from the stream of the seed
/// changed by the row's number. Gives the nonce.
pub proof fn entries_are_made_of_their_rows<T, E: Fn(usize, [u8; 16]) -> T>(
    encrypt: &E,
    base_seed: u64,
    i: usize,
    entry: T,
) -> (nonce: [u8; 16])
    requires
        is_encrypted(encrypt, base_seed, i, entry),
    ensures
        call_ensures(*encrypt, (i, nonce), entry),
        forall|t: int|
            0 <= t < 16 ==> (#[trigger] nonce@[t]) as int == prng::chacha20_word(
                prng::expanded_seed(base_seed ^ (i as u64)),
                t as nat,
            ) as int % 256,
{
    choose|nonce: [u8; 16]|
        nonce@ == crypto::nonce_of(base_seed, i as u64) && #[trigger] call_ensures(
            *encrypt,
            (i, nonce),
            entry,
        )
}

} // verus!
