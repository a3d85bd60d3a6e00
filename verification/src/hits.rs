//! Search results and their ranking.

use vstd::prelude::*;
use vstd::relations::{sorted_by, total_ordering};

use crate::math::rearrange;

verus! {

/// A search result: the number of a vector and its score. A higher score is a better match.
///
/// Scores are integers: fixed-point inner products, or places of floating-point numbers in the
/// total order.
#[derive(Debug, Clone, Copy, PartialEq, Eq, Structural)]
pub struct Hit {
    /// Number of the vector.
    pub id: u32,
    /// Score of the vector.
    pub score: i64,
}

/// `a` may stand before `b` in a ranking: by falling score, and hits of one score by number.
pub open spec fn ahead(a: Hit, b: Hit) -> bool {
    a.score > b.score || (a.score == b.score && a.id <= b.id)
}

/// Hits in the order of the ranking.
pub open spec fn ranked(hits: Seq<Hit>) -> Seq<Hit> {
    hits.sort_by(|a: Hit, b: Hit| ahead(a, b))
}

/// The first `k` hits of the ranking, or all if there are fewer.
pub open spec fn best(hits: Seq<Hit>, k: int) -> Seq<Hit> {
    ranked(hits).take(
        if k < hits.len() {
            k
        } else {
            hits.len() as int
        },
    )
}

/// The ranking is a total order.
proof fn lemma_ahead_is_total()
    ensures
        total_ordering(|a: Hit, b: Hit| ahead(a, b)),
{
    let leq = |a: Hit, b: Hit| ahead(a, b);
    assert(forall|a: Hit| #[trigger] leq(a, a));
    assert forall|a: Hit, b: Hit| #[trigger] leq(a, b) && #[trigger] leq(b, a) implies a == b by {}
    assert forall|a: Hit, b: Hit, c: Hit|
        #[trigger] leq(a, b) && #[trigger] leq(b, c) implies leq(a, c) by {}
    assert forall|a: Hit, b: Hit| #[trigger] leq(a, b) || #[trigger] leq(b, a) by {}
}

/// Hits in the order of the ranking are the only such arrangement.
proof fn lemma_ranked_is_unique(hits: Seq<Hit>, arranged: Seq<Hit>)
    requires
        sorted_by(arranged, |a: Hit, b: Hit| ahead(a, b)),
        arranged.to_multiset() == hits.to_multiset(),
    ensures
        arranged == ranked(hits),
{
    lemma_ahead_is_total();
    hits.lemma_sort_by_ensures(|a: Hit, b: Hit| ahead(a, b));
    vstd::seq_lib::lemma_sorted_unique(arranged, ranked(hits), |a: Hit, b: Hit| ahead(a, b));
}

/// The ranking is in its order.
pub proof fn lemma_ranked_is_sorted(hits: Seq<Hit>)
    ensures
        forall|i: int, j: int|
            0 <= i < j < ranked(hits).len() ==> ahead(
                #[trigger] ranked(hits)[i],
                #[trigger] ranked(hits)[j],
            ),
{
    let leq = |a: Hit, b: Hit| ahead(a, b);
    lemma_ahead_is_total();
    hits.lemma_sort_by_ensures(leq);
    assert forall|i: int, j: int| 0 <= i < j < ranked(hits).len() implies ahead(
        #[trigger] ranked(hits)[i],
        #[trigger] ranked(hits)[j],
    ) by {
        assert(leq(ranked(hits)[i], ranked(hits)[j]));
    }
}

/// The ranking has falling scores and holds the hits it was made of, each as often.
pub proof fn ranking_is_an_ordered_rearrangement(hits: Seq<Hit>)
    ensures
        ranked(hits).to_multiset() == hits.to_multiset(),
        ranked(hits).len() == hits.len(),
        forall|i: int, j: int|
            0 <= i < j < hits.len() ==> (#[trigger] ranked(hits)[i]).score >= (
            #[trigger] ranked(hits)[j]).score,
{
    let leq = |a: Hit, b: Hit| ahead(a, b);
    lemma_ahead_is_total();
    hits.lemma_sort_by_ensures(leq);
    hits.to_multiset_ensures();
    ranked(hits).to_multiset_ensures();
    assert forall|i: int, j: int| 0 <= i < j < hits.len() implies (#[trigger] ranked(hits)[i]).score
        >= (#[trigger] ranked(hits)[j]).score by {
        assert(leq(ranked(hits)[i], ranked(hits)[j]));
    }
}

/// The ranking depends on which hits there are, and not on the order in which they come.
pub proof fn ranking_ignores_arrival_order(hits: Seq<Hit>, others: Seq<Hit>)
    requires
        hits.to_multiset() == others.to_multiset(),
    ensures
        ranked(hits) == ranked(others),
{
    lemma_ahead_is_total();
    others.lemma_sort_by_ensures(|a: Hit, b: Hit| ahead(a, b));
    lemma_ranked_is_unique(hits, ranked(others));
}

/// The numbers of hits.
pub open spec fn ids(hits: Seq<Hit>) -> Seq<u32> {
    hits.map_values(|h: Hit| h.id)
}

/// Hits on the same vectors, whose scores are in the same order.
pub open spec fn score_alike(hits: Seq<Hit>, others: Seq<Hit>) -> bool {
    &&& ids(hits) == ids(others)
    &&& forall|i: int, j: int|
        0 <= i < hits.len() && 0 <= j < hits.len() ==> ((#[trigger] hits[i]).score < (
        #[trigger] hits[j]).score <==> others[i].score < others[j].score)
}

/// A pair of hits may stand before another: by the first hits, and if these are the same by the
/// second.
spec fn pair_ahead(a: (Hit, Hit), b: (Hit, Hit)) -> bool {
    if a.0 == b.0 {
        ahead(a.1, b.1)
    } else {
        ahead(a.0, b.0)
    }
}

/// The order of pairs is a total order.
proof fn lemma_pair_ahead_is_total()
    ensures
        total_ordering(|a: (Hit, Hit), b: (Hit, Hit)| pair_ahead(a, b)),
{
    let leq = |a: (Hit, Hit), b: (Hit, Hit)| pair_ahead(a, b);
    assert(forall|a: (Hit, Hit)| #[trigger] leq(a, a));
    assert forall|a: (Hit, Hit), b: (Hit, Hit)| #[trigger] leq(a, b) && #[trigger] leq(
        b,
        a,
    ) implies a == b by {}
    assert forall|a: (Hit, Hit), b: (Hit, Hit), c: (Hit, Hit)|
        #[trigger] leq(a, b) && #[trigger] leq(b, c) implies leq(a, c) by {}
    assert forall|a: (Hit, Hit), b: (Hit, Hit)| #[trigger] leq(a, b) || #[trigger] leq(b, a) by {}
}

/// The ranking goes by the order of the scores, and not by the scores themselves: hits on the same
/// vectors with scores in the same order name the same vectors in the same order.
pub proof fn ranking_goes_by_the_order_of_scores(hits: Seq<Hit>, others: Seq<Hit>, k: nat)
    requires
        score_alike(hits, others),
    ensures
        ids(ranked(hits)) == ids(ranked(others)),
        ids(best(hits, k as int)) == ids(best(others, k as int)),
{
    let leq = |a: (Hit, Hit), b: (Hit, Hit)| pair_ahead(a, b);
    let first = |p: (Hit, Hit)| p.0;
    let second = |p: (Hit, Hit)| p.1;
    assert(ids(hits).len() == ids(others).len());
    let pairs = Seq::new(hits.len(), |i: int| (hits[i], others[i]));
    let arranged = pairs.sort_by(leq);
    lemma_pair_ahead_is_total();
    pairs.lemma_sort_by_ensures(leq);
    pairs.to_multiset_ensures();
    arranged.to_multiset_ensures();
    assert(pairs.map_values(first) =~= hits);
    assert(pairs.map_values(second) =~= others);
    rearrange::lemma_mapped_rearranged(first, arranged, pairs);
    rearrange::lemma_mapped_rearranged(second, arranged, pairs);
    let firsts = arranged.map_values(first);
    let seconds = arranged.map_values(second);
    assert forall|i: int, j: int| 0 <= i < j < arranged.len() implies ahead(firsts[i], firsts[j])
        && ahead(seconds[i], seconds[j]) && firsts[i].id == seconds[i].id && firsts[j].id
        == seconds[j].id by {
        assert(leq(arranged[i], arranged[j]));
        let p = lemma_arranged_stands_in(pairs, arranged, i);
        let q = lemma_arranged_stands_in(pairs, arranged, j);
        assert(ids(hits)[p] == ids(others)[p]);
        assert(ids(hits)[q] == ids(others)[q]);
        assert(hits[p].score < hits[q].score <==> others[p].score < others[q].score);
        assert(hits[q].score < hits[p].score <==> others[q].score < others[p].score);
    }
    let by_rank = |a: Hit, b: Hit| ahead(a, b);
    assert(sorted_by(firsts, by_rank));
    assert(sorted_by(seconds, by_rank));
    lemma_ranked_is_unique(hits, firsts);
    lemma_ranked_is_unique(others, seconds);
    assert forall|i: int| 0 <= i < arranged.len() implies #[trigger] firsts[i].id
        == seconds[i].id by {
        let p = lemma_arranged_stands_in(pairs, arranged, i);
        assert(ids(hits)[p] == ids(others)[p]);
    }
    assert(ids(ranked(hits)) =~= ids(ranked(others)));
    assert(ids(best(hits, k as int)) =~= ids(best(others, k as int)));
}

/// What stands in a rearrangement stands in what was rearranged.
proof fn lemma_arranged_stands_in(
    pairs: Seq<(Hit, Hit)>,
    arranged: Seq<(Hit, Hit)>,
    i: int,
) -> (place: int)
    requires
        arranged.to_multiset() == pairs.to_multiset(),
        0 <= i < arranged.len(),
    ensures
        0 <= place < pairs.len(),
        pairs[place] == arranged[i],
{
    pairs.to_multiset_ensures();
    arranged.to_multiset_ensures();
    assert(arranged.contains(arranged[i]));
    assert(arranged.to_multiset().count(arranged[i]) > 0);
    assert(pairs.contains(arranged[i]));
    choose|place: int| 0 <= place < pairs.len() && pairs[place] == arranged[i]
}

/// No hit that is left out has a higher score than one that is returned.
pub proof fn best_hits_are_best(hits: Seq<Hit>, k: int, i: int, j: int)
    requires
        0 <= i < best(hits, k).len(),
        0 <= k <= j < hits.len(),
    ensures
        best(hits, k)[i].score >= ranked(hits)[j].score,
{
    ranking_is_an_ordered_rearrangement(hits);
}

/// Decides which of two hits stands first.
fn stands_first(a: &Hit, b: &Hit) -> (r: bool)
    ensures
        r == ahead(*a, *b),
{
    a.score > b.score || (a.score == b.score && a.id <= b.id)
}

/// Merges two ranked lists.
fn merge(left: &Vec<Hit>, right: &Vec<Hit>) -> (merged: Vec<Hit>)
    requires
        sorted_by(left@, |a: Hit, b: Hit| ahead(a, b)),
        sorted_by(right@, |a: Hit, b: Hit| ahead(a, b)),
        left@.len() + right@.len() <= usize::MAX,
    ensures
        sorted_by(merged@, |a: Hit, b: Hit| ahead(a, b)),
        merged@.to_multiset() == left@.to_multiset().add(right@.to_multiset()),
{
    broadcast use vstd::multiset::group_multiset_axioms;

    let ghost leq = |a: Hit, b: Hit| ahead(a, b);
    let mut merged: Vec<Hit> = Vec::with_capacity(left.len() + right.len());
    let mut i: usize = 0;
    let mut j: usize = 0;
    assert(left@.take(0) =~= Seq::<Hit>::empty());
    assert(right@.take(0) =~= Seq::<Hit>::empty());
    proof {
        Seq::<Hit>::empty().to_multiset_ensures();
        assert(merged@ =~= Seq::<Hit>::empty());
        assert(merged@.to_multiset() =~= left@.take(0).to_multiset().add(
            right@.take(0).to_multiset(),
        ));
    }
    while i < left.len() || j < right.len()
        invariant
            leq == (|a: Hit, b: Hit| ahead(a, b)),
            sorted_by(left@, leq),
            sorted_by(right@, leq),
            i <= left@.len(),
            j <= right@.len(),
            sorted_by(merged@, leq),
            merged@.to_multiset() == left@.take(i as int).to_multiset().add(
                right@.take(j as int).to_multiset(),
            ),
            forall|a: int, b: int|
                0 <= a < merged@.len() && i <= b < left@.len() ==> leq(
                    #[trigger] merged@[a],
                    #[trigger] left@[b],
                ),
            forall|a: int, b: int|
                0 <= a < merged@.len() && j <= b < right@.len() ==> leq(
                    #[trigger] merged@[a],
                    #[trigger] right@[b],
                ),
        decreases left@.len() - i + right@.len() - j,
    {
        let take_left: bool = j == right.len() || (i < left.len() && stands_first(
            &left[i],
            &right[j],
        ));
        let ghost before = merged@;
        if take_left {
            let next: Hit = left[i];
            proof {
                assert forall|b: int| i < b < left@.len() implies leq(next, #[trigger] left@[b]) by {
                    assert(leq(left@[i as int], left@[b]));
                }
                assert forall|b: int| j <= b < right@.len() implies leq(
                    next,
                    #[trigger] right@[b],
                ) by {
                    assert(leq(next, right@[j as int]));
                    if j < b {
                        assert(leq(right@[j as int], right@[b]));
                    }
                }
                assert(left@.take(i + 1) =~= left@.take(i as int).push(next));
                left@.take(i as int).to_multiset_ensures();
                before.to_multiset_ensures();
            }
            merged.push(next);
            i = i + 1;
            assert(merged@.to_multiset() =~= left@.take(i as int).to_multiset().add(
                right@.take(j as int).to_multiset(),
            ));
        } else {
            let next: Hit = right[j];
            proof {
                assert forall|b: int| j < b < right@.len() implies leq(
                    next,
                    #[trigger] right@[b],
                ) by {
                    assert(leq(right@[j as int], right@[b]));
                }
                assert forall|b: int| i <= b < left@.len() implies leq(next, #[trigger] left@[b]) by {
                    assert(leq(next, left@[i as int]));
                    if i < b {
                        assert(leq(left@[i as int], left@[b]));
                    }
                }
                assert(right@.take(j + 1) =~= right@.take(j as int).push(next));
                right@.take(j as int).to_multiset_ensures();
                before.to_multiset_ensures();
            }
            merged.push(next);
            j = j + 1;
            assert(merged@.to_multiset() =~= left@.take(i as int).to_multiset().add(
                right@.take(j as int).to_multiset(),
            ));
        }
        proof {
            assert forall|a: int, b: int| 0 <= a < b < merged@.len() implies #[trigger] leq(
                merged@[a],
                merged@[b],
            ) by {
                if b < before.len() {
                    assert(leq(before[a], before[b]));
                }
            }
        }
    }
    assert(left@.take(left@.len() as int) =~= left@);
    assert(right@.take(right@.len() as int) =~= right@);
    merged
}

/// Sorts positions `from` to `to` of a list by halves.
fn merge_sort(hits: &[Hit], from: usize, to: usize) -> (sorted: Vec<Hit>)
    requires
        from <= to <= hits@.len(),
    ensures
        sorted_by(sorted@, |a: Hit, b: Hit| ahead(a, b)),
        sorted@.to_multiset() == hits@.subrange(from as int, to as int).to_multiset(),
        sorted@.len() == to - from,
    decreases to - from,
{
    let ghost part = hits@.subrange(from as int, to as int);
    if to - from <= 1 {
        let mut sorted: Vec<Hit> = Vec::new();
        if from < to {
            sorted.push(hits[from]);
        }
        assert(sorted@ =~= part);
        return sorted;
    }
    let mid: usize = from + (to - from) / 2;
    let left: Vec<Hit> = merge_sort(hits, from, mid);
    let right: Vec<Hit> = merge_sort(hits, mid, to);
    assert(hits.len() == hits@.len());
    let sorted: Vec<Hit> = merge(&left, &right);
    proof {
        let a = hits@.subrange(from as int, mid as int);
        let b = hits@.subrange(mid as int, to as int);
        assert(part =~= a + b);
        vstd::seq_lib::lemma_multiset_commutative(a, b);
        sorted@.to_multiset_ensures();
        part.to_multiset_ensures();
    }
    sorted
}

/// Ranks hits and keeps the first `k`.
pub fn rank(hits: &[Hit], k: usize) -> (r: Vec<Hit>)
    ensures
        r@ == best(hits@, k as int),
{
    let mut sorted: Vec<Hit> = merge_sort(hits, 0, hits.len());
    proof {
        assert(hits@.subrange(0, hits@.len() as int) =~= hits@);
        lemma_ranked_is_unique(hits@, sorted@);
    }
    if k < sorted.len() {
        sorted.truncate(k);
    }
    assert(sorted@ =~= best(hits@, k as int));
    sorted
}

/// What is returned is the top of the hits: `k` of them or all, each taken from the hits and none
/// more often than it is there, by falling score, hits of one score by rising number, and none that
/// is left out has a higher score than one that is returned.
pub proof fn returned_hits_are_the_top(hits: Seq<Hit>, k: nat)
    ensures
        best(hits, k as int).len() == (if k < hits.len() {
            k
        } else {
            hits.len()
        }),
        best(hits, k as int).to_multiset().subset_of(hits.to_multiset()),
        forall|i: int|
            0 <= i < best(hits, k as int).len() ==> hits.contains(
                #[trigger] best(hits, k as int)[i],
            ),
        forall|i: int, j: int|
            0 <= i < j < best(hits, k as int).len() ==> {
                let a = #[trigger] best(hits, k as int)[i];
                let b = #[trigger] best(hits, k as int)[j];
                a.score > b.score || (a.score == b.score && a.id <= b.id)
            },
        forall|i: int, left: Hit|
            0 <= i < best(hits, k as int).len() && hits.to_multiset().count(left) > best(
                hits,
                k as int,
            ).to_multiset().count(left) ==> {
                let a = #[trigger] best(hits, k as int)[i];
                #[trigger] left.score < a.score || (left.score == a.score && a.id <= left.id)
            },
{
    let all = ranked(hits);
    let top = best(hits, k as int);
    let n = top.len() as int;
    ranking_is_an_ordered_rearrangement(hits);
    lemma_ranked_is_sorted(hits);
    hits.to_multiset_ensures();
    all.to_multiset_ensures();
    top.to_multiset_ensures();
    let rest = all.skip(n);
    rest.to_multiset_ensures();
    assert(all =~= top + rest);
    vstd::seq_lib::lemma_multiset_commutative(top, rest);
    assert forall|i: int| 0 <= i < n implies hits.contains(#[trigger] top[i]) by {
        assert(all[i] == top[i]);
        assert(all.contains(all[i]));
        assert(all.to_multiset().count(all[i]) > 0);
    }
    assert forall|i: int, left: Hit|
        0 <= i < n && hits.to_multiset().count(left) > top.to_multiset().count(left) implies {
        let a = #[trigger] top[i];
        #[trigger] left.score < a.score || (left.score == a.score && a.id <= left.id)
    } by {
        assert(rest.to_multiset().count(left) > 0);
        assert(rest.contains(left));
        let t = choose|t: int| 0 <= t < rest.len() && rest[t] == left;
        assert(all[n + t] == left);
        assert(ahead(all[i], all[n + t]));
        assert(all[i] == top[i]);
    }
}

/// Nothing better is left out: a hit with a higher score than one that is returned is returned too;
/// one whose number is not among the returned numbers scores no higher than any that is returned;
/// and hits of different numbers are returned with different numbers.
pub proof fn nothing_better_is_left_out(hits: Seq<Hit>, k: nat)
    ensures
        forall|i: int, j: int|
            0 <= i < best(hits, k as int).len() && 0 <= j < hits.len() && (
            #[trigger] hits[j]).score > (#[trigger] best(hits, k as int)[i]).score ==> best(
                hits,
                k as int,
            ).contains(hits[j]),
        forall|i: int, j: int|
            0 <= i < best(hits, k as int).len() && 0 <= j < hits.len() && !ids(
                best(hits, k as int),
            ).contains((#[trigger] hits[j]).id) ==> hits[j].score <= (
            #[trigger] best(hits, k as int)[i]).score,
        (forall|i: int, j: int|
            0 <= i < j < hits.len() ==> (#[trigger] hits[i]).id != (#[trigger] hits[j]).id)
            ==> forall|i: int, j: int|
            0 <= i < j < best(hits, k as int).len() ==> (#[trigger] best(hits, k as int)[i]).id
                != (#[trigger] best(hits, k as int)[j]).id,
{
    let top = best(hits, k as int);
    returned_hits_are_the_top(hits, k);
    hits.to_multiset_ensures();
    top.to_multiset_ensures();
    assert forall|i: int, j: int|
        0 <= i < top.len() && 0 <= j < hits.len() && (#[trigger] hits[j]).score > (
        #[trigger] top[i]).score implies top.contains(hits[j]) by {
        let h = hits[j];
        assert(hits.contains(h));
        if top.to_multiset().count(h) == 0 {
            assert(hits.to_multiset().count(h) > top.to_multiset().count(h));
            assert(h.score < top[i].score || (h.score == top[i].score && top[i].id <= h.id));
        }
    }
    assert forall|i: int, j: int|
        0 <= i < top.len() && 0 <= j < hits.len() && !ids(top).contains(
            (#[trigger] hits[j]).id,
        ) implies hits[j].score <= (#[trigger] top[i]).score by {
        if hits[j].score > top[i].score {
            let t = choose|t: int| 0 <= t < top.len() && top[t] == hits[j];
            assert(ids(top)[t] == hits[j].id);
        }
    }
    if forall|i: int, j: int|
        0 <= i < j < hits.len() ==> (#[trigger] hits[i]).id != (#[trigger] hits[j]).id {
        assert forall|i: int, j: int| 0 <= i < j < top.len() implies (#[trigger] top[i]).id != (
        #[trigger] top[j]).id by {
            if top[i].id == top[j].id {
                let p = choose|p: int| 0 <= p < hits.len() && hits[p] == top[i];
                let q = choose|q: int| 0 <= q < hits.len() && hits[q] == top[j];
                assert(hits.contains(top[i]) && hits.contains(top[j]));
                assert(p == q);
                assert(hits.no_duplicates());
                hits.lemma_multiset_has_no_duplicates();
                assert(hits.to_multiset().count(top[i]) == 1);
                let head = top.take(j);
                head.to_multiset_ensures();
                assert(head.contains(head[i]));
                assert(head.to_multiset().count(top[i]) > 0);
                assert(top =~= head + top.skip(j));
                vstd::seq_lib::lemma_multiset_commutative(head, top.skip(j));
                let tail = top.skip(j);
                tail.to_multiset_ensures();
                assert(tail[0] == top[j]);
                assert(tail.contains(top[j]));
                assert(tail.to_multiset().count(top[j]) > 0);
                assert(top.to_multiset().count(top[i]) >= 2);
            }
        }
    }
}

/// A hit that is dropped from one list for `k` better ones of that list is not among the best `k`
/// of several lists: it suffices to rank the best `k` of a list with the rest.
pub proof fn the_best_of_a_list_suffice(list: Seq<Hit>, rest: Seq<Hit>, k: nat)
    ensures
        best(best(list, k as int) + rest, k as int) == best(list + rest, k as int),
{
    let n = k as int;
    let kept = best(list, n);
    let by_rank = |a: Hit, b: Hit| ahead(a, b);
    ranking_is_an_ordered_rearrangement(list);
    lemma_ranked_is_sorted(list);
    if list.len() <= n {
        assert(kept =~= ranked(list));
        vstd::seq_lib::lemma_multiset_commutative(kept, rest);
        vstd::seq_lib::lemma_multiset_commutative(list, rest);
        ranking_ignores_arrival_order(kept + rest, list + rest);
        (kept + rest).to_multiset_ensures();
        (list + rest).to_multiset_ensures();
    } else {
        let dropped = ranked(list).skip(n);
        assert(ranked(list) =~= kept + dropped);
        let some = ranked(kept + rest);
        ranking_is_an_ordered_rearrangement(kept + rest);
        lemma_ranked_is_sorted(kept + rest);
        let head = some.take(n);
        let tail = some.skip(n) + dropped;
        ranking_is_an_ordered_rearrangement(tail);
        lemma_ranked_is_sorted(tail);
        let arranged = head + ranked(tail);
        assert forall|i: int, d: int| 0 <= i < n && 0 <= d < dropped.len() implies ahead(
            #[trigger] head[i],
            #[trigger] dropped[d],
        ) by {
            lemma_no_room(kept, rest, i, dropped[d], ranked(list), d);
        }
        assert forall|i: int, j: int| 0 <= i < j < arranged.len() implies #[trigger] by_rank(
            arranged[i],
            arranged[j],
        ) by {
            if j < n {
                assert(arranged[i] == some[i] && arranged[j] == some[j]);
            } else if i < n {
                let h = ranked(tail)[j - n];
                ranked(tail).to_multiset_ensures();
                tail.to_multiset_ensures();
                assert(ranked(tail).contains(h));
                assert(ranked(tail).to_multiset().count(h) > 0);
                assert(tail.to_multiset().count(h) > 0);
                assert(tail.contains(h));
                let t = choose|t: int| 0 <= t < tail.len() && tail[t] == h;
                if t < some.skip(n).len() {
                    assert(tail[t] == some[n + t]);
                    assert(arranged[i] == some[i]);
                } else {
                    assert(tail[t] == dropped[t - some.skip(n).len()]);
                    assert(ahead(head[i], dropped[t - some.skip(n).len()]));
                }
            } else {
                assert(arranged[i] == ranked(tail)[i - n]);
                assert(arranged[j] == ranked(tail)[j - n]);
            }
        }
        assert(sorted_by(arranged, by_rank));
        assert(arranged.to_multiset() =~= (list + rest).to_multiset()) by {
            vstd::seq_lib::lemma_multiset_commutative(head, ranked(tail));
            vstd::seq_lib::lemma_multiset_commutative(some.skip(n), dropped);
            vstd::seq_lib::lemma_multiset_commutative(head, some.skip(n));
            assert(head + some.skip(n) =~= some);
            vstd::seq_lib::lemma_multiset_commutative(kept, rest);
            vstd::seq_lib::lemma_multiset_commutative(kept, dropped);
            vstd::seq_lib::lemma_multiset_commutative(list, rest);
            let some_bag = kept.to_multiset().add(rest.to_multiset());
            let list_bag = kept.to_multiset().add(dropped.to_multiset());
            assert(some.to_multiset() == some_bag);
            assert(list.to_multiset() == list_bag);
            assert(head.to_multiset().add(some.skip(n).to_multiset()) == some_bag);
            assert(tail.to_multiset() == some.skip(n).to_multiset().add(dropped.to_multiset()));
            assert(arranged.to_multiset() == head.to_multiset().add(tail.to_multiset()));
            assert(arranged.to_multiset() =~= some_bag.add(dropped.to_multiset()));
            assert((list + rest).to_multiset() =~= list_bag.add(rest.to_multiset()));
        }
        lemma_ranked_is_unique(list + rest, arranged);
        assert(best(list + rest, n) =~= head);
        assert(best(kept + rest, n) =~= head);
    }
}

/// The first places of a ranking are taken by hits that go before a hit, if there are enough of them.
proof fn lemma_no_room(
    kept: Seq<Hit>,
    rest: Seq<Hit>,
    i: int,
    behind: Hit,
    all: Seq<Hit>,
    d: int,
)
    requires
        0 <= i < kept.len(),
        0 <= d,
        kept.len() + d < all.len(),
        kept == all.take(kept.len() as int),
        behind == all[kept.len() + d],
        forall|a: int, b: int|
            0 <= a < b < all.len() ==> ahead(#[trigger] all[a], #[trigger] all[b]),
    ensures
        ahead(ranked(kept + rest)[i], behind),
{
    let some = ranked(kept + rest);
    ranking_is_an_ordered_rearrangement(kept + rest);
    lemma_ranked_is_sorted(kept + rest);
    if !ahead(some[i], behind) {
        let before = some.take(i);
        let after = some.skip(i);
        assert(some =~= before + after);
        vstd::seq_lib::lemma_multiset_commutative(before, after);
        vstd::seq_lib::lemma_multiset_commutative(kept, rest);
        kept.to_multiset_ensures();
        before.to_multiset_ensures();
        after.to_multiset_ensures();
        assert forall|h: Hit| kept.to_multiset().count(h) <= before.to_multiset().count(h) by {
            if kept.to_multiset().count(h) > 0 {
                assert(kept.contains(h));
                let p = choose|p: int| 0 <= p < kept.len() && kept[p] == h;
                assert(all[p] == h);
                assert(ahead(all[p], all[kept.len() + d]));
                if after.to_multiset().count(h) > 0 {
                    assert(after.contains(h));
                    let t = choose|t: int| 0 <= t < after.len() && after[t] == h;
                    assert(some[i + t] == h);
                    if t > 0 {
                        assert(ahead(some[i], some[i + t]));
                    }
                    assert(ahead(some[i], behind));
                }
                assert(some.to_multiset().count(h) == (kept + rest).to_multiset().count(h));
            }
        }
        assert(kept.to_multiset().subset_of(before.to_multiset()));
        vstd::multiset::axiom_len_sub(before.to_multiset(), kept.to_multiset());
    }
}

} // verus!
