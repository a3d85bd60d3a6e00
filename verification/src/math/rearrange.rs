//! What does not depend on the order of things.

use vstd::prelude::*;

verus! {

/// The numbers below `n`, in order.
pub open spec fn all_below(n: int) -> Seq<usize> {
    Seq::new(n as nat, |i: int| i as usize)
}

/// Numbers below their count, none of them twice, are all the numbers below it.
pub proof fn lemma_all_below(order: Seq<usize>)
    requires
        order.no_duplicates(),
        order.len() <= usize::MAX,
        forall|i: int| 0 <= i < order.len() ==> #[trigger] order[i] < order.len(),
    ensures
        order.to_multiset() == all_below(order.len() as int).to_multiset(),
{
    let n = order.len() as int;
    let all = all_below(n);
    order.unique_seq_to_set();
    all.unique_seq_to_set();
    assert forall|x: usize| order.to_set().contains(x) implies all.to_set().contains(x) by {
        let i = choose|i: int| 0 <= i < order.len() && order[i] == x;
        assert(order[i] < n);
        assert(all[x as int] == x);
    }
    vstd::set_lib::lemma_subset_equality(order.to_set(), all.to_set());
    order.lemma_multiset_has_no_duplicates();
    all.lemma_multiset_has_no_duplicates();
    order.to_multiset_ensures();
    all.to_multiset_ensures();
    assert forall|x: usize| order.to_multiset().count(x) == all.to_multiset().count(x) by {
        assert(order.to_set().contains(x) <==> order.contains(x));
        assert(all.to_set().contains(x) <==> all.contains(x));
        assert(order.contains(x) <==> order.to_multiset().count(x) > 0);
        assert(all.contains(x) <==> all.to_multiset().count(x) > 0);
        if order.contains(x) {
            assert(order.to_multiset().contains(x));
            assert(all.to_multiset().contains(x));
        }
    }
    assert(order.to_multiset() =~= all.to_multiset());
}

/// The sum of a value over numbers.
pub open spec fn sum_on(value: spec_fn(usize) -> int, order: Seq<usize>) -> int
    decreases order.len(),
{
    if order.len() == 0 {
        0
    } else {
        sum_on(value, order.drop_last()) + value(order.last())
    }
}

/// A number adds its value to the sum, wherever it stands.
proof fn lemma_sum_without(value: spec_fn(usize) -> int, order: Seq<usize>, j: int)
    requires
        0 <= j < order.len(),
    ensures
        sum_on(value, order) == sum_on(value, order.remove(j)) + value(order[j]),
    decreases order.len(),
{
    if j == order.len() - 1 {
        assert(order.remove(j) =~= order.drop_last());
    } else {
        lemma_sum_without(value, order.drop_last(), j);
        assert(order.remove(j).drop_last() =~= order.drop_last().remove(j));
        assert(order.remove(j).last() == order.last());
    }
}

/// A sum does not depend on the order.
pub proof fn lemma_sum_rearranged(value: spec_fn(usize) -> int, a: Seq<usize>, b: Seq<usize>)
    requires
        a.to_multiset() == b.to_multiset(),
    ensures
        sum_on(value, a) == sum_on(value, b),
    decreases a.len(),
{
    a.to_multiset_ensures();
    b.to_multiset_ensures();
    assert(a.len() == b.len());
    if a.len() > 0 {
        let x = a.last();
        assert(a.contains(x));
        assert(b.to_multiset().count(x) > 0);
        assert(b.contains(x));
        let j = choose|j: int| 0 <= j < b.len() && b[j] == x;
        assert(a.remove(a.len() - 1) =~= a.drop_last());
        assert(a.drop_last().to_multiset() =~= b.remove(j).to_multiset());
        lemma_sum_rearranged(value, a.drop_last(), b.remove(j));
        lemma_sum_without(value, b, j);
    }
}

/// Sequences that are picked by numbers, one after the other.
pub open spec fn concat_on<A>(part: spec_fn(usize) -> Seq<A>, order: Seq<usize>) -> Seq<A>
    decreases order.len(),
{
    if order.len() == 0 {
        Seq::empty()
    } else {
        concat_on(part, order.drop_last()) + part(order.last())
    }
}

/// A part adds its elements, wherever it stands.
proof fn lemma_concat_without<A>(part: spec_fn(usize) -> Seq<A>, order: Seq<usize>, j: int)
    requires
        0 <= j < order.len(),
    ensures
        concat_on(part, order).to_multiset() == concat_on(part, order.remove(j)).to_multiset().add(
            part(order[j]).to_multiset(),
        ),
    decreases order.len(),
{
    let last = part(order.last());
    vstd::seq_lib::lemma_multiset_commutative(concat_on(part, order.drop_last()), last);
    if j == order.len() - 1 {
        assert(order.remove(j) =~= order.drop_last());
    } else {
        lemma_concat_without(part, order.drop_last(), j);
        let rest = order.remove(j);
        assert(rest.drop_last() =~= order.drop_last().remove(j));
        assert(rest.last() == order.last());
        vstd::seq_lib::lemma_multiset_commutative(concat_on(part, rest.drop_last()), last);
        assert(concat_on(part, order).to_multiset() =~= concat_on(part, rest).to_multiset().add(
            part(order[j]).to_multiset(),
        ));
    }
}

/// What sequences hold together does not depend on their order.
pub proof fn lemma_concat_rearranged<A>(
    part: spec_fn(usize) -> Seq<A>,
    a: Seq<usize>,
    b: Seq<usize>,
)
    requires
        a.to_multiset() == b.to_multiset(),
    ensures
        concat_on(part, a).to_multiset() == concat_on(part, b).to_multiset(),
    decreases a.len(),
{
    a.to_multiset_ensures();
    b.to_multiset_ensures();
    assert(a.len() == b.len());
    if a.len() == 0 {
        assert(concat_on(part, a) =~= concat_on(part, b));
    } else {
        let x = a.last();
        assert(a.contains(x));
        assert(b.to_multiset().count(x) > 0);
        assert(b.contains(x));
        let j = choose|j: int| 0 <= j < b.len() && b[j] == x;
        assert(a.remove(a.len() - 1) =~= a.drop_last());
        assert(a.drop_last().to_multiset() =~= b.remove(j).to_multiset());
        lemma_concat_rearranged(part, a.drop_last(), b.remove(j));
        lemma_concat_without(part, b, j);
        lemma_concat_without(part, a, a.len() - 1);
    }
}

/// What a sequence is mapped to is rearranged with it.
pub proof fn lemma_mapped_rearranged<A, B>(f: spec_fn(A) -> B, a: Seq<A>, b: Seq<A>)
    requires
        a.to_multiset() == b.to_multiset(),
    ensures
        a.map_values(f).to_multiset() == b.map_values(f).to_multiset(),
    decreases a.len(),
{
    a.to_multiset_ensures();
    b.to_multiset_ensures();
    assert(a.len() == b.len());
    if a.len() == 0 {
        assert(a.map_values(f) =~= b.map_values(f));
    } else {
        let x = a.last();
        assert(a.contains(x));
        assert(b.to_multiset().count(x) > 0);
        assert(b.contains(x));
        let j = choose|j: int| 0 <= j < b.len() && b[j] == x;
        assert(a.remove(a.len() - 1) =~= a.drop_last());
        assert(a.drop_last().to_multiset() =~= b.remove(j).to_multiset());
        lemma_mapped_rearranged(f, a.drop_last(), b.remove(j));
        assert(a.map_values(f) =~= a.drop_last().map_values(f).push(f(x)));
        a.drop_last().map_values(f).to_multiset_ensures();
        assert(b.map_values(f) =~= b.remove(j).map_values(f).insert(j, f(x)));
        vstd::seq_lib::to_multiset_insert(b.remove(j).map_values(f), j, f(x));
        assert(a.map_values(f).to_multiset() =~= b.map_values(f).to_multiset());
    }
}

} // verus!
