//! Facts about sequences.
use vstd::prelude::*;
use vstd::seq_lib::{lemma_flatten_concat, lemma_multiset_commutative};

verus! {

/// Mapping each item to a sequence starts with what the first one is mapped to.
pub proof fn lemma_flat_map_first<A, B>(list: Seq<A>, f: spec_fn(A) -> Seq<B>)
    requires
        list.len() > 0,
    ensures
        list.flat_map(f) == f(list[0]) + list.skip(1).flat_map(f),
{
    assert(list.map_values(f).drop_first() =~= list.skip(1).map_values(f));
}

/// Mapping the items of two sequences is mapping those of the one and then those of the other.
pub proof fn lemma_flat_map_concat<A, B>(a: Seq<A>, b: Seq<A>, f: spec_fn(A) -> Seq<B>)
    ensures
        (a + b).flat_map(f) == a.flat_map(f) + b.flat_map(f),
{
    assert((a + b).map_values(f) =~= a.map_values(f) + b.map_values(f));
    lemma_flatten_concat(a.map_values(f), b.map_values(f));
}

/// What holds of all that each item is mapped to holds of all of it.
pub proof fn lemma_flat_map_all<A, B>(
    list: Seq<A>,
    f: spec_fn(A) -> Seq<B>,
    holds: spec_fn(B) -> bool,
)
    requires
        forall|i: int, j: int|
            #![trigger f(list[i])[j]]
            0 <= i < list.len() && 0 <= j < f(list[i]).len() ==> holds(f(list[i])[j]),
    ensures
        forall|k: int|
            0 <= k < list.flat_map(f).len() ==> holds(#[trigger] list.flat_map(f)[k]),
    decreases list.len(),
{
    if list.len() > 0 {
        let rest = list.skip(1);
        lemma_flat_map_first(list, f);
        assert forall|i: int, j: int|
            #![trigger f(rest[i])[j]]
            0 <= i < rest.len() && 0 <= j < f(rest[i]).len() implies holds(f(rest[i])[j]) by {
            assert(rest[i] == list[i + 1]);
            assert(holds(f(list[i + 1])[j]));
        }
        lemma_flat_map_all(rest, f, holds);
        assert forall|k: int| 0 <= k < list.flat_map(f).len() implies holds(
            #[trigger] list.flat_map(f)[k],
        ) by {
            let n = f(list[0]).len();
            if k < n {
                assert(list.flat_map(f)[k] == f(list[0])[k]);
            } else {
                assert(list.flat_map(f)[k] == rest.flat_map(f)[k - n]);
            }
        }
    }
}

/// What an item is mapped to is among all that the items are mapped to.
pub proof fn lemma_flat_map_contains<A, B>(
    list: Seq<A>,
    f: spec_fn(A) -> Seq<B>,
    i: int,
    j: int,
)
    requires
        0 <= i < list.len(),
        0 <= j < f(list[i]).len(),
    ensures
        list.flat_map(f).contains(f(list[i])[j]),
    decreases list.len(),
{
    let n = f(list[0]).len();
    lemma_flat_map_first(list, f);
    if i == 0 {
        assert(list.flat_map(f)[j] == f(list[0])[j]);
    } else {
        let rest = list.skip(1);
        lemma_flat_map_contains(rest, f, i - 1, j);
        assert(rest[i - 1] == list[i]);
        let k = choose|k: int|
            0 <= k < rest.flat_map(f).len() && rest.flat_map(f)[k] == f(list[i])[j];
        assert(list.flat_map(f)[n + k] == f(list[i])[j]);
    }
}

/// Two mappings that agree on the items give the same.
pub proof fn lemma_flat_map_same<A, B>(
    list: Seq<A>,
    f: spec_fn(A) -> Seq<B>,
    g: spec_fn(A) -> Seq<B>,
)
    requires
        forall|i: int| 0 <= i < list.len() ==> f(#[trigger] list[i]) == g(list[i]),
    ensures
        list.flat_map(f) == list.flat_map(g),
{
    assert(list.map_values(f) =~= list.map_values(g));
}

/// Mapping what the items were mapped to is mapping each item to what its items are mapped to.
pub proof fn lemma_flat_map_twice<A, B, C>(
    list: Seq<A>,
    f: spec_fn(A) -> Seq<B>,
    g: spec_fn(B) -> Seq<C>,
)
    ensures
        list.flat_map(f).flat_map(g) == list.flat_map(|item: A| f(item).flat_map(g)),
    decreases list.len(),
{
    let both = |item: A| f(item).flat_map(g);
    if list.len() == 0 {
        assert(list.flat_map(f) =~= Seq::<B>::empty());
        assert(list.flat_map(f).flat_map(g) =~= list.flat_map(both));
    } else {
        let rest = list.skip(1);
        lemma_flat_map_first(list, f);
        lemma_flat_map_first(list, both);
        lemma_flat_map_twice(rest, f, g);
        lemma_flat_map_concat(f(list[0]), rest.flat_map(f), g);
    }
}

/// Keeping some of all that the items are mapped to is keeping some of what each is mapped to.
pub proof fn lemma_flat_map_filter<A, B>(
    list: Seq<A>,
    f: spec_fn(A) -> Seq<B>,
    keep: spec_fn(B) -> bool,
)
    ensures
        list.flat_map(f).filter(keep) == list.flat_map(|item: A| f(item).filter(keep)),
    decreases list.len(),
{
    let g = |item: A| f(item).filter(keep);
    if list.len() == 0 {
        reveal(Seq::filter);
        assert(list.flat_map(f) =~= Seq::<B>::empty());
    } else {
        let rest = list.skip(1);
        lemma_flat_map_first(list, f);
        lemma_flat_map_first(list, g);
        lemma_flat_map_filter(rest, f, keep);
        Seq::filter_distributes_over_add(f(list[0]), rest.flat_map(f), keep);
    }
}

/// Two tests that agree on the items keep the same.
pub proof fn lemma_filter_same<A>(
    list: Seq<A>,
    first: spec_fn(A) -> bool,
    second: spec_fn(A) -> bool,
)
    requires
        forall|i: int| 0 <= i < list.len() ==> first(#[trigger] list[i]) == second(list[i]),
    ensures
        list.filter(first) == list.filter(second),
    decreases list.len(),
{
    reveal(Seq::filter);
    if list.len() > 0 {
        let rest = list.drop_last();
        assert forall|i: int| 0 <= i < rest.len() implies first(#[trigger] rest[i]) == second(
            rest[i],
        ) by {
            assert(rest[i] == list[i]);
        }
        lemma_filter_same(rest, first, second);
        assert(list[list.len() - 1] == list.last());
    }
}

/// A test that no item passes keeps nothing.
pub proof fn lemma_filter_none<A>(list: Seq<A>, keep: spec_fn(A) -> bool)
    requires
        forall|i: int| 0 <= i < list.len() ==> !keep(#[trigger] list[i]),
    ensures
        list.filter(keep) == Seq::<A>::empty(),
    decreases list.len(),
{
    reveal(Seq::filter);
    if list.len() > 0 {
        let rest = list.drop_last();
        assert forall|i: int| 0 <= i < rest.len() implies !keep(#[trigger] rest[i]) by {
            assert(rest[i] == list[i]);
        }
        lemma_filter_none(rest, keep);
        assert(list[list.len() - 1] == list.last());
    }
}

/// A test that all items pass keeps all.
pub proof fn lemma_filter_all<A>(list: Seq<A>, keep: spec_fn(A) -> bool)
    requires
        forall|i: int| 0 <= i < list.len() ==> keep(#[trigger] list[i]),
    ensures
        list.filter(keep) == list,
    decreases list.len(),
{
    reveal(Seq::filter);
    if list.len() > 0 {
        let rest = list.drop_last();
        assert forall|i: int| 0 <= i < rest.len() implies keep(#[trigger] rest[i]) by {
            assert(rest[i] == list[i]);
        }
        lemma_filter_all(rest, keep);
        assert(list[list.len() - 1] == list.last());
        assert(list.filter(keep) =~= list);
    } else {
        assert(list.filter(keep) =~= list);
    }
}

/// What a test keeps and what it drops are together all items.
pub proof fn lemma_filter_both<A>(list: Seq<A>, keep: spec_fn(A) -> bool)
    ensures
        (list.filter(keep) + list.filter(|item: A| !keep(item))).to_multiset()
            == list.to_multiset(),
    decreases list.len(),
{
    broadcast use vstd::seq_lib::group_to_multiset_ensures;

    let leave = |item: A| !keep(item);
    reveal(Seq::filter);
    lemma_multiset_commutative(list.filter(keep), list.filter(leave));
    if list.len() > 0 {
        let rest = list.drop_last();
        let item = list.last();
        lemma_filter_both(rest, keep);
        lemma_multiset_commutative(rest.filter(keep), rest.filter(leave));
        assert(rest.push(item) =~= list);
        assert(list.to_multiset() =~= rest.to_multiset().insert(item));
        assert(list.filter(keep).to_multiset().add(list.filter(leave).to_multiset())
            =~= rest.filter(keep).to_multiset().add(rest.filter(leave).to_multiset()).insert(item));
    } else {
        assert(list.filter(keep) + list.filter(leave) =~= list);
    }
}

} // verus!
