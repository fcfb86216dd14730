//! A stable sort, and what it keeps.

use vstd::prelude::*;

verus! {

/// `item` put into a sorted list, behind everything that it does not come before.
pub open spec fn inserted<T>(sorted: Seq<T>, item: T, before: spec_fn(T, T) -> bool) -> Seq<T>
    decreases sorted.len(),
{
    if sorted.len() > 0 && before(item, sorted.last()) {
        inserted(sorted.drop_last(), item, before).push(sorted.last())
    } else {
        sorted.push(item)
    }
}

/// The items in the order of `before`; items of which neither comes before the other
/// stay in the order in which they stood.
pub open spec fn sorted_by<T>(items: Seq<T>, before: spec_fn(T, T) -> bool) -> Seq<T>
    decreases items.len(),
{
    if items.len() == 0 {
        Seq::empty()
    } else {
        inserted(sorted_by(items.drop_last(), before), items.last(), before)
    }
}

/// A strict weak order: of two items at most one comes before the other, and of two of
/// which one does, any third comes behind the first or before the second.
pub open spec fn strict_order<T>(before: spec_fn(T, T) -> bool) -> bool {
    &&& forall|a: T, b: T| #[trigger] before(a, b) ==> !before(b, a)
    &&& forall|a: T, b: T, c: T|
        #[trigger] before(a, c) ==> #[trigger] before(a, b) || before(b, c)
}

/// No item comes before one that stands ahead of it.
pub open spec fn in_order<T>(items: Seq<T>, before: spec_fn(T, T) -> bool) -> bool {
    forall|i: int, j: int|
        0 <= i < j < items.len() ==> !before(#[trigger] items[j], #[trigger] items[i])
}

/// The items of which neither comes before the other, they or `item`.
pub open spec fn tied_with<T>(item: T, before: spec_fn(T, T) -> bool) -> spec_fn(T) -> bool {
    |other: T| !before(other, item) && !before(item, other)
}

/// A value that can be told to come before another one.
pub trait Ranked: Sized {
    /// Whether it comes before `other`.
    spec fn ranks_before(self, other: Self) -> bool;

    fn is_ranked_before(&self, other: &Self) -> (answer: bool)
        ensures
            answer == self.ranks_before(*other),
    ;
}

/// The order of a ranked type.
pub open spec fn rank<T: Ranked>() -> spec_fn(T, T) -> bool {
    |a: T, b: T| a.ranks_before(b)
}

/// Sorts, and keeps the order of ties.
pub(crate) fn stable_sort<T: Ranked>(items: Vec<T>) -> (sorted: Vec<T>)
    ensures
        sorted@ == sorted_by(items@, rank::<T>()),
{
    let mut sorted: Vec<T> = Vec::new();
    let ghost source = items@;
    for item in it: items
        invariant
            it.seq() == source,
            sorted@ == sorted_by(source.take(it.index() as int), rank::<T>()),
    {
        let ghost upto = source.take(it.index() + 1);
        assert(upto.drop_last() =~= source.take(it.index() as int));
        assert(upto.last() == item);
        insert_ranked(&mut sorted, item);
    }
    assert(source.take(source.len() as int) =~= source);
    sorted
}

/// Puts an item into a sorted list.
fn insert_ranked<T: Ranked>(sorted: &mut Vec<T>, item: T)
    ensures
        final(sorted)@ == inserted(old(sorted)@, item, rank::<T>()),
{
    let mut at: usize = sorted.len();
    let ghost source = sorted@;
    assert(source.take(at as int) =~= source);
    assert(inserted(source, item, rank::<T>()) + source.skip(at as int) =~= inserted(
        source,
        item,
        rank::<T>(),
    ));
    while at > 0 && item.is_ranked_before(&sorted[at - 1])
        invariant
            at <= sorted.len(),
            sorted@ == source,
            inserted(source, item, rank::<T>()) == inserted(
                source.take(at as int),
                item,
                rank::<T>(),
            ) + source.skip(at as int),
        decreases at,
    {
        proof {
            let part = source.take(at as int);
            assert(part.last() == source[at - 1]);
            assert(part.drop_last() =~= source.take(at - 1));
            assert(rank::<T>()(item, part.last()));
            assert(inserted(part, item, rank::<T>()) == inserted(
                part.drop_last(),
                item,
                rank::<T>(),
            ).push(part.last()));
            assert(inserted(source.take(at - 1), item, rank::<T>()).push(source[at - 1])
                + source.skip(at as int) =~= inserted(source.take(at - 1), item, rank::<T>())
                + source.skip(at - 1));
        }
        at -= 1;
    }
    proof {
        let part = source.take(at as int);
        assert(inserted(part, item, rank::<T>()) == part.push(item));
        assert(source.insert(at as int, item) =~= part.push(item) + source.skip(at as int));
    }
    sorted.insert(at, item);
}

/// Inserting keeps what is there and adds the item.
pub proof fn lemma_inserted_multiset<T>(sorted: Seq<T>, item: T, before: spec_fn(T, T) -> bool)
    ensures
        inserted(sorted, item, before).to_multiset() == sorted.to_multiset().insert(item),
        inserted(sorted, item, before).len() == sorted.len() + 1,
    decreases sorted.len(),
{
    broadcast use vstd::seq_lib::group_to_multiset_ensures;

    if sorted.len() > 0 && before(item, sorted.last()) {
        let front = sorted.drop_last();
        lemma_inserted_multiset(front, item, before);
        assert(sorted =~= front.push(sorted.last()));
        assert(sorted.to_multiset() =~= front.to_multiset().insert(sorted.last()));
        assert(inserted(sorted, item, before).to_multiset() =~= sorted.to_multiset().insert(item));
    }
}

/// Sorting keeps every item, as often as it occurs, and adds none.
pub proof fn law_sort_keeps_items<T>(items: Seq<T>, before: spec_fn(T, T) -> bool)
    ensures
        sorted_by(items, before).to_multiset() == items.to_multiset(),
        sorted_by(items, before).len() == items.len(),
    decreases items.len(),
{
    broadcast use vstd::seq_lib::group_to_multiset_ensures;

    if items.len() > 0 {
        let front = items.drop_last();
        law_sort_keeps_items(front, before);
        lemma_inserted_multiset(sorted_by(front, before), items.last(), before);
        assert(items =~= front.push(items.last()));
    } else {
        assert(items =~= Seq::empty());
    }
}

/// What is in the sorted list was in the list, and the other way round.
pub proof fn lemma_sort_contains<T>(items: Seq<T>, before: spec_fn(T, T) -> bool, item: T)
    ensures
        sorted_by(items, before).contains(item) == items.contains(item),
{
    broadcast use vstd::seq_lib::group_to_multiset_ensures;

    law_sort_keeps_items(items, before);
    assert(sorted_by(items, before).to_multiset().count(item) == items.to_multiset().count(item));
}

/// Inserting into a list that is in order leaves it in order.
pub proof fn lemma_inserted_in_order<T>(sorted: Seq<T>, item: T, before: spec_fn(T, T) -> bool)
    requires
        strict_order(before),
        in_order(sorted, before),
    ensures
        in_order(inserted(sorted, item, before), before),
    decreases sorted.len(),
{
    broadcast use vstd::seq_lib::group_to_multiset_ensures;

    let result = inserted(sorted, item, before);
    if sorted.len() > 0 && before(item, sorted.last()) {
        let front = sorted.drop_last();
        let last = sorted.last();
        let part = inserted(front, item, before);
        lemma_inserted_in_order(front, item, before);
        lemma_inserted_multiset(front, item, before);
        assert forall|i: int, j: int| 0 <= i < j < result.len() implies !before(
            #[trigger] result[j],
            #[trigger] result[i],
        ) by {
            if j == part.len() {
                assert(part.to_multiset().contains(part[i]));
                assert(part[i] == item || front.to_multiset().contains(part[i]));
                if part[i] != item {
                    assert(front.contains(part[i]));
                    let k = choose|k: int| 0 <= k < front.len() && front[k] == part[i];
                    assert(sorted[k] == part[i]);
                    assert(!before(sorted[sorted.len() - 1], sorted[k]));
                } else {
                    assert(!before(last, item));
                }
            }
        }
    } else {
        assert forall|i: int, j: int| 0 <= i < j < result.len() implies !before(
            #[trigger] result[j],
            #[trigger] result[i],
        ) by {
            if j == sorted.len() && i < sorted.len() - 1 {
                assert(!before(sorted[sorted.len() - 1], sorted[i]));
                assert(!before(item, sorted.last()));
                assert(before(item, sorted[i]) ==> before(item, sorted.last()) || before(
                    sorted.last(),
                    sorted[i],
                ));
            }
        }
    }
}

/// A sorted list is in order.
pub proof fn law_sort_in_order<T>(items: Seq<T>, before: spec_fn(T, T) -> bool)
    requires
        strict_order(before),
    ensures
        in_order(sorted_by(items, before), before),
        forall|i: int, j: int|
            0 <= i < j < sorted_by(items, before).len() ==> !before(
                #[trigger] sorted_by(items, before)[j],
                #[trigger] sorted_by(items, before)[i],
            ),
    decreases items.len(),
{
    if items.len() > 0 {
        law_sort_in_order(items.drop_last(), before);
        lemma_inserted_in_order(sorted_by(items.drop_last(), before), items.last(), before);
    }
}

/// Sorting keeps the order of ties: the items that are tied with `item` stand in the
/// sorted list as they stood before.
pub proof fn law_sort_keeps_ties<T>(items: Seq<T>, before: spec_fn(T, T) -> bool, item: T)
    requires
        strict_order(before),
    ensures
        sorted_by(items, before).filter(tied_with(item, before)) == items.filter(
            tied_with(item, before),
        ),
    decreases items.len(),
{
    let tie = tied_with(item, before);
    if items.len() > 0 {
        let front = items.drop_last();
        law_sort_keeps_ties(front, before, item);
        law_sort_in_order(front, before);
        lemma_inserted_ties(sorted_by(front, before), items.last(), before, item);
        lemma_filter_push(front, items.last(), tie);
        lemma_filter_push(sorted_by(front, before), items.last(), tie);
        assert(items =~= front.push(items.last()));
    } else {
        assert(items =~= Seq::empty());
    }
}

proof fn lemma_inserted_ties<T>(
    sorted: Seq<T>,
    added: T,
    before: spec_fn(T, T) -> bool,
    item: T,
)
    requires
        strict_order(before),
        in_order(sorted, before),
    ensures
        inserted(sorted, added, before).filter(tied_with(item, before)) == sorted.push(
            added,
        ).filter(tied_with(item, before)),
    decreases sorted.len(),
{
    let tie = tied_with(item, before);
    if sorted.len() > 0 && before(added, sorted.last()) {
        let front = sorted.drop_last();
        let last = sorted.last();
        lemma_inserted_ties(front, added, before, item);
        lemma_filter_push(inserted(front, added, before), last, tie);
        lemma_filter_push(front, added, tie);
        lemma_filter_push(front, last, tie);
        lemma_filter_push(sorted, added, tie);
        assert(sorted =~= front.push(last));
        if tie(added) && tie(last) {
            assert(before(added, last) ==> before(added, item) || before(item, last));
        }
    }
}

/// Filtering a list with one more item at the end.
pub proof fn lemma_filter_push<T>(items: Seq<T>, item: T, wanted: spec_fn(T) -> bool)
    ensures
        items.push(item).filter(wanted) == (if wanted(item) {
            items.filter(wanted).push(item)
        } else {
            items.filter(wanted)
        }),
{
    reveal(Seq::filter);
    assert(items.push(item).drop_last() =~= items);
}

/// Filtering the first items of a list, with one more of them.
pub proof fn lemma_filter_step<T>(items: Seq<T>, at: int, wanted: spec_fn(T) -> bool)
    requires
        0 <= at < items.len(),
    ensures
        items.take(at + 1).filter(wanted) == (if wanted(items[at]) {
            items.take(at).filter(wanted).push(items[at])
        } else {
            items.take(at).filter(wanted)
        }),
{
    assert(items.take(at + 1) =~= items.take(at).push(items[at]));
    lemma_filter_push(items.take(at), items[at], wanted);
}

/// Filtering a list in which only one item is wanted.
pub proof fn lemma_filter_one<T>(items: Seq<T>, at: int, wanted: spec_fn(T) -> bool)
    requires
        0 <= at < items.len(),
        wanted(items[at]),
        forall|i: int| 0 <= i < items.len() && i != at ==> !wanted(#[trigger] items[i]),
    ensures
        items.filter(wanted) == seq![items[at]],
    decreases items.len(),
{
    let front = items.drop_last();
    assert(items =~= front.push(items.last()));
    lemma_filter_push(front, items.last(), wanted);
    if at == items.len() - 1 {
        lemma_filter_none(front, wanted);
        assert(items.filter(wanted) =~= seq![items[at]]);
    } else {
        assert(front[at] == items[at]);
        assert(!wanted(items[items.len() - 1]));
        lemma_filter_one(front, at, wanted);
    }
}

/// Filtering a list in which nothing is wanted.
pub proof fn lemma_filter_none<T>(items: Seq<T>, wanted: spec_fn(T) -> bool)
    requires
        forall|i: int| 0 <= i < items.len() ==> !wanted(#[trigger] items[i]),
    ensures
        items.filter(wanted) == Seq::<T>::empty(),
    decreases items.len(),
{
    reveal(Seq::filter);
    if items.len() > 0 {
        let front = items.drop_last();
        assert(items =~= front.push(items.last()));
        assert(!wanted(items[items.len() - 1]));
        lemma_filter_push(front, items.last(), wanted);
        lemma_filter_none(front, wanted);
    }
}

/// Sorting and then looking at the items through `f` is the same as looking at them
/// through `f` and then sorting, where `f` keeps the order of these items.
pub proof fn lemma_sort_mapped<T, U>(
    items: Seq<T>,
    before: spec_fn(T, T) -> bool,
    f: spec_fn(T) -> U,
    after: spec_fn(U, U) -> bool,
)
    requires
        forall|a: T, b: T|
            items.contains(a) && items.contains(b) ==> #[trigger] before(a, b) == after(f(a), f(b)),
    ensures
        sorted_by(items, before).map_values(f) == sorted_by(items.map_values(f), after),
    decreases items.len(),
{
    if items.len() > 0 {
        let front = items.drop_last();
        let sorted = sorted_by(front, before);
        assert forall|a: T| front.contains(a) implies #[trigger] items.contains(a) by {
            let i = choose|i: int| 0 <= i < front.len() && front[i] == a;
            assert(items[i] == a);
        }
        assert(items.contains(items.last()));
        lemma_sort_mapped(front, before, f, after);
        assert forall|i: int| 0 <= i < sorted.len() implies before(
            items.last(),
            #[trigger] sorted[i],
        ) == after(f(items.last()), f(sorted[i])) by {
            assert(sorted.contains(sorted[i]));
            lemma_sort_contains(front, before, sorted[i]);
            assert(items.contains(sorted[i]));
        }
        lemma_inserted_mapped(sorted, items.last(), before, f, after);
        assert(items.map_values(f).drop_last() =~= front.map_values(f));
    } else {
        assert(sorted_by(items, before).map_values(f) =~= Seq::empty());
    }
}

proof fn lemma_inserted_mapped<T, U>(
    sorted: Seq<T>,
    item: T,
    before: spec_fn(T, T) -> bool,
    f: spec_fn(T) -> U,
    after: spec_fn(U, U) -> bool,
)
    requires
        forall|i: int|
            0 <= i < sorted.len() ==> before(item, #[trigger] sorted[i]) == after(
                f(item),
                f(sorted[i]),
            ),
    ensures
        inserted(sorted, item, before).map_values(f) == inserted(
            sorted.map_values(f),
            f(item),
            after,
        ),
    decreases sorted.len(),
{
    let mapped = sorted.map_values(f);
    if sorted.len() > 0 {
        assert(before(item, sorted[sorted.len() - 1]) == after(f(item), f(sorted.last())));
    }
    if sorted.len() > 0 && before(item, sorted.last()) {
        let front = sorted.drop_last();
        assert forall|i: int| 0 <= i < front.len() implies before(item, #[trigger] front[i])
            == after(f(item), f(front[i])) by {
            assert(front[i] == sorted[i]);
        }
        lemma_inserted_mapped(front, item, before, f, after);
        assert(mapped.drop_last() =~= front.map_values(f));
        assert(inserted(sorted, item, before).map_values(f) =~= inserted(
            front,
            item,
            before,
        ).map_values(f).push(f(sorted.last())));
    } else {
        assert(inserted(sorted, item, before).map_values(f) =~= mapped.push(f(item)));
    }
}

/// What is looked at through a function has the same items, in whatever order it
/// stands.
pub proof fn lemma_mapped_multiset<T, U>(left: Seq<T>, right: Seq<T>, f: spec_fn(T) -> U)
    requires
        left.to_multiset() == right.to_multiset(),
    ensures
        left.map_values(f).to_multiset() == right.map_values(f).to_multiset(),
    decreases left.len(),
{
    broadcast use vstd::seq_lib::group_to_multiset_ensures;

    assert(left.to_multiset().len() == left.len());
    assert(right.to_multiset().len() == right.len());
    if left.len() == 0 {
        assert(left.map_values(f) =~= right.map_values(f));
    } else {
        let item = left.last();
        assert(left.contains(item));
        assert(right.to_multiset().count(item) > 0);
        let at = choose|at: int| 0 <= at < right.len() && right[at] == item;
        let front = left.drop_last();
        assert(left =~= front.push(item));
        assert(front.to_multiset() =~= left.to_multiset().remove(item));
        assert(right.remove(at).to_multiset() =~= right.to_multiset().remove(item));
        lemma_mapped_multiset(front, right.remove(at), f);
        assert(left.map_values(f) =~= front.map_values(f).push(f(item)));
        assert(right.remove(at).map_values(f) =~= right.map_values(f).remove(at));
        assert(right.map_values(f).remove(at).to_multiset()
            =~= right.map_values(f).to_multiset().remove(f(item)));
        assert(right.map_values(f)[at] == f(item));
        assert(right.map_values(f).to_multiset().count(f(item)) > 0);
        assert(right.map_values(f).to_multiset() =~= right.map_values(f).to_multiset().remove(
            f(item),
        ).insert(f(item)));
    }
}

/// Where nothing stands twice in one list, nothing does in another with the same items.
pub proof fn lemma_same_distinct<T>(left: Seq<T>, right: Seq<T>)
    requires
        left.no_duplicates(),
        left.to_multiset() == right.to_multiset(),
    ensures
        right.no_duplicates(),
{
    broadcast use vstd::seq_lib::group_to_multiset_ensures;

    left.lemma_multiset_has_no_duplicates();
    assert forall|x: T| right.to_multiset().contains(x) implies right.to_multiset().count(x) == 1 by {}
    right.lemma_multiset_has_no_duplicates_conv();
}

} // verus!
