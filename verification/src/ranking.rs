//! Sorting by rank, where items of equal rank keep their order.

use vstd::prelude::*;

verus! {

/// Items that are ranked by their views.
pub trait Ranked: View + Sized {
    /// Whether one item ranks before another.
    spec fn before(a: Self::V, b: Self::V) -> bool;

    /// Whether this item ranks before another.
    fn ranks_before(&self, other: &Self) -> (r: bool)
        ensures
            r == Self::before(self@, other@),
    ;
}

/// The order by which the items of a type are ranked.
pub open spec fn order<T: Ranked>() -> spec_fn(T::V, T::V) -> bool {
    |a: T::V, b: T::V| T::before(a, b)
}

/// The views of some items.
pub open spec fn views<T: View>(items: Seq<T>) -> Seq<T::V> {
    Seq::new(items.len(), |i: int| items[i]@)
}

/// Ranked items with one more, put before the first item that does not rank before it.
pub open spec fn inserted<V>(x: V, items: Seq<V>, before: spec_fn(V, V) -> bool) -> Seq<V>
    decreases items.len(),
{
    if items.len() == 0 || !before(items[0], x) {
        seq![x] + items
    } else {
        seq![items[0]] + inserted(x, items.skip(1), before)
    }
}

/// The items by rank, those of equal rank in the order in which they came.
pub open spec fn ranked<V>(items: Seq<V>, before: spec_fn(V, V) -> bool) -> Seq<V>
    decreases items.len(),
{
    if items.len() == 0 {
        Seq::empty()
    } else {
        inserted(items[0], ranked(items.skip(1), before), before)
    }
}

proof fn lemma_inserted_at<V>(x: V, items: Seq<V>, before: spec_fn(V, V) -> bool, p: int)
    requires
        0 <= p <= items.len(),
        p < items.len() ==> !before(items[p], x),
        forall|k: int| 0 <= k < p ==> before(#[trigger] items[k], x),
    ensures
        inserted(x, items, before) == items.insert(p, x),
    decreases items.len(),
{
    if p == 0 {
        assert(seq![x] + items =~= items.insert(0, x));
    } else {
        assert(before(items[0], x));
        let rest = items.skip(1);
        assert forall|k: int| 0 <= k < p - 1 implies before(#[trigger] rest[k], x) by {
            assert(before(items[k + 1], x));
        }
        lemma_inserted_at(x, rest, before, p - 1);
        assert(seq![items[0]] + rest.insert(p - 1, x) =~= items.insert(p, x));
    }
}

/// Puts an item into a ranked list.
fn insert_ranked<T: Ranked>(items: &mut Vec<T>, x: T)
    ensures
        views(final(items)@) == inserted(x@, views(old(items)@), order::<T>()),
{
    let ghost all = views(items@);
    let mut p: usize = 0;
    while p < items.len() && items[p].ranks_before(&x)
        invariant
            all == views(items@),
            p <= items@.len(),
            forall|k: int| 0 <= k < p ==> T::before(#[trigger] all[k], x@),
        decreases items@.len() - p,
    {
        p += 1;
    }
    proof {
        let before = order::<T>();
        assert forall|k: int| 0 <= k < p implies before(#[trigger] all[k], x@) by {
            assert(T::before(all[k], x@));
        }
        lemma_inserted_at(x@, all, before, p as int);
    }
    items.insert(p, x);
    assert(views(items@) =~= all.insert(p as int, x@));
}

/// The items by rank, those of equal rank in the order in which they came.
pub fn sort_ranked<T: Ranked>(items: Vec<T>) -> (r: Vec<T>)
    ensures
        views(r@) == ranked(views(items@), order::<T>()),
        r@.len() == items@.len(),
{
    let mut rest = items;
    let mut out: Vec<T> = Vec::new();
    let ghost all = views(rest@);
    let ghost total = rest@;
    assert(all.skip(all.len() as int) =~= Seq::<T::V>::empty());
    assert(views(out@) =~= Seq::<T::V>::empty());
    while rest.len() > 0
        invariant
            all == views(total),
            rest@.len() <= total.len(),
            rest@ == total.take(rest@.len() as int),
            out@.len() == total.len() - rest@.len(),
            views(out@) == ranked(all.skip(rest@.len() as int), order::<T>()),
        decreases rest@.len(),
    {
        let ghost n = rest@.len();
        let next = rest.pop();
        if let Some(x) = next {
            let ghost sorted = views(out@);
            insert_ranked(&mut out, x);
            proof {
                assert(rest@ =~= total.take(n - 1));
                assert(all.skip(n - 1).skip(1) =~= all.skip(n as int));
                assert(all.skip(n - 1)[0] == x@);
                lemma_inserted_len(x@, sorted, order::<T>());
                assert(views(out@).len() == out@.len());
            }
        }
    }
    assert(all.skip(0) =~= all);
    out
}

proof fn lemma_inserted_len<V>(x: V, items: Seq<V>, before: spec_fn(V, V) -> bool)
    ensures
        inserted(x, items, before).len() == items.len() + 1,
    decreases items.len(),
{
    if items.len() > 0 && before(items[0], x) {
        lemma_inserted_len(x, items.skip(1), before);
    }
}

proof fn lemma_inserted_multiset<V>(x: V, items: Seq<V>, before: spec_fn(V, V) -> bool)
    ensures
        inserted(x, items, before).to_multiset() == items.to_multiset().insert(x),
    decreases items.len(),
{
    broadcast use vstd::seq_lib::group_to_multiset_ensures;

    if items.len() == 0 || !before(items[0], x) {
        assert(seq![x] + items =~= items.insert(0, x));
        vstd::seq_lib::to_multiset_insert(items, 0, x);
    } else {
        let rest = items.skip(1);
        lemma_inserted_multiset(x, rest, before);
        let tail = inserted(x, rest, before);
        assert(seq![items[0]] + tail =~= tail.insert(0, items[0]));
        vstd::seq_lib::to_multiset_insert(tail, 0, items[0]);
        assert(items =~= rest.insert(0, items[0]));
        vstd::seq_lib::to_multiset_insert(rest, 0, items[0]);
        assert(inserted(x, items, before).to_multiset() =~= items.to_multiset().insert(x));
    }
}

/// Ranking adds nothing and loses nothing.
pub proof fn lemma_ranked_multiset<V>(items: Seq<V>, before: spec_fn(V, V) -> bool)
    ensures
        ranked(items, before).to_multiset() == items.to_multiset(),
    decreases items.len(),
{
    if items.len() > 0 {
        let rest = items.skip(1);
        lemma_ranked_multiset(rest, before);
        lemma_inserted_multiset(items[0], ranked(rest, before), before);
        assert(items =~= rest.insert(0, items[0]));
        vstd::seq_lib::to_multiset_insert(rest, 0, items[0]);
    } else {
        assert(ranked(items, before) =~= items);
    }
}

/// Whether no item ranks before an earlier one.
pub open spec fn in_rank_order<V>(items: Seq<V>, before: spec_fn(V, V) -> bool) -> bool {
    forall|i: int, j: int|
        0 <= i < j < items.len() ==> !before(#[trigger] items[j], #[trigger] items[i])
}

/// Whether the rank is a weak order: no two items rank before one another, and not to rank before is
/// transitive.
pub open spec fn weakly_ordered<V>(before: spec_fn(V, V) -> bool) -> bool {
    &&& forall|a: V, b: V| #[trigger] before(a, b) ==> !before(b, a)
    &&& forall|a: V, b: V, c: V|
        !(#[trigger] before(b, a)) && !(#[trigger] before(c, b)) ==> !before(c, a)
}

proof fn lemma_inserted_ordered<V>(x: V, items: Seq<V>, before: spec_fn(V, V) -> bool)
    requires
        weakly_ordered(before),
        in_rank_order(items, before),
    ensures
        in_rank_order(inserted(x, items, before), before),
        forall|i: int|
            0 <= i < inserted(x, items, before).len() ==> #[trigger] inserted(x, items, before)[i]
                == x || items.contains(inserted(x, items, before)[i]),
    decreases items.len(),
{
    let out = inserted(x, items, before);
    if items.len() == 0 || !before(items[0], x) {
        assert forall|i: int, j: int| 0 <= i < j < out.len() implies !before(
            #[trigger] out[j],
            #[trigger] out[i],
        ) by {
            if i == 0 {
                if j > 1 {
                    assert(!before(items[j - 1], items[0]));
                }
            } else {
                assert(!before(items[j - 1], items[i - 1]));
            }
        }
        assert forall|i: int| 0 <= i < out.len() implies #[trigger] out[i] == x || items.contains(
            out[i],
        ) by {
            if i > 0 {
                assert(items[i - 1] == out[i]);
            }
        }
    } else {
        let rest = items.skip(1);
        assert forall|i: int, j: int| 0 <= i < j < rest.len() implies !before(
            #[trigger] rest[j],
            #[trigger] rest[i],
        ) by {
            assert(!before(items[j + 1], items[i + 1]));
        }
        lemma_inserted_ordered(x, rest, before);
        let tail = inserted(x, rest, before);
        assert forall|i: int| 0 <= i < tail.len() implies !before(#[trigger] tail[i], items[0]) by {
            if tail[i] != x {
                let k = choose|k: int| 0 <= k < rest.len() && rest[k] == tail[i];
                assert(!before(items[k + 1], items[0]));
            } else {
                assert(before(items[0], x));
            }
        }
        assert forall|i: int, j: int| 0 <= i < j < out.len() implies !before(
            #[trigger] out[j],
            #[trigger] out[i],
        ) by {
            if i > 0 {
                assert(!before(tail[j - 1], tail[i - 1]));
            } else {
                assert(!before(tail[j - 1], items[0]));
            }
        }
        assert forall|i: int| 0 <= i < out.len() implies #[trigger] out[i] == x || items.contains(
            out[i],
        ) by {
            if i == 0 {
                assert(items[0] == out[0]);
            } else if tail[i - 1] != x {
                let k = choose|k: int| 0 <= k < rest.len() && rest[k] == tail[i - 1];
                assert(items[k + 1] == out[i]);
            }
        }
    }
}

/// Ranked items are in the order of their rank, and are the same items.
pub proof fn law_ranked<V>(items: Seq<V>, before: spec_fn(V, V) -> bool)
    requires
        weakly_ordered(before),
    ensures
        in_rank_order(ranked(items, before), before),
        ranked(items, before).to_multiset() == items.to_multiset(),
    decreases items.len(),
{
    if items.len() > 0 {
        law_ranked(items.skip(1), before);
        lemma_inserted_ordered(items[0], ranked(items.skip(1), before), before);
    }
    lemma_ranked_multiset(items, before);
}

/// What is in order stays as it is: items of the same rank are not exchanged.
pub proof fn law_ranked_keeps_order<V>(items: Seq<V>, before: spec_fn(V, V) -> bool)
    requires
        in_rank_order(items, before),
    ensures
        ranked(items, before) == items,
    decreases items.len(),
{
    if items.len() > 0 {
        let rest = items.skip(1);
        assert forall|i: int, j: int| 0 <= i < j < rest.len() implies !before(
            #[trigger] rest[j],
            #[trigger] rest[i],
        ) by {
            assert(!before(items[j + 1], items[i + 1]));
        }
        law_ranked_keeps_order(rest, before);
        if rest.len() > 0 {
            assert(rest[0] == items[1]);
            assert(!before(items[1], items[0]));
        }
        assert(seq![items[0]] + rest =~= items);
    }
}

} // verus!
