//! Carrying decisions between the order of the search and the order of the
//! input, without changing what a selection weighs or is worth.

use vstd::prelude::*;
use crate::model::{picks_nothing, select, total_value, total_weight, Item};
use crate::optimum::{gain, load};
use crate::order::{
    is_ranked,
    is_search_order,
    lemma_every_place_ranked,
    lemma_ranked_once,
    Ranked,
};

verus! {

/// The marks, by place in the input, of the first `k` decisions of `take`.
pub open spec fn unrank(r: Seq<Ranked>, take: Seq<bool>, k: int) -> Seq<bool>
    decreases k,
{
    if k <= 0 {
        Seq::new(r.len(), |i: int| false)
    } else {
        unrank(r, take, k - 1).update(r[k - 1].index as int, take[k - 1])
    }
}

/// Decisions in search order, as marks by place in the input.
pub open spec fn to_input_order(r: Seq<Ranked>, take: Seq<bool>) -> Seq<bool> {
    unrank(r, take, r.len() as int)
}

/// Marks by place in the input, as decisions in search order.
pub open spec fn to_search_order(r: Seq<Ranked>, picks: Seq<bool>) -> Seq<bool> {
    Seq::new(r.len(), |p: int| picks[r[p].index as int])
}

/// A selection depends only on the marks of the places that exist.
pub proof fn lemma_select_agree(items: Seq<Item>, a: Seq<bool>, b: Seq<bool>)
    requires
        forall|i: int| 0 <= i < items.len() ==> a[i] == b[i],
    ensures
        select(items, a) == select(items, b),
    decreases items.len(),
{
    if items.len() > 0 {
        lemma_select_agree(items.drop_last(), a, b);
    }
}

/// Marking nothing selects nothing.
pub proof fn lemma_select_nothing(items: Seq<Item>, picks: Seq<bool>)
    requires
        picks.len() >= items.len(),
        picks_nothing(picks),
    ensures
        select(items, picks).len() == 0,
    decreases items.len(),
{
    if items.len() > 0 {
        lemma_select_nothing(items.drop_last(), picks);
    }
}

/// Marking one more place adds that item's value and weight.
pub proof fn lemma_select_mark(items: Seq<Item>, picks: Seq<bool>, i: int)
    requires
        0 <= i < picks.len(),
        items.len() <= picks.len(),
        !picks[i],
    ensures
        total_value(select(items, picks.update(i, true))) == total_value(select(items, picks))
            + if i < items.len() {
            items[i].value as int
        } else {
            0
        },
        total_weight(select(items, picks.update(i, true))) == total_weight(select(items, picks))
            + if i < items.len() {
            items[i].weight as int
        } else {
            0
        },
    decreases items.len(),
{
    let marked = picks.update(i, true);
    if items.len() == 0 {
    } else if i >= items.len() {
        lemma_select_agree(items, picks, marked);
    } else {
        let head = items.drop_last();
        lemma_select_mark(head, picks, i);
        if i == items.len() - 1 {
            assert(select(items, marked).drop_last() == select(head, marked));
        } else if picks[items.len() - 1] {
            assert(select(items, marked).drop_last() == select(head, marked));
            assert(select(items, picks).drop_last() == select(head, picks));
        }
    }
}

/// Carried to the input's order, the first `k` decisions mark exactly the
/// places of the items they take, and weigh and are worth the same.
pub proof fn lemma_unrank(items: Seq<Item>, r: Seq<Ranked>, take: Seq<bool>, k: int)
    requires
        is_search_order(items, r),
        take.len() == r.len(),
        0 <= k <= r.len(),
    ensures
        unrank(r, take, k).len() == items.len(),
        forall|p: int|
            0 <= p < r.len() ==> unrank(r, take, k)[(#[trigger] r[p]).index as int] == (p < k
                && take[p]),
        total_value(select(items, unrank(r, take, k))) == gain(r, take.take(k)),
        total_weight(select(items, unrank(r, take, k))) == load(r, take.take(k)),
        picks_nothing(take) ==> picks_nothing(unrank(r, take, k)),
    decreases k,
{
    if k == 0 {
        let none = unrank(r, take, 0);
        lemma_select_nothing(items, none);
        assert(take.take(0) == Seq::<bool>::empty());
        assert(total_value(select(items, none)) == 0);
        assert(total_weight(select(items, none)) == 0);
    } else {
        let before = unrank(r, take, k - 1);
        let after = unrank(r, take, k);
        let place = r[k - 1].index as int;
        lemma_unrank(items, r, take, k - 1);
        assert(take.take(k).drop_last() == take.take(k - 1));
        assert(!before[place]);
        assert forall|p: int| 0 <= p < r.len() implies after[(#[trigger] r[p]).index as int] == (p
            < k && take[p]) by {
            if p != k - 1 {
                lemma_ranked_once(items, r, p, k - 1);
            }
        }
        if take[k - 1] {
            lemma_select_mark(items, before, place);
        } else {
            assert(after == before);
        }
    }
}

/// Carrying marks to the search order and back gives the same marks.
pub proof fn lemma_round_trip(items: Seq<Item>, r: Seq<Ranked>, picks: Seq<bool>)
    requires
        is_search_order(items, r),
        picks.len() == items.len(),
    ensures
        to_input_order(r, to_search_order(r, picks)) == picks,
{
    let take = to_search_order(r, picks);
    let back = to_input_order(r, take);
    lemma_unrank(items, r, take, r.len() as int);
    lemma_every_place_ranked(items, r);
    assert forall|i: int| 0 <= i < picks.len() implies back[i] == picks[i] by {
        assert(is_ranked(r, i));
        let p = choose|p: int| 0 <= p < r.len() && (#[trigger] r[p]).index == i;
        assert(back[r[p].index as int] == take[p]);
    }
}

} // verus!
