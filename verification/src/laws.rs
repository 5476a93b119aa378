//! What holds of the optimum and of solutions, proved from the definitions.

use vstd::prelude::*;
use crate::model::{
    admissible,
    lemma_weight_nonnegative,
    picks_nothing,
    select,
    total_value,
    Item,
    Solution,
    Status,
};
use crate::optimum::{
    best_take,
    lemma_best_take,
    lemma_best_take_wins_ties,
    lemma_best_value_is_upper_bound,
    lemma_best_value_nonnegative,
    lemma_greedy_against_best,
    takes_first,
};
use crate::order::{lemma_search_order, search_order};
use crate::solver::{first_fit_value, is_outcome, optimal_picks, optimal_value};
use crate::transfer::{
    lemma_round_trip,
    lemma_select_agree,
    lemma_select_nothing,
    lemma_unrank,
    to_search_order,
};

verus! {

/// No admissible selection is worth more than the optimum.
pub proof fn lemma_optimum_is_maximal(items: Seq<Item>, capacity: int, picks: Seq<bool>)
    requires
        items.len() <= usize::MAX,
        admissible(items, capacity, picks),
    ensures
        total_value(select(items, picks)) <= optimal_value(items, capacity),
{
    let r = search_order(items);
    let n = r.len() as int;
    let take = to_search_order(r, picks);
    lemma_search_order(items);
    lemma_best_value_nonnegative(r, 0, capacity);
    if picks_nothing(picks) {
        lemma_select_nothing(items, picks);
    } else {
        lemma_round_trip(items, r, picks);
        lemma_unrank(items, r, take, n);
        assert(take.take(n) == take);
        assert(take.take(0) == Seq::<bool>::empty());
        lemma_best_value_is_upper_bound(r, take, 0, capacity);
    }
}

/// The best selection is admissible and worth the optimum.
pub proof fn lemma_optimum_is_reached(items: Seq<Item>, capacity: int)
    requires
        items.len() <= usize::MAX,
    ensures
        admissible(items, capacity, optimal_picks(items, capacity)),
        total_value(select(items, optimal_picks(items, capacity))) == optimal_value(
            items,
            capacity,
        ),
{
    let r = search_order(items);
    let n = r.len() as int;
    let take = best_take(r, 0, capacity);
    let start = Seq::<bool>::empty();
    lemma_search_order(items);
    lemma_best_take(r, start, capacity);
    assert(start + take == take);
    assert(take.take(n) == take);
    lemma_unrank(items, r, take, n);
    if capacity < 0 {
        assert(picks_nothing(take));
    }
}

/// Of the admissible selections that are worth the optimum, the best one
/// is the first in search order: any other leaves, at the first decision
/// where the two part, an item that the best one takes.
pub proof fn lemma_ties_go_to_the_search_order(items: Seq<Item>, capacity: int, picks: Seq<bool>)
    requires
        items.len() <= usize::MAX,
        admissible(items, capacity, picks),
        total_value(select(items, picks)) == optimal_value(items, capacity),
    ensures
        picks == optimal_picks(items, capacity) || takes_first(
            best_take(search_order(items), 0, capacity),
            to_search_order(search_order(items), picks),
        ),
{
    let r = search_order(items);
    let n = r.len() as int;
    let take = to_search_order(r, picks);
    let best = best_take(r, 0, capacity);
    lemma_search_order(items);
    lemma_round_trip(items, r, picks);
    lemma_unrank(items, r, take, n);
    assert(take.take(n) == take);
    assert(take.take(0) == Seq::<bool>::empty());
    assert(take.skip(0) == take);
    if capacity < 0 {
        let start = Seq::<bool>::empty();
        lemma_best_take(r, start, capacity);
        assert(start + best == best);
        lemma_weight_nonnegative(select(items, picks));
        assert(take == best);
    } else {
        if picks_nothing(picks) {
            lemma_select_nothing(items, picks);
        }
        lemma_best_take_wins_ties(r, take, 0, capacity);
    }
}

/// The first selection tried is never worth more than the optimum.
pub proof fn lemma_first_fit_is_no_better(items: Seq<Item>, capacity: int)
    ensures
        first_fit_value(items, capacity) <= optimal_value(items, capacity),
{
    lemma_greedy_against_best(search_order(items), 0, capacity);
}

/// Two solutions of one problem that are both `Optimal` hold the same
/// items and the same value: which selection wins a tie is fixed.
pub proof fn lemma_optimal_solutions_agree(
    items: Seq<Item>,
    capacity: int,
    one: Solution,
    other: Solution,
)
    requires
        is_outcome(items, capacity, one),
        is_outcome(items, capacity, other),
        one.status == Status::Optimal,
        other.status == Status::Optimal,
    ensures
        one.items@ == other.items@,
        one.value == other.value,
{
}

/// One more item that weighs nothing and is worth something never lowers
/// the optimum.
pub proof fn lemma_free_item_never_hurts(items: Seq<Item>, capacity: int, extra: Item)
    requires
        items.len() < usize::MAX,
        extra.weight == 0,
        extra.value > 0,
    ensures
        optimal_value(items.push(extra), capacity) >= optimal_value(items, capacity),
{
    let more = items.push(extra);
    let picks = optimal_picks(items, capacity);
    let same = picks.push(false);
    lemma_optimum_is_reached(items, capacity);
    assert(more.drop_last() == items);
    assert(select(more, same) == select(items, same));
    lemma_select_agree(items, same, picks);
    if picks_nothing(picks) {
        assert(picks_nothing(same));
    }
    lemma_optimum_is_maximal(more, capacity, same);
}

} // verus!
