//! Solving a problem: the search, run until it is done or the budget is spent.

use vstd::prelude::*;
use std::time::Duration;
use crate::clock::{elapsed, nanos, now};
use crate::model::{admissible, select, total_value, total_weight, Item, Problem, Solution, Status};
use crate::optimum::{best_take, best_value, greedy_take, greedy_value};
use crate::order::{is_ranked, lemma_every_place_ranked, lemma_search_order, search_order};
use crate::search::Search;
use crate::transfer::to_input_order;

verus! {

/// The number of nodes the search looks at between two readings of the clock.
pub const POLL_INTERVAL: u64 = 1024;

/// The marks of the best selection: worth the most among the admissible
/// ones, and among those the one that the search order prefers.
pub open spec fn optimal_picks(items: Seq<Item>, capacity: int) -> Seq<bool> {
    let r = search_order(items);
    to_input_order(r, best_take(r, 0, capacity))
}

/// The value of the best selection.
pub open spec fn optimal_value(items: Seq<Item>, capacity: int) -> int {
    best_value(search_order(items), 0, capacity)
}

/// The marks of the first selection tried: every item that still fits,
/// taken in search order.
pub open spec fn first_fit_picks(items: Seq<Item>, capacity: int) -> Seq<bool> {
    let r = search_order(items);
    to_input_order(r, greedy_take(r, 0, capacity))
}

/// The value of the first selection tried.
pub open spec fn first_fit_value(items: Seq<Item>, capacity: int) -> int {
    greedy_value(search_order(items), 0, capacity)
}

/// No item fits the knapsack even alone.
pub open spec fn nothing_fits(items: Seq<Item>, capacity: int) -> bool {
    forall|i: int| 0 <= i < items.len() ==> (#[trigger] items[i]).weight > capacity
}

/// What holds of every solution, however much time there was: it is an
/// admissible selection of the items, in their order; its value is the sum
/// of theirs and at least that of the first selection tried; it is
/// `Optimal` or `TimedOut`; if `Optimal`, it is the best selection; and
/// where nothing fits it is `Optimal`.
pub open spec fn is_outcome(items: Seq<Item>, capacity: int, solution: Solution) -> bool {
    &&& solution.status != Status::Infeasible
    &&& exists|picks: Seq<bool>|
        #[trigger] admissible(items, capacity, picks) && solution.items@ == select(items, picks)
    &&& solution.value == total_value(solution.items@)
    &&& solution.items@.len() == 0 || total_weight(solution.items@) <= capacity
    &&& solution.value >= first_fit_value(items, capacity)
    &&& solution.status == Status::Optimal ==> {
        &&& solution.items@ == select(items, optimal_picks(items, capacity))
        &&& solution.value == optimal_value(items, capacity)
    }
    &&& nothing_fits(items, capacity) ==> solution.status == Status::Optimal
}

/// No item fits in the input exactly when none fits in search order.
proof fn lemma_nothing_fits_either_way(items: Seq<Item>, capacity: int)
    requires
        items.len() <= usize::MAX,
    ensures
        nothing_fits(items, capacity) <==> forall|p: int|
            0 <= p < search_order(items).len() ==> (#[trigger] search_order(items)[p]).weight
                > capacity,
{
    let r = search_order(items);
    lemma_search_order(items);
    lemma_every_place_ranked(items, r);
    if forall|p: int| 0 <= p < r.len() ==> (#[trigger] r[p]).weight > capacity {
        assert forall|i: int| 0 <= i < items.len() implies (#[trigger] items[i]).weight
            > capacity by {
            assert(is_ranked(r, i));
            let p = choose|p: int| 0 <= p < r.len() && (#[trigger] r[p]).index == i;
            assert(r[p].weight > capacity);
        }
    }
    if nothing_fits(items, capacity) {
        assert forall|p: int| 0 <= p < r.len() implies (#[trigger] r[p]).weight > capacity by {
            assert(items[r[p].index as int].weight > capacity);
        }
    }
}

/// Whether a budget is used up: the time spent has reached it.
pub fn out_of_time(spent_nanos: u128, budget_nanos: u128) -> (out: bool)
    ensures
        out == (spent_nanos >= budget_nanos),
{
    spent_nanos >= budget_nanos
}

/// Solves `problem` with no limit on time. The solution is the best
/// selection, and says so.
pub fn solve_exhaustively(problem: &Problem) -> (solution: Solution)
    ensures
        is_outcome(problem.items@, problem.capacity as int, solution),
        solution.status == Status::Optimal,
{
    let mut search = Search::new(problem);
    while !search.is_done()
        invariant
            search.wf(),
            search.order() == search_order(problem.items@),
            search.limit() == problem.capacity,
        decreases search.remaining(),
    {
        search.advance(POLL_INTERVAL);
    }
    proof {
        assert(problem.items@.len() == problem.items.len());
        lemma_nothing_fits_either_way(problem.items@, problem.capacity as int);
    }
    search.solution(problem)
}

/// Solves `problem` within a budget given in nanoseconds, counted from the
/// call. The clock is read before the first node and then after every
/// `POLL_INTERVAL` nodes; once the time spent has reached the budget the
/// search stops and the best selection seen so far is returned as
/// `TimedOut`. With a budget of zero nothing is searched and no clock is
/// read: the solution is the first selection tried.
pub fn solve_within(problem: &Problem, budget_nanos: u128) -> (solution: Solution)
    ensures
        is_outcome(problem.items@, problem.capacity as int, solution),
        budget_nanos == 0 ==> {
            &&& solution.items@ == select(
                problem.items@,
                first_fit_picks(problem.items@, problem.capacity as int),
            )
            &&& solution.value == first_fit_value(problem.items@, problem.capacity as int)
            &&& solution.status == Status::TimedOut <==> !nothing_fits(
                problem.items@,
                problem.capacity as int,
            )
        },
{
    if budget_nanos == 0 {
        let search = Search::new(problem);
        proof {
            assert(problem.items@.len() == problem.items.len());
            lemma_nothing_fits_either_way(problem.items@, problem.capacity as int);
        }
        return search.solution(problem);
    }
    let start = now();
    let mut search = Search::new(problem);
    proof {
        assert(problem.items@.len() == problem.items.len());
        lemma_nothing_fits_either_way(problem.items@, problem.capacity as int);
    }
    while !search.is_done()
        invariant
            search.wf(),
            search.order() == search_order(problem.items@),
            search.limit() == problem.capacity,
            nothing_fits(problem.items@, problem.capacity as int) ==> search.done(),
        decreases search.remaining(),
    {
        let spent = elapsed(&start);
        if out_of_time(nanos(&spent), budget_nanos) {
            break ;
        }
        search.advance(POLL_INTERVAL);
    }
    search.solution(problem)
}

/// Solves `problem` within `time_budget`, as `solve_within` does with the
/// same span in nanoseconds.
pub fn solve(problem: &Problem, time_budget: Duration) -> (solution: Solution)
    ensures
        is_outcome(problem.items@, problem.capacity as int, solution),
{
    solve_within(problem, nanos(&time_budget))
}

} // verus!
