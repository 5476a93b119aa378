//! The data of a knapsack instance and the arithmetic of selections.

use vstd::prelude::*;

verus! {

/// One candidate for the knapsack. The identifier is opaque to the solver.
#[derive(Clone, Debug, PartialEq, Eq)]
pub struct Item {
    pub id: String,
    pub value: i64,
    pub weight: u64,
}

/// The candidates, in the caller's order, and the weight the knapsack holds.
#[derive(Clone, Debug, PartialEq, Eq)]
pub struct Problem {
    pub items: Vec<Item>,
    pub capacity: i64,
}

/// How much the solver can say about the selection it returns.
#[derive(Clone, Copy, Debug, PartialEq, Eq, Structural)]
pub enum Status {
    /// No admissible selection is worth more.
    Optimal,
    /// The budget ran out first; the selection is the best one seen.
    TimedOut,
    /// Nothing but the empty selection is admissible.
    Infeasible,
}

/// The chosen items in the caller's order, their summed value, and the status.
#[derive(Clone, Debug, PartialEq, Eq)]
pub struct Solution {
    pub items: Vec<Item>,
    pub value: i128,
    pub status: Status,
}

/// The sum of the values of `items`.
pub open spec fn total_value(items: Seq<Item>) -> int
    decreases items.len(),
{
    if items.len() == 0 {
        0
    } else {
        total_value(items.drop_last()) + items.last().value
    }
}

/// The sum of the weights of `items`.
pub open spec fn total_weight(items: Seq<Item>) -> int
    decreases items.len(),
{
    if items.len() == 0 {
        0
    } else {
        total_weight(items.drop_last()) + items.last().weight
    }
}

/// The items whose position is marked in `picks`, in the order of the input.
pub open spec fn select(items: Seq<Item>, picks: Seq<bool>) -> Seq<Item>
    decreases items.len(),
{
    if items.len() == 0 {
        Seq::empty()
    } else if picks[items.len() - 1] {
        select(items.drop_last(), picks).push(items.last())
    } else {
        select(items.drop_last(), picks)
    }
}

/// `picks` marks no position at all.
pub open spec fn picks_nothing(picks: Seq<bool>) -> bool {
    forall|i: int| 0 <= i < picks.len() ==> !picks[i]
}

/// A selection may go into the knapsack when it is empty or its weight is
/// within the capacity. With a negative capacity only the empty one may.
pub open spec fn admissible(items: Seq<Item>, capacity: int, picks: Seq<bool>) -> bool {
    &&& picks.len() == items.len()
    &&& (picks_nothing(picks) || total_weight(select(items, picks)) <= capacity)
}

/// Weights are never negative, so no total is.
pub proof fn lemma_weight_nonnegative(items: Seq<Item>)
    ensures
        total_weight(items) >= 0,
    decreases items.len(),
{
    if items.len() > 0 {
        lemma_weight_nonnegative(items.drop_last());
    }
}

impl Item {
    /// A copy of the item, field for field.
    pub fn duplicate(&self) -> (copy: Item)
        ensures
            copy == *self,
    {
        Item { id: self.id.clone(), value: self.value, weight: self.weight }
    }
}

} // verus!
