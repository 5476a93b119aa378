//! What the best selection is, stated over the items in search order.
//!
//! A path is a run of decisions, one per item from the front of the order:
//! `true` takes the item, `false` leaves it.

use vstd::prelude::*;
use crate::order::Ranked;

verus! {

/// The weight taken along `path`.
pub open spec fn load(r: Seq<Ranked>, path: Seq<bool>) -> int
    decreases path.len(),
{
    if path.len() == 0 {
        0
    } else if path.last() {
        load(r, path.drop_last()) + r[path.len() - 1].weight
    } else {
        load(r, path.drop_last())
    }
}

/// The value taken along `path`.
pub open spec fn gain(r: Seq<Ranked>, path: Seq<bool>) -> int
    decreases path.len(),
{
    if path.len() == 0 {
        0
    } else if path.last() {
        gain(r, path.drop_last()) + r[path.len() - 1].value
    } else {
        gain(r, path.drop_last())
    }
}

/// The most value that the items from position `k` on can add when `room`
/// is the weight still free.
pub open spec fn best_value(r: Seq<Ranked>, k: int, room: int) -> int
    decreases r.len() - k,
{
    if k < 0 || k >= r.len() {
        0
    } else if r[k].weight <= room {
        let with = r[k].value + best_value(r, k + 1, room - r[k].weight);
        let without = best_value(r, k + 1, room);
        if with >= without {
            with
        } else {
            without
        }
    } else {
        best_value(r, k + 1, room)
    }
}

/// Whether the best way on from position `k` takes the item there. Taking
/// wins a tie against leaving.
pub open spec fn takes(r: Seq<Ranked>, k: int, room: int) -> bool {
    &&& r[k].weight <= room
    &&& r[k].value + best_value(r, k + 1, room - r[k].weight) >= best_value(r, k + 1, room)
}

/// The decisions from position `k` on that reach `best_value`, and among
/// those the one that takes the earliest items it can.
pub open spec fn best_take(r: Seq<Ranked>, k: int, room: int) -> Seq<bool>
    decreases r.len() - k,
{
    if k < 0 || k >= r.len() {
        Seq::empty()
    } else if takes(r, k, room) {
        seq![true] + best_take(r, k + 1, room - r[k].weight)
    } else {
        seq![false] + best_take(r, k + 1, room)
    }
}

/// The value that taking every item that still fits, in order, adds from
/// position `k` on.
pub open spec fn greedy_value(r: Seq<Ranked>, k: int, room: int) -> int
    decreases r.len() - k,
{
    if k < 0 || k >= r.len() {
        0
    } else if r[k].weight <= room {
        r[k].value + greedy_value(r, k + 1, room - r[k].weight)
    } else {
        greedy_value(r, k + 1, room)
    }
}

/// The decisions of taking every item that still fits, from position `k` on.
pub open spec fn greedy_take(r: Seq<Ranked>, k: int, room: int) -> Seq<bool>
    decreases r.len() - k,
{
    if k < 0 || k >= r.len() {
        Seq::empty()
    } else if r[k].weight <= room {
        seq![true] + greedy_take(r, k + 1, room - r[k].weight)
    } else {
        seq![false] + greedy_take(r, k + 1, room)
    }
}

/// One more decision adds the item's weight and value, or nothing.
pub proof fn lemma_push(r: Seq<Ranked>, path: Seq<bool>, pick: bool)
    ensures
        load(r, path.push(pick)) == load(r, path) + if pick {
            r[path.len() as int].weight as int
        } else {
            0
        },
        gain(r, path.push(pick)) == gain(r, path) + if pick {
            r[path.len() as int].value as int
        } else {
            0
        },
{
    assert(path.push(pick).drop_last() == path);
}

/// A longer path never weighs less.
pub proof fn lemma_load_grows(r: Seq<Ranked>, path: Seq<bool>, k: int)
    requires
        0 <= k <= path.len(),
    ensures
        load(r, path.take(k)) <= load(r, path),
    decreases path.len() - k,
{
    if k < path.len() {
        lemma_load_grows(r, path, k + 1);
        assert(path.take(k + 1).drop_last() == path.take(k));
    } else {
        assert(path.take(k) == path);
    }
}

/// Nothing can be added with negative value in total.
pub proof fn lemma_best_value_nonnegative(r: Seq<Ranked>, k: int, room: int)
    ensures
        best_value(r, k, room) >= 0,
    decreases r.len() - k,
{
    if 0 <= k < r.len() {
        lemma_best_value_nonnegative(r, k + 1, room);
    }
}

/// `best_take` completes a path to one that is worth `best_value` more and
/// weighs at most `room` more; with no room it takes nothing.
pub proof fn lemma_best_take(r: Seq<Ranked>, prefix: Seq<bool>, room: int)
    requires
        prefix.len() <= r.len(),
    ensures
        ({
            let full = prefix + best_take(r, prefix.len() as int, room);
            &&& full.len() == r.len()
            &&& gain(r, full) == gain(r, prefix) + best_value(r, prefix.len() as int, room)
            &&& load(r, prefix) <= load(r, full)
            &&& room >= 0 ==> load(r, full) <= load(r, prefix) + room
            &&& room < 0 ==> forall|i: int| prefix.len() <= i < r.len() ==> !full[i]
        }),
    decreases r.len() - prefix.len(),
{
    let k = prefix.len() as int;
    let full = prefix + best_take(r, k, room);
    if k >= r.len() {
        assert(full == prefix);
    } else {
        let pick = takes(r, k, room);
        let left = if pick {
            room - r[k].weight
        } else {
            room
        };
        let next = prefix.push(pick);
        lemma_push(r, prefix, pick);
        lemma_best_take(r, next, left);
        assert(full == next + best_take(r, k + 1, left));
        if room < 0 {
            assert forall|i: int| prefix.len() <= i < r.len() implies !full[i] by {
                if i == k {
                    assert(full[i] == next[k]);
                }
            }
        }
    }
}

/// No path is worth more from position `k` on than `best_value` says, if
/// what it takes from there on fits the room.
pub proof fn lemma_best_value_is_upper_bound(r: Seq<Ranked>, path: Seq<bool>, k: int, room: int)
    requires
        path.len() == r.len(),
        0 <= k <= r.len(),
        load(r, path) - load(r, path.take(k)) <= room,
    ensures
        gain(r, path) - gain(r, path.take(k)) <= best_value(r, k, room),
    decreases r.len() - k,
{
    if k == r.len() {
        assert(path.take(k) == path);
    } else {
        assert(path.take(k + 1) == path.take(k).push(path[k]));
        lemma_push(r, path.take(k), path[k]);
        lemma_load_grows(r, path, k + 1);
        if path[k] {
            lemma_best_value_is_upper_bound(r, path, k + 1, room - r[k].weight);
        } else {
            lemma_best_value_is_upper_bound(r, path, k + 1, room);
        }
    }
}

/// `a` and `b` differ, and where they first do, `a` takes the item and `b`
/// leaves it.
pub open spec fn takes_first(a: Seq<bool>, b: Seq<bool>) -> bool {
    exists|j: int|
        0 <= j < a.len() && j < b.len() && #[trigger] a.take(j) == b.take(j) && a[j] && !b[j]
}

/// Among the ways on from position `k` that are worth `best_value`, within
/// `room`, `best_take` is the one that takes first.
pub proof fn lemma_best_take_wins_ties(r: Seq<Ranked>, path: Seq<bool>, k: int, room: int)
    requires
        path.len() == r.len(),
        0 <= k <= r.len(),
        load(r, path) - load(r, path.take(k)) <= room,
        gain(r, path) - gain(r, path.take(k)) == best_value(r, k, room),
    ensures
        path.skip(k) == best_take(r, k, room) || takes_first(best_take(r, k, room), path.skip(k)),
    decreases r.len() - k,
{
    let best = best_take(r, k, room);
    let rest = path.skip(k);
    if k == r.len() {
        assert(rest == best);
    } else {
        let pick = path[k];
        assert(path.take(k + 1) == path.take(k).push(pick));
        lemma_push(r, path.take(k), pick);
        lemma_load_grows(r, path, k + 1);
        if pick {
            lemma_best_value_is_upper_bound(r, path, k + 1, room - r[k].weight);
        }
        if takes(r, k, room) && !pick {
            assert(best.take(0) == rest.take(0));
            assert(best[0] && !rest[0]);
        } else {
            assert(takes(r, k, room) == pick);
            let left = if pick {
                room - r[k].weight
            } else {
                room
            };
            let best_tail = best_take(r, k + 1, left);
            let tail = path.skip(k + 1);
            lemma_best_take_wins_ties(r, path, k + 1, left);
            assert(best == seq![pick] + best_tail);
            assert(rest == seq![pick] + tail);
            if tail != best_tail {
                let j = choose|j: int|
                    0 <= j < best_tail.len() && j < tail.len() && #[trigger] best_tail.take(j)
                        == tail.take(j) && best_tail[j] && !tail[j];
                assert(best.take(j + 1) == seq![pick] + best_tail.take(j));
                assert(rest.take(j + 1) == seq![pick] + tail.take(j));
                assert(best[j + 1] && !rest[j + 1]);
            }
        }
    }
}

/// Taking what fits never beats the best, and where it ties the best it
/// makes the same decisions.
pub proof fn lemma_greedy_against_best(r: Seq<Ranked>, k: int, room: int)
    requires
        0 <= k <= r.len(),
    ensures
        greedy_value(r, k, room) <= best_value(r, k, room),
        greedy_value(r, k, room) == best_value(r, k, room) ==> greedy_take(r, k, room)
            == best_take(r, k, room),
    decreases r.len() - k,
{
    if k < r.len() {
        lemma_greedy_against_best(r, k + 1, room);
        if r[k].weight <= room {
            lemma_greedy_against_best(r, k + 1, room - r[k].weight);
        }
    }
}

/// Where no item from position `k` on fits, nothing is taken and nothing won.
pub proof fn lemma_nothing_fits(r: Seq<Ranked>, k: int, room: int)
    requires
        0 <= k <= r.len(),
        forall|p: int| k <= p < r.len() ==> (#[trigger] r[p]).weight > room,
    ensures
        best_value(r, k, room) == 0,
        greedy_value(r, k, room) == 0,
        greedy_take(r, k, room) == best_take(r, k, room),
        forall|i: int| 0 <= i < r.len() - k ==> !(#[trigger] best_take(r, k, room)[i]),
        best_take(r, k, room).len() == r.len() - k,
    decreases r.len() - k,
{
    if k < r.len() {
        lemma_nothing_fits(r, k + 1, room);
        assert(r[k].weight > room);
        let rest = best_take(r, k + 1, room);
        assert(best_take(r, k, room) == seq![false] + rest);
        assert forall|i: int| 0 <= i < r.len() - k implies !(#[trigger] best_take(r, k, room)[i]) by {
            if i > 0 {
                assert(best_take(r, k, room)[i] == rest[i - 1]);
            }
        }
    }
}

} // verus!
