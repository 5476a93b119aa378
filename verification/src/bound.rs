//! The bound that lets the search skip a branch: how much the remaining
//! items could add if the first one that does not fit could be cut.

use vstd::prelude::*;
use vstd::arithmetic::div_mod::{lemma_div_is_ordered, lemma_div_multiples_vanish};
use crate::order::{outranks, ratio_gt, scale, tier, Ranked};
use crate::optimum::{best_value, lemma_nothing_fits};

verus! {

/// Each entry outranks all that follow it.
pub open spec fn in_order(r: Seq<Ranked>) -> bool {
    forall|p: int, q: int| 0 <= p < q < r.len() ==> outranks(#[trigger] r[p], #[trigger] r[q])
}

/// The value of filling `room` with the items from position `k` on, in
/// order, while they have positive value and fit whole, plus the share of
/// the first one that does not fit, rounded down.
pub open spec fn relaxation_bound(r: Seq<Ranked>, k: int, room: int) -> int
    decreases r.len() - k,
{
    if k < 0 || k >= r.len() || room < 0 || r[k].value <= 0 {
        0
    } else if r[k].weight <= room {
        r[k].value + relaxation_bound(r, k + 1, room - r[k].weight)
    } else {
        (r[k].value * room) / (r[k].weight as int)
    }
}

/// Where the filling stops: at the first item from `k` on that has no
/// positive value or does not fit whole.
pub open spec fn fill_stop(r: Seq<Ranked>, k: int, room: int) -> int
    decreases r.len() - k,
{
    if k < 0 || k >= r.len() || r[k].value <= 0 || r[k].weight > room {
        k
    } else {
        fill_stop(r, k + 1, room - r[k].weight)
    }
}

/// The summed value of the items at positions `k` up to `j`.
pub open spec fn span_value(r: Seq<Ranked>, k: int, j: int) -> int
    decreases j - k,
{
    if k >= j {
        0
    } else {
        r[k].value + span_value(r, k + 1, j)
    }
}

/// The summed weight of the items at positions `k` up to `j`.
pub open spec fn span_weight(r: Seq<Ranked>, k: int, j: int) -> int
    decreases j - k,
{
    if k >= j {
        0
    } else {
        r[k].weight + span_weight(r, k + 1, j)
    }
}

/// The bound is the value of the items filled in whole plus the share of
/// the item at which the filling stops.
proof fn lemma_bound_shape(r: Seq<Ranked>, k: int, room: int)
    requires
        0 <= k <= r.len(),
        0 <= room,
    ensures
        ({
            let j = fill_stop(r, k, room);
            let rest = room - span_weight(r, k, j);
            &&& k <= j <= r.len()
            &&& 0 <= rest
            &&& forall|i: int| k <= i < j ==> (#[trigger] r[i]).value > 0
            &&& j < r.len() && r[j].value > 0 ==> r[j].weight > rest
            &&& relaxation_bound(r, k, room) == span_value(r, k, j) + if j < r.len() && r[j].value
                > 0 {
                (r[j].value * rest) / (r[j].weight as int)
            } else {
                0
            }
        }),
    decreases r.len() - k,
{
    if k >= r.len() || r[k].value <= 0 || r[k].weight > room {
    } else {
        lemma_bound_shape(r, k + 1, room - r[k].weight);
    }
}

/// If no item from `j` on is worth more than `num` per `den` of weight,
/// the best that `c` of weight can add is `c` times that ratio.
proof fn lemma_tail_under_ratio(r: Seq<Ranked>, j: int, c: int, num: int, den: int)
    requires
        0 <= j <= r.len(),
        0 <= c,
        0 <= num,
        0 < den,
        forall|m: int| j <= m < r.len() ==> (#[trigger] r[m]).value * den <= num * r[m].weight,
    ensures
        den * best_value(r, j, c) <= num * c,
    decreases r.len() - j,
{
    if j >= r.len() {
        assert(0 <= num * c) by (nonlinear_arith)
            requires
                0 <= num,
                0 <= c,
        ;
    } else {
        lemma_tail_under_ratio(r, j + 1, c, num, den);
        let v = r[j].value as int;
        let w = r[j].weight as int;
        assert(r[j].value * den <= num * r[j].weight);
        if w <= c {
            lemma_tail_under_ratio(r, j + 1, c - w, num, den);
            let inner = best_value(r, j + 1, c - w);
            assert(den * (v + inner) <= num * c) by (nonlinear_arith)
                requires
                    den * inner <= num * (c - w),
                    v * den <= num * w,
            ;
        }
    }
}

/// If moreover every item from `k` up to `j` is worth at least `num` per
/// `den`, the best from `k` on is the value of that span, corrected by the
/// ratio for the weight that differs.
proof fn lemma_head_over_ratio(r: Seq<Ranked>, k: int, j: int, c: int, num: int, den: int)
    requires
        0 <= k <= j <= r.len(),
        0 <= c,
        0 <= num,
        0 < den,
        forall|i: int| k <= i < j ==> (#[trigger] r[i]).value * den >= num * r[i].weight,
        forall|m: int| j <= m < r.len() ==> (#[trigger] r[m]).value * den <= num * r[m].weight,
    ensures
        den * best_value(r, k, c) <= den * span_value(r, k, j) + num * c - num * span_weight(
            r,
            k,
            j,
        ),
    decreases j - k,
{
    if k == j {
        lemma_tail_under_ratio(r, j, c, num, den);
        assert(den * span_value(r, k, j) == 0) by (nonlinear_arith)
            requires
                span_value(r, k, j) == 0,
        ;
        assert(num * span_weight(r, k, j) == 0) by (nonlinear_arith)
            requires
                span_weight(r, k, j) == 0,
        ;
    } else {
        let v = r[k].value as int;
        let w = r[k].weight as int;
        let sv = span_value(r, k + 1, j);
        let sw = span_weight(r, k + 1, j);
        assert(r[k].value * den >= num * r[k].weight);
        lemma_head_over_ratio(r, k + 1, j, c, num, den);
        let without = best_value(r, k + 1, c);
        assert(den * without <= den * (v + sv) + num * c - num * (w + sw)) by (nonlinear_arith)
            requires
                den * without <= den * sv + num * c - num * sw,
                v * den >= num * w,
        ;
        if w <= c {
            lemma_head_over_ratio(r, k + 1, j, c - w, num, den);
            let inner = best_value(r, k + 1, c - w);
            assert(den * (v + inner) <= den * (v + sv) + num * c - num * (w + sw))
                by (nonlinear_arith)
                requires
                    den * inner <= den * sv + num * (c - w) - num * sw,
            ;
        }
    }
}

/// In search order, no way of taking items from position `k` on within
/// `room` is worth more than the bound.
pub proof fn lemma_bound_dominates(r: Seq<Ranked>, k: int, room: int)
    requires
        in_order(r),
        0 <= k <= r.len(),
    ensures
        best_value(r, k, room) <= relaxation_bound(r, k, room),
{
    if room < 0 {
        lemma_nothing_fits(r, k, room);
    } else {
        lemma_bound_shape(r, k, room);
        let j = fill_stop(r, k, room);
        let sv = span_value(r, k, j);
        let rest = room - span_weight(r, k, j);
        let best = best_value(r, k, room);
        if j < r.len() && r[j].value > 0 {
            let num = r[j].value as int;
            let den = r[j].weight as int;
            assert forall|i: int| k <= i < j implies (#[trigger] r[i]).value * den >= num
                * r[i].weight by {
                assert(outranks(r[i], r[j]));
                assert(!ratio_gt(r[j], r[i]));
                assert(tier(r[j]) == 1 && scale(r[j]) == den);
                let vi = r[i].value as int;
                let wi = r[i].weight as int;
                if wi == 0 {
                    assert(vi * den >= num * wi) by (nonlinear_arith)
                        requires
                            vi > 0,
                            den > 0,
                            wi == 0,
                    ;
                } else {
                    assert(tier(r[i]) == 1 && scale(r[i]) == wi);
                }
            }
            assert forall|m: int| j <= m < r.len() implies (#[trigger] r[m]).value * den <= num
                * r[m].weight by {
                let vm = r[m].value as int;
                let wm = r[m].weight as int;
                if m == j {
                    assert(vm * den <= num * wm) by (nonlinear_arith)
                        requires
                            vm == num,
                            wm == den,
                    ;
                } else {
                    assert(outranks(r[j], r[m]));
                    assert(!ratio_gt(r[m], r[j]));
                    assert(tier(r[j]) == 1 && scale(r[j]) == den);
                    if wm == 0 {
                        assert(vm <= 0);
                        assert(vm * den <= num * wm) by (nonlinear_arith)
                            requires
                                vm <= 0,
                                den > 0,
                                wm == 0,
                        ;
                    } else {
                        assert(tier(r[m]) == 1 && scale(r[m]) == wm);
                    }
                }
            }
            lemma_head_over_ratio(r, k, j, room, num, den);
            assert(den * (best - sv) <= num * rest) by (nonlinear_arith)
                requires
                    den * best <= den * sv + num * room - num * span_weight(r, k, j),
                    rest == room - span_weight(r, k, j),
            ;
            lemma_div_is_ordered(den * (best - sv), num * rest, den);
            lemma_div_multiples_vanish(best - sv, den);
        } else {
            assert forall|m: int| j <= m < r.len() implies (#[trigger] r[m]).value * 1 <= 0
                * r[m].weight by {
                if m > j {
                    assert(outranks(r[j], r[m]));
                    assert(!ratio_gt(r[m], r[j]));
                    let vm = r[m].value as int;
                    let vj = r[j].value as int;
                    let sm = scale(r[m]);
                    let sj = scale(r[j]);
                    if tier(r[m]) == 1 {
                        assert(vm <= 0) by (nonlinear_arith)
                            requires
                                vm * sj <= vj * sm,
                                vj <= 0,
                                sm > 0,
                                sj > 0,
                        ;
                    }
                }
            }
            assert forall|i: int| k <= i < j implies (#[trigger] r[i]).value * 1 >= 0
                * r[i].weight by {}
            lemma_head_over_ratio(r, k, j, room, 0, 1);
        }
    }
}

/// The bound never exceeds the summed largest value of the items left.
pub proof fn lemma_bound_range(r: Seq<Ranked>, k: int, room: int)
    requires
        0 <= k <= r.len(),
    ensures
        0 <= relaxation_bound(r, k, room) <= (r.len() - k) * i64::MAX,
    decreases r.len() - k,
{
    if k >= r.len() || room < 0 || r[k].value <= 0 {
    } else if r[k].weight <= room {
        lemma_bound_range(r, k + 1, room - r[k].weight);
    } else {
        lemma_share(r[k].value as int, room, r[k].weight as int);
    }
}

/// A share of a value is between nothing and the value.
proof fn lemma_share(v: int, room: int, w: int)
    requires
        0 <= v,
        0 <= room < w,
    ensures
        0 <= (v * room) / w <= v,
{
    assert(0 <= v * room <= w * v) by (nonlinear_arith)
        requires
            0 <= v,
            0 <= room < w,
    ;
    lemma_div_is_ordered(0, v * room, w);
    lemma_div_is_ordered(v * room, w * v, w);
    lemma_div_multiples_vanish(v, w);
}

/// Computes the bound for the items from position `k` on.
pub fn upper_bound(r: &Vec<Ranked>, k: usize, room: i64) -> (bound: i128)
    ensures
        bound == relaxation_bound(r@, k as int, room as int),
{
    if room < 0 || k >= r.len() {
        return 0;
    }
    let mut filled: i128 = 0;
    let mut rest: i64 = room;
    let mut j: usize = k;
    while j < r.len()
        invariant
            k <= j <= r.len(),
            0 <= rest <= room,
            0 <= filled <= (j - k) * i64::MAX,
            relaxation_bound(r@, k as int, room as int) == filled + relaxation_bound(
                r@,
                j as int,
                rest as int,
            ),
        decreases r.len() - j,
    {
        let x = r[j];
        if x.value <= 0 {
            return filled;
        }
        if x.weight <= rest as u64 {
            filled = filled + x.value as i128;
            rest = rest - x.weight as i64;
            j = j + 1;
        } else {
            proof {
                lemma_share(x.value as int, rest as int, x.weight as int);
                assert(0 <= x.value * rest <= i64::MAX * i64::MAX) by (nonlinear_arith)
                    requires
                        0 <= x.value <= i64::MAX,
                        0 <= rest <= i64::MAX,
                ;
            }
            let share: u128 = (x.value as u128 * rest as u128) / (x.weight as u128);
            return filled + share as i128;
        }
    }
    filled
}

} // verus!
