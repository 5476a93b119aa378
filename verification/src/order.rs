//! The order in which the search looks at the items: best value per unit of
//! weight first, and among equals the one that came first in the input.

use vstd::prelude::*;
use vstd::set_lib::{lemma_int_range, lemma_len_subset, lemma_subset_equality, set_int_range};
use crate::model::Item;

verus! {

/// An item as the search sees it: where it stood in the input, what it is
/// worth and what it weighs.
#[derive(Clone, Copy, Debug, PartialEq, Eq, Structural)]
pub struct Ranked {
    pub index: usize,
    pub value: i64,
    pub weight: u64,
}

/// Three bands of value per weight. A weightless item of positive value is
/// above every quotient (2), a weightless item of negative value is below
/// every quotient (0), and everything else has a quotient (1); an item with
/// neither value nor weight counts as the quotient zero.
pub open spec fn tier(x: Ranked) -> int {
    if x.weight > 0 {
        1
    } else if x.value > 0 {
        2
    } else if x.value < 0 {
        0
    } else {
        1
    }
}

/// The denominator of an item's quotient: its weight, or one if it has none.
pub open spec fn scale(x: Ranked) -> int {
    if x.weight > 0 {
        x.weight as int
    } else {
        1
    }
}

/// `a` is worth strictly more per unit of weight than `b`.
pub open spec fn ratio_gt(a: Ranked, b: Ranked) -> bool {
    tier(a) > tier(b) || (tier(a) == 1 && tier(b) == 1 && a.value * scale(b) > b.value * scale(
        a,
    ))
}

/// `a` is looked at before `b`: a better ratio, or the same ratio and an
/// earlier place in the input.
pub open spec fn outranks(a: Ranked, b: Ranked) -> bool {
    ratio_gt(a, b) || (!ratio_gt(b, a) && a.index < b.index)
}

/// Where `x` goes into `s` when `x` came after everything in `s`: behind
/// every entry whose ratio is at least as good.
pub open spec fn slot(s: Seq<Ranked>, x: Ranked) -> int
    decreases s.len(),
{
    if s.len() == 0 || !ratio_gt(x, s.last()) {
        s.len() as int
    } else {
        slot(s.drop_last(), x)
    }
}

/// The item at the end of `items`, with its place.
pub open spec fn last_ranked(items: Seq<Item>) -> Ranked {
    Ranked {
        index: (items.len() - 1) as usize,
        value: items.last().value,
        weight: items.last().weight,
    }
}

/// The items in the order of the search.
pub open spec fn search_order(items: Seq<Item>) -> Seq<Ranked>
    decreases items.len(),
{
    if items.len() == 0 {
        Seq::empty()
    } else {
        let s = search_order(items.drop_last());
        s.insert(slot(s, last_ranked(items)), last_ranked(items))
    }
}

/// What makes `r` the search order of `items`: it holds every item once,
/// each under its own place, and each entry outranks all that follow.
pub open spec fn is_search_order(items: Seq<Item>, r: Seq<Ranked>) -> bool {
    &&& r.len() == items.len()
    &&& forall|p: int|
        0 <= p < r.len() ==> {
            &&& (#[trigger] r[p]).index < items.len()
            &&& r[p].value == items[r[p].index as int].value
            &&& r[p].weight == items[r[p].index as int].weight
        }
    &&& forall|p: int, q: int| 0 <= p < q < r.len() ==> outranks(#[trigger] r[p], #[trigger] r[q])
}

/// A ratio is never strictly better than itself, nor two ratios each
/// strictly better than the other.
pub proof fn lemma_ratio_gt_asymmetric(a: Ranked, b: Ranked)
    ensures
        ratio_gt(a, b) ==> !ratio_gt(b, a),
{
}

/// "At least as good a ratio" is transitive.
pub proof fn lemma_ratio_ge_transitive(a: Ranked, b: Ranked, c: Ranked)
    requires
        !ratio_gt(b, a),
        !ratio_gt(c, b),
    ensures
        !ratio_gt(c, a),
{
    if tier(a) == 1 && tier(b) == 1 && tier(c) == 1 {
        let (va, vb, vc) = (a.value as int, b.value as int, c.value as int);
        let (sa, sb, sc) = (scale(a), scale(b), scale(c));
        assert(vc * sa <= va * sc) by (nonlinear_arith)
            requires
                vb * sa <= va * sb,
                vc * sb <= vb * sc,
                sa > 0,
                sb > 0,
                sc > 0,
        {
            assert((vb * sa) * sc <= (va * sb) * sc);
            assert((vc * sb) * sa <= (vb * sc) * sa);
            assert((vc * sa) * sb <= (va * sc) * sb);
        }
    }
}

/// Every entry from the slot on has a strictly worse ratio than `x`, and
/// the entry just before the slot has not.
pub proof fn lemma_slot(s: Seq<Ranked>, x: Ranked)
    ensures
        0 <= slot(s, x) <= s.len(),
        forall|q: int| slot(s, x) <= q < s.len() ==> ratio_gt(x, #[trigger] s[q]),
        slot(s, x) > 0 ==> !ratio_gt(x, s[slot(s, x) - 1]),
    decreases s.len(),
{
    if s.len() == 0 || !ratio_gt(x, s.last()) {
    } else {
        let head = s.drop_last();
        lemma_slot(head, x);
        assert forall|q: int| slot(s, x) <= q < s.len() implies ratio_gt(x, #[trigger] s[q]) by {
            if q < head.len() {
                assert(s[q] == head[q]);
            }
        }
        if slot(s, x) > 0 {
            assert(s[slot(s, x) - 1] == head[slot(head, x) - 1]);
        }
    }
}

/// The search order is what `is_search_order` describes.
pub proof fn lemma_search_order(items: Seq<Item>)
    requires
        items.len() <= usize::MAX,
    ensures
        is_search_order(items, search_order(items)),
    decreases items.len(),
{
    if items.len() > 0 {
        let head = items.drop_last();
        let s = search_order(head);
        let x = last_ranked(items);
        let j = slot(s, x);
        let r = search_order(items);
        lemma_search_order(head);
        lemma_slot(s, x);
        assert(r == s.insert(j, x));
        assert forall|p: int| 0 <= p < r.len() implies {
            &&& (#[trigger] r[p]).index < items.len()
            &&& r[p].value == items[r[p].index as int].value
            &&& r[p].weight == items[r[p].index as int].weight
        } by {
            if p < j {
                assert(r[p] == s[p]);
                assert(head[s[p].index as int] == items[s[p].index as int]);
            } else if p > j {
                assert(r[p] == s[p - 1]);
                assert(head[s[p - 1].index as int] == items[s[p - 1].index as int]);
            }
        }
        assert forall|p: int, q: int| 0 <= p < q < r.len() implies outranks(
            #[trigger] r[p],
            #[trigger] r[q],
        ) by {
            if q < j {
                assert(r[p] == s[p] && r[q] == s[q]);
            } else if p > j {
                assert(r[p] == s[p - 1] && r[q] == s[q - 1]);
            } else if p == j {
                assert(r[q] == s[q - 1]);
            } else if q == j {
                assert(r[p] == s[p]);
                assert(s[p].index < x.index);
                if p < j - 1 {
                    assert(outranks(s[p], s[j - 1]));
                    lemma_ratio_gt_asymmetric(s[p], s[j - 1]);
                    lemma_ratio_ge_transitive(s[p], s[j - 1], x);
                }
            } else {
                assert(r[p] == s[p] && r[q] == s[q - 1]);
            }
        }
    }
}

/// Which band an item's ratio is in.
fn tier_of(x: &Ranked) -> (t: u8)
    ensures
        t == tier(*x),
{
    if x.weight > 0 {
        1
    } else if x.value > 0 {
        2
    } else if x.value < 0 {
        0
    } else {
        1
    }
}

/// The denominator of an item's quotient.
fn scale_of(x: &Ranked) -> (s: i128)
    ensures
        s == scale(*x),
{
    if x.weight > 0 {
        x.weight as i128
    } else {
        1
    }
}

/// Whether `a` is worth strictly more per unit of weight than `b`.
pub fn ratio_exceeds(a: &Ranked, b: &Ranked) -> (gt: bool)
    ensures
        gt == ratio_gt(*a, *b),
{
    let ta: u8 = tier_of(a);
    let tb: u8 = tier_of(b);
    if ta != tb {
        ta > tb
    } else if ta != 1 {
        false
    } else {
        let sa: i128 = scale_of(a);
        let sb: i128 = scale_of(b);
        let va: i128 = a.value as i128;
        let vb: i128 = b.value as i128;
        assert(-0x8000_0000_0000_0000_0000_0000_0000_0000 <= va * sb
            < 0x8000_0000_0000_0000_0000_0000_0000_0000) by (nonlinear_arith)
            requires
                -0x8000_0000_0000_0000 <= va < 0x8000_0000_0000_0000,
                0 < sb < 0x1_0000_0000_0000_0000,
        ;
        assert(-0x8000_0000_0000_0000_0000_0000_0000_0000 <= vb * sa
            < 0x8000_0000_0000_0000_0000_0000_0000_0000) by (nonlinear_arith)
            requires
                -0x8000_0000_0000_0000 <= vb < 0x8000_0000_0000_0000,
                0 < sa < 0x1_0000_0000_0000_0000,
        ;
        va * sb > vb * sa
    }
}

/// No place is ranked twice.
pub proof fn lemma_ranked_once(items: Seq<Item>, r: Seq<Ranked>, p: int, q: int)
    requires
        is_search_order(items, r),
        0 <= p < r.len(),
        0 <= q < r.len(),
        p != q,
    ensures
        r[p].index != r[q].index,
{
    if r[p].index == r[q].index {
        assert(r[p] == r[q]);
        if p < q {
            assert(outranks(r[p], r[q]));
        } else {
            assert(outranks(r[q], r[p]));
        }
    }
}

/// Some entry of `r` stands for place `i` of the input.
pub open spec fn is_ranked(r: Seq<Ranked>, i: int) -> bool {
    exists|p: int| 0 <= p < r.len() && (#[trigger] r[p]).index == i
}

/// Every place of the input is ranked.
pub proof fn lemma_every_place_ranked(items: Seq<Item>, r: Seq<Ranked>)
    requires
        is_search_order(items, r),
    ensures
        forall|i: int| 0 <= i < items.len() ==> #[trigger] is_ranked(r, i),
{
    let places = Seq::new(r.len(), |p: int| r[p].index as int);
    let all = set_int_range(0, items.len() as int);
    assert forall|p: int, q: int|
        0 <= p < places.len() && 0 <= q < places.len() && p != q implies places[p]
        != places[q] by {
        lemma_ranked_once(items, r, p, q);
    }
    places.unique_seq_to_set();
    lemma_int_range(0, items.len() as int);
    assert forall|i: int| places.to_set().contains(i) implies all.contains(i) by {
        let p = choose|p: int| 0 <= p < places.len() && places[p] == i;
        assert(r[p].index < items.len());
    }
    lemma_len_subset(places.to_set(), all);
    lemma_subset_equality(places.to_set(), all);
    assert forall|i: int| 0 <= i < items.len() implies #[trigger] is_ranked(r, i) by {
        assert(all.contains(i));
        assert(places.to_set().contains(i));
        let p = choose|p: int| 0 <= p < places.len() && places[p] == i;
        assert(r[p].index == i);
    }
}

/// Of two entries, at most one is looked at before the other.
pub proof fn lemma_outranks_asymmetric(a: Ranked, b: Ranked)
    ensures
        outranks(a, b) ==> !outranks(b, a),
{
}

/// Being looked at before is transitive.
pub proof fn lemma_outranks_transitive(a: Ranked, b: Ranked, c: Ranked)
    requires
        outranks(a, b),
        outranks(b, c),
    ensures
        outranks(a, c),
{
    lemma_ratio_ge_transitive(a, b, c);
    if !ratio_gt(a, c) {
        lemma_ratio_ge_transitive(b, c, a);
        lemma_ratio_ge_transitive(c, a, b);
    }
}

/// Two search orders of the same items agree on their first `m` entries.
proof fn lemma_orders_agree(items: Seq<Item>, r: Seq<Ranked>, s: Seq<Ranked>, m: int)
    requires
        is_search_order(items, r),
        is_search_order(items, s),
        0 <= m <= r.len(),
    ensures
        forall|p: int| 0 <= p < m ==> r[p] == s[p],
    decreases m,
{
    if m > 0 {
        let at = m - 1;
        lemma_orders_agree(items, r, s, at);
        lemma_every_place_ranked(items, r);
        lemma_every_place_ranked(items, s);
        assert(is_ranked(s, r[at].index as int));
        let q = choose|q: int| 0 <= q < s.len() && (#[trigger] s[q]).index == r[at].index;
        assert(is_ranked(r, s[at].index as int));
        let t = choose|t: int| 0 <= t < r.len() && (#[trigger] r[t]).index == s[at].index;
        assert(s[q] == r[at]);
        assert(r[t] == s[at]);
        if q < at {
            lemma_ranked_once(items, r, q, at);
        }
        if t < at {
            lemma_ranked_once(items, s, t, at);
        }
        if q > at {
            assert(outranks(s[at], s[q]));
            if t == at {
                lemma_ranked_once(items, s, q, at);
            } else {
                assert(outranks(r[at], r[t]));
                lemma_outranks_asymmetric(s[at], s[q]);
            }
        }
    }
}

/// Nothing but the search order is what `is_search_order` describes.
pub proof fn lemma_search_order_is_unique(items: Seq<Item>, r: Seq<Ranked>)
    requires
        items.len() <= usize::MAX,
        is_search_order(items, r),
    ensures
        r == search_order(items),
{
    lemma_search_order(items);
    lemma_orders_agree(items, r, search_order(items), r.len() as int);
}

/// What a sorted run over the places from `lo` up to `hi` is.
pub open spec fn is_run(items: Seq<Item>, r: Seq<Ranked>, lo: int, hi: int) -> bool {
    &&& r.len() == hi - lo
    &&& forall|p: int|
        0 <= p < r.len() ==> {
            &&& lo <= (#[trigger] r[p]).index < hi
            &&& r[p].value == items[r[p].index as int].value
            &&& r[p].weight == items[r[p].index as int].weight
        }
    &&& forall|p: int, q: int| 0 <= p < q < r.len() ==> outranks(#[trigger] r[p], #[trigger] r[q])
}

/// Merges the sorted run `a` over the places before `mid` with the sorted
/// run `b` over the places from `mid` on.
fn merge_runs(
    a: &Vec<Ranked>,
    b: &Vec<Ranked>,
    Ghost(items): Ghost<Seq<Item>>,
    Ghost(lo): Ghost<int>,
    Ghost(mid): Ghost<int>,
    Ghost(hi): Ghost<int>,
) -> (out: Vec<Ranked>)
    requires
        0 <= lo <= mid <= hi <= usize::MAX,
        is_run(items, a@, lo, mid),
        is_run(items, b@, mid, hi),
    ensures
        is_run(items, out@, lo, hi),
{
    let mut out: Vec<Ranked> = Vec::new();
    let mut i: usize = 0;
    let mut j: usize = 0;
    while i < a.len() || j < b.len()
        invariant
            0 <= lo <= mid <= hi <= usize::MAX,
            is_run(items, a@, lo, mid),
            is_run(items, b@, mid, hi),
            i <= a.len(),
            j <= b.len(),
            out.len() == i + j,
            forall|p: int|
                0 <= p < out.len() ==> {
                    &&& lo <= (#[trigger] out@[p]).index < hi
                    &&& out@[p].value == items[out@[p].index as int].value
                    &&& out@[p].weight == items[out@[p].index as int].weight
                },
            forall|p: int, q: int|
                0 <= p < q < out.len() ==> outranks(#[trigger] out@[p], #[trigger] out@[q]),
            forall|p: int, q: int|
                0 <= p < out.len() && i <= q < a.len() ==> outranks(
                    #[trigger] out@[p],
                    #[trigger] a@[q],
                ),
            forall|p: int, q: int|
                0 <= p < out.len() && j <= q < b.len() ==> outranks(
                    #[trigger] out@[p],
                    #[trigger] b@[q],
                ),
        decreases a.len() - i + b.len() - j,
    {
        let from_a = if i == a.len() {
            false
        } else if j == b.len() {
            true
        } else {
            !ratio_exceeds(&b[j], &a[i])
        };
        let ghost before = out@;
        if from_a {
            let x = a[i];
            proof {
                assert forall|q: int| j <= q < b.len() implies outranks(x, #[trigger] b@[q]) by {
                    assert(outranks(x, b@[j as int]));
                    if q > j {
                        assert(outranks(b@[j as int], b@[q]));
                        lemma_outranks_transitive(x, b@[j as int], b@[q]);
                    }
                }
                assert forall|q: int| i < q < a.len() implies outranks(x, #[trigger] a@[q]) by {
                    assert(outranks(a@[i as int], a@[q]));
                }
            }
            out.push(x);
            i = i + 1;
        } else {
            let y = b[j];
            proof {
                assert forall|q: int| i <= q < a.len() implies outranks(y, #[trigger] a@[q]) by {
                    assert(outranks(y, a@[i as int]));
                    if q > i {
                        assert(outranks(a@[i as int], a@[q]));
                        lemma_outranks_transitive(y, a@[i as int], a@[q]);
                    }
                }
                assert forall|q: int| j < q < b.len() implies outranks(y, #[trigger] b@[q]) by {
                    assert(outranks(b@[j as int], b@[q]));
                }
            }
            out.push(y);
            j = j + 1;
        }
        proof {
            assert forall|p: int, q: int| 0 <= p < q < out.len() implies outranks(
                #[trigger] out@[p],
                #[trigger] out@[q],
            ) by {
                assert(out@[p] == before[p]);
                if q < before.len() {
                    assert(out@[q] == before[q]);
                }
            }
        }
    }
    out
}

/// Sorts the places from `lo` up to `hi` into a run.
fn rank_range(items: &Vec<Item>, lo: usize, hi: usize) -> (r: Vec<Ranked>)
    requires
        lo <= hi <= items.len(),
    ensures
        is_run(items@, r@, lo as int, hi as int),
    decreases hi - lo,
{
    let mut r: Vec<Ranked> = Vec::new();
    if hi - lo == 0 {
        r
    } else if hi - lo == 1 {
        r.push(Ranked { index: lo, value: items[lo].value, weight: items[lo].weight });
        r
    } else {
        let mid = lo + (hi - lo) / 2;
        let a = rank_range(items, lo, mid);
        let b = rank_range(items, mid, hi);
        merge_runs(&a, &b, Ghost(items@), Ghost(lo as int), Ghost(mid as int), Ghost(hi as int))
    }
}

/// Puts the items into the order of the search, by merging sorted runs.
pub fn rank_items(items: &Vec<Item>) -> (r: Vec<Ranked>)
    ensures
        r@ == search_order(items@),
        is_search_order(items@, r@),
{
    let r = rank_range(items, 0, items.len());
    proof {
        lemma_search_order_is_unique(items@, r@);
    }
    r
}

} // verus!
