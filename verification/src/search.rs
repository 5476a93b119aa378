//! The search itself: depth first through the decisions, taking before
//! leaving, skipping every branch whose bound cannot beat the incumbent.
//! It runs in steps so that a caller can stop it between any two.

use vstd::prelude::*;
use vstd::arithmetic::power2::{lemma_pow2_pos, lemma_pow2_unfold, pow2};
use crate::bound::{in_order, lemma_bound_dominates, lemma_bound_range, upper_bound};
use crate::model::{
    admissible,
    picks_nothing,
    select,
    total_value,
    total_weight,
    Item,
    Problem,
    Solution,
    Status,
};
use crate::optimum::{
    best_take,
    best_value,
    gain,
    greedy_take,
    greedy_value,
    lemma_greedy_against_best,
    lemma_load_grows,
    lemma_nothing_fits,
    lemma_push,
    load,
};
use crate::order::{is_search_order, lemma_search_order, rank_items, search_order, Ranked};
use crate::transfer::{lemma_select_nothing, lemma_unrank, to_input_order, unrank};

verus! {

/// A search in progress over one problem.
pub struct Search {
    ranked: Vec<Ranked>,
    capacity: i64,
    /// The decisions that lead to the node to look at next.
    path: Vec<bool>,
    /// The weight still free below that node.
    room: i64,
    /// The value taken along the path.
    gain: i128,
    /// The incumbent: the best full run of decisions seen so far.
    best: Vec<bool>,
    best_gain: i128,
    exhausted: bool,
}

/// What the incumbent `inc` becomes once everything below `path` has been
/// looked at: the best leaf there if that is worth strictly more.
pub open spec fn explore(r: Seq<Ranked>, cap: int, path: Seq<bool>, inc: (Seq<bool>, int)) -> (
    Seq<bool>,
    int,
) {
    let k = path.len() as int;
    let room = cap - load(r, path);
    let reach = gain(r, path) + best_value(r, k, room);
    if reach > inc.1 {
        (path + best_take(r, k, room), reach)
    } else {
        inc
    }
}

/// What `inc` becomes once the search has gone back up from `path` to the
/// root, looking below each sibling it had left for later.
pub open spec fn unwind(r: Seq<Ranked>, cap: int, path: Seq<bool>, inc: (Seq<bool>, int)) -> (
    Seq<bool>,
    int,
)
    decreases path.len(),
{
    if path.len() == 0 {
        inc
    } else if path.last() {
        unwind(r, cap, path.drop_last(), explore(r, cap, path.drop_last().push(false), inc))
    } else {
        unwind(r, cap, path.drop_last(), inc)
    }
}

/// The number of nodes at and below a node at depth `d` of `n` items.
pub open spec fn subtree(n: int, d: int) -> int {
    pow2((n - d + 1) as nat) - 1
}

/// The number of nodes below the siblings that `path` has left for later.
pub open spec fn pending(n: int, path: Seq<bool>) -> int
    decreases path.len(),
{
    if path.len() == 0 {
        0
    } else if path.last() {
        pending(n, path.drop_last()) + subtree(n, path.len() as int)
    } else {
        pending(n, path.drop_last())
    }
}

/// Looking below a node is looking below its two children, the taking one
/// first; where the item does not fit there is only the leaving one.
proof fn lemma_explore_split(r: Seq<Ranked>, cap: int, path: Seq<bool>, inc: (Seq<bool>, int))
    requires
        path.len() < r.len(),
    ensures
        r[path.len() as int].weight <= cap - load(r, path) ==> explore(r, cap, path, inc)
            == explore(r, cap, path.push(false), explore(r, cap, path.push(true), inc)),
        r[path.len() as int].weight > cap - load(r, path) ==> explore(r, cap, path, inc)
            == explore(r, cap, path.push(false), inc),
{
    let k = path.len() as int;
    let room = cap - load(r, path);
    lemma_push(r, path, true);
    lemma_push(r, path, false);
    let rest_with = best_take(r, k + 1, room - r[k].weight);
    let rest_without = best_take(r, k + 1, room);
    assert(path + (seq![true] + rest_with) == path.push(true) + rest_with);
    assert(path + (seq![false] + rest_without) == path.push(false) + rest_without);
}

/// A leaf has nothing below it but itself.
proof fn lemma_explore_leaf(r: Seq<Ranked>, cap: int, path: Seq<bool>, inc: (Seq<bool>, int))
    requires
        path.len() == r.len(),
    ensures
        explore(r, cap, path, inc) == if gain(r, path) > inc.1 {
            (path, gain(r, path))
        } else {
            inc
        },
{
    assert(path + best_take(r, path.len() as int, cap - load(r, path)) == path);
}

/// The value along a path stays within what that many items can be worth.
proof fn lemma_gain_range(r: Seq<Ranked>, path: Seq<bool>)
    ensures
        path.len() * i64::MIN <= gain(r, path) <= path.len() * i64::MAX,
    decreases path.len(),
{
    if path.len() > 0 {
        lemma_gain_range(r, path.drop_last());
    }
}

/// Nothing is pending below zero, and a subtree has at least its root.
proof fn lemma_work_positive(n: int, path: Seq<bool>)
    requires
        path.len() <= n,
    ensures
        pending(n, path) >= 0,
        subtree(n, path.len() as int) >= 1,
    decreases path.len(),
{
    lemma_pow2_unfold((n - path.len() + 1) as nat);
    lemma_pow2_pos((n - path.len()) as nat);
    if path.len() > 0 {
        lemma_work_positive(n, path.drop_last());
    }
}

/// A copy of a run of decisions.
fn copy_decisions(v: &Vec<bool>) -> (c: Vec<bool>)
    ensures
        c@ == v@,
{
    let mut c: Vec<bool> = Vec::new();
    let mut i: usize = 0;
    while i < v.len()
        invariant
            i <= v.len(),
            c@ == v@.take(i as int),
        decreases v.len() - i,
    {
        c.push(v[i]);
        assert(v@.take(i + 1) == v@.take(i as int).push(v@[i as int]));
        i = i + 1;
    }
    assert(v@.take(i as int) == v@);
    c
}

impl Search {
    /// The items in the order in which the search decides on them.
    pub closed spec fn order(&self) -> Seq<Ranked> {
        self.ranked@
    }

    /// The capacity that selections are held to.
    pub closed spec fn limit(&self) -> int {
        self.capacity as int
    }

    /// The decisions of the incumbent, one per item in search order.
    pub closed spec fn incumbent(&self) -> Seq<bool> {
        self.best@
    }

    /// The value of the incumbent.
    pub closed spec fn incumbent_value(&self) -> int {
        self.best_gain as int
    }

    /// Whether the whole tree has been looked at or skipped.
    pub closed spec fn done(&self) -> bool {
        self.exhausted
    }

    /// An upper limit on the number of nodes still to look at.
    pub closed spec fn remaining(&self) -> nat {
        if self.exhausted || self.path.len() > self.ranked.len() {
            0
        } else {
            let n = self.ranked.len() as int;
            let left = pending(n, self.path@) + subtree(n, self.path.len() as int);
            if left >= 0 {
                left as nat
            } else {
                0
            }
        }
    }

    /// The running sums agree with the path.
    pub closed spec fn consistent(&self) -> bool {
        &&& self.path.len() <= self.ranked.len()
        &&& self.room == self.capacity - load(self.ranked@, self.path@)
        &&& self.gain == gain(self.ranked@, self.path@)
        &&& 0 <= self.room
    }

    /// The state between two steps: once what is left to look at has been
    /// looked at, the incumbent will be the best selection.
    pub closed spec fn on_track(&self) -> bool {
        if self.exhausted {
            true
        } else {
            &&& self.consistent()
            &&& unwind(
                self.ranked@,
                self.capacity as int,
                self.path@,
                explore(
                    self.ranked@,
                    self.capacity as int,
                    self.path@,
                    (self.best@, self.best_gain as int),
                ),
            ) == (
                best_take(self.ranked@, 0, self.capacity as int),
                best_value(self.ranked@, 0, self.capacity as int),
            )
        }
    }

    /// What holds of a search between any two calls.
    pub open spec fn wf(&self) -> bool {
        &&& in_order(self.order())
        &&& self.incumbent().len() == self.order().len()
        &&& self.incumbent_value() == gain(self.order(), self.incumbent())
        &&& picks_nothing(self.incumbent()) || load(self.order(), self.incumbent()) <= self.limit()
        &&& self.incumbent_value() >= greedy_value(self.order(), 0, self.limit())
        &&& self.done() ==> {
            &&& self.incumbent() == best_take(self.order(), 0, self.limit())
            &&& self.incumbent_value() == best_value(self.order(), 0, self.limit())
        }
        &&& self.on_track()
    }

    /// Whether the whole tree has been looked at or skipped.
    pub fn is_done(&self) -> (done: bool)
        ensures
            done == self.done(),
    {
        self.exhausted
    }

    /// Starts a search over `problem`. The incumbent is what taking every
    /// item that still fits, in search order, gives. Where no item fits at
    /// all there is nothing to search, and the search is done at once.
    pub fn new(problem: &Problem) -> (search: Search)
        ensures
            search.wf(),
            search.order() == search_order(problem.items@),
            search.limit() == problem.capacity,
            search.incumbent() == greedy_take(search.order(), 0, search.limit()),
            search.incumbent_value() == greedy_value(search.order(), 0, search.limit()),
            search.done() <==> forall|p: int|
                0 <= p < search.order().len() ==> (#[trigger] search.order()[p]).weight
                    > search.limit(),
    {
        let ranked = rank_items(&problem.items);
        let capacity = problem.capacity;
        let n = ranked.len();
        let mut best: Vec<bool> = Vec::new();
        let mut room: i64 = capacity;
        let mut value: i128 = 0;
        let mut any = false;
        let mut k: usize = 0;
        while k < n
            invariant
                n == ranked.len(),
                k <= n,
                best.len() == k,
                room == capacity - load(ranked@, best@),
                value == gain(ranked@, best@),
                best@ + greedy_take(ranked@, k as int, room as int) == greedy_take(
                    ranked@,
                    0,
                    capacity as int,
                ),
                value + greedy_value(ranked@, k as int, room as int) == greedy_value(
                    ranked@,
                    0,
                    capacity as int,
                ),
                any ==> 0 <= room,
                any ==> exists|p: int| 0 <= p < k && (#[trigger] ranked@[p]).weight <= capacity,
                !any ==> room == capacity,
                !any ==> forall|p: int| 0 <= p < k ==> (#[trigger] ranked@[p]).weight > capacity,
                !any ==> picks_nothing(best@),
            decreases n - k,
        {
            let x = ranked[k];
            let ghost before = best@;
            let ghost rest_before = greedy_take(ranked@, k as int, room as int);
            proof {
                lemma_push(ranked@, best@, true);
                lemma_push(ranked@, best@, false);
                lemma_gain_range(ranked@, best@);
                lemma_load_grows(ranked@, best@, 0);
                assert(best@.take(0) == Seq::<bool>::empty());
            }
            if room >= 0 && x.weight <= room as u64 {
                best.push(true);
                room = room - x.weight as i64;
                value = value + x.value as i128;
                any = true;
                proof {
                    let rest = greedy_take(ranked@, k + 1, room as int);
                    assert(rest_before == seq![true] + rest);
                    assert(before + rest_before == before.push(true) + rest);
                    assert(ranked@[k as int].weight <= capacity);
                }
            } else {
                best.push(false);
                proof {
                    let rest = greedy_take(ranked@, k + 1, room as int);
                    assert(rest_before == seq![false] + rest);
                    assert(before + rest_before == before.push(false) + rest);
                }
            }
            k = k + 1;
        }
        proof {
            assert(best@ + greedy_take(ranked@, n as int, room as int) == best@);
            lemma_greedy_against_best(ranked@, 0, capacity as int);
            if !any {
                lemma_nothing_fits(ranked@, 0, capacity as int);
            } else {
                lemma_load_grows(ranked@, best@, 0);
                assert(best@.take(0) == Seq::<bool>::empty());
                let start = Seq::<bool>::empty();
                assert(start + best_take(ranked@, 0, capacity as int) == best_take(
                    ranked@,
                    0,
                    capacity as int,
                ));
            }
        }
        Search {
            ranked,
            capacity,
            path: Vec::new(),
            room: capacity,
            gain: 0,
            best,
            best_gain: value,
            exhausted: !any,
        }
    }

    /// Goes back up to the nearest sibling left for later and makes it the
    /// node to look at next; where there is none, the search is done.
    fn retreat(&mut self)
        requires
            !old(self).exhausted,
            old(self).consistent(),
            in_order(old(self).ranked@),
            old(self).best.len() == old(self).ranked.len(),
            old(self).best_gain == gain(old(self).ranked@, old(self).best@),
            picks_nothing(old(self).best@) || load(old(self).ranked@, old(self).best@) <= old(
                self,
            ).capacity,
            old(self).best_gain >= greedy_value(old(self).ranked@, 0, old(self).capacity as int),
            unwind(
                old(self).ranked@,
                old(self).capacity as int,
                old(self).path@,
                (old(self).best@, old(self).best_gain as int),
            ) == (
                best_take(old(self).ranked@, 0, old(self).capacity as int),
                best_value(old(self).ranked@, 0, old(self).capacity as int),
            ),
        ensures
            final(self).wf(),
            final(self).ranked == old(self).ranked,
            final(self).capacity == old(self).capacity,
            final(self).best == old(self).best,
            final(self).best_gain == old(self).best_gain,
            final(self).remaining() <= pending(old(self).ranked.len() as int, old(self).path@),
    {
        let ghost n = self.ranked.len() as int;
        let ghost start = self.path@;
        while self.path.len() > 0 && !self.path[self.path.len() - 1]
            invariant
                !self.exhausted,
                self.consistent(),
                self.ranked == old(self).ranked,
                self.capacity == old(self).capacity,
                self.best == old(self).best,
                self.best_gain == old(self).best_gain,
                n == self.ranked.len(),
                start == old(self).path@,
                pending(n, self.path@) == pending(n, start),
                unwind(
                    self.ranked@,
                    self.capacity as int,
                    self.path@,
                    (self.best@, self.best_gain as int),
                ) == (
                    best_take(self.ranked@, 0, self.capacity as int),
                    best_value(self.ranked@, 0, self.capacity as int),
                ),
            decreases self.path.len(),
        {
            self.path.pop();
        }
        if self.path.len() == 0 {
            proof {
                lemma_work_positive(n, start);
            }
            self.exhausted = true;
        } else {
            let p = self.path.len() - 1;
            let x = self.ranked[p];
            let ghost full = self.path@;
            proof {
                let short = full.drop_last();
                assert(full == short.push(true));
                lemma_push(self.ranked@, short, true);
                lemma_push(self.ranked@, short, false);
                lemma_load_grows(self.ranked@, short, 0);
                assert(short.take(0) == Seq::<bool>::empty());
                lemma_gain_range(self.ranked@, short);
                lemma_gain_range(self.ranked@, full);
                lemma_work_positive(n, full);
                assert(short.push(false).drop_last() == short);
                assert(pending(n, short.push(false)) + subtree(n, full.len() as int) == pending(
                    n,
                    full,
                ));
            }
            self.path.pop();
            self.room = self.room + x.weight as i64;
            self.gain = self.gain - x.value as i128;
            self.path.push(false);
        }
    }

    /// Looks at one node: records a better leaf, skips a branch that cannot
    /// beat the incumbent, or goes one level down, taking the item if it fits.
    fn step(&mut self)
        requires
            old(self).wf(),
            !old(self).done(),
        ensures
            final(self).wf(),
            final(self).order() == old(self).order(),
            final(self).limit() == old(self).limit(),
            final(self).incumbent_value() >= old(self).incumbent_value(),
            final(self).remaining() < old(self).remaining(),
    {
        let n = self.ranked.len();
        let k = self.path.len();
        let ghost r = self.ranked@;
        let ghost cap = self.capacity as int;
        let ghost inc = (self.best@, self.best_gain as int);
        let mut descend = false;
        proof {
            lemma_gain_range(r, self.path@);
            lemma_gain_range(r, self.best@);
            lemma_work_positive(n as int, self.path@);
        }
        if k == n {
            proof {
                lemma_explore_leaf(r, cap, self.path@, inc);
            }
            if self.gain > self.best_gain {
                self.best = copy_decisions(&self.path);
                self.best_gain = self.gain;
            }
        } else {
            let bound = upper_bound(&self.ranked, k, self.room);
            proof {
                lemma_bound_range(r, k as int, self.room as int);
                lemma_bound_dominates(r, k as int, self.room as int);
                assert((n - k) * i64::MAX + k * i64::MAX == n * i64::MAX) by (nonlinear_arith);
                assert(n * i64::MAX <= usize::MAX * i64::MAX) by (nonlinear_arith)
                    requires
                        n <= usize::MAX,
                ;
            }
            if self.gain + bound > self.best_gain {
                descend = true;
            }
        }
        if descend {
            let x = self.ranked[k];
            proof {
                lemma_explore_split(r, cap, self.path@, inc);
                lemma_push(r, self.path@, true);
                lemma_push(r, self.path@, false);
                lemma_pow2_unfold((n - k + 1) as nat);
                assert(self.path@.push(true).drop_last() == self.path@);
                assert(self.path@.push(false).drop_last() == self.path@);
            }
            if x.weight <= self.room as u64 {
                self.path.push(true);
                self.room = self.room - x.weight as i64;
                self.gain = self.gain + x.value as i128;
            } else {
                self.path.push(false);
            }
        } else {
            self.retreat();
        }
    }

    /// The incumbent as a solution of `problem`: the items it takes, in the
    /// order of the input, and their value. It is `Optimal` once the search
    /// is done and `TimedOut` before.
    pub fn solution(&self, problem: &Problem) -> (solution: Solution)
        requires
            self.wf(),
            self.order() == search_order(problem.items@),
            self.limit() == problem.capacity,
        ensures
            solution.items@ == select(
                problem.items@,
                to_input_order(self.order(), self.incumbent()),
            ),
            admissible(
                problem.items@,
                problem.capacity as int,
                to_input_order(self.order(), self.incumbent()),
            ),
            solution.value == self.incumbent_value(),
            solution.value == total_value(solution.items@),
            solution.items@.len() == 0 || total_weight(solution.items@) <= problem.capacity,
            solution.status == if self.done() {
                Status::Optimal
            } else {
                Status::TimedOut
            },
    {
        let n = problem.items.len();
        proof {
            lemma_search_order(problem.items@);
        }
        let mut picks: Vec<bool> = Vec::new();
        let mut i: usize = 0;
        while i < n
            invariant
                i <= n,
                picks@ == Seq::new(i as nat, |j: int| false),
            decreases n - i,
        {
            picks.push(false);
            i = i + 1;
        }
        let mut p: usize = 0;
        while p < n
            invariant
                p <= n,
                n == self.ranked.len(),
                n == self.best.len(),
                n == problem.items.len(),
                picks.len() == n,
                is_search_order(problem.items@, self.ranked@),
                picks@ == unrank(self.ranked@, self.best@, p as int),
            decreases n - p,
        {
            picks.set(self.ranked[p].index, self.best[p]);
            p = p + 1;
        }
        let mut chosen: Vec<Item> = Vec::new();
        let mut i: usize = 0;
        while i < n
            invariant
                i <= n,
                n == problem.items.len(),
                picks.len() == n,
                chosen@ == select(problem.items@.take(i as int), picks@),
            decreases n - i,
        {
            assert(problem.items@.take(i + 1).drop_last() == problem.items@.take(i as int));
            if picks[i] {
                chosen.push(problem.items[i].duplicate());
            }
            i = i + 1;
        }
        proof {
            assert(problem.items@.take(n as int) == problem.items@);
            assert(self.best@.take(n as int) == self.best@);
            lemma_unrank(problem.items@, self.ranked@, self.best@, n as int);
            if picks_nothing(self.best@) {
                lemma_select_nothing(problem.items@, picks@);
            }
        }
        Solution {
            items: chosen,
            value: self.best_gain,
            status: if self.exhausted {
                Status::Optimal
            } else {
                Status::TimedOut
            },
        }
    }

    /// Looks at up to `max_nodes` nodes and says whether the search is done.
    /// The incumbent never gets worse, and the work left gets less with
    /// every node looked at.
    pub fn advance(&mut self, max_nodes: u64) -> (done: bool)
        requires
            old(self).wf(),
        ensures
            final(self).wf(),
            final(self).order() == old(self).order(),
            final(self).limit() == old(self).limit(),
            done == final(self).done(),
            final(self).incumbent_value() >= old(self).incumbent_value(),
            final(self).remaining() <= old(self).remaining(),
            max_nodes > 0 && !old(self).done() ==> final(self).remaining() < old(self).remaining(),
            old(self).done() ==> final(self).incumbent() == old(self).incumbent(),
    {
        let mut seen: u64 = 0;
        while seen < max_nodes && !self.exhausted
            invariant
                seen <= max_nodes,
                self.wf(),
                self.order() == old(self).order(),
                self.limit() == old(self).limit(),
                self.incumbent_value() >= old(self).incumbent_value(),
                self.remaining() <= old(self).remaining(),
                seen > 0 ==> self.remaining() < old(self).remaining(),
                seen == 0 ==> self.done() == old(self).done(),
                old(self).done() ==> self.incumbent() == old(self).incumbent() && self.done(),
            decreases max_nodes - seen,
        {
            self.step();
            seen = seen + 1;
        }
        self.exhausted
    }
}

} // verus!
