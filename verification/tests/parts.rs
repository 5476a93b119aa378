use knapsack::bound::upper_bound;
use knapsack::order::{rank_items, ratio_exceeds, Ranked};
use knapsack::{out_of_time, solve_exhaustively, Item, Problem, Search, Status, POLL_INTERVAL};

fn item(id: &str, value: i64, weight: u64) -> Item {
    Item { id: id.to_string(), value, weight }
}

fn ranked(index: usize, value: i64, weight: u64) -> Ranked {
    Ranked { index, value, weight }
}

#[test]
fn duplicate_copies_every_field() {
    let first = item("alpha", -7, 42);
    let copy = first.duplicate();
    assert_eq!(copy, first);
    assert_eq!(copy.id, "alpha");
    assert_eq!(copy.value, -7);
    assert_eq!(copy.weight, 42);
}

#[test]
fn ratio_compares_by_cross_multiplication() {
    assert!(ratio_exceeds(&ranked(0, 3, 2), &ranked(1, 4, 3)));
    assert!(!ratio_exceeds(&ranked(0, 4, 3), &ranked(1, 3, 2)));
    assert!(!ratio_exceeds(&ranked(0, 2, 4), &ranked(1, 1, 2)));
    assert!(!ratio_exceeds(&ranked(0, 1, 2), &ranked(1, 2, 4)));
    assert!(ratio_exceeds(&ranked(0, -1, 2), &ranked(1, -1, 1)));
}

#[test]
fn weightless_items_are_above_or_below_every_quotient() {
    let free = ranked(0, 1, 0);
    let costly = ranked(1, i64::MAX, 1);
    let harmful = ranked(2, -1, 0);
    let awful = ranked(3, i64::MIN, 1);
    let nothing = ranked(4, 0, 0);
    assert!(ratio_exceeds(&free, &costly));
    assert!(!ratio_exceeds(&costly, &free));
    assert!(ratio_exceeds(&awful, &harmful));
    assert!(!ratio_exceeds(&harmful, &awful));
    assert!(!ratio_exceeds(&free, &ranked(5, 9, 0)));
    assert!(ratio_exceeds(&nothing, &ranked(5, -1, 3)));
    assert!(ratio_exceeds(&ranked(5, 1, 3), &nothing));
    assert!(!ratio_exceeds(&nothing, &ranked(5, 0, 3)));
}

#[test]
fn ratio_comparison_does_not_overflow() {
    let a = ranked(0, i64::MAX, u64::MAX);
    let b = ranked(1, i64::MAX, u64::MAX - 1);
    assert!(ratio_exceeds(&b, &a));
    assert!(!ratio_exceeds(&a, &b));
    let c = ranked(2, i64::MIN, u64::MAX);
    let d = ranked(3, i64::MIN, u64::MAX - 1);
    assert!(ratio_exceeds(&c, &d));
}

#[test]
fn items_are_ranked_by_ratio_then_by_place() {
    let items = vec![
        item("a", 10, 10),
        item("b", 30, 20),
        item("c", 50, 10),
        item("d", 3, 2),
        item("e", -1, 1),
        item("f", 1, 0),
        item("g", 15, 10),
    ];
    let order: Vec<usize> = rank_items(&items).iter().map(|r| r.index).collect();
    assert_eq!(order, vec![5, 2, 1, 3, 6, 0, 4]);
    let first = rank_items(&items)[0];
    assert_eq!(first, ranked(5, 1, 0));
}

#[test]
fn ranking_nothing_gives_nothing() {
    assert_eq!(rank_items(&vec![]), Vec::<Ranked>::new());
}

#[test]
fn bound_adds_the_share_of_the_first_item_that_does_not_fit() {
    let order = vec![ranked(0, 60, 10), ranked(1, 100, 20), ranked(2, 120, 30)];
    assert_eq!(upper_bound(&order, 0, 50), 60 + 100 + 80);
    assert_eq!(upper_bound(&order, 1, 50), 100 + 120);
    assert_eq!(upper_bound(&order, 1, 40), 100 + 80);
    assert_eq!(upper_bound(&order, 2, 29), 116);
    assert_eq!(upper_bound(&order, 2, 1), 4);
    assert_eq!(upper_bound(&order, 2, 0), 0);
    assert_eq!(upper_bound(&order, 3, 50), 0);
    assert_eq!(upper_bound(&order, 7, 50), 0);
}

#[test]
fn bound_is_rounded_down() {
    let order = vec![ranked(0, 10, 3)];
    assert_eq!(upper_bound(&order, 0, 2), 6);
    assert_eq!(upper_bound(&order, 0, 1), 3);
}

#[test]
fn bound_stops_at_the_first_item_without_positive_value() {
    let order = vec![ranked(0, 5, 1), ranked(1, 0, 1), ranked(2, 7, 1)];
    assert_eq!(upper_bound(&order, 0, 10), 5);
    let order = vec![ranked(0, 5, 1), ranked(1, -2, 1)];
    assert_eq!(upper_bound(&order, 0, 10), 5);
}

#[test]
fn bound_is_zero_without_room() {
    let order = vec![ranked(0, 5, 0), ranked(1, 3, 1)];
    assert_eq!(upper_bound(&order, 0, -1), 0);
    assert_eq!(upper_bound(&order, 0, 0), 5);
}

#[test]
fn bound_handles_the_largest_numbers() {
    let order = vec![ranked(0, i64::MAX, 1), ranked(1, i64::MAX, u64::MAX)];
    let share = (i64::MAX as u128 * (i64::MAX as u128 - 1) / u64::MAX as u128) as i128;
    assert_eq!(upper_bound(&order, 0, i64::MAX), i64::MAX as i128 + share);
}

#[test]
fn budget_is_spent_once_it_is_reached() {
    assert!(out_of_time(0, 0));
    assert!(out_of_time(5, 5));
    assert!(out_of_time(6, 5));
    assert!(!out_of_time(4, 5));
    assert!(!out_of_time(0, 1));
    assert!(out_of_time(u128::MAX, u128::MAX));
}

#[test]
fn clock_is_read_every_few_hundred_to_few_thousand_nodes() {
    assert!(POLL_INTERVAL >= 100);
    assert!(POLL_INTERVAL <= 10_000);
}

#[test]
fn search_starts_from_the_first_fit() {
    let problem = Problem {
        items: vec![item("dense", 11, 6), item("x", 9, 5), item("y", 9, 5)],
        capacity: 10,
    };
    let search = Search::new(&problem);
    assert!(!search.is_done());
    let start = search.solution(&problem);
    assert_eq!(start.status, Status::TimedOut);
    assert_eq!(start.value, 11);
    assert_eq!(start.items, vec![item("dense", 11, 6)]);
}

#[test]
fn search_can_be_run_node_by_node() {
    let problem = Problem {
        items: vec![item("dense", 11, 6), item("x", 9, 5), item("y", 9, 5)],
        capacity: 10,
    };
    let mut search = Search::new(&problem);
    let mut last = search.solution(&problem).value;
    let mut nodes = 0;
    while !search.advance(1) {
        let now = search.solution(&problem);
        assert!(now.value >= last);
        assert_eq!(now.status, Status::TimedOut);
        last = now.value;
        nodes += 1;
        assert!(nodes < 16);
    }
    assert!(search.is_done());
    let end = search.solution(&problem);
    assert_eq!(end, solve_exhaustively(&problem));
    assert_eq!(end.value, 18);
    assert_eq!(end.status, Status::Optimal);
}

#[test]
fn advancing_by_no_nodes_changes_nothing() {
    let problem = Problem { items: vec![item("a", 1, 1), item("b", 2, 1)], capacity: 1 };
    let mut search = Search::new(&problem);
    assert!(!search.advance(0));
    assert_eq!(search.solution(&problem).value, 2);
    assert_eq!(search.solution(&problem).status, Status::TimedOut);
}

#[test]
fn advancing_a_finished_search_changes_nothing() {
    let problem = Problem { items: vec![item("a", 1, 1), item("b", 2, 1)], capacity: 1 };
    let mut search = Search::new(&problem);
    assert!(search.advance(u64::MAX));
    let done = search.solution(&problem);
    assert!(search.advance(5));
    assert_eq!(search.solution(&problem), done);
    assert_eq!(done.items, vec![item("b", 2, 1)]);
}

#[test]
fn search_is_done_at_once_where_nothing_fits() {
    let problem = Problem { items: vec![item("a", 1, 3), item("b", 2, 4)], capacity: 2 };
    let search = Search::new(&problem);
    assert!(search.is_done());
    let solution = search.solution(&problem);
    assert_eq!(solution.status, Status::Optimal);
    assert_eq!(solution.items, Vec::<Item>::new());
}

#[test]
fn skipping_by_the_bound_keeps_the_search_short() {
    // Forty items of the same ratio that all fit: the first leaf is the best
    // one, and the bound then rules out every other branch.
    let items: Vec<Item> = (0..40).map(|i| item(&format!("i{i}"), 2, 1)).collect();
    let problem = Problem { items, capacity: 40 };
    let mut search = Search::new(&problem);
    assert!(search.advance(200));
    assert_eq!(search.solution(&problem).value, 80);
}
