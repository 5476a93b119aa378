use knapsack::{solve, solve_exhaustively, solve_within, Item, Problem, Solution, Status};
use std::time::Duration;

fn item(id: &str, value: i64, weight: u64) -> Item {
    Item { id: id.to_string(), value, weight }
}

fn ids(solution: &Solution) -> Vec<String> {
    solution.items.iter().map(|it| it.id.clone()).collect()
}

fn textbook() -> Problem {
    Problem {
        items: vec![item("a", 60, 10), item("b", 100, 20), item("c", 120, 30)],
        capacity: 50,
    }
}

#[test]
fn single_item_that_fits_is_taken() {
    let problem = Problem { items: vec![item("a", 10, 5)], capacity: 5 };
    let solution = solve(&problem, Duration::from_secs(30));
    assert_eq!(solution.items, vec![item("a", 10, 5)]);
    assert_eq!(solution.value, 10);
    assert_eq!(solution.status, Status::Optimal);
}

#[test]
fn single_item_that_is_too_heavy_is_left() {
    let problem = Problem { items: vec![item("a", 10, 6)], capacity: 5 };
    let solution = solve(&problem, Duration::from_secs(30));
    assert_eq!(solution.items, Vec::<Item>::new());
    assert_eq!(solution.value, 0);
    assert_eq!(solution.status, Status::Optimal);
}

#[test]
fn textbook_instance_takes_b_and_c() {
    let solution = solve(&textbook(), Duration::from_secs(30));
    assert_eq!(ids(&solution), vec!["b".to_string(), "c".to_string()]);
    assert_eq!(solution.items, vec![item("b", 100, 20), item("c", 120, 30)]);
    assert_eq!(solution.value, 220);
    assert_eq!(solution.status, Status::Optimal);
}

#[test]
fn empty_problem_gives_empty_optimal_solution() {
    let problem = Problem { items: vec![], capacity: 10 };
    let solution = solve(&problem, Duration::from_secs(30));
    assert_eq!(solution.items, Vec::<Item>::new());
    assert_eq!(solution.value, 0);
    assert_eq!(solution.status, Status::Optimal);
}

#[test]
fn empty_problem_is_optimal_even_without_time() {
    let problem = Problem { items: vec![], capacity: 10 };
    let solution = solve(&problem, Duration::ZERO);
    assert_eq!(solution.items, Vec::<Item>::new());
    assert_eq!(solution.value, 0);
    assert_eq!(solution.status, Status::Optimal);
}

#[test]
fn nothing_fitting_is_optimal_even_without_time() {
    let problem = Problem { items: vec![item("a", 10, 6), item("b", 3, 7)], capacity: 5 };
    let solution = solve_within(&problem, 0);
    assert_eq!(solution.items, Vec::<Item>::new());
    assert_eq!(solution.value, 0);
    assert_eq!(solution.status, Status::Optimal);
}

#[test]
fn zero_budget_returns_the_first_fit() {
    let solution = solve(&textbook(), Duration::ZERO);
    assert_eq!(ids(&solution), vec!["a".to_string(), "b".to_string()]);
    assert_eq!(solution.value, 160);
    assert_eq!(solution.status, Status::TimedOut);
}

#[test]
fn zero_budget_in_nanoseconds_returns_the_first_fit() {
    let solution = solve_within(&textbook(), 0);
    assert_eq!(ids(&solution), vec!["a".to_string(), "b".to_string()]);
    assert_eq!(solution.value, 160);
    assert_eq!(solution.status, Status::TimedOut);
}

#[test]
fn generous_budget_is_optimal() {
    let solution = solve_within(&textbook(), 30_000_000_000);
    assert_eq!(solution.status, Status::Optimal);
    assert_eq!(solution.value, 220);
}

#[test]
fn exhaustive_solve_matches_the_textbook() {
    let solution = solve_exhaustively(&textbook());
    assert_eq!(ids(&solution), vec!["b".to_string(), "c".to_string()]);
    assert_eq!(solution.value, 220);
    assert_eq!(solution.status, Status::Optimal);
}

#[test]
fn negative_capacity_admits_only_the_empty_selection() {
    let problem = Problem { items: vec![item("free", 5, 0), item("a", 1, 1)], capacity: -1 };
    let solution = solve(&problem, Duration::from_secs(30));
    assert_eq!(solution.items, Vec::<Item>::new());
    assert_eq!(solution.value, 0);
    assert_eq!(solution.status, Status::Optimal);
}

#[test]
fn zero_capacity_still_takes_weightless_items() {
    let problem = Problem {
        items: vec![item("a", 4, 1), item("free", 5, 0), item("b", 7, 0)],
        capacity: 0,
    };
    let solution = solve_exhaustively(&problem);
    assert_eq!(ids(&solution), vec!["free".to_string(), "b".to_string()]);
    assert_eq!(solution.value, 12);
    assert_eq!(solution.status, Status::Optimal);
}

#[test]
fn items_of_negative_value_are_never_in_the_optimum() {
    let problem = Problem {
        items: vec![item("bad", -3, 1), item("good", 8, 2), item("worse", -1, 0)],
        capacity: 10,
    };
    let solution = solve_exhaustively(&problem);
    assert_eq!(ids(&solution), vec!["good".to_string()]);
    assert_eq!(solution.value, 8);
}

#[test]
fn equal_items_are_taken_in_input_order() {
    let problem = Problem {
        items: vec![item("first", 5, 3), item("second", 5, 3), item("third", 5, 3)],
        capacity: 7,
    };
    let solution = solve_exhaustively(&problem);
    assert_eq!(ids(&solution), vec!["first".to_string(), "second".to_string()]);
    assert_eq!(solution.value, 10);
}

#[test]
fn selection_is_reported_in_input_order_not_search_order() {
    // Search order is c, b, a; the answer still lists a before c.
    let problem = Problem {
        items: vec![item("a", 10, 10), item("b", 30, 20), item("c", 50, 10)],
        capacity: 20,
    };
    let solution = solve_exhaustively(&problem);
    assert_eq!(ids(&solution), vec!["a".to_string(), "c".to_string()]);
    assert_eq!(solution.value, 60);
}

#[test]
fn first_fit_can_be_beaten_by_the_search() {
    // First fit takes the item of best ratio and then nothing else fits.
    let problem = Problem {
        items: vec![item("dense", 11, 6), item("x", 9, 5), item("y", 9, 5)],
        capacity: 10,
    };
    let quick = solve_within(&problem, 0);
    assert_eq!(ids(&quick), vec!["dense".to_string()]);
    assert_eq!(quick.value, 11);
    assert_eq!(quick.status, Status::TimedOut);
    let full = solve_exhaustively(&problem);
    assert_eq!(ids(&full), vec!["x".to_string(), "y".to_string()]);
    assert_eq!(full.value, 18);
    assert_eq!(full.status, Status::Optimal);
}

#[test]
fn extreme_values_and_weights_do_not_overflow() {
    let problem = Problem {
        items: vec![
            item("a", i64::MAX, u64::MAX),
            item("b", i64::MAX, 1),
            item("c", i64::MAX, (i64::MAX as u64) - 1),
            item("d", i64::MIN, 0),
        ],
        capacity: i64::MAX,
    };
    let solution = solve_exhaustively(&problem);
    assert_eq!(ids(&solution), vec!["b".to_string(), "c".to_string()]);
    assert_eq!(solution.value, 2 * (i64::MAX as i128));
    assert_eq!(solution.status, Status::Optimal);
}
