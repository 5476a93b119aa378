use knapsack::order::rank_items;
use knapsack::{solve, solve_exhaustively, solve_within, Item, Problem, Status};
use std::time::Duration;

struct Lcg(u64);

impl Lcg {
    fn next(&mut self) -> u64 {
        self.0 = self.0.wrapping_mul(6364136223846793005).wrapping_add(1442695040888963407);
        self.0 >> 33
    }
}

fn random_problem(rng: &mut Lcg, n: usize) -> Problem {
    let mut items = Vec::new();
    let mut total: u64 = 0;
    for i in 0..n {
        let weight = rng.next() % 9;
        let value = (rng.next() % 13) as i64 - 2;
        total += weight;
        items.push(Item { id: format!("i{i}"), value, weight });
    }
    let capacity = (rng.next() % (total + 2)) as i64 - 1;
    Problem { items, capacity }
}

fn weight_of(items: &[Item]) -> u128 {
    items.iter().map(|it| it.weight as u128).sum()
}

fn value_of(items: &[Item]) -> i128 {
    items.iter().map(|it| it.value as i128).sum()
}

/// The best value by trying every selection, and the selection of that
/// value that takes the earliest items in search order.
fn by_brute_force(problem: &Problem) -> (i128, Vec<bool>) {
    let n = problem.items.len();
    let order = rank_items(&problem.items);
    let mut best_value: i128 = 0;
    let mut best_key: Vec<bool> = vec![false; n];
    let mut best_picks: Vec<bool> = vec![false; n];
    for mask in 0u32..(1u32 << n) {
        let picks: Vec<bool> = (0..n).map(|i| mask & (1 << i) != 0).collect();
        let chosen: Vec<Item> =
            (0..n).filter(|&i| picks[i]).map(|i| problem.items[i].clone()).collect();
        let admissible =
            chosen.is_empty() || weight_of(&chosen) as i128 <= problem.capacity as i128;
        if !admissible {
            continue;
        }
        let value = value_of(&chosen);
        let key: Vec<bool> = order.iter().map(|r| picks[r.index]).collect();
        if value > best_value || (value == best_value && key > best_key) {
            best_value = value;
            best_key = key;
            best_picks = picks;
        }
    }
    (best_value, best_picks)
}

#[test]
fn optimum_matches_brute_force_on_small_problems() {
    let mut rng = Lcg(7);
    for round in 0..300 {
        let n = (round % 9) as usize;
        let problem = random_problem(&mut rng, n);
        let (value, picks) = by_brute_force(&problem);
        let expected: Vec<Item> =
            (0..n).filter(|&i| picks[i]).map(|i| problem.items[i].clone()).collect();
        let solution = solve_exhaustively(&problem);
        assert_eq!(solution.status, Status::Optimal);
        assert_eq!(solution.value, value, "problem {problem:?}");
        assert_eq!(solution.items, expected, "problem {problem:?}");
    }
}

#[test]
fn weight_never_exceeds_capacity() {
    let mut rng = Lcg(11);
    for round in 0..200 {
        let problem = random_problem(&mut rng, 1 + round % 12);
        for solution in [solve_within(&problem, 0), solve_exhaustively(&problem)] {
            if problem.capacity >= 0 {
                assert!(weight_of(&solution.items) <= problem.capacity as u128);
            } else {
                assert!(solution.items.is_empty());
            }
        }
    }
}

#[test]
fn value_is_the_sum_of_the_selected_values() {
    let mut rng = Lcg(13);
    for round in 0..200 {
        let problem = random_problem(&mut rng, 1 + round % 12);
        for solution in [solve_within(&problem, 0), solve_exhaustively(&problem)] {
            assert_eq!(solution.value, value_of(&solution.items));
        }
    }
}

#[test]
fn selection_is_a_subsequence_of_the_input() {
    let mut rng = Lcg(17);
    for round in 0..100 {
        let problem = random_problem(&mut rng, 1 + round % 12);
        let solution = solve_exhaustively(&problem);
        let mut from = 0;
        for chosen in &solution.items {
            let at = (from..problem.items.len()).find(|&i| problem.items[i] == *chosen);
            assert!(at.is_some());
            from = at.unwrap() + 1;
        }
    }
}

#[test]
fn solving_twice_gives_the_same_solution() {
    let mut rng = Lcg(19);
    for round in 0..100 {
        let problem = random_problem(&mut rng, 1 + round % 14);
        let one = solve(&problem, Duration::from_secs(30));
        let other = solve(&problem, Duration::from_secs(30));
        assert_eq!(one.status, Status::Optimal);
        assert_eq!(one, other);
    }
}

#[test]
fn a_free_item_never_lowers_the_optimum() {
    let mut rng = Lcg(23);
    for round in 0..100 {
        let problem = random_problem(&mut rng, round % 10);
        let before = solve_exhaustively(&problem);
        let mut more = problem.clone();
        more.items.push(Item { id: "gift".to_string(), value: 1 + (round as i64), weight: 0 });
        let after = solve_exhaustively(&more);
        assert!(after.value >= before.value);
        if problem.capacity >= 0 {
            assert_eq!(after.value, before.value + 1 + round as i128);
        }
    }
}

#[test]
fn first_fit_is_never_better_than_the_optimum() {
    let mut rng = Lcg(29);
    for round in 0..200 {
        let problem = random_problem(&mut rng, round % 12);
        let quick = solve_within(&problem, 0);
        let full = solve_exhaustively(&problem);
        assert!(quick.value <= full.value);
        assert_ne!(quick.status, Status::Infeasible);
        assert_ne!(full.status, Status::Infeasible);
    }
}

/// An instance that no search finishes: every weight is even and the
/// capacity is odd, so no selection fills the knapsack, while the bound
/// always says one might.
fn hard_problem(n: usize) -> Problem {
    let mut rng = Lcg(31);
    let mut items = Vec::new();
    let mut total: u64 = 0;
    for i in 0..n {
        let weight = 2 * (1 + rng.next() % 1_000_000);
        total += weight;
        items.push(Item { id: format!("h{i}"), value: weight as i64, weight });
    }
    Problem { items, capacity: (total / 2) as i64 | 1 }
}

#[test]
fn large_instance_with_small_budget_times_out_with_a_feasible_selection() {
    let problem = hard_problem(1000);
    let first_fit = solve_within(&problem, 0);
    let solution = solve(&problem, Duration::from_millis(5));
    assert_eq!(solution.status, Status::TimedOut);
    assert!(weight_of(&solution.items) <= problem.capacity as u128);
    assert_eq!(solution.value, value_of(&solution.items));
    assert!(solution.value >= first_fit.value);
}

#[test]
fn a_longer_budget_is_still_respected() {
    let problem = hard_problem(60);
    let started = std::time::Instant::now();
    let solution = solve(&problem, Duration::from_millis(200));
    let took = started.elapsed();
    assert_eq!(solution.status, Status::TimedOut);
    assert!(took >= Duration::from_millis(200));
    assert!(took < Duration::from_secs(10));
    assert!(weight_of(&solution.items) <= problem.capacity as u128);
}

/// The best value by filling a table over the capacities.
fn by_table(problem: &Problem) -> i128 {
    let capacity = problem.capacity as usize;
    let mut best = vec![0i128; capacity + 1];
    for it in &problem.items {
        let weight = it.weight as usize;
        for room in (weight..=capacity).rev() {
            best[room] = best[room].max(best[room - weight] + it.value as i128);
        }
    }
    best[capacity]
}

#[test]
fn optimum_matches_a_table_on_medium_problems() {
    let mut rng = Lcg(37);
    for _ in 0..40 {
        let mut items = Vec::new();
        for i in 0..35 {
            let weight = 1 + rng.next() % 60;
            let value = (rng.next() % 200) as i64 - 20;
            items.push(Item { id: format!("m{i}"), value, weight });
        }
        let problem = Problem { items, capacity: 200 + (rng.next() % 600) as i64 };
        let solution = solve_exhaustively(&problem);
        assert_eq!(solution.status, Status::Optimal);
        assert_eq!(solution.value, by_table(&problem));
        assert_eq!(solution.value, value_of(&solution.items));
        assert!(weight_of(&solution.items) <= problem.capacity as u128);
    }
}
