use addition_chain::{pow, solve, sum_n_2, try_chain, Chain};

fn chain_of(values: &[i32]) -> Chain {
    let mut c = Chain::new();
    for &v in &values[1..] {
        c.add(v);
    }
    c
}

fn is_valid_chain(values: &[i32]) -> bool {
    if values.is_empty() || values[0] != 1 {
        return false;
    }
    for i in 1..values.len() {
        if values[i] <= values[i - 1] {
            return false;
        }
        let mut found = false;
        for a in 0..i {
            for b in 0..i {
                if values[a] + values[b] == values[i] {
                    found = true;
                }
            }
        }
        if !found {
            return false;
        }
    }
    true
}

#[test]
fn test_solve() {
    let mut solution = solve(2, 3);
    assert!(solution.is_some());
    solution = solve(5, 18);
    assert!(solution.is_some());
    solution = solve(5, 19);
    assert!(solution.is_some());
    solution = solve(5, 20);
    assert!(solution.is_some());
    solution = solve(5, 31);
    assert!(solution.is_some());
    solution = solve(5, 15);
    assert!(solution.is_some());

    solution = solve(5, 32);
    assert!(!solution.is_some());
    solution = solve(5, 14);
    assert!(!solution.is_some());
    solution = solve(5, 30);
    assert!(!solution.is_some());

    solution = solve(10, 127);
    assert!(solution.is_some());
    solution = solve(13, 743);
    assert!(solution.is_some());
}

#[test]
fn test_possible_next() {
    let mut c = Chain::new();
    assert_eq!(vec![2], c.possible_next_values());
    c.add(2);
    assert_eq!(vec![3, 4], c.possible_next_values());
    c.add(4);
    c.add(8);
    c.add(9);
    assert_eq!(vec![10, 11, 12, 13, 16, 17, 18], c.possible_next_values());
}

#[test]
fn test_max_sum() {
    let mut c: Chain = Chain::new();
    assert_eq!(c.max_sum(2), 3);
    assert_eq!(c.max_sum(5), 31);
    c.add(2);
    c.add(3);
    assert_eq!(c.max_sum(5), 24);
    c.add(4);
    assert_eq!(c.max_sum(6), 34);
}

#[test]
fn test_min_sum() {
    let mut c: Chain = Chain::new();
    assert_eq!(c.min_sum(2), 3);
    assert_eq!(c.min_sum(5), 15);
    c.add(2);
    c.add(4);
    assert_eq!(c.min_sum(4), 12);
    assert_eq!(c.min_sum(5), 18);
}

#[test]
fn test_sum_n_2() {
    assert_eq!(sum_n_2(1), 1);
    assert_eq!(sum_n_2(2), 3);
    assert_eq!(sum_n_2(4), 10);
    assert_eq!(sum_n_2(10), 55);
}

#[test]
fn test_pow() {
    assert_eq!(pow(2, 0), 1);
    assert_eq!(pow(2, 1), 2);
    assert_eq!(pow(2, 8), 256);
}

#[test]
fn singleton_bounds_and_candidates() {
    let c = Chain::new();
    assert_eq!(c.min_sum(2), 3);
    assert_eq!(c.max_sum(2), 3);
    assert_eq!(c.possible_next_values(), vec![2]);
    assert_eq!(c.values(), &vec![1]);
    assert_eq!(c.length(), 1);
    assert_eq!(c.last_value(), 1);
    assert_eq!(c.sum(), 1);
}

#[test]
fn candidates_include_sums_from_later_rows() {
    let c = chain_of(&[1, 2, 3, 4, 6, 7, 9]);
    assert_eq!(c.possible_next_values(), vec![10, 11, 12, 13, 14, 15, 16, 18]);
}

#[test]
fn candidates_ascending_and_above_last() {
    let c = chain_of(&[1, 2, 3, 5, 8, 13]);
    let next = c.possible_next_values();
    assert!(!next.is_empty());
    for w in next.windows(2) {
        assert!(w[0] < w[1]);
    }
    for &v in &next {
        assert!(v > 13);
    }
    assert_eq!(next, vec![14, 15, 16, 18, 21, 26]);
}

#[test]
fn add_updates_length_sum_and_last() {
    let mut c = Chain::new();
    c.add(2);
    c.add(3);
    c.add(5);
    assert_eq!(c.length(), 4);
    assert_eq!(c.sum(), 11);
    assert_eq!(c.last_value(), 5);
    assert_eq!(c.values(), &vec![1, 2, 3, 5]);
}

#[test]
fn clone_is_independent() {
    let mut c = chain_of(&[1, 2, 4]);
    let d = c.clone();
    c.add(8);
    assert_eq!(d.values(), &vec![1, 2, 4]);
    assert_eq!(d.sum(), 7);
    assert_eq!(c.values(), &vec![1, 2, 4, 8]);
}

#[test]
fn solutions_are_valid_chains() {
    for &(len, total) in &[(2, 3), (5, 18), (5, 19), (5, 20), (5, 31), (5, 15), (10, 127), (13, 743)] {
        let found = solve(len, total).expect("a chain exists");
        let values = found.values().clone();
        assert!(is_valid_chain(&values));
        assert_eq!(values.len() as i32, len);
        assert_eq!(values.iter().sum::<i32>(), total);
        assert_eq!(found.sum(), total);
    }
}

#[test]
fn solve_two_three_is_one_two() {
    let found = solve(2, 3).expect("a chain exists");
    assert_eq!(found.values(), &vec![1, 2]);
}

#[test]
fn solve_length_one() {
    assert_eq!(solve(1, 1).expect("the chain [1]").values(), &vec![1]);
    assert!(solve(1, 2).is_none());
}

#[test]
fn solve_rejects_out_of_bounds_and_gaps() {
    assert!(solve(5, 32).is_none());
    assert!(solve(5, 14).is_none());
    assert!(solve(5, 30).is_none());
}

#[test]
fn solve_finds_first_in_ascending_order() {
    assert_eq!(solve(5, 18).unwrap().values(), &vec![1, 2, 3, 4, 8]);
    assert_eq!(solve(5, 15).unwrap().values(), &vec![1, 2, 3, 4, 5]);
    assert_eq!(solve(5, 31).unwrap().values(), &vec![1, 2, 4, 8, 16]);
}

#[test]
fn solve_largest_length() {
    let found = solve(31, 2147483647).expect("the doubling chain");
    assert_eq!(found.last_value(), 1073741824);
    assert!(solve(31, 30).is_none());
}

#[test]
fn try_chain_from_partial_chain() {
    let found = try_chain(5, 20, chain_of(&[1, 2, 3])).expect("a completion exists");
    assert_eq!(found.values(), &vec![1, 2, 3, 6, 8]);
    assert!(try_chain(5, 31, chain_of(&[1, 2, 3])).is_none());
    assert_eq!(try_chain(3, 6, chain_of(&[1, 2, 3])).unwrap().values(), &vec![1, 2, 3]);
    assert!(try_chain(3, 7, chain_of(&[1, 2, 3])).is_none());
}

#[test]
fn sum_n_2_closed_form() {
    assert_eq!(sum_n_2(0), 0);
    assert_eq!(sum_n_2(4), 10);
    assert_eq!(sum_n_2(100), 5050);
    assert_eq!(sum_n_2(-1), 0);
}

#[test]
fn pow_other_bases() {
    assert_eq!(pow(-3, 3), -27);
    assert_eq!(pow(10, 9), 1000000000);
    assert_eq!(pow(7, 0), 1);
    assert_eq!(pow(2, -4), 1);
    assert_eq!(pow(0, 5), 0);
}

#[test]
fn bounds_grow_with_largest_element() {
    let low = chain_of(&[1, 2, 4, 5]);
    let high = chain_of(&[1, 2, 3, 6]);
    assert_eq!(low.sum(), high.sum());
    assert_eq!(low.min_sum(6), 25);
    assert_eq!(high.min_sum(6), 27);
    assert_eq!(low.max_sum(6), 42);
    assert_eq!(high.max_sum(6), 48);
    assert!(low.min_sum(6) <= high.min_sum(6));
    assert!(low.max_sum(6) <= high.max_sum(6));
}

#[test]
fn bounds_meet_at_full_length() {
    let c = chain_of(&[1, 2, 4, 5]);
    assert_eq!(c.min_sum(4), 12);
    assert_eq!(c.max_sum(4), 12);
}
