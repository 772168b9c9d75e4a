use state_search::memo::{keep, solve_extremal, solve_path_count, Combine, MemoCache};
use std::cell::Cell;

#[test]
fn chain_of_four_states_with_two_ways_each_has_eight_walks() {
    // States 0, 1, 2 each have two steps of cost 1 to the next state; state
    // 3 is terminal. Three choices of two: 2^3 walks, none of them pruned.
    let steps = |s: usize| -> Vec<(usize, u64)> {
        if s < 3 {
            vec![(s + 1, 1), (s + 1, 1)]
        } else {
            vec![]
        }
    };
    let mut cache = MemoCache::new(4, 4).unwrap();
    assert_eq!(solve_path_count(0, 4, &steps, &|s, _| s == 3, &mut cache), Some(8));
}

#[test]
fn walks_that_outrun_the_budget_are_not_counted() {
    let steps = |s: usize| -> Vec<(usize, u64)> {
        if s < 3 {
            vec![(s + 1, 1), (s + 1, 2)]
        } else {
            vec![]
        }
    };
    let terminal = |s: usize, _: usize| s == 3;
    // Costs of the eight walks: 3, 4, 4, 4, 5, 5, 5, 6.
    for (budget, expected) in [(0, 0), (2, 0), (3, 1), (4, 4), (5, 7), (6, 8), (9, 8)] {
        let mut cache = MemoCache::new(4, 9).unwrap();
        assert_eq!(solve_path_count(0, budget, &steps, &terminal, &mut cache), Some(expected));
    }
}

#[test]
fn terminal_start_counts_once_whatever_the_budget() {
    let steps = |_: usize| -> Vec<(usize, u64)> { vec![(0, 1)] };
    let mut cache = MemoCache::new(1, 5).unwrap();
    assert_eq!(solve_path_count(0, 0, &steps, &|_, _| true, &mut cache), Some(1));
    assert_eq!(solve_path_count(0, 5, &steps, &|_, _| true, &mut cache), Some(1));
}

#[test]
fn population_after_days_counts_walks_that_use_up_the_budget() {
    // 0 becomes 1 and 2; 1 becomes 0; 2 becomes 0 and 0.
    let steps = |s: usize| -> Vec<(usize, u64)> {
        match s {
            0 => vec![(1, 1), (2, 1)],
            1 => vec![(0, 1)],
            _ => vec![(0, 1), (0, 1)],
        }
    };
    let spent = |_: usize, left: usize| left == 0;
    let mut cache = MemoCache::new(3, 4).unwrap();
    // day 1: 1 2; day 2: 0 0 0; day 3: 1 2 1 2 1 2; day 4: nine times 0.
    assert_eq!(solve_path_count(0, 1, &steps, &spent, &mut cache), Some(2));
    assert_eq!(solve_path_count(0, 2, &steps, &spent, &mut cache), Some(3));
    assert_eq!(solve_path_count(0, 3, &steps, &spent, &mut cache), Some(6));
    assert_eq!(solve_path_count(0, 4, &steps, &spent, &mut cache), Some(9));
}

#[test]
fn fresh_caches_give_identical_results() {
    let steps = |s: usize| -> Vec<(usize, u64)> {
        (0..6).filter(|t| *t != s).map(|t| (t, 1 + ((s + t) % 3) as u64)).collect()
    };
    let terminal = |s: usize, _: usize| s == 5;
    let mut first = MemoCache::new(6, 12).unwrap();
    let mut second = MemoCache::new(6, 12).unwrap();
    let a = solve_path_count(0, 12, &steps, &terminal, &mut first);
    let b = solve_path_count(0, 12, &steps, &terminal, &mut second);
    assert!(a.is_some());
    assert_eq!(a, b);
}

#[test]
fn second_run_on_the_same_cache_calls_the_transition_function_less() {
    let calls = Cell::new(0u64);
    let steps = |s: usize| -> Vec<(usize, u64)> {
        calls.set(calls.get() + 1);
        (0..6).filter(|t| *t != s).map(|t| (t, 1 + ((s + t) % 3) as u64)).collect()
    };
    let terminal = |s: usize, _: usize| s == 5;
    let mut cache = MemoCache::new(6, 12).unwrap();
    let a = solve_path_count(0, 12, &steps, &terminal, &mut cache);
    let first_calls = calls.get();
    let b = solve_path_count(0, 12, &steps, &terminal, &mut cache);
    let second_calls = calls.get() - first_calls;
    assert_eq!(a, b);
    assert!(first_calls > 0);
    assert!(second_calls < first_calls);
    assert_eq!(second_calls, 0);
    // Memoization bounds the work by the number of distinct pairs.
    assert!(first_calls <= 6 * 13);
}

#[test]
fn count_that_does_not_fit_is_none() {
    // Every state has four steps to the next one: 4^40 walks.
    let steps = |s: usize| -> Vec<(usize, u64)> {
        if s < 40 {
            vec![(s + 1, 1); 4]
        } else {
            vec![]
        }
    };
    let terminal = |s: usize, _: usize| s == 40;
    let mut cache = MemoCache::new(41, 40).unwrap();
    assert_eq!(solve_path_count(0, 40, &steps, &terminal, &mut cache), None);
    assert_eq!(solve_path_count(9, 31, &steps, &terminal, &mut cache), Some(1u64 << 62));
    assert_eq!(solve_path_count(8, 32, &steps, &terminal, &mut cache), None);
}

#[test]
fn cache_that_cannot_number_its_pairs_is_refused() {
    assert!(MemoCache::new(usize::MAX, 1).is_none());
    assert!(MemoCache::new(2, usize::MAX).is_none());
    assert!(MemoCache::new(usize::MAX, 0).is_some());
}

#[test]
fn cache_returns_what_was_put() {
    let mut cache = MemoCache::new(3, 3).unwrap();
    assert_eq!(cache.get(1, 2), None);
    cache.put(1, 2, 77);
    cache.put(2, 1, 88);
    assert_eq!(cache.get(1, 2), Some(77));
    assert_eq!(cache.get(2, 1), Some(88));
    assert_eq!(cache.get(1, 1), None);
    cache.put(1, 2, 5);
    assert_eq!(cache.get(1, 2), Some(5));
}

#[test]
fn least_and_greatest_total_over_walks_of_bounded_length() {
    // 0 -> 1 costs 5, 0 -> 2 costs 1; 1 -> 3 costs 1; 2 -> 3 costs 7,
    // 2 -> 0 costs 2; 3 has no way out.
    let steps = |s: usize| -> Vec<(usize, u64)> {
        match s {
            0 => vec![(1, 5), (2, 1)],
            1 => vec![(3, 1)],
            2 => vec![(3, 7), (0, 2)],
            _ => vec![],
        }
    };
    let mut least = MemoCache::new(4, 3).unwrap();
    let mut greatest = MemoCache::new(4, 3).unwrap();
    assert_eq!(solve_extremal(0, 0, &steps, Combine::Min, 10, &mut least), Some(10));
    // One step: 5 + 10 or 1 + 10.
    assert_eq!(solve_extremal(0, 1, &steps, Combine::Min, 10, &mut least), Some(11));
    assert_eq!(solve_extremal(0, 1, &steps, Combine::Max, 10, &mut greatest), Some(15));
    // Two steps: 5+1, 1+7, 1+2, each plus 10.
    assert_eq!(solve_extremal(0, 2, &steps, Combine::Min, 10, &mut least), Some(13));
    assert_eq!(solve_extremal(0, 2, &steps, Combine::Max, 10, &mut greatest), Some(18));
    // Three steps: 5+1 (ends early), 1+7 (ends early), 1+2+5, 1+2+1.
    assert_eq!(solve_extremal(0, 3, &steps, Combine::Min, 10, &mut least), Some(14));
    assert_eq!(solve_extremal(0, 3, &steps, Combine::Max, 10, &mut greatest), Some(18));
}

#[test]
fn extremal_value_that_does_not_fit_is_none_for_max_and_skipped_for_min() {
    let steps = |s: usize| -> Vec<(usize, u64)> {
        if s == 0 {
            vec![(1, u64::MAX), (1, 3)]
        } else {
            vec![]
        }
    };
    let mut least = MemoCache::new(2, 2).unwrap();
    let mut greatest = MemoCache::new(2, 2).unwrap();
    assert_eq!(solve_extremal(0, 2, &steps, Combine::Min, 1, &mut least), Some(4));
    assert_eq!(solve_extremal(0, 2, &steps, Combine::Max, 1, &mut greatest), None);
}

#[test]
fn keep_treats_none_as_beyond_every_number() {
    assert_eq!(keep(Combine::Min, Some(3), Some(9)), Some(3));
    assert_eq!(keep(Combine::Max, Some(3), Some(9)), Some(9));
    assert_eq!(keep(Combine::Min, None, Some(9)), Some(9));
    assert_eq!(keep(Combine::Min, Some(3), None), Some(3));
    assert_eq!(keep(Combine::Max, None, Some(9)), None);
    assert_eq!(keep(Combine::Max, Some(3), None), None);
    assert_eq!(keep(Combine::Min, None, None), None);
    assert_eq!(keep(Combine::Max, None, None), None);
}
