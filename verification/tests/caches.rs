use state_search::memo::{solve_extremal, Combine, MemoCache};
use state_search::puzzles::change::ways;
use state_search::puzzles::names::dfs;

#[test]
fn fewest_pieces_for_forty_eight_are_stored_in_the_cache() {
    let dots: Vec<u64> = vec![1, 3, 5, 10, 15, 16, 20, 24, 25, 30];
    let mut cache = vec![u64::MAX; 1024];
    assert_eq!(ways(48, &dots, &mut cache), Some(2));
    assert_eq!(cache[48], 2);
    assert_eq!(cache[24], 1);
    assert_eq!(cache.len(), 1024);
}

#[test]
fn known_amounts_stay_in_the_cache_and_answer_at_once() {
    let dots: Vec<u64> = vec![1, 3, 5, 10];
    let mut cache = vec![u64::MAX; 64];
    assert_eq!(ways(27, &dots, &mut cache), Some(5));
    let filled = cache.clone();
    assert_eq!(filled[27], 5);
    assert_eq!(ways(27, &dots, &mut cache), Some(5));
    assert_eq!(cache, filled);
    assert_eq!(ways(13, &dots, &mut cache), Some(2));
    for (k, known) in filled.iter().enumerate() {
        assert!(*known == u64::MAX || cache[k] == *known);
    }
    assert_eq!(ways(0, &dots, &mut cache), Some(0));
    assert_eq!(cache[0], 0);
}

#[test]
fn count_of_names_is_stored_under_its_letter_and_length() {
    let rules: Vec<Vec<usize>> = vec![vec![1, 2], vec![0], vec![2]];
    let mut cache = MemoCache::new(3, 11).unwrap();
    let all = dfs(&rules, 0, 1, &mut cache).unwrap();
    assert_eq!(cache.get(0, 1), Some(all));
    let tail = cache.get(2, 11);
    assert_eq!(tail, Some(1));
    assert_eq!(dfs(&rules, 0, 1, &mut cache), Some(all));
    assert_eq!(dfs(&rules, 2, 11, &mut cache), Some(1));
    assert_eq!(cache.get(2, 11), tail);
}

#[test]
fn extremal_value_is_stored_under_its_state_and_budget() {
    let steps = |s: usize| -> Vec<(usize, u64)> {
        match s {
            0 => vec![(1, 4), (2, 1)],
            1 => vec![(3, 1)],
            2 => vec![(3, 7)],
            _ => vec![],
        }
    };
    let mut cache = MemoCache::new(4, 3).unwrap();
    assert_eq!(solve_extremal(0, 3, &steps, Combine::Min, 0, &mut cache), Some(5));
    assert_eq!(cache.get(0, 3), Some(5));
    assert_eq!(cache.get(1, 2), Some(1));
    assert_eq!(cache.get(2, 2), Some(7));
    assert_eq!(cache.get(3, 1), Some(0));
    assert_eq!(solve_extremal(0, 3, &steps, Combine::Min, 0, &mut cache), Some(5));
    assert_eq!(solve_extremal(2, 2, &steps, Combine::Min, 0, &mut cache), Some(7));
}
