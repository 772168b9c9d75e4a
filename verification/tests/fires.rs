use state_search::grid::Grid;
use state_search::memo::MemoCache;
use state_search::puzzles::fire::{count_fresh, find_max};
use state_search::puzzles::plants::{try_settings, Incoming, Plant};
use state_search::puzzles::population::{dfs, dfs_cached};

fn barrels(rows: &[&str]) -> Grid {
    Grid::new(rows.concat().into_bytes(), rows[0].len(), rows.len()).unwrap()
}

const YARD: [&str; 11] = [
    "41951111131882511179",
    "32112222211518122215",
    "31223333322115122219",
    "31234444432147511128",
    "91223333322176121892",
    "61112222211166431583",
    "14661111166111111746",
    "11111119142122222177",
    "41222118881233333219",
    "71222127839122222196",
    "56111126279711111517",
];

#[test]
fn three_best_fires_in_the_small_yard() {
    let grid = barrels(&["5411", "3362", "5235", "3112"]);
    let mut burnt = vec![false; grid.len()];
    let found: Vec<(usize, usize)> = (0..3).map(|_| find_max(&grid, &mut burnt)).collect();
    assert_eq!(found, vec![(6, 10), (0, 2), (8, 2)]);
    assert_eq!(found.iter().map(|f| f.1).sum::<usize>(), 14);
}

#[test]
fn three_best_fires_in_the_large_yard() {
    let grid = barrels(&YARD);
    let mut burnt = vec![false; grid.len()];
    let found: Vec<(usize, usize)> = (0..3).map(|_| find_max(&grid, &mut burnt)).collect();
    assert_eq!(found, vec![(64, 96), (172, 27), (35, 13)]);
    assert_eq!(found.iter().map(|f| f.1).sum::<usize>(), 136);
}

#[test]
fn fire_in_a_yard_that_has_burnt_burns_nothing_anew() {
    let grid = barrels(&["11", "11"]);
    let mut burnt = vec![false; 4];
    assert_eq!(find_max(&grid, &mut burnt), (0, 4));
    assert_eq!(burnt, vec![true; 4]);
    assert_eq!(find_max(&grid, &mut burnt), (0, 0));
    assert_eq!(count_fresh(&vec![true, true, false], &vec![false, true, false]), 1);
}

#[test]
fn sizes_of_populations_are_kept_in_the_cache() {
    let rules: Vec<Vec<usize>> = vec![vec![1, 2], vec![0], vec![0, 0, 1]];
    let mut cache = MemoCache::new(3, 10).unwrap();
    let first = dfs_cached(0, 10, &rules, &mut cache);
    assert_eq!(first, dfs(0, 10, &rules));
    assert_eq!(cache.get(0, 10), first);
    assert_eq!(cache.get(1, 9), dfs(1, 9, &rules));
    assert_eq!(dfs_cached(0, 10, &rules, &mut cache), first);
    assert_eq!(dfs_cached(2, 4, &rules, &mut cache), dfs(2, 4, &rules));
    assert_eq!(dfs_cached(2, 0, &rules, &mut cache), Some(1));
}

#[test]
fn energy_under_one_given_setting() {
    let free = |id: i64| Plant {
        id,
        free: true,
        thickness: 1,
        incoming: vec![Incoming { thickness: 1, source: None }],
    };
    let top = Plant {
        id: 3,
        free: false,
        thickness: 2,
        incoming: vec![
            Incoming { thickness: 5, source: Some(0) },
            Incoming { thickness: -3, source: Some(1) },
        ],
    };
    let plants = vec![free(1), free(2), top];
    let mut on_off = vec![true, false];
    assert_eq!(try_settings(&plants, &mut on_off, 2), Some(5));
    assert_eq!(on_off, vec![true, false]);
    assert_eq!(try_settings(&plants, &mut vec![true, true], 2), Some(2));
    assert_eq!(try_settings(&plants, &mut vec![false, true], 2), Some(0));
    assert_eq!(try_settings(&plants, &mut vec![false], 2), Some(0));
    assert_eq!(try_settings(&plants, &mut Vec::new(), 2), Some(5));
}
