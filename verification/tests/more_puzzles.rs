use state_search::grid::Grid;
use state_search::memo::MemoCache;
use state_search::puzzles::fire::{count_seen, merge, set_on_fire, spread_from};
use state_search::puzzles::flight::{flaps, next_openings, shortest_path, steps_from, Course, Opening};
use state_search::puzzles::names::{check_name, contains, dfs};

fn grid_of(rows: &[&str]) -> Grid {
    let width = rows[0].len();
    let cells: Vec<u8> = rows.iter().flat_map(|r| r.bytes()).collect();
    Grid::new(cells, width, rows.len()).unwrap()
}

#[test]
fn fire_spreads_to_barrels_that_are_not_bigger() {
    let g = grid_of(&["989", "871", "762"]);
    assert_eq!(spread_from(&g, 0), vec![(1, 1), (3, 1)]);
    assert_eq!(spread_from(&g, 4), vec![(5, 1), (7, 1)]);
    let seen = set_on_fire(&g, 0);
    // From the 9 in the corner: 8, 8, 7, 7, 6, 1, 2 burn; the 9 to the right
    // of the first 8 does not, and nothing leads back up to it.
    assert_eq!(seen, vec![true, true, false, true, true, true, true, true, true]);
    assert_eq!(count_seen(&seen), 8);
    let from_low = set_on_fire(&g, 5);
    assert_eq!(from_low, vec![false, false, false, false, false, true, false, false, false]);
    assert_eq!(count_seen(&from_low), 1);
}

#[test]
fn merged_fires_cover_what_either_covers() {
    let mut a = vec![true, false, false, true];
    merge(&mut a, &vec![false, false, true, true, true]);
    assert_eq!(a, vec![true, false, true, true]);
    assert_eq!(count_seen(&a), 3);
    assert_eq!(count_seen(&vec![]), 0);
}

#[test]
fn names_must_follow_the_rules() {
    // 0 may be followed by 1 or 2, 1 by 0, 2 by nothing.
    let rules = vec![vec![1, 2], vec![0], vec![]];
    assert!(contains(&rules[0], 2));
    assert!(!contains(&rules[0], 0));
    assert!(check_name(&vec![0, 1, 0, 2], &rules));
    assert!(!check_name(&vec![0, 1, 1], &rules));
    assert!(!check_name(&vec![2, 0], &rules));
    assert!(!check_name(&vec![0, 7], &rules));
    assert!(check_name(&vec![5], &rules));
    assert!(check_name(&vec![], &rules));
}

#[test]
fn names_are_counted_by_length() {
    // One letter that may follow itself: one name of each length 7..=11.
    let same = vec![vec![0]];
    let mut cache = MemoCache::new(1, 11).unwrap();
    assert_eq!(dfs(&same, 0, 11, &mut cache), Some(1));
    assert_eq!(dfs(&same, 0, 7, &mut cache), Some(5));
    assert_eq!(dfs(&same, 0, 1, &mut cache), Some(5));
    assert_eq!(dfs(&same, 0, 9, &mut cache), Some(3));
    // Two letters, each followed by both: 2^k names with k more letters.
    let both = vec![vec![0, 1], vec![0, 1]];
    let mut cache = MemoCache::new(2, 11).unwrap();
    assert_eq!(dfs(&both, 0, 10, &mut cache), Some(1 + 2));
    assert_eq!(dfs(&both, 1, 7, &mut cache), Some(1 + 2 + 4 + 8 + 16));
    assert_eq!(dfs(&both, 0, 5, &mut cache), Some(4 + 8 + 16 + 32 + 64));
    // A letter without a rule ends every name.
    let dead = vec![vec![1], vec![]];
    let mut cache = MemoCache::new(2, 11).unwrap();
    assert_eq!(dfs(&dead, 0, 7, &mut cache), Some(2));
    assert_eq!(dfs(&dead, 0, 6, &mut cache), Some(1));
    assert_eq!(dfs(&dead, 1, 6, &mut cache), Some(0));
}

#[test]
fn flaps_are_half_of_distance_plus_rise() {
    assert_eq!(flaps(0, 0, 4, 2), Some(3));
    assert_eq!(flaps(0, 0, 4, 4), Some(4));
    assert_eq!(flaps(0, 0, 4, 3), None);
    assert_eq!(flaps(4, 6, 8, 4), Some(1));
    assert_eq!(flaps(4, 6, 8, 2), Some(0));
    assert_eq!(flaps(4, 6, 8, 1), None);
    assert_eq!(flaps(4, 6, 4, 6), None);
    assert_eq!(flaps(4, 6, 3, 5), None);
}

#[test]
fn bird_finds_the_way_with_fewest_flaps() {
    let course = Course {
        openings: vec![
            Opening { x: 4, y: 2, height: 2 },
            Opening { x: 8, y: 0, height: 1 },
            Opening { x: 8, y: 5, height: 2 },
        ],
        cols: 9,
        rows: 8,
    };
    assert_eq!(next_openings(0, &course), 0);
    assert_eq!(next_openings(3, &course), 0);
    assert_eq!(next_openings(4, &course), 1);
    assert_eq!(next_openings(8, &course), 3);
    // From (0, 0) only the cell (4, 2) of the first opening has the parity.
    assert_eq!(steps_from(&course, 0), vec![(2 * 9 + 4, 3)]);
    // From (4, 2): (8, 0) with one flap, (8, 6) with four.
    assert_eq!(steps_from(&course, 2 * 9 + 4), vec![(8, 1), (6 * 9 + 8, 4)]);
    assert_eq!(shortest_path(&course, 8), Some(4));
    assert_eq!(shortest_path(&course, 4), Some(3));
    assert_eq!(shortest_path(&course, 7), None);
}
