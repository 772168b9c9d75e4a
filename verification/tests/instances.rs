use state_search::puzzles::change::ways;
use state_search::puzzles::congruences::chinese;
use state_search::grid::Grid;
use state_search::puzzles::level_maze::{dijkstra, gap, level, steps_from};
use state_search::puzzles::population::dfs;
use state_search::state_key::{idx, seen_idx};

fn grid_of(rows: &[&str]) -> Grid {
    let width = rows[0].len();
    let cells: Vec<u8> = rows.iter().flat_map(|r| r.bytes()).collect();
    Grid::new(cells, width, rows.len()).unwrap()
}

#[test]
fn grid_with_the_wrong_number_of_cells_is_refused() {
    assert!(Grid::new(vec![0; 5], 2, 3).is_none());
    assert!(Grid::new(vec![0; 6], 2, 3).is_some());
    assert!(Grid::new(vec![], usize::MAX, 2).is_none());
}

#[test]
fn neighbours_go_right_down_left_up_and_stop_at_the_border() {
    let g = grid_of(&["abc", "def"]);
    assert_eq!(g.neighbor(0, 0), Some(1));
    assert_eq!(g.neighbor(0, 1), Some(3));
    assert_eq!(g.neighbor(0, 2), None);
    assert_eq!(g.neighbor(0, 3), None);
    assert_eq!(g.neighbor(5, 0), None);
    assert_eq!(g.neighbor(5, 1), None);
    assert_eq!(g.neighbor(5, 2), Some(4));
    assert_eq!(g.neighbor(5, 3), Some(2));
    assert_eq!(g.find(b'e'), Some(4));
    assert_eq!(g.find(b'z'), None);
    assert_eq!(g.len(), 6);
}

#[test]
fn levels_wrap_around_after_nine() {
    assert_eq!(level(b'0'), 0);
    assert_eq!(level(b'7'), 7);
    assert_eq!(level(b'S'), 0);
    assert_eq!(level(b'E'), 0);
    assert_eq!(gap(0, 9), 1);
    assert_eq!(gap(9, 0), 1);
    assert_eq!(gap(2, 7), 5);
    assert_eq!(gap(2, 8), 4);
    assert_eq!(gap(3, 3), 0);
}

#[test]
fn steps_skip_walls_and_charge_for_levels() {
    let g = grid_of(&["#####", "#E19#", "#####"]);
    assert_eq!(steps_from(&g, 6), vec![(7, 2)]);
    assert_eq!(steps_from(&g, 7), vec![(8, 3), (6, 2)]);
}

#[test]
fn quickest_way_through_the_level_maze() {
    // E -> 1 (2s) -> 9 (3s) -> S (2s): 7; the lower way: E -> 5 (6s) ...
    let g = grid_of(&["######", "#E19S#", "#5#0##", "#432##", "######"]);
    assert_eq!(dijkstra(&g), Some(7));
    // With the upper way walled up: E 5 4 3 2 0 9 S costs 6+2+2+2+3+2+2.
    let h = grid_of(&["######", "#E#9S#", "#5#0##", "#432##", "######"]);
    assert_eq!(dijkstra(&h), Some(19));
    let closed = grid_of(&["#####", "#E#S#", "#####"]);
    assert_eq!(dijkstra(&closed), None);
}

#[test]
fn population_grows_by_the_rules() {
    // A -> B, C; B -> C, A; C -> A. With A = 0, B = 1, C = 2.
    let rules = vec![vec![1, 2], vec![2, 0], vec![0]];
    // day 1: B C; day 2: C A A; day 3: A B C B C; day 4: B C C A A C A A.
    assert_eq!(dfs(0, 0, &rules), Some(1));
    assert_eq!(dfs(0, 1, &rules), Some(2));
    assert_eq!(dfs(0, 2, &rules), Some(3));
    assert_eq!(dfs(0, 3, &rules), Some(5));
    assert_eq!(dfs(0, 4, &rules), Some(8));
    let doubling = vec![vec![0, 0]];
    assert_eq!(dfs(0, 63, &doubling), Some(1 << 63));
    assert_eq!(dfs(0, 64, &doubling), None);
}

#[test]
fn fewest_pieces_for_an_amount() {
    let dots = vec![1, 3, 5, 10];
    let mut cache = vec![u64::MAX; 64];
    assert_eq!(ways(0, &dots, &mut cache), Some(0));
    assert_eq!(ways(2, &dots, &mut cache), Some(2));
    assert_eq!(ways(5, &dots, &mut cache), Some(1));
    assert_eq!(ways(9, &dots, &mut cache), Some(3));
    assert_eq!(ways(14, &dots, &mut cache), Some(3));
    assert_eq!(ways(33, &dots, &mut cache), Some(4));
    assert_eq!(cache[33], 4);
    // Greedy fails here: 30 is two pieces of 15, not 25 + 5.
    let odd = vec![1, 15, 25];
    let mut cache = vec![u64::MAX; 64];
    assert_eq!(ways(30, &odd, &mut cache), Some(2));
    let no_one = vec![4, 6];
    let mut cache = vec![u64::MAX; 64];
    assert_eq!(ways(10, &no_one, &mut cache), Some(2));
    assert_eq!(ways(7, &no_one, &mut cache), None);
    assert_eq!(ways(3, &no_one, &mut cache), None);
}

#[test]
fn congruences_are_solved_for_coprime_moduli() {
    // x = 2 mod 3, x = 3 mod 5, x = 2 mod 7: 23.
    assert_eq!(chinese(&vec![2, 3, 2], &vec![3, 5, 7]), Some(23));
    assert_eq!(chinese(&vec![0, 0], &vec![4, 9]), Some(0));
    assert_eq!(chinese(&vec![5], &vec![7]), Some(5));
    // Remainders beyond the modulus are reduced.
    assert_eq!(chinese(&vec![12, 1], &vec![5, 2]), Some(7));
    let x = chinese(&vec![3, 4, 5, 6], &vec![11, 13, 17, 19]).unwrap();
    assert!(x >= 0 && x < 11 * 13 * 17 * 19);
    assert_eq!(x % 11, 3);
    assert_eq!(x % 13, 4);
    assert_eq!(x % 17, 5);
    assert_eq!(x % 19, 6);
}

#[test]
fn construction_that_leaves_the_range_gives_none() {
    let big = 3_037_000_493i64;
    assert_eq!(chinese(&vec![1, 2, 3], &vec![big, big + 2, big + 4]), None);
}

#[test]
fn cube_positions_are_numbered_layer_by_layer() {
    assert_eq!(idx(-64, 0, -64), 0);
    assert_eq!(idx(0, 0, 0), 64 * 128 * 128 + 64);
    assert_eq!(idx(1, 2, 3), 67 * 128 * 128 + 2 * 128 + 65);
    assert_eq!(idx(63, 127, 63), 128 * 128 * 128 - 1);
}

#[test]
fn seen_index_packs_position_limit_and_side() {
    // y * (width * max_radius * 2) + x * (max_radius * 2) + (max_time / 30) * 2 + side
    assert_eq!(seen_idx(0, 0, 0, true, 10, 5), 0);
    assert_eq!(seen_idx(0, 0, 0, false, 10, 5), 1);
    assert_eq!(seen_idx(3, 2, 95, false, 10, 5), 2 * 100 + 3 * 10 + 3 * 2 + 1);
    assert_eq!(seen_idx(9, 4, 149, true, 10, 5), 4 * 100 + 9 * 10 + 4 * 2);
}
