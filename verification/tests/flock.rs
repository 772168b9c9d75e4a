use state_search::puzzles::flock::{is_reached, move_dragons, move_sheep, remove_sheep};

fn grid_of(rows: &[&str]) -> (Vec<u8>, usize, usize) {
    (rows.concat().into_bytes(), rows[0].len(), rows.len())
}

const MEADOW: [&str; 13] = [
    "...SSS.......",
    ".S......S.SS.",
    "..S....S...S.",
    "..........SS.",
    "..SSSS...S...",
    ".....SS..S..S",
    "SS....D.S....",
    "S.S..S..S....",
    "....S.......S",
    ".SSS..SS.....",
    ".........S...",
    ".......S....S",
    "SS.....S..S..",
];

const ROCKS: [&str; 13] = [
    "...SSS##.....",
    ".S#.##..S#SS.",
    "..S.##.S#..S.",
    ".#..#S##..SS.",
    "..SSSS.#.S.#.",
    ".##..SS.#S.#S",
    "SS##.#D.S.#..",
    "S.S..S..S###.",
    ".##.S#.#....S",
    ".SSS.#SS..##.",
    "..#.##...S##.",
    ".#...#.S#...S",
    "SS...#.S.#S..",
];

#[test]
fn dragon_jumps_like_a_knight() {
    let grid = b"D.....S.....S#......".to_vec();
    assert_eq!(move_dragons(&grid, 5, 4, false), b".......D...D........".to_vec());
    assert_eq!(move_dragons(&grid, 5, 4, true), b"D.....SD...DS#......".to_vec());
}

#[test]
fn dragon_in_the_middle_reaches_eight_cells() {
    let mut grid = vec![b'.'; 25];
    grid[12] = b'D';
    let next = move_dragons(&grid, 5, 5, false);
    let dragons: Vec<usize> = (0..25).filter(|i| next[*i] == b'D').collect();
    assert_eq!(dragons, vec![1, 3, 5, 9, 15, 19, 21, 23]);
    assert!(is_reached(&grid, 5, 5, 1, 0));
    assert!(!is_reached(&grid, 5, 5, 2, 2));
    assert!(!is_reached(&grid, 5, 5, 0, 0));
}

#[test]
fn cells_behind_the_board_are_kept_or_cleared() {
    let grid = b"D...XY".to_vec();
    assert_eq!(move_dragons(&grid, 2, 2, true), b"D...XY".to_vec());
    assert_eq!(move_dragons(&grid, 2, 2, false), b"......".to_vec());
    assert_eq!(move_sheep(&b"S.SSXY".to_vec(), 2, 2), b"..S...".to_vec());
}

#[test]
fn sheep_walk_down_one_row_and_leave_at_the_bottom() {
    let grid = b"D.....S.....S#......".to_vec();
    assert_eq!(move_sheep(&grid, 5, 4), b"...........S.....S..".to_vec());
    assert_eq!(move_sheep(&b"SSS".to_vec(), 3, 1), b"...".to_vec());
    assert_eq!(move_sheep(&Vec::new(), 0, 0), Vec::<u8>::new());
}

#[test]
fn sheep_under_a_dragon_are_eaten_unless_hidden() {
    let grid = b"..#S".to_vec();
    let mut sheep = b"SSS.".to_vec();
    let dragons = b"D.DD".to_vec();
    assert_eq!(remove_sheep(&mut sheep, &dragons, &grid, 2, 2), 1);
    assert_eq!(sheep, b".SS.".to_vec());
    assert_eq!(remove_sheep(&mut sheep, &dragons, &grid, 2, 2), 0);
}

#[test]
fn three_moves_in_the_meadow_reach_twenty_seven_sheep() {
    let (grid, width, height) = grid_of(&MEADOW);
    let mut dragons = grid.clone();
    for _ in 0..3 {
        dragons = move_dragons(&dragons, width, height, true);
    }
    assert_eq!(remove_sheep(&mut grid.clone(), &dragons, &grid, width, height), 27);
    dragons = move_dragons(&dragons, width, height, true);
    assert_eq!(remove_sheep(&mut grid.clone(), &dragons, &grid, width, height), 40);
}

#[test]
fn three_rounds_among_the_rocks_cost_twenty_seven_sheep() {
    let (grid, width, height) = grid_of(&ROCKS);
    let mut dragons = grid.clone();
    let mut sheep = grid.clone();
    let mut total = 0;
    for _ in 0..3 {
        dragons = move_dragons(&dragons, width, height, false);
        total += remove_sheep(&mut sheep, &dragons, &grid, width, height);
        sheep = move_sheep(&sheep, width, height);
        total += remove_sheep(&mut sheep, &dragons, &grid, width, height);
    }
    assert_eq!(total, 27);
}
