use state_search::puzzles::mine::{dig, dig_cell, dig_round};

const DIRS: [(i64, i64); 4] = [(1, 0), (0, 1), (-1, 0), (0, -1)];

const CLOCKWISE: [(i64, i64); 8] =
    [(1, 0), (1, 1), (0, 1), (-1, 1), (-1, 0), (-1, -1), (0, -1), (1, -1)];

const FIELD: [&str; 7] = [
    "..........",
    "..###.##..",
    "...####...",
    "..######..",
    "..######..",
    "...####...",
    "..........",
];

fn field(rows: &[&str]) -> (Vec<usize>, usize, usize) {
    let cells = rows.iter().flat_map(|r| r.bytes().map(|b| usize::from(b == b'#'))).collect();
    (cells, rows[0].len(), rows.len())
}

#[test]
fn field_dug_along_the_axes_moves_thirty_five_blocks() {
    let (grid, width, height) = field(&FIELD);
    assert_eq!(dig(grid, width, height, &DIRS.to_vec()), Some(35));
}

#[test]
fn field_dug_with_diagonals_moves_twenty_nine_blocks() {
    let (grid, width, height) = field(&FIELD);
    assert_eq!(dig(grid, width, height, &CLOCKWISE.to_vec()), Some(29));
}

#[test]
fn edge_of_the_field_counts_as_not_dug() {
    let (grid, width, height) = field(&["###", "###", "###"]);
    assert_eq!(dig(grid, width, height, &DIRS.to_vec()), Some(10));
    let (square, width, height) = field(&["#####"; 5]);
    assert_eq!(dig(square, width, height, &CLOCKWISE.to_vec()), Some(35));
    let (large, width, height) = field(&["#######"; 7]);
    assert_eq!(dig(large.clone(), width, height, &DIRS.to_vec()), Some(84));
    assert_eq!(dig(large, width, height, &CLOCKWISE.to_vec()), Some(84));
}

#[test]
fn small_and_empty_fields() {
    assert_eq!(dig(vec![1], 1, 1, &DIRS.to_vec()), Some(1));
    assert_eq!(dig(vec![0; 6], 3, 2, &DIRS.to_vec()), Some(0));
    assert_eq!(dig(Vec::new(), 0, 0, &DIRS.to_vec()), Some(0));
}

#[test]
fn field_without_neighbours_is_dug_once_for_each_of_its_cells() {
    assert_eq!(dig(vec![1], 1, 1, &Vec::new()), Some(2));
    assert_eq!(dig(vec![1, 0, 1], 3, 1, &Vec::new()), Some(8));
}

#[test]
fn one_round_digs_the_cells_whose_neighbours_are_level() {
    let (grid, width, height) = field(&["###", "###", "###"]);
    let (next, changed) = dig_round(&grid, width, height, &DIRS.to_vec(), 2);
    assert!(changed);
    assert_eq!(next, vec![1, 1, 1, 1, 2, 1, 1, 1, 1]);
    let (last, again) = dig_round(&next, width, height, &DIRS.to_vec(), 3);
    assert!(!again);
    assert_eq!(last, next);
    assert!(dig_cell(&grid, width, height, &DIRS.to_vec(), 4));
    assert!(!dig_cell(&grid, width, height, &DIRS.to_vec(), 0));
    assert!(!dig_cell(&grid, width, height, &DIRS.to_vec(), 5));
}

#[test]
fn earth_that_does_not_fit_is_refused() {
    assert_eq!(dig(vec![usize::MAX, 0, 1], 3, 1, &DIRS.to_vec()), None);
    assert_eq!(dig(vec![usize::MAX - 1, 0, 1], 3, 1, &DIRS.to_vec()), Some(usize::MAX));
}
