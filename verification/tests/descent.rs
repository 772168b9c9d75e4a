use state_search::grid::Grid;
use state_search::puzzles::descent::part3;

fn map(rows: &[&str]) -> (Grid, usize) {
    let grid = Grid::new(rows.concat().into_bytes(), rows[0].len(), rows.len()).unwrap();
    let start = grid.find(b'S').unwrap();
    (grid, start)
}

const VALLEY: [&str; 7] = [
    "#....S....#",
    "#.........#",
    "#---------#",
    "#.........#",
    "#..+.+.+..#",
    "#.+-.+.++.#",
    "#.........#",
];

#[test]
fn glider_sinks_through_the_valley_round_after_round() {
    let (grid, start) = map(&VALLEY);
    assert_eq!(part3(&grid, start, 100), Some(226));
    assert_eq!(part3(&grid, start, 384400), Some(896926));
}

#[test]
fn glider_without_altitude_to_spare_lands_where_it_starts() {
    let (grid, start) = map(&VALLEY);
    assert_eq!(part3(&grid, start, 0), Some(0));
    assert_eq!(part3(&grid, start, 1), Some(0));
    assert_eq!(part3(&grid, start, 2), Some(0));
    assert_eq!(part3(&grid, start, 3), Some(1));
}

#[test]
fn glider_over_warm_air_never_lands() {
    let (grid, start) = map(&["S.+", "..+", "..-"]);
    assert_eq!(part3(&grid, start, 10), None);
    assert_eq!(part3(&grid, start, 3), None);
    assert_eq!(part3(&grid, start, 4), None);
}

#[test]
fn glider_that_loses_nothing_over_a_round_lands_in_the_first_or_never() {
    let (grid, start) = map(&["S.+.", "..-.", "..-.", "..+."]);
    assert_eq!(part3(&grid, start, 3), Some(1));
    assert_eq!(part3(&grid, start, 4), Some(2));
    assert_eq!(part3(&grid, start, 5), None);
    assert_eq!(part3(&grid, start, 10), None);
}

#[test]
fn rows_are_counted_from_the_first_row_of_the_map() {
    let (grid, start) = map(&["...", "S.-", "..+"]);
    assert_eq!(start, 3);
    assert_eq!(part3(&grid, start, 5), Some(10));
    assert_eq!(part3(&grid, start, 3), Some(4));
    assert_eq!(part3(&grid, start, 4), Some(7));
    assert_eq!(part3(&grid, start, 2), Some(1));
}

#[test]
fn map_without_a_column_two_cells_to_the_right_has_no_flight() {
    let (grid, start) = map(&[".S.", "..."]);
    assert_eq!(part3(&grid, start, 10), None);
    let (narrow, at) = map(&["S.", ".."]);
    assert_eq!(part3(&narrow, at, 0), None);
}
