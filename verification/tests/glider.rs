use state_search::grid::Grid;
use state_search::puzzles::glider::{
    find_marks, loss, only_one, part1, part2, steps_apart, timed_from, trip_change, trip_from,
};

fn grid_of(rows: &[&str]) -> Grid {
    let width = rows[0].len();
    let cells: Vec<u8> = rows.iter().flat_map(|r| r.bytes()).collect();
    Grid::new(cells, width, rows.len()).unwrap()
}

#[test]
fn steps_lose_altitude_by_what_the_cell_holds() {
    assert_eq!(loss(b'+'), Some(0));
    assert_eq!(loss(b'.'), Some(2));
    assert_eq!(loss(b'S'), Some(2));
    assert_eq!(loss(b'A'), Some(2));
    assert_eq!(loss(b'-'), Some(3));
    assert_eq!(loss(b'#'), None);
    assert_eq!(loss(b'?'), None);
}

#[test]
fn timed_steps_do_not_turn_back_and_count_the_time() {
    let g = grid_of(&["#####", "#S+.#", "#.+.#", "#####"]);
    // Keys are ((direction * 20 + cell) * 3) + time for a flight of 2 steps.
    // From S (cell 6) with the last step down: right into the updraft, down
    // over plain air.
    assert_eq!(timed_from(&g, 2, (20 + 6) * 3), vec![(7 * 3 + 1, 0), ((20 + 11) * 3 + 1, 2)]);
    // From cell 7 after a step to the right: on to the right or down.
    assert_eq!(
        timed_from(&g, 2, 7 * 3 + 1),
        vec![(8 * 3 + 2, 2), ((20 + 12) * 3 + 2, 0)]
    );
    // No step after the time is up.
    assert_eq!(timed_from(&g, 2, 8 * 3 + 2), vec![]);
}

#[test]
fn greatest_altitude_after_a_given_time() {
    let g = grid_of(&["#####", "#S+.#", "#.+.#", "#####"]);
    assert_eq!(part1(&g, 6, 10, 0), Some(10));
    assert_eq!(part1(&g, 6, 10, 1), Some(11));
    assert_eq!(part1(&g, 6, 10, 2), Some(12));
    assert_eq!(part1(&g, 6, 10, 3), Some(11));
    let dead_end = grid_of(&["####", "#S.#", "####"]);
    assert_eq!(part1(&dead_end, 5, 10, 1), Some(9));
    assert_eq!(part1(&dead_end, 5, 10, 2), None);
    // A flight that would end below the ground.
    assert_eq!(part1(&dead_end, 5, 0, 1), None);
}

#[test]
fn checkpoints_open_in_their_order() {
    assert_eq!(trip_change(b'A', 0), Some((false, 1, 1)));
    assert_eq!(trip_change(b'A', 1), None);
    assert_eq!(trip_change(b'B', 1), Some((false, 1, 2)));
    assert_eq!(trip_change(b'C', 1), None);
    assert_eq!(trip_change(b'C', 2), Some((false, 1, 3)));
    assert_eq!(trip_change(b'S', 2), None);
    assert_eq!(trip_change(b'S', 3), Some((false, 1, 3)));
    assert_eq!(trip_change(b'+', 2), Some((true, 1, 2)));
    assert_eq!(trip_change(b'-', 0), Some((false, 2, 0)));
    assert_eq!(trip_change(b'#', 0), None);
}

#[test]
fn round_trip_past_the_checkpoints() {
    let g = grid_of(&["#####", "#SA+#", "#+#B#", "#+C+#", "#####"]);
    // Keys are ((turn * 25 + cell) * 103) + altitude, turn = direction * 4 +
    // checkpoints passed. From S: right onto A, or down into the updraft.
    assert_eq!(
        trip_from(&g, 102, (4 * 25 + 6) * 103 + 100),
        vec![((1 * 25 + 7) * 103 + 99, 1), ((4 * 25 + 11) * 103 + 101, 1)]
    );
    // Clockwise: A, updraft, B, updraft, C, updraft, updraft, S.
    assert_eq!(part2(&g, 6, 100, 102), Some(8));
    assert_eq!(part2(&g, 6, 100, 101), Some(8));
    // With the ceiling at the starting altitude the last updraft is closed.
    assert_eq!(part2(&g, 6, 100, 100), None);
    // Too low to begin with: the first step would go below the ground.
    assert_eq!(part2(&g, 6, 0, 5), None);
}

#[test]
fn round_trip_needs_the_altitude_it_began_with() {
    // Without updrafts the glider comes back lower than it set out.
    let g = grid_of(&["#####", "#SA.#", "#.#B#", "#.C.#", "#####"]);
    assert_eq!(part2(&g, 6, 100, 110), None);
}

#[test]
fn round_trip_is_found_with_and_without_guidance() {
    let g = grid_of(&["#####", "#SA+#", "#+#B#", "#+C+#", "#####"]);
    assert_eq!(only_one(&g, b'A'), Some(7));
    assert_eq!(only_one(&g, b'+'), None);
    assert_eq!(only_one(&g, b'Z'), None);
    assert_eq!(steps_apart(&g, 6, 18), 4);
    assert_eq!(steps_apart(&g, 13, 7), 2);
    let m = find_marks(&g).unwrap();
    assert_eq!((m.a, m.b, m.c, m.s), (7, 13, 17, 6));
    // A second A takes the guidance away; the answer stays.
    let twice = grid_of(&["######", "#SA+A#", "#+#B##", "#+C+##", "######"]);
    assert!(find_marks(&twice).is_none());
    assert_eq!(part2(&twice, 7, 100, 102), Some(8));
}
