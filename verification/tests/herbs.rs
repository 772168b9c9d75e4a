use state_search::grid::Grid;
use state_search::puzzles::herbs::{bfs, gather, gather_from, mask_count, place, walk_from, Link, Network};

fn grid_of(rows: &[&str]) -> Grid {
    let width = rows[0].len();
    let cells: Vec<u8> = rows.iter().flat_map(|r| r.bytes()).collect();
    Grid::new(cells, width, rows.len()).unwrap()
}

fn kinds_of(letters: &str) -> Vec<usize> {
    let mut kinds = vec![0usize; 256];
    for (i, b) in letters.bytes().enumerate() {
        kinds[b as usize] = i;
    }
    kinds
}

fn network(grid: &Grid, kinds: &Vec<usize>, count: u32) -> Network {
    let mut links = Vec::new();
    let mut kind_at = Vec::new();
    for cell in 0..grid.len() {
        let byte = grid.cells[cell];
        if place(byte) {
            links.push(bfs(cell, grid, kinds));
            kind_at.push(kinds[byte as usize]);
        } else {
            links.push(Vec::new());
            kind_at.push(0);
        }
    }
    Network { links, kind_at, kinds: count }
}

#[test]
fn places_are_letters_and_the_start_mark() {
    assert!(place(b'A') && place(b'z') && place(b'@'));
    assert!(!place(b'.') && !place(b'#') && !place(b'~') && !place(b'0'));
    assert_eq!(mask_count(0), 1);
    assert_eq!(mask_count(3), 8);
    assert_eq!(mask_count(31), 1 << 31);
}

#[test]
fn walk_stops_at_places_of_another_kind() {
    let g = grid_of(&["##@##", "#A.B#", "#####"]);
    assert_eq!(walk_from(&g, b'@', 2), vec![(7, 1)]);
    assert_eq!(walk_from(&g, b'@', 7), vec![(8, 1), (6, 1), (2, 1)]);
    assert_eq!(walk_from(&g, b'@', 6), vec![]);
    assert_eq!(walk_from(&g, b'A', 6), vec![(7, 1)]);
}

#[test]
fn links_lead_to_the_nearest_places_of_other_kinds() {
    let g = grid_of(&["##@##", "#A.B#", "#####"]);
    let kinds = kinds_of("@AB");
    assert_eq!(
        bfs(2, &g, &kinds),
        vec![Link { to: 6, kind: 1, steps: 2 }, Link { to: 8, kind: 2, steps: 2 }]
    );
    assert_eq!(
        bfs(6, &g, &kinds),
        vec![Link { to: 2, kind: 0, steps: 2 }, Link { to: 8, kind: 2, steps: 2 }]
    );
    // B hides what lies behind it from A, and water cannot be crossed.
    let h = grid_of(&["@.ABC", "~~~~.", "D...."]);
    let kinds = kinds_of("@ABCD");
    assert_eq!(bfs(0, &h, &kinds), vec![Link { to: 2, kind: 1, steps: 2 }]);
    assert_eq!(
        bfs(3, &h, &kinds),
        vec![Link { to: 2, kind: 1, steps: 1 }, Link { to: 4, kind: 3, steps: 1 }]
    );
    assert_eq!(
        bfs(4, &h, &kinds),
        vec![Link { to: 3, kind: 2, steps: 1 }, Link { to: 10, kind: 4, steps: 6 }]
    );
}

#[test]
fn every_kind_is_gathered_on_the_shortest_round_trip() {
    let g = grid_of(&["##@##", "#A.B#", "#####"]);
    let kinds = kinds_of("@AB");
    let net = network(&g, &kinds, 3);
    // State (cell 2, missing A and B) has key 2 * 8 + 6.
    assert_eq!(gather_from(&net, 2 * 8 + 6), vec![(6 * 8 + 6, 2), (8 * 8 + 6, 2)]);
    // At A with A and B missing: A is picked up, the start is not yet open.
    assert_eq!(gather_from(&net, 6 * 8 + 6), vec![(8 * 8 + 4, 2)]);
    assert_eq!(gather_from(&net, 8 * 8 + 4), vec![(2 * 8, 2), (6 * 8, 2)]);
    assert_eq!(gather(&net, 2), Some(6));
}

#[test]
fn two_herbs_of_a_kind_need_only_one_visit() {
    let g = grid_of(&["A...@.A....B"]);
    let kinds = kinds_of("@AB");
    let net = network(&g, &kinds, 3);
    // Right to the near A (2), on to B (5), back (7).
    assert_eq!(gather(&net, 4), Some(14));
}

#[test]
fn herb_out_of_reach_makes_the_trip_impossible() {
    let g = grid_of(&["@.A#B"]);
    let kinds = kinds_of("@AB");
    let net = network(&g, &kinds, 3);
    assert_eq!(gather(&net, 0), None);
}
