use state_search::puzzles::trampolines::{
    cell, count_pairs, jump_from, jumps_from, make_map, rotate, shortest_path, Park,
};

fn park(grids: &[&[&str]]) -> Park {
    Park {
        grids: grids.iter().map(|g| g.iter().flat_map(|r| r.bytes()).collect()).collect(),
        width: grids[0][0].len(),
        height: grids[0].len(),
    }
}

#[test]
fn tiles_border_on_the_side_they_point_to() {
    let p = park(&[&["STT", "#ET"]]);
    assert_eq!(cell(&p, 0, 1, 1), b'E');
    // (0, 0) points up: nothing above, nothing to the left, (1, 0) to the right.
    assert_eq!(jump_from(&p, 0, 0, 0, 0), None);
    assert_eq!(jump_from(&p, 0, 0, 0, 1), None);
    assert_eq!(jump_from(&p, 0, 0, 0, 2), Some(1));
    assert_eq!(jump_from(&p, 0, 0, 0, 3), Some(0));
    // (1, 0) points down: (1, 1) below.
    assert_eq!(jump_from(&p, 0, 1, 0, 0), Some(4));
    // (2, 1) points down and is in the last row; to its left lies E.
    assert_eq!(jump_from(&p, 0, 2, 1, 0), None);
    assert_eq!(jump_from(&p, 0, 2, 1, 1), Some(4));
    // No jumps from what is no tile.
    assert_eq!(jump_from(&p, 0, 0, 1, 2), None);
}

#[test]
fn map_lists_the_jumps_of_every_tile() {
    let p = park(&[&["STT", "#ET"]]);
    let map = make_map(&p, false);
    assert_eq!(map, vec![vec![1], vec![4, 0, 2], vec![1], vec![], vec![1, 5], vec![4]]);
    let staying = make_map(&p, true);
    assert_eq!(staying[1], vec![1, 4, 0, 2]);
    assert_eq!(staying[3], Vec::<usize>::new());
    assert_eq!(jumps_from(&map, 1), vec![(4, 1), (0, 1), (2, 1)]);
}

#[test]
fn fewest_jumps_in_a_park_that_stands_still() {
    let p = park(&[&["STT", "#ET"]]);
    let map = make_map(&p, false);
    assert_eq!(shortest_path(&p, &map, 0, 0), Some(2));
    assert_eq!(shortest_path(&p, &map, 1, 1), Some(0));
    let cut = park(&[&["S#T", "#ET"]]);
    let map = make_map(&cut, false);
    assert_eq!(shortest_path(&cut, &map, 0, 0), None);
}

#[test]
fn jumps_lead_from_grid_to_grid() {
    // Keys are x * 2 + grid. The wall in the first grid does not matter to
    // a jump that lands in the second.
    let p = park(&[&["S#E"], &["TTE"]]);
    let moving = make_map(&p, false);
    assert_eq!(moving[0], vec![3]);
    assert_eq!(moving[3], vec![0, 4]);
    assert_eq!(moving[2], Vec::<usize>::new());
    assert_eq!(shortest_path(&p, &moving, 0, 0), Some(2));
    let staying = make_map(&p, true);
    assert_eq!(staying[0], vec![1, 3]);
    assert_eq!(shortest_path(&p, &staying, 0, 0), Some(2));
}

#[test]
fn staying_waits_for_the_park_to_turn() {
    // From S the tile to the right is a wall in the second grid; only after
    // waiting a turn does the jump land in the first grid, where it is open.
    let p = park(&[&["STE"], &["T#E"]]);
    let moving = make_map(&p, false);
    assert_eq!(shortest_path(&p, &moving, 0, 0), None);
    let staying = make_map(&p, true);
    // Wait (grid 1), jump right (grid 0), jump right again onto E (grid 1).
    assert_eq!(shortest_path(&p, &staying, 0, 0), Some(3));
}

#[test]
fn park_turns_by_a_third() {
    let once = rotate(&b"abc#d#".to_vec(), 3, 2);
    assert_eq!(once, b"dba#c#".to_vec());
    let twice = rotate(&once, 3, 2);
    assert_eq!(twice, b"cbd#a#".to_vec());
    assert_eq!(rotate(&twice, 3, 2), b"abc#d#".to_vec());
    assert_eq!(rotate(&b"x".to_vec(), 1, 1), b"x".to_vec());
    let big = b"abcde#fgh###i##".to_vec();
    let mut turned = big.clone();
    for _ in 0..3 {
        turned = rotate(&turned, 5, 3);
    }
    assert_eq!(turned, big);
}

#[test]
fn pairs_of_trampolines_are_counted_once() {
    assert_eq!(count_pairs(&park(&[&["STT", "#ET"]])), 1);
    assert_eq!(count_pairs(&park(&[&["TTT", "#TT"]])), 4);
    assert_eq!(count_pairs(&park(&[&["T#T", "#T#"]])), 0);
    assert_eq!(count_pairs(&park(&[&["..."]])), 0);
}
