use state_search::puzzles::cipher::{decrypt, decrypt_times, rotate};
use state_search::puzzles::dancers::{call, dance, shift_for};

fn bytes(text: &str) -> Vec<u8> {
    text.as_bytes().to_vec()
}

#[test]
fn ring_turned_left_moves_every_cell_one_place_against_the_clock() {
    let mut grid = bytes("abcdefghi");
    rotate(&mut grid, 3, 1, 1, true);
    assert_eq!(grid, bytes("bcfaeidgh"));
}

#[test]
fn ring_turned_right_moves_every_cell_one_place_with_the_clock() {
    let mut grid = bytes("abcdefghi");
    rotate(&mut grid, 3, 1, 1, false);
    assert_eq!(grid, bytes("dabgechif"));
}

#[test]
fn ring_turn_leaves_the_cells_outside_the_ring() {
    let mut grid = bytes("abcdefghijkl");
    rotate(&mut grid, 4, 2, 1, false);
    assert_eq!(grid, bytes("afbcejgdiklh"));
}

#[test]
fn left_then_right_turn_of_one_ring_restores_the_grid() {
    let mut grid = bytes("abcdefghijkl");
    rotate(&mut grid, 4, 1, 1, true);
    assert_ne!(grid, bytes("abcdefghijkl"));
    rotate(&mut grid, 4, 1, 1, false);
    assert_eq!(grid, bytes("abcdefghijkl"));
}

#[test]
fn eight_turns_of_one_ring_restore_the_grid() {
    let mut grid = bytes("abcdefghi");
    for _ in 0..8 {
        rotate(&mut grid, 3, 1, 1, true);
    }
    assert_eq!(grid, bytes("abcdefghi"));
}

#[test]
fn decrypt_reveals_the_word_between_the_marks() {
    let mut grid = bytes(">-IN------W---<");
    decrypt(&mut grid, 5, 3, &bytes("LR"));
    assert_eq!(grid, bytes("----->WIN<-----"));
}

#[test]
fn decrypt_takes_the_instructions_round_and_round() {
    let mut grid = bytes("abcdefghijklmnop");
    decrypt(&mut grid, 4, 4, &bytes("LRR"));
    assert_eq!(grid, bytes("bfcgeidhmakpnjol"));
}

#[test]
fn decrypt_leaves_a_grid_without_inner_cells() {
    let mut narrow = bytes("abcdef");
    decrypt(&mut narrow, 2, 3, &bytes("L"));
    assert_eq!(narrow, bytes("abcdef"));
    let mut flat = bytes("abcdef");
    decrypt(&mut flat, 3, 2, &bytes("R"));
    assert_eq!(flat, bytes("abcdef"));
    let mut single = bytes("a");
    decrypt(&mut single, 1, 1, &bytes("R"));
    assert_eq!(single, bytes("a"));
}

#[test]
fn ten_rounds_of_the_dance() {
    let mut cols: Vec<Vec<u64>> =
        vec![vec![2, 6, 4, 5], vec![3, 7, 3, 2], vec![4, 8, 5, 4], vec![5, 9, 2, 3]];
    let expected: [u64; 10] = [6345, 6245, 6285, 6289, 4289, 4789, 4729, 4728, 5728, 5328];
    for round in 0..10 {
        dance(&mut cols, round);
        assert_eq!(call(&cols), Some(expected[round]));
    }
    assert_eq!(
        cols,
        vec![vec![5, 9, 5], vec![3, 6, 4, 2], vec![2, 3, 7, 5, 4], vec![8, 2, 4, 3]]
    );
}

#[test]
fn first_round_puts_the_dancer_behind_the_first_of_the_next_column() {
    let mut cols: Vec<Vec<u64>> =
        vec![vec![2, 6, 4, 5], vec![3, 7, 3, 2], vec![4, 8, 5, 4], vec![5, 9, 2, 3]];
    dance(&mut cols, 0);
    assert_eq!(
        cols,
        vec![vec![6, 4, 5], vec![3, 2, 7, 3, 2], vec![4, 8, 5, 4], vec![5, 9, 2, 3]]
    );
}

#[test]
fn dancer_with_number_one_takes_the_front() {
    let mut cols: Vec<Vec<u64>> = vec![vec![7], vec![1, 2]];
    dance(&mut cols, 1);
    assert_eq!(cols, vec![vec![1, 7], vec![2]]);
}

#[test]
fn dancer_walks_round_a_single_column() {
    let mut cols: Vec<Vec<u64>> = vec![vec![9, 1, 2, 3]];
    dance(&mut cols, 0);
    assert_eq!(cols, vec![vec![1, 2, 9, 3]]);
}

#[test]
fn call_writes_the_first_numbers_one_behind_the_other() {
    let cols: Vec<Vec<u64>> = vec![vec![12, 1], vec![0], vec![345, 9], vec![6]];
    assert_eq!(call(&cols), Some(1203456));
    let zeros: Vec<Vec<u64>> = vec![vec![0], vec![0], vec![7]];
    assert_eq!(call(&zeros), Some(7));
    let single: Vec<Vec<u64>> = vec![vec![u64::MAX]];
    assert_eq!(call(&single), Some(u64::MAX));
}

#[test]
fn call_is_none_when_the_number_does_not_fit() {
    let cols: Vec<Vec<u64>> = vec![vec![18446744073709551615], vec![0]];
    assert_eq!(call(&cols), None);
    let edge: Vec<Vec<u64>> = vec![vec![1844674407370955161], vec![5]];
    assert_eq!(call(&edge), Some(18446744073709551615));
    let over: Vec<Vec<u64>> = vec![vec![1844674407370955161], vec![6]];
    assert_eq!(call(&over), None);
    let wide: Vec<Vec<u64>> = vec![vec![1], vec![10000000000000000000]];
    assert_eq!(call(&wide), None);
}

#[test]
fn shift_is_ten_to_the_number_of_digits() {
    assert_eq!(shift_for(0), Some(10));
    assert_eq!(shift_for(9), Some(10));
    assert_eq!(shift_for(10), Some(100));
    assert_eq!(shift_for(999), Some(1000));
    assert_eq!(shift_for(1000), Some(10000));
    assert_eq!(shift_for(999999999999999999), Some(1000000000000000000));
    assert_eq!(shift_for(1000000000000000000), Some(10000000000000000000));
    assert_eq!(shift_for(9999999999999999999), Some(10000000000000000000));
    assert_eq!(shift_for(10000000000000000000), None);
    assert_eq!(shift_for(u64::MAX), None);
}

#[test]
fn many_messages_are_read_as_one_after_the_other() {
    let start = bytes("abcdefghijklmnopqrstuvwxy");
    let instructions = bytes("LRRLR");
    let mut step_by_step = start.clone();
    for times in 0..40u64 {
        let mut at_once = start.clone();
        decrypt_times(&mut at_once, 5, 5, &instructions, times);
        assert_eq!(at_once, step_by_step, "after {times} messages");
        decrypt(&mut step_by_step, 5, 5, &instructions);
    }
}

#[test]
fn a_thousand_million_messages_are_read_by_squaring() {
    let start = bytes(">-IN------W---<");
    let mut once = start.clone();
    decrypt_times(&mut once, 5, 3, &bytes("LR"), 1);
    assert_eq!(once, bytes("----->WIN<-----"));
    let mut far = start.clone();
    decrypt_times(&mut far, 5, 3, &bytes("LR"), 1048576000);
    let mut half = start.clone();
    decrypt_times(&mut half, 5, 3, &bytes("LR"), 524288000);
    decrypt_times(&mut half, 5, 3, &bytes("LR"), 524288000);
    assert_eq!(far, half);
    let mut narrow = bytes("abcdef");
    decrypt_times(&mut narrow, 2, 3, &bytes("L"), 77);
    assert_eq!(narrow, bytes("abcdef"));
}
