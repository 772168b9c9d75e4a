use state_search::puzzles::wheels::{
    count_coins, dfs, lever_steps, pull_both, pull_right, sizes_of, turn, LeftLever, Machine,
};
use state_search::radix::{pack, span_of, unpack};

fn machine(wheels: &[&[&str]], instructions: &[usize]) -> Machine {
    Machine {
        wheels: wheels
            .iter()
            .map(|w| w.iter().map(|f| f.as_bytes().to_vec()).collect())
            .collect(),
        instructions: instructions.to_vec(),
    }
}

#[test]
fn tuples_are_numbered_least_significant_digit_first() {
    let radices = vec![3, 4, 2];
    assert_eq!(span_of(&radices), Some(24));
    assert_eq!(pack(&vec![0, 0, 0], &radices), 0);
    // 2 + 3 * (1 + 4 * 1)
    assert_eq!(pack(&vec![2, 1, 1], &radices), 17);
    assert_eq!(pack(&vec![2, 3, 1], &radices), 23);
    assert_eq!(unpack(17, &radices), vec![2, 1, 1]);
    for key in 0..24 {
        assert_eq!(pack(&unpack(key, &radices), &radices), key);
    }
    assert_eq!(span_of(&vec![]), Some(1));
    assert_eq!(pack(&vec![], &vec![]), 0);
    assert_eq!(span_of(&vec![usize::MAX, 2]), None);
    assert_eq!(span_of(&vec![usize::MAX, 1]), Some(usize::MAX));
}

#[test]
fn wheels_turn_around() {
    assert_eq!(turn(0, 1, 5), 1);
    assert_eq!(turn(4, 1, 5), 0);
    assert_eq!(turn(3, 14, 5), 2);
    assert_eq!(turn(2, usize::MAX, 3), (2 + usize::MAX % 3) % 3);
    assert_eq!(turn(0, 0, 1), 0);
}

#[test]
fn levers_move_the_wheels() {
    let m = machine(&[&["AxA", "BxB", "CxC"], &["AyA", "CyC"]], &[2, 3]);
    assert_eq!(sizes_of(&m), vec![3, 2]);
    let mut positions = vec![0, 0];
    pull_right(&m, &mut positions);
    assert_eq!(positions, vec![2, 1]);
    pull_right(&m, &mut positions);
    assert_eq!(positions, vec![1, 0]);
    assert_eq!(pull_both(&m, &vec![0, 0], LeftLever::Rest), vec![2, 1]);
    assert_eq!(pull_both(&m, &vec![0, 0], LeftLever::Up), vec![0, 0]);
    assert_eq!(pull_both(&m, &vec![0, 0], LeftLever::Down), vec![1, 0]);
}

#[test]
fn coins_are_paid_for_eyes_beyond_the_second() {
    let m = machine(&[&["AxA", "BxC"], &["AyA", "CyC"], &["AzB", "CzC"]], &[1, 1, 1]);
    // A A A A A B: three coins for A.
    assert_eq!(count_coins(&m, &vec![0, 0, 0]), 3);
    // B C C C C C: three coins for C.
    assert_eq!(count_coins(&m, &vec![1, 1, 1]), 3);
    // B C A A C C: one coin for C.
    assert_eq!(count_coins(&m, &vec![1, 0, 1]), 1);
    // A A C C A B: one coin for A.
    assert_eq!(count_coins(&m, &vec![0, 1, 0]), 1);
}

#[test]
fn steps_pair_the_next_state_with_its_pay() {
    let m = machine(&[&["AxA", "BxB"], &["AyA", "CyC"]], &[1, 1]);
    let sizes = sizes_of(&m);
    // From [0, 0]: up and down lead back to [0, 0] (four A), rest to [1, 1].
    assert_eq!(lever_steps(&m, &sizes, 0), vec![(0, 2), (0, 2), (3, 0)]);
    assert_eq!(lever_steps(&m, &sizes, 3), vec![(3, 0), (3, 0), (0, 2)]);
}

#[test]
fn least_and_greatest_pay_over_several_pulls() {
    let m = machine(&[&["AxA", "BxB"], &["AyA", "CyC"]], &[1, 1]);
    assert_eq!(dfs(0, &vec![0, 0], &m), (Some(0), Some(0)));
    assert_eq!(dfs(1, &vec![0, 0], &m), (Some(0), Some(2)));
    assert_eq!(dfs(2, &vec![0, 0], &m), (Some(0), Some(4)));
    assert_eq!(dfs(7, &vec![1, 1], &m), (Some(0), Some(14)));
    let forced = machine(&[&["AxA"], &["AyA"]], &[5, 9]);
    assert_eq!(dfs(10, &vec![0, 0], &forced), (Some(20), Some(20)));
}
