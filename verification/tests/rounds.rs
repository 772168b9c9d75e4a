use state_search::puzzles::ducks::{count_phase2_rounds, phase, phase1, phase2, sweep};
use state_search::puzzles::plants::{dfs, Incoming, Plant};
use state_search::puzzles::spells::{add_range, reconstruct};
use state_search::puzzles::tiles::transform;

#[test]
fn tiles_switch_by_their_diagonal_neighbours() {
    // Rows are written with column 0 as the lowest bit.
    //   . # .        # . #
    //   . . .   ->   . # .
    //   . . .        # # #
    // The active tile has no active diagonal neighbour and goes out; the
    // tiles below it to the left and right have one and stay dark; every
    // other tile has none and lights up.
    assert_eq!(transform(vec![0b010, 0b000, 0b000]), vec![0b101, 0b010, 0b111]);
    assert_eq!(transform(vec![0b1]), vec![0b0]);
    // Two active tiles on a diagonal keep each other going, and the two
    // dark tiles light up.
    assert_eq!(transform(vec![0b01, 0b10]), vec![0b11, 0b11]);
    assert_eq!(transform(vec![]), Vec::<u64>::new());
}

#[test]
fn tiles_beyond_the_floor_stay_dark() {
    let after = transform(vec![0, 0, 0, 0]);
    assert_eq!(after, vec![0b1111; 4]);
    let again = transform(after);
    // Corners have one diagonal neighbour, edges two, the middle four.
    assert_eq!(again, vec![0b1001, 0b0000, 0b0000, 0b1001]);
}

#[test]
fn ducks_move_on_where_a_column_has_more() {
    let mut ducks = vec![5, 1, 3];
    assert!(sweep(&mut ducks, true));
    // 5 > 1: [4, 2, 3]; 2 > 3 does not hold.
    assert_eq!(ducks, vec![4, 2, 3]);
    assert!(sweep(&mut ducks, true));
    assert_eq!(ducks, vec![3, 3, 3]);
    assert!(!sweep(&mut ducks, true));
    assert_eq!(ducks, vec![3, 3, 3]);
    let mut chain = vec![3, 2, 1];
    assert!(sweep(&mut chain, true));
    // 3 > 2: [2, 3, 1]; 3 > 1: [2, 2, 2].
    assert_eq!(chain, vec![2, 2, 2]);
}

#[test]
fn ducks_move_back_where_a_column_has_fewer() {
    let mut ducks = vec![1, 2, 6];
    assert!(sweep(&mut ducks, false));
    // 1 < 2: [2, 1, 6]; 1 < 6: [2, 2, 5].
    assert_eq!(ducks, vec![2, 2, 5]);
    let mut one = vec![7];
    assert!(!sweep(&mut one, false));
}

#[test]
fn phases_count_the_rounds_that_move_a_duck() {
    let mut ducks = vec![9, 1, 1, 4, 9, 6];
    let first = phase1(&mut ducks, None);
    assert!(ducks.windows(2).all(|w| w[0] <= w[1]));
    let mut again = vec![9, 1, 1, 4, 9, 6];
    assert_eq!(phase(&mut again, true, u64::MAX), first);
    assert_eq!(again, ducks);
    let mut capped = vec![9, 1, 1, 4, 9, 6];
    assert_eq!(phase1(&mut capped, Some(2)), 2);
    // [8, 2, 1, 4, 8, 7] and then [7, 2, 2, 4, 7, 8]
    assert_eq!(capped, vec![7, 2, 2, 4, 7, 8]);
    let expected = count_phase2_rounds(&ducks).unwrap();
    let total = phase2(&mut ducks, first, u64::MAX);
    assert_eq!(total - first, expected);
    assert!(ducks.iter().all(|d| *d == 5));
}

#[test]
fn second_phase_takes_what_the_low_columns_lack() {
    // Least 2, surplus 0 + 1 + 9 + 10 = 20, level 2 + 20 / 4 = 7: 5 + 4.
    assert_eq!(count_phase2_rounds(&vec![2, 3, 11, 12]), Some(9));
    assert_eq!(count_phase2_rounds(&vec![4, 4, 4]), Some(0));
    assert_eq!(count_phase2_rounds(&vec![8]), Some(0));
    // Counting stops at the first column that lacks nothing.
    assert_eq!(count_phase2_rounds(&vec![0, 9, 0]), Some(3));
    assert_eq!(count_phase2_rounds(&vec![0, u64::MAX, u64::MAX]), None);
}

#[test]
fn corners_of_a_rectangle_are_marked() {
    let mut grid = vec![0i64; 9];
    add_range(&mut grid, 0, 0, 2, 2, 3);
    assert_eq!(grid, vec![1, 0, -1, 0, 0, 0, -1, 0, 1]);
    // A rectangle that reaches the border leaves the marks beyond it out.
    add_range(&mut grid, 1, 1, 3, 3, 3);
    assert_eq!(grid, vec![1, 0, -1, 0, 1, 0, -1, 0, 1]);
    add_range(&mut grid, 1, 0, 2, 5, 3);
    assert_eq!(grid, vec![1, 1, -2, 0, 1, 0, -1, 0, 1]);
    // Nothing is marked for a rectangle that begins beyond the grid.
    add_range(&mut grid, 3, 0, 4, 1, 3);
    add_range(&mut grid, 0, 3, 1, 4, 3);
    assert_eq!(grid, vec![1, 1, -2, 0, 1, 0, -1, 0, 1]);
    // Running sums along both axes fill the rectangles.
    let mut area = vec![0i64; 16];
    add_range(&mut area, 1, 1, 3, 3, 4);
    for y in 0..4 {
        for x in 1..4 {
            area[y * 4 + x] += area[y * 4 + x - 1];
        }
    }
    for x in 0..4 {
        for y in 1..4 {
            area[y * 4 + x] += area[(y - 1) * 4 + x];
        }
    }
    assert_eq!(area, vec![0, 0, 0, 0, 0, 1, 1, 0, 0, 1, 1, 0, 0, 0, 0, 0]);
}

#[test]
fn spell_is_read_off_the_wall() {
    assert_eq!(reconstruct(vec![1, 2, 1, 2]), Some(vec![1, 2]));
    assert_eq!(reconstruct(vec![0, 1, 0, 1]), Some(vec![2]));
    // Columns 1..=10 of the spell 1, 2, 3, 5.
    assert_eq!(reconstruct(vec![1, 2, 2, 2, 2, 3, 1, 2, 2, 3]), Some(vec![1, 2, 3, 5]));
    assert_eq!(reconstruct(vec![0, 0, 0]), Some(vec![]));
    assert_eq!(reconstruct(vec![]), Some(vec![]));
    // The number 1 asks for a block on every column.
    assert_eq!(reconstruct(vec![1, 0]), None);
}

fn plant(free: bool, thickness: i64, branches: &[(i64, Option<usize>)]) -> Plant {
    Plant {
        id: 0,
        free,
        thickness,
        incoming: branches.iter().map(|b| Incoming { thickness: b.0, source: b.1 }).collect(),
    }
}

#[test]
fn plants_pass_their_energy_on() {
    let plants = vec![
        plant(true, 1, &[]),
        plant(true, 1, &[]),
        // Takes in 1 * 5 + 1 * (-2) = 3, which is not less than its thickness.
        plant(false, 3, &[(5, Some(0)), (-2, Some(1))]),
        // Takes in 1 * 2 = 2, less than its thickness of 4: gives off nothing.
        plant(false, 4, &[(2, Some(0))]),
        // Takes in 3 * 10 + 0 * 7 = 30.
        plant(false, 20, &[(10, Some(2)), (7, Some(3)), (9, None)]),
    ];
    assert_eq!(dfs(0, &plants), Some(1));
    assert_eq!(dfs(2, &plants), Some(3));
    assert_eq!(dfs(3, &plants), Some(0));
    assert_eq!(dfs(4, &plants), Some(30));
    let big = vec![plant(true, i64::MAX, &[]), plant(false, 0, &[(2, Some(0))])];
    assert_eq!(dfs(0, &big), Some(i64::MAX));
    assert_eq!(dfs(1, &big), None);
}
