use state_search::puzzles::board_walk::advance;
use state_search::puzzles::dice::Die;

fn board(rows: &[&str]) -> (Vec<i32>, usize, usize) {
    let cells = rows.iter().flat_map(|r| r.bytes().map(|b| (b - b'0') as i32)).collect();
    (cells, rows[0].len(), rows.len())
}

const BOARD: [&str; 5] = ["1523758297", "4822941583", "7627997892", "4397697132", "1799773472"];

#[test]
fn players_stay_or_step_onto_the_number_rolled() {
    let (grid, width, height) = board(&["123", "456", "729"]);
    let mut seen = vec![false; 9];
    let mut taken = vec![false; 9];
    let out = advance(&grid, width, height, &vec![(1, 1)], 2, &mut seen, &mut taken);
    assert_eq!(out, vec![(1, 0), (1, 2)]);
    assert_eq!(seen, vec![false, true, false, false, false, false, false, true, false]);
    assert_eq!(taken, seen);
    let stay = advance(&grid, width, height, &vec![(1, 1)], 5, &mut seen, &mut taken);
    assert_eq!(stay, vec![(1, 1)]);
    assert_eq!(taken.iter().filter(|t| **t).count(), 3);
}

#[test]
fn cell_reached_by_two_players_is_listed_once() {
    let (grid, width, height) = board(&["121", "212"]);
    let mut seen = vec![false; 6];
    let mut taken = vec![false; 6];
    let out = advance(&grid, width, height, &vec![(0, 0), (2, 0), (1, 1)], 2, &mut seen, &mut taken);
    assert_eq!(out, vec![(1, 0), (0, 1), (2, 1)]);
}

#[test]
fn cell_seen_with_this_roll_before_is_not_taken_again() {
    let (grid, width, height) = board(&["22", "22"]);
    let mut seen = vec![true, false, false, false];
    let mut taken = vec![false, false, false, true];
    let out = advance(&grid, width, height, &vec![(0, 0)], 2, &mut seen, &mut taken);
    assert_eq!(out, vec![(1, 0), (0, 1)]);
    assert_eq!(seen, vec![true, true, true, false]);
    assert_eq!(taken, vec![false, true, true, true]);
}

#[test]
fn no_players_and_no_matching_number_move_nobody() {
    let (grid, width, height) = board(&["11", "11"]);
    let mut seen = vec![false; 4];
    let mut taken = vec![false; 4];
    assert!(advance(&grid, width, height, &Vec::new(), 1, &mut seen, &mut taken).is_empty());
    assert!(advance(&grid, width, height, &vec![(0, 0), (1, 1)], 7, &mut seen, &mut taken).is_empty());
    assert_eq!(seen, vec![false; 4]);
    assert_eq!(taken, vec![false; 4]);
}

#[test]
fn one_die_takes_thirty_three_cells_of_the_board() {
    let (grid, width, height) = board(&BOARD);
    let mut taken = vec![false; grid.len()];
    let mut seen: Vec<Vec<bool>> = Vec::new();
    for y in 0..height {
        for x in 0..width {
            let mut die = Die::new(vec![1, 2, 3, 4, 5, 6, 7, 8, 9], 13);
            let mut players = vec![(x, y)];
            let mut roll = 0;
            while !players.is_empty() {
                let score = die.next().unwrap();
                if seen.len() <= roll {
                    seen.push(vec![false; grid.len()]);
                }
                players = advance(&grid, width, height, &players, score, &mut seen[roll], &mut taken);
                roll += 1;
            }
        }
    }
    assert_eq!(taken.iter().filter(|t| **t).count(), 33);
}
