use state_search::puzzles::tokens::{dijkstra, drop_token, placings_from};

fn board(rows: &[&str]) -> Vec<Vec<bool>> {
    rows.iter().map(|r| r.chars().map(|c| c == '*').collect()).collect()
}

#[test]
fn token_bounces_off_nails_and_wins_by_where_it_lands() {
    let b = board(&["..*..", ".....", ".*...", "....."]);
    // Slot 1 is column 2: the nail sends the token left to column 1, the
    // next nail right to column 2 again.
    assert_eq!(drop_token(1, &b"LR".to_vec(), &b), Some(2 * 2 - 2));
    // Left twice: column 1, then column 0: slot 1 of 1-based slots.
    assert_eq!(drop_token(1, &b"LL".to_vec(), &b), Some(0));
    // Right: column 3, no more nails: slot 2.
    assert_eq!(drop_token(1, &b"R".to_vec(), &b), Some(2 * 2 - 2));
    // Slot 0 falls straight through: 2 * 1 - 1.
    assert_eq!(drop_token(0, &b"".to_vec(), &b), Some(1));
    // Slot 2 falls straight through: 2 * 3 - 3.
    assert_eq!(drop_token(2, &b"".to_vec(), &b), Some(3));
}

#[test]
fn token_turns_back_at_the_edges() {
    let b = board(&["*...*"]);
    assert_eq!(drop_token(0, &b"L".to_vec(), &b), Some(1));
    assert_eq!(drop_token(2, &b"R".to_vec(), &b), Some(2 * 2 - 3));
}

#[test]
fn sequence_that_runs_out_gives_none() {
    let b = board(&["..*..", ".*...", "....."]);
    assert_eq!(drop_token(1, &b"".to_vec(), &b), None);
    assert_eq!(drop_token(1, &b"L".to_vec(), &b), None);
    assert_eq!(drop_token(1, &b"LL".to_vec(), &b), Some(0));
}

#[test]
fn placing_takes_a_free_slot_for_the_next_token() {
    let scores = vec![vec![1, 5], vec![2, 3]];
    // Keys are tokens placed * 4 + set of slots taken.
    assert_eq!(placings_from(&scores, 2, 0), vec![(4 + 1, 1), (4 + 2, 5)]);
    assert_eq!(placings_from(&scores, 2, 4 + 1), vec![(8 + 3, 3)]);
    assert_eq!(placings_from(&scores, 2, 4 + 2), vec![(8 + 3, 2)]);
    assert_eq!(placings_from(&scores, 2, 8 + 3), vec![]);
}

#[test]
fn least_and_greatest_total_over_all_placings() {
    assert_eq!(dijkstra(&vec![vec![1, 5], vec![2, 3]], 2), Some((Some(4), Some(7))));
    let scores = vec![vec![4, 1, 7], vec![2, 9, 3], vec![8, 5, 6]];
    // Least: 1 + 2 + 6 = 9 or 1 + 3 + 8 = 12 or 4 + 3 + 5 = 12 ...: 9.
    // Greatest: 7 + 9 + 8 = 24.
    assert_eq!(dijkstra(&scores, 3), Some((Some(9), Some(24))));
    // More slots than tokens.
    assert_eq!(dijkstra(&vec![vec![3, 1, 2]], 3), Some((Some(1), Some(3))));
    // A partial sum that looks best does not win: 9 + 0 against 1 + 10.
    assert_eq!(dijkstra(&vec![vec![9, 1], vec![10, 0]], 2), Some((Some(9), Some(11))));
    assert_eq!(dijkstra(&vec![], 4), Some((Some(0), Some(0))));
}

#[test]
fn more_tokens_than_slots_have_no_placing() {
    assert_eq!(dijkstra(&vec![vec![1], vec![1]], 1), None);
    assert_eq!(dijkstra(&vec![vec![4, 2], vec![1, 7], vec![3, 3]], 2), None);
    assert_eq!(dijkstra(&vec![vec![]], 0), None);
    assert_eq!(dijkstra(&vec![vec![6]], 1), Some((Some(6), Some(6))));
    assert_eq!(dijkstra(&Vec::new(), 0), Some((Some(0), Some(0))));
}

fn totals_by_trying_all(scores: &[Vec<usize>], y: usize, taken: u32) -> Option<(u64, u64)> {
    if y == scores.len() {
        return Some((0, 0));
    }
    let mut best: Option<(u64, u64)> = None;
    for (slot, score) in scores[y].iter().enumerate() {
        if taken & (1 << slot) == 0 {
            if let Some((low, high)) = totals_by_trying_all(scores, y + 1, taken | (1 << slot)) {
                let (low, high) = (low + *score as u64, high + *score as u64);
                best = Some(best.map_or((low, high), |b| (b.0.min(low), b.1.max(high))));
            }
        }
    }
    best
}

#[test]
fn totals_agree_with_trying_every_placing() {
    let mut seed: u64 = 17;
    for rows in 0..5usize {
        for slots in rows..6usize {
            let scores: Vec<Vec<usize>> = (0..rows)
                .map(|_| {
                    (0..slots)
                        .map(|_| {
                            seed = seed.wrapping_mul(6364136223846793005).wrapping_add(1442695040888963407);
                            (seed >> 59) as usize
                        })
                        .collect()
                })
                .collect();
            let expected = totals_by_trying_all(&scores, 0, 0).map(|t| (Some(t.0), Some(t.1)));
            assert_eq!(dijkstra(&scores, slots as u32), expected, "{scores:?}");
        }
    }
}
