use state_search::puzzles::dragon::{cell, dfs, dragon_from, knight_move, layout_of, sheep_from, Board};
use state_search::puzzles::sheep::SheepMask;

fn board(rows: &[&str]) -> Board {
    Board {
        hideouts: rows.iter().flat_map(|r| r.bytes()).collect(),
        width: rows[0].len(),
        height: rows.len(),
    }
}

const SPAN: usize = 1 << 32;

#[test]
fn knight_has_eight_moves() {
    let moves: Vec<(i64, i64)> = (0..8).map(knight_move).collect();
    assert_eq!(
        moves,
        vec![(2, 1), (2, -1), (1, 2), (1, -2), (-1, 2), (-1, -2), (-2, 1), (-2, -1)]
    );
}

#[test]
fn sheep_step_down_escape_or_wait() {
    let b = board(&["...", "...", "..."]);
    assert_eq!(cell(&b, 2, 1), b'.');
    let layout = layout_of(&b).unwrap();
    let sheep = SheepMask::new().set(1, 0);
    // Dragon in cell 7 = (1, 2): the sheep steps down to (1, 1).
    assert_eq!(
        sheep_from(&b, &layout, sheep.0, 7),
        vec![((9 + 7) * SPAN + sheep.set(1, 1).0 as usize, 1)]
    );
    // Dragon right below the sheep: the sheep waits and the turn passes.
    assert_eq!(sheep_from(&b, &layout, sheep.0, 4), vec![((9 + 4) * SPAN + sheep.0 as usize, 1)]);
    // A sheep in the last row escapes: no step, and the turn does not pass.
    let last = SheepMask::new().set(1, 2);
    assert_eq!(sheep_from(&b, &layout, last.0, 0), vec![]);
    // A hideout hides the sheep from the dragon.
    let h = board(&["...", ".#.", "..."]);
    let layout = layout_of(&h).unwrap();
    assert_eq!(
        sheep_from(&h, &layout, sheep.0, 4),
        vec![((9 + 4) * SPAN + sheep.set(1, 1).0 as usize, 1)]
    );
    // A hideout that reaches the bottom lets the sheep escape.
    let open = board(&["...", ".H.", ".H."]);
    let layout = layout_of(&open).unwrap();
    assert_eq!(sheep_from(&open, &layout, sheep.0, 0), vec![]);
}

#[test]
fn dragon_eats_where_it_lands() {
    let b = board(&["...", "...", "..."]);
    let layout = layout_of(&b).unwrap();
    let won = 9 * 2 * SPAN;
    let one = SheepMask::new().set(1, 2);
    // From (2, 0): onto the sheep at (1, 2), which was the last; or to (0, 1).
    assert_eq!(dragon_from(&b, &layout, one.0, 2), vec![(won, 1), (3 * SPAN + one.0 as usize, 1)]);
    let two = one.set(0, 1);
    // With a second sheep at (0, 1): eating one leaves the other.
    assert_eq!(
        dragon_from(&b, &layout, two.0, 2),
        vec![
            (7 * SPAN + two.clear(1).0 as usize, 1),
            (3 * SPAN + two.clear(0).0 as usize, 1)
        ]
    );
    let h = board(&["...", "...", ".#."]);
    let layout = layout_of(&h).unwrap();
    assert_eq!(
        dragon_from(&h, &layout, one.0, 2),
        vec![(7 * SPAN + one.0 as usize, 1), (3 * SPAN + one.0 as usize, 1)]
    );
}

#[test]
fn ways_to_eat_all_sheep_are_counted() {
    let b = board(&["...", "...", "..."]);
    let sheep = SheepMask::new().set(1, 0);
    // The sheep steps down twice; the dragon reaches it from (2, 0) or
    // from (0, 0), and once it has escaped nothing counts.
    assert_eq!(dfs(&b, sheep, (1, 2), 4), Some(2));
    assert_eq!(dfs(&b, sheep, (1, 2), 40), Some(2));
    assert_eq!(dfs(&b, sheep, (1, 2), 3), Some(0));
    // No way once the sheep is hidden where the dragon could catch it.
    let h = board(&["...", "...", ".#."]);
    assert_eq!(dfs(&h, sheep, (1, 2), 40), Some(0));
}
