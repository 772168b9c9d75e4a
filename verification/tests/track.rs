use state_search::grid::Grid;
use state_search::puzzles::chariots::Action;
use state_search::puzzles::track::{action, next_piece, parse_track};

fn plan(rows: &[&str]) -> Grid {
    Grid::new(rows.concat().into_bytes(), rows[0].len(), rows.len()).unwrap()
}

fn letters(actions: Option<Vec<Action>>) -> Option<String> {
    actions.map(|list| {
        list.iter()
            .map(|a| match a {
                Action::Inc => '+',
                Action::Dec => '-',
                Action::Maintain => '=',
            })
            .collect()
    })
}

#[test]
fn track_round_a_small_plan() {
    let track = parse_track(&plan(&["S+===", "-   +", "=+=-+"]));
    assert_eq!(letters(track), Some("+===++-=+=-=".to_string()));
}

#[test]
fn track_of_two_rows() {
    assert_eq!(letters(parse_track(&plan(&["S+", "=-"]))), Some("+-==".to_string()));
    assert_eq!(letters(parse_track(&plan(&["S+=", "-=+"]))), Some("+=+=-=".to_string()));
    assert_eq!(letters(parse_track(&plan(&["S-+", "=+="]))), Some("-+=+==".to_string()));
}

#[test]
fn start_right_of_the_first_cell_ends_the_track_at_once() {
    assert_eq!(letters(parse_track(&plan(&["SS"]))), Some("=".to_string()));
}

#[test]
fn track_may_turn_back_to_the_start() {
    assert_eq!(letters(parse_track(&plan(&["S=", "  "]))), Some("==".to_string()));
    assert_eq!(letters(parse_track(&plan(&["S+ ", "== "]))), Some("+===".to_string()));
}

#[test]
fn track_that_never_comes_back_is_refused() {
    assert_eq!(letters(parse_track(&plan(&["S+-"]))), None);
    assert_eq!(letters(parse_track(&plan(&["S+=", "  -"]))), None);
}

#[test]
fn byte_that_is_no_piece_of_track_is_refused() {
    assert_eq!(letters(parse_track(&plan(&["S+", "x-"]))), None);
    assert_eq!(letters(parse_track(&plan(&["S ", "=-"]))), None);
}

#[test]
fn pieces_of_track_have_their_actions() {
    assert!(matches!(action(b'+'), Some(Action::Inc)));
    assert!(matches!(action(b'-'), Some(Action::Dec)));
    assert!(matches!(action(b'='), Some(Action::Maintain)));
    assert!(matches!(action(b'S'), Some(Action::Maintain)));
    assert!(action(b' ').is_none());
    assert!(action(b'x').is_none());
}

#[test]
fn next_piece_is_the_first_neighbour_that_is_not_blank() {
    let grid = plan(&["S+=", "-= ", " ++"]);
    assert_eq!(next_piece(&grid.cells, &grid, 4), Some(7));
    assert_eq!(next_piece(&grid.cells, &grid, 0), Some(1));
    assert_eq!(next_piece(&grid.cells, &grid, 8), Some(7));
    assert_eq!(next_piece(&grid.cells, &grid, 2), Some(1));
    assert_eq!(next_piece(&b"   + ".to_vec(), &plan(&["abcde"]), 1), None);
}
