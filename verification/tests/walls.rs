use state_search::puzzles::walls::{
    cell_at, is_wall, key_at, nearest_stop, runs_from, steps_from, wall_run, wall_walk,
};

type Segment = ((i64, i64), (i64, i64));

/// The cells and the segments of the walls that the turns draw, and the
/// cell where they end.
fn trace(turns: &str) -> (Vec<(i64, i64)>, Vec<Segment>, (i64, i64)) {
    let mut pos = (0i64, 0i64);
    let mut dir = (0i64, -1i64);
    let mut cells = Vec::new();
    let mut segments = Vec::new();
    for t in turns.split(',') {
        dir = if t.starts_with('L') { (dir.1, -dir.0) } else { (-dir.1, dir.0) };
        let from = pos;
        for _ in 0..t[1..].parse::<i64>().unwrap() {
            cells.push(pos);
            pos = (pos.0 + dir.0, pos.1 + dir.1);
        }
        segments.push(if from < pos { (from, pos) } else { (pos, from) });
    }
    (cells, segments, pos)
}

#[test]
fn way_round_the_spiral_takes_six_steps() {
    let (cells, _, end) = trace("R3,R4,L3,L4,R3,R6,R9");
    assert_eq!(end, (0, 6));
    assert_eq!(wall_walk(&cells, end, 20), Some(6));
}

#[test]
fn way_through_the_winding_walls_takes_sixteen_steps() {
    let (cells, _, end) = trace("L6,L3,L6,R3,L6,L3,L3,R6,L6,R6,L6,L6,R3,L3,L3,R3,R3,L6,L6,L3");
    assert_eq!(end, (-6, 6));
    assert_eq!(wall_walk(&cells, end, 20), Some(16));
}

#[test]
fn way_stays_on_the_field() {
    let (cells, _, end) = trace("L3,R2,R4,R6");
    assert_eq!(wall_walk(&cells, end, 20), Some(5));
    assert_eq!(wall_walk(&cells, end, 4), Some(5));
    let (ring, _, at) = trace("R3,R4,L3,L4,R3,R6,R9");
    assert_eq!(wall_walk(&ring, at, 9), Some(6));
    assert_eq!(wall_walk(&ring, (9, 9), 9), Some(18));
    let fence = vec![(1, -2), (1, -1), (1, 0), (1, 1), (1, 2)];
    assert_eq!(wall_walk(&fence, (2, 0), 2), None);
    assert_eq!(wall_walk(&fence, (2, 0), 3), Some(8));
}

#[test]
fn way_that_starts_at_the_origin_takes_no_step() {
    let (cells, segments, end) = trace("R5,R5,R5,R5");
    assert_eq!(end, (0, 0));
    assert_eq!(wall_walk(&cells, end, 8), Some(0));
    assert_eq!(wall_run(&segments, end, 8), Some(0));
    assert_eq!(wall_walk(&Vec::new(), (3, -2), 5), Some(5));
}

#[test]
fn origin_may_be_entered_though_it_is_a_wall() {
    assert_eq!(wall_walk(&vec![(0, 0)], (1, 0), 2), Some(1));
    assert_eq!(wall_walk(&vec![(0, 0), (1, 0), (0, 1), (-1, 0), (0, -1)], (2, 2), 3), None);
    assert_eq!(wall_walk(&vec![(0, 0), (1, 0), (0, 1), (-1, 0)], (2, 2), 3), Some(6));
}

#[test]
fn cells_are_numbered_row_by_row() {
    assert_eq!(key_at((-2, -2), 2), 0);
    assert_eq!(key_at((0, 0), 2), 12);
    assert_eq!(key_at((2, 2), 2), 24);
    assert_eq!(cell_at(0, 2), (-2, -2));
    assert_eq!(cell_at(13, 2), (1, 0));
    for s in 0..49 {
        assert_eq!(key_at(cell_at(s, 3), 3), s);
    }
}

#[test]
fn steps_avoid_walls_and_the_edge() {
    let walls = vec![(1, 0), (0, 0)];
    assert!(is_wall(&walls, (1, 0)));
    assert!(!is_wall(&walls, (0, 1)));
    assert_eq!(steps_from(&walls, 1, key_at((1, 1), 1)), vec![(key_at((0, 1), 1), 1)]);
    assert_eq!(
        steps_from(&walls, 1, key_at((0, 1), 1)),
        vec![(key_at((1, 1), 1), 1), (key_at((-1, 1), 1), 1), (key_at((0, 0), 1), 1)]
    );
}

#[test]
fn runs_lead_to_the_origin_round_the_spiral() {
    let (_, segments, end) = trace("R3,R4,L3,L4,R3,R6,R9");
    assert_eq!(wall_run(&segments, end, 30), Some(6));
    let (_, corner, at) = trace("L3,R2,R4,R6");
    assert_eq!(at, (1, 4));
    assert_eq!(wall_run(&corner, at, 30), Some(7));
}

#[test]
fn runs_that_never_stop_beside_the_origin_find_no_way() {
    let (_, segments, end) = trace("R2,L2");
    assert_eq!(end, (2, -2));
    assert_eq!(wall_run(&segments, end, 30), None);
    assert_eq!(wall_run(&Vec::new(), (4, 0), 30), None);
    assert_eq!(wall_run(&Vec::new(), (1, 0), 30), Some(1));
}

#[test]
fn run_stops_before_a_wall_and_behind_the_line_of_one() {
    let walls: Vec<Segment> = vec![((3, -1), (3, 1)), ((6, 2), (6, 5))];
    assert_eq!(nearest_stop(&walls, 10, (0, 0), 0, false), Some(((2, 0), 2)));
    assert_eq!(nearest_stop(&walls, 10, (0, 3), 0, false), Some(((4, 3), 4)));
    assert_eq!(nearest_stop(&walls, 10, (4, 3), 0, false), Some(((5, 3), 1)));
    assert_eq!(nearest_stop(&walls, 10, (0, 3), 2, false), None);
    assert_eq!(nearest_stop(&walls, 10, (0, 3), 1, false), None);
    assert_eq!(nearest_stop(&walls, 10, (3, 1), 0, true), Some(((7, 1), 4)));
    assert_eq!(
        runs_from(&walls, 10, (9, 9), key_at((0, 3), 10)),
        vec![(key_at((4, 3), 10), 4)]
    );
    assert_eq!(
        runs_from(&walls, 10, (9, 9), key_at((0, 1), 10)),
        vec![(key_at((2, 1), 10), 2), (key_at((0, 0), 10), 1)]
    );
}
