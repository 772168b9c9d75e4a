//! A glider over a map of air currents.
//!
//! With every step to a neighbouring cell the glider loses one unit of
//! altitude over plain air (`.`, `S` and the letters of the checkpoints),
//! loses two in a downdraft (`-`) and gains one in an updraft (`+`). Walls
//! (`#`) cannot be entered, and the glider cannot turn back on the spot.
//! A state is a cell together with the direction of the last step and
//! whatever else the flight has to keep track of.

use vstd::prelude::*;
use crate::graph::{edges_of, is_shortest_cost};
use crate::grid::Grid;
use crate::search::{computes_successors, decides_goal, dijkstra_sparse};
use crate::state_key::KeyLayout;

verus! {

/// What a step into a cell that holds `byte` costs, as the altitude that
/// is lost against a step in an updraft: nothing in an updraft, two over
/// plain air, three in a downdraft; `None` for a cell that cannot be
/// entered.
pub open spec fn loss_of(byte: u8) -> Option<u64> {
    if byte == 0x2b {
        Some(0)
    } else if byte == 0x2e || byte == 0x53 || byte == 0x41 || byte == 0x42 || byte == 0x43 {
        Some(2)
    } else if byte == 0x2d {
        Some(3)
    } else {
        None
    }
}

/// What a step into a cell that holds `byte` costs.
pub fn loss(byte: u8) -> (r: Option<u64>)
    ensures
        r == loss_of(byte),
{
    if byte == 0x2b {
        Some(0)
    } else if byte == 0x2e || byte == 0x53 || byte == 0x41 || byte == 0x42 || byte == 0x43 {
        Some(2)
    } else if byte == 0x2d {
        Some(3)
    } else {
        None
    }
}

/// The layout that numbers the states of a flight of at most `time` steps:
/// a cell, the direction of the last step, and the steps taken.
pub open spec fn timed_layout(grid: Grid, time: usize) -> KeyLayout {
    KeyLayout { width: grid.cells@.len() as usize, height: 4, aux_range: (time + 1) as usize }
}

/// The step of a timed flight from the state with key `s` in direction
/// `d`: to the neighbouring cell, one step later, unless that would be
/// turning back, leaving the map, entering a wall or flying longer than
/// `time`.
pub open spec fn timed_step(grid: Grid, time: usize, s: usize, d: int) -> Option<(usize, u64)> {
    let layout = timed_layout(grid, time);
    let cell = layout.x_of(s as nat) as usize;
    let dir = layout.y_of(s as nat) as int;
    let t = layout.aux_of(s as nat) as int;
    if (d + 2) % 4 == dir || t >= time {
        None
    } else {
        match grid.neighbor_of(cell, d) {
            Some(next) => match loss_of(grid.cells@[next as int]) {
                Some(l) => Some((layout.key_of(next as nat, d as nat, (t + 1) as nat) as usize, l)),
                None => None,
            },
            None => None,
        }
    }
}

/// The steps of a timed flight from the state with key `s` in the first
/// `upto` directions.
pub open spec fn timed_steps(grid: Grid, time: usize, s: usize, upto: nat) -> Seq<(usize, u64)>
    decreases upto,
{
    if upto == 0 {
        Seq::empty()
    } else {
        let before = timed_steps(grid, time, s, (upto - 1) as nat);
        match timed_step(grid, time, s, upto - 1) {
            Some(step) => before.push(step),
            None => before,
        }
    }
}

/// The timed flight as a graph.
pub open spec fn timed_graph(grid: Grid, time: usize) -> spec_fn(usize) -> Seq<(usize, u64)> {
    |s: usize| timed_steps(grid, time, s, 4)
}

/// The states in which a timed flight is over: those with all of `time`
/// steps taken.
pub open spec fn timed_goals(grid: Grid, time: usize) -> spec_fn(usize) -> bool {
    |s: usize| timed_layout(grid, time).aux_of(s as nat) == time
}

/// The steps of a timed flight out of the state with key `s`.
pub fn timed_from(grid: &Grid, time: usize, s: usize) -> (r: Vec<(usize, u64)>)
    requires
        grid.wf(),
        time < usize::MAX,
        timed_layout(*grid, time).wf(),
        s < timed_layout(*grid, time).capacity(),
    ensures
        r@ == timed_graph(*grid, time)(s),
        forall|i: int|
            0 <= i < r@.len() ==> (#[trigger] r@[i]).0 < timed_layout(*grid, time).capacity(),
{
    let layout = KeyLayout { width: grid.len(), height: 4, aux_range: time + 1 };
    let (cell, dir, t) = layout.decode(s);
    let mut out: Vec<(usize, u64)> = Vec::new();
    let mut d: usize = 0;
    while d < 4
        invariant
            d <= 4,
            grid.wf(),
            time < usize::MAX,
            layout == timed_layout(*grid, time),
            layout.wf(),
            layout.width == grid.area(),
            layout.height == 4,
            layout.aux_range == time + 1,
            cell == layout.x_of(s as nat),
            dir == layout.y_of(s as nat),
            t == layout.aux_of(s as nat),
            cell < grid.area(),
            dir < 4,
            t <= time,
            out@ == timed_steps(*grid, time, s, d as nat),
            forall|i: int| 0 <= i < out@.len() ==> (#[trigger] out@[i]).0 < layout.capacity(),
        decreases 4 - d,
    {
        if (d + 2) % 4 != dir && t < time {
            match grid.neighbor(cell, d) {
                Some(next) => {
                    match loss(grid.cells[next]) {
                        Some(l) => {
                            let key: usize = layout.encode(next, d, t + 1);
                            out.push((key, l));
                        },
                        None => {},
                    }
                },
                None => {},
            }
        }
        d += 1;
    }
    out
}

/// The altitude that is left of `altitude + time` after a loss, if there
/// is a flight and the loss is not greater.
pub open spec fn altitude_left(altitude: u64, time: usize, least: Option<u64>) -> Option<u64> {
    match least {
        Some(l) => if l <= altitude + time {
            Some((altitude + time - l) as u64)
        } else {
            None
        },
        None => None,
    }
}

/// The greatest altitude that a glider can have after exactly `time` steps
/// when it sets out from the cell `start` at the altitude `altitude`, its
/// first step not going up the map; `None` when it cannot fly that long or
/// would end below the ground.
///
/// The altitude is `altitude + time` less the least total loss of a flight
/// of `time` steps.
pub fn part1(grid: &Grid, start: usize, altitude: u64, time: usize) -> (r: Option<u64>)
    requires
        grid.wf(),
        start < grid.area(),
        time < usize::MAX,
        timed_layout(*grid, time).wf(),
        altitude + time <= u64::MAX,
    ensures
        exists|least: Option<u64>|
            #![trigger altitude_left(altitude, time, least)]
            is_shortest_cost(
                edges_of(timed_graph(*grid, time)),
                timed_goals(*grid, time),
                timed_layout(*grid, time).key_of(start as nat, 1, 0) as usize,
                u64::MAX as nat,
                least,
            ) && r == altitude_left(altitude, time, least),
{
    let layout = KeyLayout { width: grid.len(), height: 4, aux_range: time + 1 };
    let n: usize = layout.capacity_of();
    let first: usize = layout.encode(start, 1, 0);
    let ghost numbered = timed_layout(*grid, time);
    let ghost graph = timed_graph(*grid, time);
    let ghost goals = timed_goals(*grid, time);
    let transition = |s: usize| -> (list: Vec<(usize, u64)>)
        requires
            grid.wf(),
            time < usize::MAX,
            layout == numbered,
            layout.wf(),
            s < layout.capacity(),
        ensures
            list@ == graph(s),
            forall|i: int| 0 <= i < list@.len() ==> (#[trigger] list@[i]).0 < layout.capacity(),
        { timed_from(grid, time, s) };
    let goal = |s: usize| -> (b: bool)
        requires
            layout == numbered,
            layout.wf(),
            s < layout.capacity(),
        ensures
            b == goals(s),
        { layout.decode(s).2 == time };
    let least = dijkstra_sparse(first, n, transition, goal);
    proof {
        assert(computes_successors(&transition, n, graph));
        assert(decides_goal(&goal, n, goals));
    }
    let r = match least {
        Some(l) => {
            if l <= altitude + (time as u64) {
                Some(altitude + (time as u64) - l)
            } else {
                None
            }
        },
        None => None,
    };
    assert(r == altitude_left(altitude, time, least));
    r
}

/// What a step of a round trip into a cell that holds `byte` does for a
/// glider that has passed `passed` checkpoints: the change of altitude and
/// the checkpoints passed afterwards. The checkpoints `A`, `B` and `C` can
/// only be entered in this order, and `S` only after all three.
pub open spec fn trip_rule(byte: u8, passed: int) -> Option<(int, int)> {
    if byte == 0x41 {
        if passed == 0 {
            Some((-1, 1))
        } else {
            None
        }
    } else if byte == 0x42 {
        if passed == 1 {
            Some((-1, 2))
        } else {
            None
        }
    } else if byte == 0x43 {
        if passed == 2 {
            Some((-1, 3))
        } else {
            None
        }
    } else if byte == 0x53 {
        if passed == 3 {
            Some((-1, 3))
        } else {
            None
        }
    } else if byte == 0x2e {
        Some((-1, passed))
    } else if byte == 0x2d {
        Some((-2, passed))
    } else if byte == 0x2b {
        Some((1, passed))
    } else {
        None
    }
}

/// The layout that numbers the states of a round trip below the altitude
/// `ceiling`: a cell, the direction of the last step together with the
/// checkpoints passed, and the altitude.
pub open spec fn trip_layout(grid: Grid, ceiling: usize) -> KeyLayout {
    KeyLayout { width: grid.cells@.len() as usize, height: 16, aux_range: (ceiling + 1) as usize }
}

/// The step of a round trip from the state with key `s` in direction `d`.
pub open spec fn trip_step(grid: Grid, ceiling: usize, s: usize, d: int) -> Option<(usize, u64)> {
    let layout = trip_layout(grid, ceiling);
    let cell = layout.x_of(s as nat) as usize;
    let dir = layout.y_of(s as nat) as int / 4;
    let passed = layout.y_of(s as nat) as int % 4;
    let altitude = layout.aux_of(s as nat) as int;
    if (d + 2) % 4 == dir {
        None
    } else {
        match grid.neighbor_of(cell, d) {
            Some(next) => match trip_rule(grid.cells@[next as int], passed) {
                Some(rule) => if 0 <= altitude + rule.0 <= ceiling {
                    Some(
                        (
                            layout.key_of(
                                next as nat,
                                (d * 4 + rule.1) as nat,
                                (altitude + rule.0) as nat,
                            ) as usize,
                            1u64,
                        ),
                    )
                } else {
                    None
                },
                None => None,
            },
            None => None,
        }
    }
}

/// The steps of a round trip from the state with key `s` in the first
/// `upto` directions.
pub open spec fn trip_steps(grid: Grid, ceiling: usize, s: usize, upto: nat) -> Seq<(usize, u64)>
    decreases upto,
{
    if upto == 0 {
        Seq::empty()
    } else {
        let before = trip_steps(grid, ceiling, s, (upto - 1) as nat);
        match trip_step(grid, ceiling, s, upto - 1) {
            Some(step) => before.push(step),
            None => before,
        }
    }
}

/// The round trip as a graph.
pub open spec fn trip_graph(grid: Grid, ceiling: usize) -> spec_fn(usize) -> Seq<(usize, u64)> {
    |s: usize| trip_steps(grid, ceiling, s, 4)
}

/// The states in which a round trip is done: back on `S` with all three
/// checkpoints passed and at the altitude `altitude`.
pub open spec fn trip_goals(grid: Grid, ceiling: usize, altitude: usize) -> spec_fn(usize) -> bool {
    |s: usize|
        {
            let layout = trip_layout(grid, ceiling);
            grid.cells@[layout.x_of(s as nat) as int] == 0x53 && layout.y_of(s as nat) % 4 == 3
                && layout.aux_of(s as nat) == altitude
        }
}

/// What a step of a round trip into a cell that holds `byte` does: whether
/// the glider climbs, by how much its altitude changes, and the
/// checkpoints passed afterwards.
pub fn trip_change(byte: u8, passed: usize) -> (r: Option<(bool, usize, usize)>)
    requires
        passed < 4,
    ensures
        match (r, trip_rule(byte, passed as int)) {
            (Some(c), Some(rule)) => (if c.0 {
                c.1 as int
            } else {
                -(c.1 as int)
            }) == rule.0 && c.2 == rule.1 && c.2 < 4 && c.1 <= 2,
            (None, None) => true,
            _ => false,
        },
{
    if byte == 0x41 {
        if passed == 0 {
            Some((false, 1, 1))
        } else {
            None
        }
    } else if byte == 0x42 {
        if passed == 1 {
            Some((false, 1, 2))
        } else {
            None
        }
    } else if byte == 0x43 {
        if passed == 2 {
            Some((false, 1, 3))
        } else {
            None
        }
    } else if byte == 0x53 {
        if passed == 3 {
            Some((false, 1, 3))
        } else {
            None
        }
    } else if byte == 0x2e {
        Some((false, 1, passed))
    } else if byte == 0x2d {
        Some((false, 2, passed))
    } else if byte == 0x2b {
        Some((true, 1, passed))
    } else {
        None
    }
}

/// The steps of a round trip out of the state with key `s`.
pub fn trip_from(grid: &Grid, ceiling: usize, s: usize) -> (r: Vec<(usize, u64)>)
    requires
        grid.wf(),
        ceiling < usize::MAX,
        trip_layout(*grid, ceiling).wf(),
        s < trip_layout(*grid, ceiling).capacity(),
    ensures
        r@ == trip_graph(*grid, ceiling)(s),
        forall|i: int|
            0 <= i < r@.len() ==> (#[trigger] r@[i]).0 < trip_layout(*grid, ceiling).capacity(),
{
    let layout = KeyLayout { width: grid.len(), height: 16, aux_range: ceiling + 1 };
    let (cell, turn, altitude) = layout.decode(s);
    let dir: usize = turn / 4;
    let passed: usize = turn % 4;
    let mut out: Vec<(usize, u64)> = Vec::new();
    let mut d: usize = 0;
    while d < 4
        invariant
            d <= 4,
            grid.wf(),
            ceiling < usize::MAX,
            layout == trip_layout(*grid, ceiling),
            layout.wf(),
            layout.width == grid.area(),
            layout.height == 16,
            layout.aux_range == ceiling + 1,
            cell == layout.x_of(s as nat),
            turn == layout.y_of(s as nat),
            altitude == layout.aux_of(s as nat),
            dir == turn / 4,
            passed == turn % 4,
            cell < grid.area(),
            turn < 16,
            altitude <= ceiling,
            out@ == trip_steps(*grid, ceiling, s, d as nat),
            forall|i: int| 0 <= i < out@.len() ==> (#[trigger] out@[i]).0 < layout.capacity(),
        decreases 4 - d,
    {
        if (d + 2) % 4 != dir {
            match grid.neighbor(cell, d) {
                Some(next) => {
                    match trip_change(grid.cells[next], passed) {
                        Some((climbs, by, then)) => {
                            let after: Option<usize> = if climbs {
                                if altitude + by <= ceiling {
                                    Some(altitude + by)
                                } else {
                                    None
                                }
                            } else if altitude >= by {
                                Some(altitude - by)
                            } else {
                                None
                            };
                            match after {
                                Some(a) => {
                                    let key: usize = layout.encode(next, d * 4 + then, a);
                                    out.push((key, 1));
                                },
                                None => {},
                            }
                        },
                        None => {},
                    }
                },
                None => {},
            }
        }
        d += 1;
    }
    out
}

/// The cells of the three checkpoints and of the place where the trip
/// begins and ends.
#[derive(Clone, Copy, Debug)]
pub struct Marks {
    pub a: usize,
    pub b: usize,
    pub c: usize,
    pub s: usize,
}

/// Whether the cell `at` is the only one that holds `byte`.
pub open spec fn only_at(grid: Grid, byte: u8, at: usize) -> bool {
    &&& at < grid.area()
    &&& grid.cells@[at as int] == byte
    &&& forall|k: int| 0 <= k < grid.area() && grid.cells@[k] == byte ==> k == at
}

/// Whether each of `A`, `B`, `C` and `S` stands in one cell only, the one
/// that `marks` names.
pub open spec fn marks_ok(grid: Grid, marks: Marks) -> bool {
    &&& only_at(grid, 0x41, marks.a)
    &&& only_at(grid, 0x42, marks.b)
    &&& only_at(grid, 0x43, marks.c)
    &&& only_at(grid, 0x53, marks.s)
}

/// How far apart two numbers are.
pub open spec fn gap(a: int, b: int) -> int {
    if a >= b {
        a - b
    } else {
        b - a
    }
}

/// The steps it takes at least to get from the cell `p` to the cell `q`.
pub open spec fn cells_apart(grid: Grid, p: usize, q: usize) -> int {
    gap(grid.x_of(p), grid.x_of(q)) + gap(grid.y_of(p), grid.y_of(q))
}

/// The cell that a glider heads for that has passed `passed` checkpoints.
pub open spec fn heading(marks: Marks, passed: int) -> usize {
    if passed == 0 {
        marks.a
    } else if passed == 1 {
        marks.b
    } else if passed == 2 {
        marks.c
    } else {
        marks.s
    }
}

/// The steps it takes at least from the cell a glider heads for to the
/// end of the trip.
pub open spec fn beyond(grid: Grid, marks: Marks, passed: int) -> int {
    if passed == 0 {
        cells_apart(grid, marks.a, marks.b) + cells_apart(grid, marks.b, marks.c) + cells_apart(
            grid,
            marks.c,
            marks.s,
        )
    } else if passed == 1 {
        cells_apart(grid, marks.b, marks.c) + cells_apart(grid, marks.c, marks.s)
    } else if passed == 2 {
        cells_apart(grid, marks.c, marks.s)
    } else {
        0
    }
}

/// The estimate of the steps still to come in a round trip: to the cell
/// the glider heads for, and from there past the checkpoints that are
/// left.
pub open spec fn trip_estimate(grid: Grid, ceiling: usize, marks: Marks) -> spec_fn(usize) -> u64 {
    |s: usize|
        {
            let layout = trip_layout(grid, ceiling);
            let cell = layout.x_of(s as nat) as usize;
            let passed = layout.y_of(s as nat) as int % 4;
            (cells_apart(grid, cell, heading(marks, passed)) + beyond(grid, marks, passed)) as u64
        }
}

/// A step to a neighbouring cell brings no cell closer by more than one.
pub proof fn lemma_neighbor_is_near(grid: Grid, cell: usize, d: int, q: usize)
    requires
        grid.wf(),
        cell < grid.area(),
        0 <= d < 4,
        grid.neighbor_of(cell, d).is_some(),
    ensures
        grid.neighbor_of(cell, d).unwrap() < grid.area(),
        cells_apart(grid, cell, q) <= 1 + cells_apart(grid, grid.neighbor_of(cell, d).unwrap(), q),
        cells_apart(grid, cell, grid.neighbor_of(cell, d).unwrap()) == 1,
{
    grid.lemma_cell_in_grid(cell);
    assert(grid.cells@.len() == grid.cells.len());
    let x = grid.x_of(cell) + crate::grid::direction(d).0;
    let y = grid.y_of(cell) + crate::grid::direction(d).1;
    grid.lemma_key_in_grid(x, y);
    let next = grid.neighbor_of(cell, d).unwrap();
    assert(next == y * grid.width + x);
    assert(grid.x_of(next) == x && grid.y_of(next) == y);
    if d == 0 {
        assert(x == grid.x_of(cell) + 1 && y == grid.y_of(cell));
    } else if d == 1 {
        assert(x == grid.x_of(cell) && y == grid.y_of(cell) + 1);
    } else if d == 2 {
        assert(x == grid.x_of(cell) - 1 && y == grid.y_of(cell));
    } else {
        assert(x == grid.x_of(cell) && y == grid.y_of(cell) - 1);
    }
}

/// Two cells are no steps apart only if they are the same cell.
pub proof fn lemma_cells_apart_bounds(grid: Grid, p: usize, q: usize)
    requires
        grid.wf(),
        p < grid.area(),
        q < grid.area(),
    ensures
        0 <= cells_apart(grid, p, q) < grid.width + grid.height,
        cells_apart(grid, p, p) == 0,
{
    grid.lemma_cell_in_grid(p);
    grid.lemma_cell_in_grid(q);
}

/// Every step of the round trip is one of the four steps of its state.
pub proof fn lemma_trip_edge(grid: Grid, ceiling: usize, s: usize, t: usize, w: u64) -> (d: int)
    requires
        trip_steps(grid, ceiling, s, 4).contains((t, w)),
    ensures
        0 <= d < 4,
        trip_step(grid, ceiling, s, d) == Some((t, w)),
{
    reveal_with_fuel(trip_steps, 5);
    let all = trip_steps(grid, ceiling, s, 4);
    let i = choose|i: int| 0 <= i < all.len() && all[i] == (t, w);
    let s0 = trip_steps(grid, ceiling, s, 0);
    let s1 = trip_steps(grid, ceiling, s, 1);
    let s2 = trip_steps(grid, ceiling, s, 2);
    let s3 = trip_steps(grid, ceiling, s, 3);
    assert(s0.len() == 0);
    if i < s1.len() {
        assert(s1[i] == (t, w));
        0
    } else if i < s2.len() {
        assert(s2[i] == (t, w));
        1
    } else if i < s3.len() {
        assert(s3[i] == (t, w));
        2
    } else {
        3
    }
}

/// What a step of the round trip is made of: its direction, the cell it
/// leads to and the checkpoints passed afterwards. The state it leads to is
/// a state of the trip and holds that cell and that number.
pub proof fn lemma_trip_step_parts(grid: Grid, ceiling: usize, s: usize, t: usize, w: u64) -> (r: (
    int,
    usize,
    int,
))
    requires
        grid.wf(),
        ceiling < usize::MAX,
        trip_layout(grid, ceiling).wf(),
        s < trip_layout(grid, ceiling).capacity(),
        trip_steps(grid, ceiling, s, 4).contains((t, w)),
    ensures
        0 <= r.0 < 4,
        trip_layout(grid, ceiling).x_of(s as nat) < grid.area(),
        grid.neighbor_of(trip_layout(grid, ceiling).x_of(s as nat) as usize, r.0) == Some(r.1),
        r.1 < grid.area(),
        trip_rule(grid.cells@[r.1 as int], trip_layout(grid, ceiling).y_of(s as nat) as int % 4)
            matches Some(rule) && rule.1 == r.2,
        0 <= r.2 < 4,
        w == 1,
        t < trip_layout(grid, ceiling).capacity(),
        trip_layout(grid, ceiling).x_of(t as nat) == r.1,
        trip_layout(grid, ceiling).y_of(t as nat) as int % 4 == r.2,
{
    let layout = trip_layout(grid, ceiling);
    assert(grid.cells@.len() == grid.cells.len());
    let d = lemma_trip_edge(grid, ceiling, s, t, w);
    layout.lemma_decode_in_domain(s as nat);
    let cell = layout.x_of(s as nat) as usize;
    let passed = layout.y_of(s as nat) as int % 4;
    let alt = layout.aux_of(s as nat) as int;
    let next = grid.neighbor_of(cell, d).unwrap();
    let rule = trip_rule(grid.cells@[next as int], passed).unwrap();
    grid.lemma_cell_in_grid(cell);
    grid.lemma_key_in_grid(
        grid.x_of(cell) + crate::grid::direction(d).0,
        grid.y_of(cell) + crate::grid::direction(d).1,
    );
    let turn = (d * 4 + rule.1) as nat;
    let after = (alt + rule.0) as nat;
    assert(layout.in_domain(next as nat, turn, after));
    layout.lemma_key_in_range(next as nat, turn, after);
    layout.lemma_decode_encode(next as nat, turn, after);
    assert((d * 4 + rule.1) % 4 == rule.1);
    (d, next, rule.1)
}

/// Along a step of the round trip the estimate drops by no more than one,
/// and the step leads to a state of the trip.
pub proof fn lemma_trip_step_consistent(
    grid: Grid,
    ceiling: usize,
    marks: Marks,
    s: usize,
    t: usize,
    w: u64,
)
    requires
        grid.wf(),
        marks_ok(grid, marks),
        ceiling < usize::MAX,
        trip_layout(grid, ceiling).wf(),
        grid.width + grid.height <= 0x4000_0000,
        s < trip_layout(grid, ceiling).capacity(),
        trip_steps(grid, ceiling, s, 4).contains((t, w)),
    ensures
        t < trip_layout(grid, ceiling).capacity(),
        trip_estimate(grid, ceiling, marks)(s) <= w + trip_estimate(grid, ceiling, marks)(t),
{
    let layout = trip_layout(grid, ceiling);
    let parts = lemma_trip_step_parts(grid, ceiling, s, t, w);
    let d = parts.0;
    let next = parts.1;
    let then = parts.2;
    let cell = layout.x_of(s as nat) as usize;
    let passed = layout.y_of(s as nat) as int % 4;
    let target = heading(marks, passed);
    lemma_neighbor_is_near(grid, cell, d, target);
    lemma_cells_apart_bounds(grid, cell, target);
    lemma_cells_apart_bounds(grid, next, heading(marks, then));
    lemma_cells_apart_bounds(grid, marks.a, marks.b);
    lemma_cells_apart_bounds(grid, marks.b, marks.c);
    lemma_cells_apart_bounds(grid, marks.c, marks.s);
    let here = cells_apart(grid, cell, target) + beyond(grid, marks, passed);
    let there = cells_apart(grid, next, heading(marks, then)) + beyond(grid, marks, then);
    assert(trip_estimate(grid, ceiling, marks)(s) == here as u64);
    assert(trip_estimate(grid, ceiling, marks)(t) == there as u64);
    if then != passed {
        assert(next == target);
        lemma_cells_apart_bounds(grid, next, next);
        assert(here == 1 + there);
    } else {
        assert(here <= 1 + there);
    }
}

/// The estimate of the round trip is consistent: it is zero where the
/// trip is done and drops by no more than one with a step.
pub proof fn lemma_trip_estimate_consistent(grid: Grid, ceiling: usize, altitude: usize, marks: Marks)
    requires
        grid.wf(),
        marks_ok(grid, marks),
        ceiling < usize::MAX,
        trip_layout(grid, ceiling).wf(),
        grid.width + grid.height <= 0x4000_0000,
    ensures
        crate::graph::consistent_below(
            edges_of(trip_graph(grid, ceiling)),
            trip_goals(grid, ceiling, altitude),
            trip_estimate(grid, ceiling, marks),
            trip_layout(grid, ceiling).capacity() as usize,
        ),
{
    let layout = trip_layout(grid, ceiling);
    let n = layout.capacity() as usize;
    let edge = edges_of(trip_graph(grid, ceiling));
    let est = trip_estimate(grid, ceiling, marks);
    lemma_cells_apart_bounds(grid, marks.a, marks.b);
    lemma_cells_apart_bounds(grid, marks.b, marks.c);
    lemma_cells_apart_bounds(grid, marks.c, marks.s);
    assert forall|s: usize, t: usize, w: u64| s < n && #[trigger] edge(s, t, w) implies t < n
        && est(s) <= w + est(t) by {
        lemma_trip_step_consistent(grid, ceiling, marks, s, t, w);
    }
    assert forall|s: usize| s < n && #[trigger] trip_goals(grid, ceiling, altitude)(s) implies est(
        s,
    ) == 0 by {
        layout.lemma_decode_in_domain(s as nat);
        let cell = layout.x_of(s as nat) as usize;
        assert(cell == marks.s);
        lemma_cells_apart_bounds(grid, cell, cell);
    }
}

/// The cell that holds `byte` if there is exactly one.
pub fn only_one(grid: &Grid, byte: u8) -> (r: Option<usize>)
    ensures
        r matches Some(at) ==> only_at(*grid, byte, at),
        r.is_none() ==> forall|at: usize| !only_at(*grid, byte, at),
{
    match grid.find(byte) {
        None => None,
        Some(at) => {
            assert(grid.cells@.len() == grid.cells.len());
            let mut k: usize = at + 1;
            while k < grid.cells.len()
                invariant
                    at < k <= grid.cells@.len(),
                    grid.cells@[at as int] == byte,
                    forall|j: int| at < j < k ==> grid.cells@[j] != byte,
                decreases grid.cells@.len() - k,
            {
                if grid.cells[k] == byte {
                    assert forall|x: usize| !only_at(*grid, byte, x) by {
                        if only_at(*grid, byte, x) {
                            assert(at as int == x as int);
                            assert(k as int == x as int);
                        }
                    }
                    return None;
                }
                k += 1;
            }
            Some(at)
        },
    }
}

/// How far apart two cells are, in steps.
pub fn steps_apart(grid: &Grid, p: usize, q: usize) -> (r: u64)
    requires
        grid.wf(),
        p < grid.area(),
        q < grid.area(),
        grid.width + grid.height <= 0x4000_0000,
    ensures
        r == cells_apart(*grid, p, q),
        r < 0x4000_0000,
{
    proof {
        lemma_cells_apart_bounds(*grid, p, q);
        grid.lemma_cell_in_grid(p);
        grid.lemma_cell_in_grid(q);
    }
    let px: usize = p % grid.width;
    let py: usize = p / grid.width;
    let qx: usize = q % grid.width;
    let qy: usize = q / grid.width;
    let dx: usize = if px >= qx {
        px - qx
    } else {
        qx - px
    };
    let dy: usize = if py >= qy {
        py - qy
    } else {
        qy - py
    };
    (dx + dy) as u64
}

/// The estimate of the steps still to come from the state with key `s`.
pub fn estimate_from(grid: &Grid, ceiling: usize, marks: &Marks, s: usize) -> (r: u64)
    requires
        grid.wf(),
        marks_ok(*grid, *marks),
        ceiling < usize::MAX,
        trip_layout(*grid, ceiling).wf(),
        grid.width + grid.height <= 0x4000_0000,
        s < trip_layout(*grid, ceiling).capacity(),
    ensures
        r == trip_estimate(*grid, ceiling, *marks)(s),
{
    let layout = KeyLayout { width: grid.len(), height: 16, aux_range: ceiling + 1 };
    let (cell, turn, _) = layout.decode(s);
    let passed: usize = turn % 4;
    let ab: u64 = steps_apart(grid, marks.a, marks.b);
    let bc: u64 = steps_apart(grid, marks.b, marks.c);
    let cs: u64 = steps_apart(grid, marks.c, marks.s);
    if passed == 0 {
        steps_apart(grid, cell, marks.a) + ab + bc + cs
    } else if passed == 1 {
        steps_apart(grid, cell, marks.b) + bc + cs
    } else if passed == 2 {
        steps_apart(grid, cell, marks.c) + cs
    } else {
        steps_apart(grid, cell, marks.s)
    }
}

/// The checkpoints and the starting place of a map on which each of them
/// stands in one cell only and which is small enough for estimates.
pub fn find_marks(grid: &Grid) -> (r: Option<Marks>)
    requires
        grid.wf(),
    ensures
        r matches Some(m) ==> marks_ok(*grid, m) && grid.width + grid.height <= 0x4000_0000,
        r.is_none() ==> grid.width > 0x2000_0000 || grid.height > 0x2000_0000 || forall|m: Marks|
            !marks_ok(*grid, m),
{
    if grid.width > 0x2000_0000 || grid.height > 0x2000_0000 {
        return None;
    }
    match (only_one(grid, 0x41), only_one(grid, 0x42), only_one(grid, 0x43), only_one(grid, 0x53)) {
        (Some(a), Some(b), Some(c), Some(s)) => Some(Marks { a, b, c, s }),
        _ => None,
    }
}

/// The least number of steps of a flight that sets out from the cell
/// `start`, which holds `S`, at the altitude `altitude`, passes the
/// checkpoints `A`, `B` and `C` in this order and is back on `S` at the
/// altitude it set out at, never climbing above `ceiling`; `None` when
/// there is no such flight. The first step does not go up the map.
///
/// Where every checkpoint stands in one cell only, the search is guided
/// by the distance still to fly.
pub fn part2(grid: &Grid, start: usize, altitude: usize, ceiling: usize) -> (r: Option<u64>)
    requires
        grid.wf(),
        start < grid.area(),
        altitude <= ceiling < usize::MAX,
        trip_layout(*grid, ceiling).wf(),
    ensures
        is_shortest_cost(
            edges_of(trip_graph(*grid, ceiling)),
            trip_goals(*grid, ceiling, altitude),
            trip_layout(*grid, ceiling).key_of(start as nat, 4, altitude as nat) as usize,
            u64::MAX as nat,
            r,
        ),
{
    let layout = KeyLayout { width: grid.len(), height: 16, aux_range: ceiling + 1 };
    let n: usize = layout.capacity_of();
    let first: usize = layout.encode(start, 4, altitude);
    let ghost numbered = trip_layout(*grid, ceiling);
    let ghost graph = trip_graph(*grid, ceiling);
    let ghost goals = trip_goals(*grid, ceiling, altitude);
    let transition = |s: usize| -> (list: Vec<(usize, u64)>)
        requires
            grid.wf(),
            ceiling < usize::MAX,
            layout == numbered,
            layout.wf(),
            s < layout.capacity(),
        ensures
            list@ == graph(s),
            forall|i: int| 0 <= i < list@.len() ==> (#[trigger] list@[i]).0 < layout.capacity(),
        { trip_from(grid, ceiling, s) };
    let goal = |s: usize| -> (b: bool)
        requires
            grid.wf(),
            layout == numbered,
            layout.wf(),
            layout.width == grid.area(),
            s < layout.capacity(),
        ensures
            b == goals(s),
        {
            let (cell, turn, a) = layout.decode(s);
            grid.cells[cell] == 0x53 && turn % 4 == 3 && a == altitude
        };
    match find_marks(grid) {
        Some(marks) => {
            let ghost est = trip_estimate(*grid, ceiling, marks);
            let ghost found = marks;
            let ghost ready = marks_ok(*grid, marks) && grid.width + grid.height <= 0x4000_0000;
            let heuristic = |s: usize| -> (v: u64)
                requires
                    grid.wf(),
                    ready,
                    ceiling < usize::MAX,
                    layout == numbered,
                    layout.wf(),
                    s < layout.capacity(),
                ensures
                    v == est(s),
                { estimate_from(grid, ceiling, &marks, s) };
            let r = crate::search::a_star_sparse(first, n, transition, goal, heuristic);
            proof {
                assert(computes_successors(&transition, n, graph));
                assert(decides_goal(&goal, n, goals));
                assert(crate::search::computes_estimate(&heuristic, n, est));
                lemma_trip_estimate_consistent(*grid, ceiling, altitude, found);
                crate::graph::lemma_consistent_is_admissible(edges_of(graph), goals, est, n);
            }
            r
        },
        None => {
            let r = dijkstra_sparse(first, n, transition, goal);
            proof {
                assert(computes_successors(&transition, n, graph));
                assert(decides_goal(&goal, n, goals));
            }
            r
        },
    }
}

} // verus!
