//! The quickest way through a maze of platforms at ten levels.
//!
//! The maze is a grid: `#` is a wall, a digit is a platform at that level,
//! `E` marks where the way begins and `S` where it may end, both at level 0.
//! A step to a neighbouring cell takes one second, plus one second for each
//! level the platform has to be moved; levels wrap around, so from 9 to 0
//! is one level.

use vstd::prelude::*;
use crate::graph::{edges_of, is_shortest_cost};
use crate::grid::Grid;
use crate::search::{computes_successors, decides_goal};

verus! {

/// The level of the platform that a cell holds.
pub open spec fn level_of(byte: u8) -> int {
    if 0x30 <= byte <= 0x39 {
        byte - 0x30
    } else {
        0
    }
}

/// The seconds it takes to move a platform from level `a` to level `b`.
pub open spec fn level_gap(a: int, b: int) -> int {
    let apart = if a <= b {
        b - a
    } else {
        a - b
    };
    if apart > 5 {
        10 - apart
    } else {
        apart
    }
}

/// The step from cell `s` in direction `d`, with its cost in seconds, if
/// there is a cell in that direction and it is not a wall.
pub open spec fn maze_step(grid: Grid, s: usize, d: int) -> Option<(usize, u64)> {
    match grid.neighbor_of(s, d) {
        Some(t) => if grid.cells@[t as int] != 0x23 {
            Some(
                (
                    t,
                    (1 + level_gap(level_of(grid.cells@[s as int]), level_of(grid.cells@[t as int])))
                        as u64,
                ),
            )
        } else {
            None
        },
        None => None,
    }
}

/// The steps from cell `s` in the first `upto` directions.
pub open spec fn maze_steps(grid: Grid, s: usize, upto: nat) -> Seq<(usize, u64)>
    decreases upto,
{
    if upto == 0 {
        Seq::empty()
    } else {
        let before = maze_steps(grid, s, (upto - 1) as nat);
        match maze_step(grid, s, upto - 1) {
            Some(step) => before.push(step),
            None => before,
        }
    }
}

/// The maze as a graph: the steps out of each cell.
pub open spec fn maze_graph(grid: Grid) -> spec_fn(usize) -> Seq<(usize, u64)> {
    |s: usize| maze_steps(grid, s, 4)
}

/// The cells where the way may end.
pub open spec fn maze_goals(grid: Grid) -> spec_fn(usize) -> bool {
    |s: usize| s < grid.area() && grid.cells@[s as int] == 0x53
}

/// Whether the grid marks a cell with `E`, where the way begins.
pub open spec fn has_start(grid: Grid) -> bool {
    exists|k: int| 0 <= k < grid.area() && grid.cells@[k] == 0x45
}

/// The cell where the way begins: the first cell that holds `E`.
pub open spec fn maze_start(grid: Grid, start: usize) -> bool {
    &&& start < grid.area()
    &&& grid.cells@[start as int] == 0x45
    &&& forall|k: int| 0 <= k < start ==> grid.cells@[k] != 0x45
}

/// The level of the platform that holds `byte`.
pub fn level(byte: u8) -> (l: u8)
    ensures
        l == level_of(byte),
        l <= 9,
{
    if byte >= 0x30 && byte <= 0x39 {
        byte - 0x30
    } else {
        0
    }
}

/// The seconds it takes to move a platform from level `a` to level `b`.
pub fn gap(a: u8, b: u8) -> (g: u8)
    requires
        a <= 9,
        b <= 9,
    ensures
        g == level_gap(a as int, b as int),
        g <= 5,
{
    let apart: u8 = if a <= b {
        b - a
    } else {
        a - b
    };
    if apart > 5 {
        10 - apart
    } else {
        apart
    }
}

/// The steps out of cell `s`, each with its cost in seconds.
pub fn steps_from(grid: &Grid, s: usize) -> (r: Vec<(usize, u64)>)
    requires
        grid.wf(),
        s < grid.area(),
    ensures
        r@ == maze_graph(*grid)(s),
        forall|i: int| 0 <= i < r@.len() ==> (#[trigger] r@[i]).0 < grid.area(),
{
    let mut out: Vec<(usize, u64)> = Vec::new();
    let here: u8 = level(grid.cells[s]);
    let mut d: usize = 0;
    while d < 4
        invariant
            d <= 4,
            grid.wf(),
            s < grid.area(),
            here == level_of(grid.cells@[s as int]),
            out@ == maze_steps(*grid, s, d as nat),
            forall|i: int| 0 <= i < out@.len() ==> (#[trigger] out@[i]).0 < grid.area(),
        decreases 4 - d,
    {
        match grid.neighbor(s, d) {
            Some(t) => {
                let byte: u8 = grid.cells[t];
                if byte != 0x23 {
                    let seconds: u8 = 1 + gap(here, level(byte));
                    out.push((t, seconds as u64));
                }
            },
            None => {},
        }
        d += 1;
    }
    out
}

/// The fewest seconds in which a cell marked `S` can be reached from the
/// cell marked `E`, or `None` when no such cell can be reached.
pub fn dijkstra(grid: &Grid) -> (r: Option<u64>)
    requires
        grid.wf(),
        has_start(*grid),
    ensures
        exists|start: usize|
            maze_start(*grid, start) && #[trigger] is_shortest_cost(
                edges_of(maze_graph(*grid)),
                maze_goals(*grid),
                start,
                u64::MAX as nat,
                r,
            ),
{
    let start: usize = match grid.find(0x45) {
        Some(s) => s,
        None => 0,
    };
    let n: usize = grid.len();
    let transition = |s: usize| -> (list: Vec<(usize, u64)>)
        requires
            grid.wf(),
            s < grid.area(),
        ensures
            list@ == maze_graph(*grid)(s),
            forall|i: int| 0 <= i < list@.len() ==> (#[trigger] list@[i]).0 < grid.area(),
        { steps_from(grid, s) };
    let goal = |s: usize| -> (b: bool)
        requires
            s < grid.area(),
        ensures
            b == maze_goals(*grid)(s),
        { grid.cells[s] == 0x53 };
    let r = crate::search::dijkstra(start, n, transition, goal);
    proof {
        assert(computes_successors(&transition, n, maze_graph(*grid)));
        assert(decides_goal(&goal, n, maze_goals(*grid)));
        assert(maze_start(*grid, start));
    }
    r
}

} // verus!
