//! Ways round walls on a square field of cells about the origin: step
//! by step between cells that are walls, or in runs that lead up to the
//! lines of walls given as segments. The way sought leads to the
//! origin.

use crate::graph::{edges_of, is_shortest_cost};
use crate::puzzles::flock::lemma_on_board;
use crate::puzzles::measures::{crossing, find_intersection, is_on_wall, lies_on, Segment};
use crate::search::{computes_successors, decides_goal, dijkstra_sparse};
use crate::search_model::only;
use vstd::arithmetic::div_mod::{
    lemma_fundamental_div_mod, lemma_fundamental_div_mod_converse, lemma_multiply_divide_lt,
};
use vstd::prelude::*;

verus! {

/// The number of cells in a row of the field that reaches `reach` cells
/// from the origin to every side.
pub open spec fn side(reach: u64) -> int {
    2 * reach + 1
}

/// Whether the cells of the field can be numbered on this machine.
pub open spec fn box_fits(reach: u64) -> bool {
    reach < 0x4000_0000 && side(reach) * side(reach) <= usize::MAX
}

/// Whether the cell lies on the field.
pub open spec fn in_box(c: (i64, i64), reach: u64) -> bool {
    -reach <= c.0 <= reach && -reach <= c.1 <= reach
}

/// The number of a cell of the field: row by row.
pub open spec fn key_of_cell(c: (i64, i64), reach: u64) -> usize {
    ((c.1 + reach) * side(reach) + (c.0 + reach)) as usize
}

/// The cell with the number `s`.
pub open spec fn cell_of_key(s: usize, reach: u64) -> (i64, i64) {
    ((s as int % side(reach) - reach) as i64, (s as int / side(reach) - reach) as i64)
}

/// The number of the origin.
pub open spec fn origin_key(reach: u64) -> usize {
    key_of_cell((0, 0), reach)
}

/// The four directions: right, down, left, up.
pub open spec fn toward(d: int) -> (i64, i64) {
    if d == 0 {
        (1, 0)
    } else if d == 1 {
        (0, 1)
    } else if d == 2 {
        (-1i64, 0)
    } else {
        (0, -1i64)
    }
}

/// The cell next to `c` in the direction `d`.
pub open spec fn beside(c: (i64, i64), d: int) -> (i64, i64) {
    ((c.0 + toward(d).0) as i64, (c.1 + toward(d).1) as i64)
}

/// Numbering and naming cells undo each other.
pub proof fn lemma_keys(reach: u64, c: (i64, i64))
    requires
        box_fits(reach),
        in_box(c, reach),
    ensures
        key_of_cell(c, reach) < side(reach) * side(reach),
        key_of_cell(c, reach) == (c.1 + reach) * side(reach) + (c.0 + reach),
        0 <= (c.1 + reach) * side(reach) <= key_of_cell(c, reach),
        cell_of_key(key_of_cell(c, reach), reach) == c,
{
    let w = side(reach);
    lemma_on_board(w, w, c.0 + reach, c.1 + reach);
    lemma_fundamental_div_mod_converse((c.1 + reach) * w + (c.0 + reach), w, c.1 + reach, c.0 + reach);
}

/// Every number below the number of cells names a cell of the field.
pub proof fn lemma_cells(reach: u64, s: usize)
    requires
        box_fits(reach),
        s < side(reach) * side(reach),
    ensures
        0 <= s as int % side(reach) < side(reach),
        0 <= s as int / side(reach) < side(reach),
        in_box(cell_of_key(s, reach), reach),
        key_of_cell(cell_of_key(s, reach), reach) == s,
{
    let w = side(reach);
    lemma_multiply_divide_lt(s as int, w, w);
    lemma_fundamental_div_mod(s as int, w);
    assert(w * (s as int / w) == (s as int / w) * w) by (nonlinear_arith);
}

/// The step of a direction.
pub fn step_of(d: usize) -> (r: (i64, i64))
    requires
        d < 4,
    ensures
        r == toward(d as int),
{
    if d == 0 {
        (1, 0)
    } else if d == 1 {
        (0, 1)
    } else if d == 2 {
        (-1, 0)
    } else {
        (0, -1)
    }
}

/// The cell with the number `s`.
pub fn cell_at(s: usize, reach: u64) -> (c: (i64, i64))
    requires
        box_fits(reach),
        s < side(reach) * side(reach),
    ensures
        c == cell_of_key(s, reach),
        in_box(c, reach),
{
    proof {
        lemma_cells(reach, s);
    }
    let w: usize = (2 * reach + 1) as usize;
    ((s % w) as i64 - reach as i64, (s / w) as i64 - reach as i64)
}

/// The number of the cell `c`.
pub fn key_at(c: (i64, i64), reach: u64) -> (s: usize)
    requires
        box_fits(reach),
        in_box(c, reach),
    ensures
        s == key_of_cell(c, reach),
        s < side(reach) * side(reach),
{
    proof {
        lemma_keys(reach, c);
    }
    let w: usize = (2 * reach + 1) as usize;
    ((c.1 + reach as i64) as usize) * w + ((c.0 + reach as i64) as usize)
}

/// Whether the cell `c` is one of `walls`.
pub fn is_wall(walls: &Vec<(i64, i64)>, c: (i64, i64)) -> (r: bool)
    ensures
        r == walls@.contains(c),
{
    let mut i: usize = 0;
    while i < walls.len()
        invariant
            i <= walls@.len(),
            forall|j: int| 0 <= j < i ==> walls@[j] != c,
        decreases walls@.len() - i,
    {
        let w: (i64, i64) = walls[i];
        if w.0 == c.0 && w.1 == c.1 {
            return true;
        }
        i += 1;
    }
    false
}

/// The step from the cell with the number `s` in the direction `d`, if
/// it stays on the field and leads to the origin or to a cell that is
/// no wall.
pub open spec fn wall_step(walls: Seq<(i64, i64)>, reach: u64, s: usize, d: int) -> Option<
    (usize, u64),
> {
    let t = beside(cell_of_key(s, reach), d);
    if in_box(t, reach) && (t == (0i64, 0i64) || !walls.contains(t)) {
        Some((key_of_cell(t, reach), 1u64))
    } else {
        None
    }
}

/// The steps from the cell with the number `s` in the first `upto`
/// directions.
pub open spec fn wall_steps(walls: Seq<(i64, i64)>, reach: u64, s: usize, upto: nat) -> Seq<
    (usize, u64),
>
    decreases upto,
{
    if upto == 0 {
        Seq::empty()
    } else {
        let before = wall_steps(walls, reach, s, (upto - 1) as nat);
        match wall_step(walls, reach, s, upto - 1) {
            Some(step) => before.push(step),
            None => before,
        }
    }
}

/// The field as a graph: the steps out of each cell.
pub open spec fn wall_graph(walls: Seq<(i64, i64)>, reach: u64) -> spec_fn(usize) -> Seq<
    (usize, u64),
> {
    |s: usize| wall_steps(walls, reach, s, 4)
}

/// The steps out of the cell with the number `s`.
pub fn steps_from(walls: &Vec<(i64, i64)>, reach: u64, s: usize) -> (r: Vec<(usize, u64)>)
    requires
        box_fits(reach),
        s < side(reach) * side(reach),
    ensures
        r@ == wall_graph(walls@, reach)(s),
        forall|i: int| 0 <= i < r@.len() ==> (#[trigger] r@[i]).0 < side(reach) * side(reach),
{
    let c: (i64, i64) = cell_at(s, reach);
    let mut out: Vec<(usize, u64)> = Vec::new();
    let mut d: usize = 0;
    while d < 4
        invariant
            d <= 4,
            box_fits(reach),
            c == cell_of_key(s, reach),
            in_box(c, reach),
            out@ == wall_steps(walls@, reach, s, d as nat),
            forall|i: int| 0 <= i < out@.len() ==> (#[trigger] out@[i]).0 < side(reach) * side(reach),
        decreases 4 - d,
    {
        let by: (i64, i64) = step_of(d);
        let t: (i64, i64) = (c.0 + by.0, c.1 + by.1);
        assert(t == beside(c, d as int));
        let r: i64 = reach as i64;
        if t.0 >= -r && t.0 <= r && t.1 >= -r && t.1 <= r {
            if (t.0 == 0 && t.1 == 0) || !is_wall(walls, t) {
                out.push((key_at(t, reach), 1));
            }
        }
        d += 1;
    }
    out
}

/// The fewest steps from the cell `start` to the origin on the field
/// that reaches `reach` cells to every side, where no step leads onto a
/// wall, unless it is the origin; `None` where there is no such way.
pub fn wall_walk(walls: &Vec<(i64, i64)>, start: (i64, i64), reach: u64) -> (r: Option<u64>)
    requires
        box_fits(reach),
        in_box(start, reach),
    ensures
        is_shortest_cost(
            edges_of(wall_graph(walls@, reach)),
            only(origin_key(reach)),
            key_of_cell(start, reach),
            u64::MAX as nat,
            r,
        ),
{
    let w: usize = (2 * reach + 1) as usize;
    proof {
        lemma_keys(reach, (0, 0));
    }
    let n: usize = w * w;
    let from: usize = key_at(start, reach);
    let home: usize = key_at((0, 0), reach);
    let transition = |s: usize| -> (list: Vec<(usize, u64)>)
        requires
            box_fits(reach),
            s < side(reach) * side(reach),
        ensures
            list@ == wall_graph(walls@, reach)(s),
            forall|i: int|
                0 <= i < list@.len() ==> (#[trigger] list@[i]).0 < side(reach) * side(reach),
        { steps_from(walls, reach, s) };
    let goal = |s: usize| -> (b: bool)
        ensures
            b == (s == home),
        { s == home };
    let r = dijkstra_sparse(from, n, transition, goal);
    proof {
        assert(computes_successors(&transition, n, wall_graph(walls@, reach)));
        assert(decides_goal(&goal, n, only(origin_key(reach))));
    }
    r
}

/// The ray from the cell `c` in the direction `d`, far beyond every
/// wall of the field. From the cell where the way starts, which is the
/// end of a wall, the ray sets out one cell ahead.
pub open spec fn ray(c: (i64, i64), d: int, ahead: bool) -> Segment {
    let from = if ahead {
        beside(c, d)
    } else {
        c
    };
    (
        from,
        (
            (c.0 + toward(d).0 * 1_000_000_000_000) as i64,
            (c.1 + toward(d).1 * 1_000_000_000_000) as i64,
        ),
    )
}

/// Where a run from `c` in the direction `d` stops for the wall, and how
/// far that is: the cell before the wall where the ray meets it, the cell
/// behind its line where the ray passes the wall by; nowhere where the
/// ray does not meet the line.
pub open spec fn stop_at(wall: Segment, c: (i64, i64), d: int, ahead: bool) -> Option<
    ((int, int), int),
> {
    match crossing(wall, ray(c, d, ahead)) {
        None => None,
        Some(i) => {
            let m = if lies_on(wall, i) {
                (i.0 - toward(d).0, i.1 - toward(d).1)
            } else {
                (i.0 + toward(d).0, i.1 + toward(d).1)
            };
            Some((m, far_apart(c.0 as int, m.0) + far_apart(c.1 as int, m.1)))
        },
    }
}

/// The distance between two places on a line.
pub open spec fn far_apart(a: int, b: int) -> int {
    if a >= b {
        a - b
    } else {
        b - a
    }
}

/// The nearest stop for one of the first `k` walls, the first of them
/// where two are as near.
pub open spec fn nearest(walls: Seq<Segment>, c: (i64, i64), d: int, ahead: bool, k: nat) -> Option<
    ((int, int), int),
>
    decreases k,
{
    if k == 0 || k > walls.len() {
        None
    } else {
        let before = nearest(walls, c, d, ahead, (k - 1) as nat);
        match stop_at(walls[k - 1], c, d, ahead) {
            None => before,
            Some(stop) => match before {
                None => Some(stop),
                Some(best) => if stop.1 < best.1 {
                    Some(stop)
                } else {
                    before
                },
            },
        }
    }
}

/// The run from the cell with the number `s` in the direction `d`: one
/// step where that leads to the origin; else to the nearest stop, if
/// there is one, it is another cell, and it lies on the field.
pub open spec fn run_step(walls: Seq<Segment>, reach: u64, start: (i64, i64), s: usize, d: int) -> Option<
    (usize, u64),
> {
    let c = cell_of_key(s, reach);
    if beside(c, d) == (0i64, 0i64) {
        Some((origin_key(reach), 1u64))
    } else {
        match nearest(walls, c, d, c == start, walls.len()) {
            None => None,
            Some(stop) => if stop.0 != (c.0 as int, c.1 as int) && -reach <= stop.0.0 <= reach
                && -reach <= stop.0.1 <= reach {
                Some((key_of_cell((stop.0.0 as i64, stop.0.1 as i64), reach), stop.1 as u64))
            } else {
                None
            },
        }
    }
}

/// The runs from the cell with the number `s` in the first `upto`
/// directions.
pub open spec fn run_steps(walls: Seq<Segment>, reach: u64, start: (i64, i64), s: usize, upto: nat) -> Seq<
    (usize, u64),
>
    decreases upto,
{
    if upto == 0 {
        Seq::empty()
    } else {
        let before = run_steps(walls, reach, start, s, (upto - 1) as nat);
        match run_step(walls, reach, start, s, upto - 1) {
            Some(step) => before.push(step),
            None => before,
        }
    }
}

/// The field as a graph of runs.
pub open spec fn run_graph(walls: Seq<Segment>, reach: u64, start: (i64, i64)) -> spec_fn(
    usize,
) -> Seq<(usize, u64)> {
    |s: usize| run_steps(walls, reach, start, s, 4)
}

/// Whether both ends of every wall lie on the field.
pub open spec fn walls_in_box(walls: Seq<Segment>, reach: u64) -> bool {
    forall|k: int|
        0 <= k < walls.len() ==> in_box((#[trigger] walls[k]).0, reach) && in_box(walls[k].1, reach)
}

/// The nearest stop of a run from `c` in the direction `d`, with its
/// distance.
pub fn nearest_stop(walls: &Vec<Segment>, reach: u64, c: (i64, i64), d: usize, ahead: bool) -> (r:
    Option<((i64, i64), i64)>)
    requires
        box_fits(reach),
        in_box(c, reach),
        walls_in_box(walls@, reach),
        d < 4,
    ensures
        r.is_some() == nearest(walls@, c, d as int, ahead, walls@.len()).is_some(),
        r matches Some(stop) ==> nearest(walls@, c, d as int, ahead, walls@.len()) == Some(
            ((stop.0.0 as int, stop.0.1 as int), stop.1 as int),
        ) && 0 <= stop.1,
{
    let by: (i64, i64) = step_of(d);
    let from: (i64, i64) = if ahead {
        (c.0 + by.0, c.1 + by.1)
    } else {
        c
    };
    let far: (i64, i64) = (c.0 + by.0 * 1_000_000_000_000, c.1 + by.1 * 1_000_000_000_000);
    assert((from, far) == ray(c, d as int, ahead));
    let mut best: Option<((i64, i64), i64)> = None;
    let mut k: usize = 0;
    while k < walls.len()
        invariant
            k <= walls@.len(),
            box_fits(reach),
            in_box(c, reach),
            walls_in_box(walls@, reach),
            d < 4,
            by == toward(d as int),
            (from, far) == ray(c, d as int, ahead),
            in_box(from, (reach + 1) as u64),
            best.is_some() == nearest(walls@, c, d as int, ahead, k as nat).is_some(),
            best matches Some(stop) ==> nearest(walls@, c, d as int, ahead, k as nat) == Some(
                ((stop.0.0 as int, stop.0.1 as int), stop.1 as int),
            ) && 0 <= stop.1,
        decreases walls@.len() - k,
    {
        let wall: Segment = walls[k];
        assert(in_box(wall.0, reach) && in_box(wall.1, reach));
        match find_intersection(wall, (from, far)) {
            None => {},
            Some(i) => {
                let m: (i64, i64) = if is_on_wall(wall, i) {
                    (i.0 - by.0, i.1 - by.1)
                } else {
                    (i.0 + by.0, i.1 + by.1)
                };
                let dx: i64 = if c.0 >= m.0 {
                    c.0 - m.0
                } else {
                    m.0 - c.0
                };
                let dy: i64 = if c.1 >= m.1 {
                    c.1 - m.1
                } else {
                    m.1 - c.1
                };
                let dist: i64 = dx + dy;
                assert(stop_at(wall, c, d as int, ahead) == Some(
                    ((m.0 as int, m.1 as int), dist as int),
                ));
                let nearer: bool = match best {
                    None => true,
                    Some(b) => dist < b.1,
                };
                if nearer {
                    best = Some((m, dist));
                }
            },
        }
        k += 1;
    }
    best
}

/// The runs out of the cell with the number `s`.
pub fn runs_from(walls: &Vec<Segment>, reach: u64, start: (i64, i64), s: usize) -> (r: Vec<
    (usize, u64),
>)
    requires
        box_fits(reach),
        walls_in_box(walls@, reach),
        s < side(reach) * side(reach),
    ensures
        r@ == run_graph(walls@, reach, start)(s),
        forall|i: int| 0 <= i < r@.len() ==> (#[trigger] r@[i]).0 < side(reach) * side(reach),
{
    let c: (i64, i64) = cell_at(s, reach);
    let ahead: bool = c.0 == start.0 && c.1 == start.1;
    let r: i64 = reach as i64;
    let mut out: Vec<(usize, u64)> = Vec::new();
    let mut d: usize = 0;
    while d < 4
        invariant
            d <= 4,
            box_fits(reach),
            walls_in_box(walls@, reach),
            c == cell_of_key(s, reach),
            in_box(c, reach),
            ahead == (c == start),
            r == reach,
            out@ == run_steps(walls@, reach, start, s, d as nat),
            forall|i: int| 0 <= i < out@.len() ==> (#[trigger] out@[i]).0 < side(reach) * side(reach),
        decreases 4 - d,
    {
        let by: (i64, i64) = step_of(d);
        if c.0 + by.0 == 0 && c.1 + by.1 == 0 {
            assert(beside(c, d as int) == (0i64, 0i64));
            out.push((key_at((0, 0), reach), 1));
        } else {
            assert(beside(c, d as int) != (0i64, 0i64));
            match nearest_stop(walls, reach, c, d, ahead) {
                None => {},
                Some(stop) => {
                    let m: (i64, i64) = stop.0;
                    if !(m.0 == c.0 && m.1 == c.1) && m.0 >= -r && m.0 <= r && m.1 >= -r && m.1
                        <= r {
                        out.push((key_at(m, reach), stop.1 as u64));
                    }
                },
            }
        }
        d += 1;
    }
    out
}

/// The shortest way from the cell `start` to the origin in runs: every
/// run leads straight on to the nearest stop before a wall or behind the
/// line of one, and a single step leads into the origin; `None` where
/// there is no such way.
pub fn wall_run(walls: &Vec<Segment>, start: (i64, i64), reach: u64) -> (r: Option<u64>)
    requires
        box_fits(reach),
        in_box(start, reach),
        walls_in_box(walls@, reach),
    ensures
        is_shortest_cost(
            edges_of(run_graph(walls@, reach, start)),
            only(origin_key(reach)),
            key_of_cell(start, reach),
            u64::MAX as nat,
            r,
        ),
{
    let w: usize = (2 * reach + 1) as usize;
    proof {
        lemma_keys(reach, (0, 0));
    }
    let n: usize = w * w;
    let from: usize = key_at(start, reach);
    let home: usize = key_at((0, 0), reach);
    let transition = |s: usize| -> (list: Vec<(usize, u64)>)
        requires
            box_fits(reach),
            walls_in_box(walls@, reach),
            s < side(reach) * side(reach),
        ensures
            list@ == run_graph(walls@, reach, start)(s),
            forall|i: int|
                0 <= i < list@.len() ==> (#[trigger] list@[i]).0 < side(reach) * side(reach),
        { runs_from(walls, reach, start, s) };
    let goal = |s: usize| -> (b: bool)
        ensures
            b == (s == home),
        { s == home };
    let r = dijkstra_sparse(from, n, transition, goal);
    proof {
        assert(computes_successors(&transition, n, run_graph(walls@, reach, start)));
        assert(decides_goal(&goal, n, only(origin_key(reach))));
    }
    r
}

} // verus!
