//! Fire that spreads over a grid of barrels: from a burning barrel to every
//! neighbour that is not bigger.

use vstd::prelude::*;
use crate::graph::{edges_of, is_goal_walk, walk_cost};
use crate::grid::Grid;
use crate::search::{computes_successors, distances};
use crate::search_model::only;

verus! {

/// The step by which fire spreads from cell `s` in direction `d`, if there
/// is a cell in that direction and its barrel is not bigger.
pub open spec fn spread_step(grid: Grid, s: usize, d: int) -> Option<(usize, u64)> {
    match grid.neighbor_of(s, d) {
        Some(t) => if grid.cells@[t as int] <= grid.cells@[s as int] {
            Some((t, 1u64))
        } else {
            None
        },
        None => None,
    }
}

/// The steps by which fire spreads from cell `s` in the first `upto`
/// directions.
pub open spec fn spread_steps(grid: Grid, s: usize, upto: nat) -> Seq<(usize, u64)>
    decreases upto,
{
    if upto == 0 {
        Seq::empty()
    } else {
        let before = spread_steps(grid, s, (upto - 1) as nat);
        match spread_step(grid, s, upto - 1) {
            Some(step) => before.push(step),
            None => before,
        }
    }
}

/// The barrels as a graph: where fire spreads from each cell.
pub open spec fn fire_graph(grid: Grid) -> spec_fn(usize) -> Seq<(usize, u64)> {
    |s: usize| spread_steps(grid, s, 4)
}

/// Whether fire set to cell `start` reaches cell `t`, in a number of steps
/// that a `u64` can count.
pub open spec fn fire_reaches(grid: Grid, start: usize, t: usize) -> bool {
    exists|steps: Seq<(usize, u64)>|
        is_goal_walk(edges_of(fire_graph(grid)), only(t), start, steps) && walk_cost(steps)
            <= u64::MAX
}

/// The number of `true` among the first `k` values of `s`.
pub open spec fn count_true(s: Seq<bool>, k: nat) -> nat
    decreases k,
{
    if k == 0 || k > s.len() {
        0
    } else {
        count_true(s, (k - 1) as nat) + if s[k - 1] {
            1nat
        } else {
            0nat
        }
    }
}

/// The cells to which fire spreads from cell `s` in one step.
pub fn spread_from(grid: &Grid, s: usize) -> (r: Vec<(usize, u64)>)
    requires
        grid.wf(),
        s < grid.area(),
    ensures
        r@ == fire_graph(*grid)(s),
        forall|i: int| 0 <= i < r@.len() ==> (#[trigger] r@[i]).0 < grid.area(),
{
    let mut out: Vec<(usize, u64)> = Vec::new();
    let here: u8 = grid.cells[s];
    let mut d: usize = 0;
    while d < 4
        invariant
            d <= 4,
            grid.wf(),
            s < grid.area(),
            here == grid.cells@[s as int],
            out@ == spread_steps(*grid, s, d as nat),
            forall|i: int| 0 <= i < out@.len() ==> (#[trigger] out@[i]).0 < grid.area(),
        decreases 4 - d,
    {
        match grid.neighbor(s, d) {
            Some(t) => {
                if grid.cells[t] <= here {
                    out.push((t, 1));
                }
            },
            None => {},
        }
        d += 1;
    }
    out
}

/// Sets the barrel in cell `start` on fire and tells, for every cell,
/// whether the fire reaches it.
pub fn set_on_fire(grid: &Grid, start: usize) -> (seen: Vec<bool>)
    requires
        grid.wf(),
        start < grid.area(),
    ensures
        seen@.len() == grid.area(),
        forall|t: int|
            0 <= t < grid.area() ==> #[trigger] seen@[t] == fire_reaches(*grid, start, t as usize),
{
    let n: usize = grid.len();
    let transition = |s: usize| -> (list: Vec<(usize, u64)>)
        requires
            grid.wf(),
            s < grid.area(),
        ensures
            list@ == fire_graph(*grid)(s),
            forall|i: int| 0 <= i < list@.len() ==> (#[trigger] list@[i]).0 < grid.area(),
        { spread_from(grid, s) };
    let costs = distances(start, n, transition);
    proof {
        assert(computes_successors(&transition, n, fire_graph(*grid)));
        assert forall|t: usize| t < n implies costs@[t as int].is_some() == fire_reaches(
            *grid,
            start,
            t,
        ) by {
            assert(crate::graph::is_shortest_cost(
                edges_of(fire_graph(*grid)),
                only(t),
                start,
                u64::MAX as nat,
                costs@[t as int],
            ));
        }
    }
    let mut seen: Vec<bool> = Vec::new();
    let mut k: usize = 0;
    while k < n
        invariant
            k <= n,
            n == costs@.len(),
            seen@.len() == k,
            forall|t: int| 0 <= t < k ==> seen@[t] == costs@[t].is_some(),
        decreases n - k,
    {
        seen.push(costs[k].is_some());
        k += 1;
    }
    seen
}

/// Adds to `s` every cell that `other` has seen.
pub fn merge(s: &mut Vec<bool>, other: &Vec<bool>)
    requires
        old(s)@.len() <= other@.len(),
    ensures
        final(s)@.len() == old(s)@.len(),
        forall|i: int|
            0 <= i < old(s)@.len() ==> (#[trigger] final(s)@[i]) == (old(s)@[i] || other@[i]),
{
    let mut i: usize = 0;
    while i < s.len()
        invariant
            i <= s@.len(),
            s@.len() == old(s)@.len(),
            s@.len() <= other@.len(),
            forall|j: int| 0 <= j < i ==> (#[trigger] s@[j]) == (old(s)@[j] || other@[j]),
            forall|j: int| i <= j < s@.len() ==> (#[trigger] s@[j]) == old(s)@[j],
        decreases s@.len() - i,
    {
        if other[i] {
            s[i] = true;
        }
        i += 1;
    }
}

/// The number of cells that `s` has seen.
pub fn count_seen(s: &Vec<bool>) -> (n: usize)
    ensures
        n == count_true(s@, s@.len()),
{
    let mut n: usize = 0;
    let mut i: usize = 0;
    while i < s.len()
        invariant
            i <= s@.len(),
            n == count_true(s@, i as nat),
            n <= i,
        decreases s@.len() - i,
    {
        if s[i] {
            n += 1;
        }
        i += 1;
    }
    n
}

/// The number of the first `k` cells that are marked in `seen` and not
/// in `burnt`.
pub open spec fn fresh(seen: Seq<bool>, burnt: Seq<bool>, k: nat) -> nat
    decreases k,
{
    if k == 0 || k > seen.len() || k > burnt.len() {
        0
    } else {
        fresh(seen, burnt, (k - 1) as nat) + if seen[k - 1] && !burnt[k - 1] {
            1nat
        } else {
            0nat
        }
    }
}

/// The marks of the cells that fire set to the cell `s` reaches.
pub open spec fn fire_of(grid: Grid, s: usize) -> Seq<bool> {
    Seq::new(grid.area(), |t: int| fire_reaches(grid, s, t as usize))
}

/// The number of barrels that fire set to the cell `s` burns and that
/// have not burnt before.
pub open spec fn newly(grid: Grid, burnt: Seq<bool>, s: usize) -> nat {
    fresh(fire_of(grid, s), burnt, grid.area())
}

/// Whether `s` is the best cell to set on fire: no cell burns more
/// barrels that have not burnt before, and no cell before it as many.
pub open spec fn is_best_fire(grid: Grid, burnt: Seq<bool>, s: usize) -> bool {
    &&& s < grid.area()
    &&& forall|t: usize| t < grid.area() ==> #[trigger] newly(grid, burnt, t) <= newly(grid, burnt, s)
    &&& forall|t: usize| t < s ==> #[trigger] newly(grid, burnt, t) < newly(grid, burnt, s)
}

/// The number of cells marked in `seen` and not in `burnt`.
pub fn count_fresh(seen: &Vec<bool>, burnt: &Vec<bool>) -> (n: usize)
    requires
        seen@.len() == burnt@.len(),
    ensures
        n == fresh(seen@, burnt@, seen@.len()),
{
    let mut n: usize = 0;
    let mut i: usize = 0;
    while i < seen.len()
        invariant
            i <= seen@.len(),
            seen@.len() == burnt@.len(),
            n == fresh(seen@, burnt@, i as nat),
            n <= i,
        decreases seen@.len() - i,
    {
        if seen[i] && !burnt[i] {
            n += 1;
        }
        i += 1;
    }
    n
}

/// Finds the best cell to set on fire, the first of those that burn as
/// many barrels, and sets it on fire: the barrels that burn are marked in
/// `burnt`. Returns the cell and the number of barrels that burn anew.
pub fn find_max(grid: &Grid, burnt: &mut Vec<bool>) -> (r: (usize, usize))
    requires
        grid.wf(),
        grid.area() > 0,
        old(burnt)@.len() == grid.area(),
    ensures
        is_best_fire(*grid, old(burnt)@, r.0),
        r.1 == newly(*grid, old(burnt)@, r.0),
        final(burnt)@.len() == grid.area(),
        forall|t: int|
            0 <= t < grid.area() ==> #[trigger] final(burnt)@[t] == (old(burnt)@[t] || fire_reaches(
                *grid,
                r.0,
                t as usize,
            )),
{
    let area: usize = grid.len();
    let first: Vec<bool> = set_on_fire(grid, 0);
    assert(first@ =~= fire_of(*grid, 0));
    let mut best: usize = 0;
    let mut most: usize = count_fresh(&first, burnt);
    let mut s: usize = 1;
    while s < area
        invariant
            1 <= s <= area,
            area == grid.area(),
            grid.wf(),
            burnt@ == old(burnt)@,
            burnt@.len() == area,
            best < s,
            most == newly(*grid, burnt@, best),
            forall|t: usize| t < s ==> #[trigger] newly(*grid, burnt@, t) <= most,
            forall|t: usize| t < best ==> #[trigger] newly(*grid, burnt@, t) < most,
        decreases area - s,
    {
        let seen: Vec<bool> = set_on_fire(grid, s);
        assert(seen@ =~= fire_of(*grid, s));
        let here: usize = count_fresh(&seen, burnt);
        if here > most {
            best = s;
            most = here;
        }
        s += 1;
    }
    let seen: Vec<bool> = set_on_fire(grid, best);
    merge(burnt, &seen);
    (best, most)
}

} // verus!
