//! Water that runs through the canals of a farm, one cell a minute: it
//! comes in at the open cells of the edge, or rises from a well, and
//! never passes a wall.

use crate::graph::{edges_of, is_shortest_cost};
use crate::grid::Grid;
use crate::search::{computes_successors, distances};
use crate::search_model::only;
use vstd::prelude::*;

verus! {

/// The step of the water from the cell `s` in the direction `d`, if it
/// leads to a cell that is no wall.
pub open spec fn canal_step(grid: Grid, s: usize, d: int) -> Option<(usize, u64)> {
    match grid.neighbor_of(s, d) {
        Some(t) => if grid.cells@[t as int] != 35 {
            Some((t, 1u64))
        } else {
            None
        },
        None => None,
    }
}

/// The steps of the water from the cell `s` in the first `upto`
/// directions.
pub open spec fn canal_steps(grid: Grid, s: usize, upto: nat) -> Seq<(usize, u64)>
    decreases upto,
{
    if upto == 0 {
        Seq::empty()
    } else {
        let before = canal_steps(grid, s, (upto - 1) as nat);
        match canal_step(grid, s, upto - 1) {
            Some(step) => before.push(step),
            None => before,
        }
    }
}

/// Whether the cell `s` is an entrance: an open cell on the edge of the
/// farm.
pub open spec fn is_entrance(grid: Grid, s: int) -> bool {
    0 <= s < grid.area() && grid.cells@[s] == 46 && (s % (grid.width as int) == 0 || s % (
    grid.width as int) == grid.width - 1 || s / (grid.width as int) == 0 || s / (
    grid.width as int) == grid.height - 1)
}

/// The entrances among the first `upto` cells, each reached from
/// outside at no cost.
pub open spec fn entrances(grid: Grid, upto: nat) -> Seq<(usize, u64)>
    decreases upto,
{
    if upto == 0 {
        Seq::empty()
    } else {
        let before = entrances(grid, (upto - 1) as nat);
        if is_entrance(grid, upto - 1) {
            before.push(((upto - 1) as usize, 0u64))
        } else {
            before
        }
    }
}

/// The farm as a graph: the steps of the water out of each cell, and
/// out of the state behind the last cell, which stands for the outside,
/// into the entrances.
pub open spec fn canal_graph(grid: Grid) -> spec_fn(usize) -> Seq<(usize, u64)> {
    |s: usize|
        if s < grid.area() {
            canal_steps(grid, s, 4)
        } else {
            entrances(grid, grid.area())
        }
}

/// The cells that the water reaches from the cell `s` in one minute, or
/// the entrances where `s` stands for the outside.
pub fn flow_from(grid: &Grid, s: usize) -> (r: Vec<(usize, u64)>)
    requires
        grid.wf(),
        s <= grid.area(),
    ensures
        r@ == canal_graph(*grid)(s),
        forall|i: int| 0 <= i < r@.len() ==> (#[trigger] r@[i]).0 < grid.area(),
{
    let mut out: Vec<(usize, u64)> = Vec::new();
    let area: usize = grid.cells.len();
    if s < area {
        let mut d: usize = 0;
        while d < 4
            invariant
                d <= 4,
                grid.wf(),
                s < grid.area(),
                out@ == canal_steps(*grid, s, d as nat),
                forall|i: int| 0 <= i < out@.len() ==> (#[trigger] out@[i]).0 < grid.area(),
            decreases 4 - d,
        {
            match grid.neighbor(s, d) {
                Some(t) => {
                    if grid.cells[t] != 35 {
                        out.push((t, 1));
                    }
                },
                None => {},
            }
            d += 1;
        }
    } else {
        let mut c: usize = 0;
        while c < area
            invariant
                c <= area,
                area == grid.area(),
                grid.wf(),
                out@ == entrances(*grid, c as nat),
                forall|i: int| 0 <= i < out@.len() ==> (#[trigger] out@[i]).0 < grid.area(),
            decreases area - c,
        {
            proof {
                grid.lemma_cell_in_grid(c);
            }
            let x: usize = c % grid.width;
            let y: usize = c / grid.width;
            if grid.cells[c] == 46 && (x == 0 || x == grid.width - 1 || y == 0 || y == grid.height
                - 1) {
                out.push((c, 0));
            }
            c += 1;
        }
    }
    out
}

/// Whether `costs` holds, for every cell, the minutes that the water
/// takes to it from the state `start`, or `None` for a cell that stays
/// dry.
pub open spec fn waters(grid: Grid, start: usize, costs: Seq<Option<u64>>) -> bool {
    &&& costs.len() == grid.area()
    &&& forall|t: int|
        0 <= t < grid.area() ==> is_shortest_cost(
            edges_of(canal_graph(grid)),
            only(t as usize),
            start,
            u64::MAX as nat,
            #[trigger] costs[t],
        )
}

/// The minutes that the water takes to every cell from `start`: a cell,
/// or the number of cells for the water that comes in at the entrances.
pub fn flood(grid: &Grid, start: usize) -> (costs: Vec<Option<u64>>)
    requires
        grid.wf(),
        start <= grid.area(),
        grid.area() < usize::MAX,
    ensures
        waters(*grid, start, costs@),
{
    let n: usize = grid.cells.len() + 1;
    let transition = |s: usize| -> (list: Vec<(usize, u64)>)
        requires
            grid.wf(),
            s <= grid.area(),
        ensures
            list@ == canal_graph(*grid)(s),
            forall|i: int| 0 <= i < list@.len() ==> (#[trigger] list@[i]).0 < grid.area(),
        { flow_from(grid, s) };
    let all: Vec<Option<u64>> = distances(start, n, transition);
    proof {
        assert(computes_successors(&transition, n, canal_graph(*grid)));
    }
    let mut costs: Vec<Option<u64>> = Vec::new();
    let mut t: usize = 0;
    while t < n - 1
        invariant
            t <= n - 1,
            n == grid.area() + 1,
            all@.len() == n,
            costs@.len() == t,
            forall|u: usize|
                u < n ==> is_shortest_cost(
                    edges_of(canal_graph(*grid)),
                    #[trigger] only(u),
                    start,
                    u64::MAX as nat,
                    all@[u as int],
                ),
            forall|u: int|
                0 <= u < t ==> is_shortest_cost(
                    edges_of(canal_graph(*grid)),
                    only(u as usize),
                    start,
                    u64::MAX as nat,
                    #[trigger] costs@[u],
                ),
        decreases n - 1 - t,
    {
        assert(is_shortest_cost(
            edges_of(canal_graph(*grid)),
            only(t),
            start,
            u64::MAX as nat,
            all@[t as int],
        ));
        costs.push(all[t]);
        t += 1;
    }
    costs
}

/// Whether `r` is the time it takes to water the plants marked `P`: the
/// greatest of their times; zero without plants; `None` where a plant
/// stays dry.
pub open spec fn is_watering_time(grid: Grid, costs: Seq<Option<u64>>, r: Option<u64>) -> bool {
    match r {
        Some(v) => {
            &&& forall|c: int|
                0 <= c < grid.area() && grid.cells@[c] == 80 ==> ((#[trigger] costs[c]) matches Some(
                    m,
                ) && m <= v)
            &&& v == 0 || exists|c: int|
                0 <= c < grid.area() && grid.cells@[c] == 80 && #[trigger] costs[c] == Some(v)
        },
        None => exists|c: int|
            0 <= c < grid.area() && grid.cells@[c] == 80 && (#[trigger] costs[c]).is_none(),
    }
}

/// The time it takes to water all plants, given the time that the water
/// takes to every cell.
pub fn last_plant(grid: &Grid, costs: &Vec<Option<u64>>) -> (r: Option<u64>)
    requires
        grid.wf(),
        costs@.len() == grid.area(),
    ensures
        is_watering_time(*grid, costs@, r),
{
    let mut latest: u64 = 0;
    let mut at: usize = 0;
    let mut c: usize = 0;
    while c < costs.len()
        invariant
            c <= costs@.len(),
            costs@.len() == grid.area(),
            grid.wf(),
            forall|i: int|
                0 <= i < c && grid.cells@[i] == 80 ==> ((#[trigger] costs@[i]) matches Some(m) && m
                    <= latest),
            latest == 0 || (at < c && grid.cells@[at as int] == 80 && costs@[at as int] == Some(
                latest,
            )),
        decreases costs@.len() - c,
    {
        if grid.cells[c] == 80 {
            match costs[c] {
                None => {
                    return None;
                },
                Some(m) => {
                    if m > latest {
                        latest = m;
                        at = c;
                    }
                },
            }
        }
        c += 1;
    }
    Some(latest)
}

/// The cells that hold a plant, in the order of the cells.
pub fn plants_of(grid: &Grid) -> (r: Vec<usize>)
    ensures
        forall|k: int| 0 <= k < r@.len() ==> (#[trigger] r@[k]) < grid.cells@.len() && grid.cells@[r@[k] as int] == 80,
        forall|k: int, l: int| 0 <= k < l < r@.len() ==> r@[k] < r@[l],
        forall|c: int| 0 <= c < grid.cells@.len() && grid.cells@[c] == 80 ==> r@.contains(c as usize),
{
    let mut out: Vec<usize> = Vec::new();
    let mut c: usize = 0;
    while c < grid.cells.len()
        invariant
            c <= grid.cells@.len(),
            forall|k: int|
                0 <= k < out@.len() ==> (#[trigger] out@[k]) < c && grid.cells@[out@[k] as int]
                    == 80,
            forall|k: int, l: int| 0 <= k < l < out@.len() ==> out@[k] < out@[l],
            forall|i: int| 0 <= i < c && grid.cells@[i] == 80 ==> out@.contains(i as usize),
        decreases grid.cells@.len() - c,
    {
        if grid.cells[c] == 80 {
            let ghost before = out@;
            out.push(c);
            proof {
                assert forall|i: int| 0 <= i < c + 1 && grid.cells@[i] == 80 implies out@.contains(
                    i as usize,
                ) by {
                    if i < c {
                        let k = choose|k: int| 0 <= k < before.len() && before[k] == i as usize;
                        assert(out@[k] == i as usize);
                    } else {
                        assert(out@[before.len() as int] == c);
                    }
                }
            }
        }
        c += 1;
    }
    out
}

/// The minutes that the cell `c` counts of a well: none where the well
/// does not reach it.
pub open spec fn minutes(cost: Option<u64>) -> nat {
    match cost {
        Some(v) => v as nat,
        None => 0,
    }
}

/// The sum of the minutes that the water of the first `k` wells takes to
/// the cell `c`; nothing for a wall or a plant.
pub open spec fn well_sum(grid: Grid, rows: Seq<Seq<Option<u64>>>, c: int, k: nat) -> nat
    decreases k,
{
    if k == 0 || k > rows.len() || grid.cells@[c] == 35 || grid.cells@[c] == 80 {
        0
    } else {
        well_sum(grid, rows, c, (k - 1) as nat) + minutes(rows[k - 1][c])
    }
}

/// The sum over more wells is no smaller.
pub proof fn lemma_well_sum_grows(grid: Grid, rows: Seq<Seq<Option<u64>>>, c: int, j: nat, k: nat)
    requires
        j <= k <= rows.len(),
    ensures
        well_sum(grid, rows, c, j) <= well_sum(grid, rows, c, k),
    decreases k,
{
    if j < k {
        lemma_well_sum_grows(grid, rows, c, j, (k - 1) as nat);
    }
}

/// The rows of minutes that the vectors of `rows` hold.
pub open spec fn rows_of(rows: Seq<Vec<Option<u64>>>) -> Seq<Seq<Option<u64>>> {
    Seq::new(rows.len(), |l: int| rows[l]@)
}

/// For every cell, the sum of the minutes that the water of all wells
/// takes to it; `None` where a sum does not fit in a `u64`.
pub fn well_sums(grid: &Grid, rows: &Vec<Vec<Option<u64>>>) -> (r: Option<Vec<u64>>)
    requires
        grid.wf(),
        forall|l: int| 0 <= l < rows@.len() ==> (#[trigger] rows@[l])@.len() == grid.area(),
    ensures
        r.is_some() <==> forall|c: int|
            0 <= c < grid.area() ==> #[trigger] well_sum(*grid, rows_of(rows@), c, rows@.len())
                <= u64::MAX,
        r matches Some(sums) ==> sums@.len() == grid.area() && forall|c: int|
            0 <= c < grid.area() ==> #[trigger] sums@[c] == well_sum(
                *grid,
                rows_of(rows@),
                c,
                rows@.len(),
            ),
{
    let ghost all = rows_of(rows@);
    let area: usize = grid.cells.len();
    let mut sums: Vec<u64> = Vec::new();
    let mut c: usize = 0;
    while c < area
        invariant
            c <= area,
            area == grid.area(),
            all == rows_of(rows@),
            forall|l: int| 0 <= l < rows@.len() ==> (#[trigger] rows@[l])@.len() == grid.area(),
            sums@.len() == c,
            forall|i: int| 0 <= i < c ==> #[trigger] sums@[i] == well_sum(*grid, all, i, rows@.len()),
        decreases area - c,
    {
        let mut total: u64 = 0;
        let skip: bool = grid.cells[c] == 35 || grid.cells[c] == 80;
        let mut l: usize = 0;
        while l < rows.len()
            invariant
                l <= rows@.len(),
                c < area,
                area == grid.area(),
                all == rows_of(rows@),
                skip == (grid.cells@[c as int] == 35 || grid.cells@[c as int] == 80),
                forall|i: int| 0 <= i < rows@.len() ==> (#[trigger] rows@[i])@.len() == grid.area(),
                total == well_sum(*grid, all, c as int, l as nat),
            decreases rows@.len() - l,
        {
            assert(all[l as int] == rows@[l as int]@);
            if !skip {
                let more: u64 = match rows[l][c] {
                    Some(v) => v,
                    None => 0,
                };
                match total.checked_add(more) {
                    Some(t) => {
                        total = t;
                    },
                    None => {
                        proof {
                            lemma_well_sum_grows(*grid, all, c as int, (l + 1) as nat, rows@.len());
                            assert(well_sum(*grid, all, c as int, rows@.len()) > u64::MAX);
                        }
                        return None;
                    },
                }
            }
            l += 1;
        }
        sums.push(total);
        c += 1;
    }
    assert forall|i: int| 0 <= i < grid.area() implies #[trigger] well_sum(
        *grid,
        all,
        i,
        rows@.len(),
    ) <= u64::MAX by {
        assert(sums@[i] == well_sum(*grid, all, i, rows@.len()));
    }
    Some(sums)
}

} // verus!
