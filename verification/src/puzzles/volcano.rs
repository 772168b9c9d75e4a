//! A field round a volcano. Every cell has a radius, its distance from
//! the volcano in rings, given as a table; the lava takes thirty units
//! of time for a ring. The way sought leads round the volcano: down the
//! left side and down the right side to one cell below it.

use crate::graph::{edges_of, is_shortest_cost, lemma_shortest_cost_unique};
use crate::grid::Grid;
use crate::search::{all_costs, computes_successors, distances};
use crate::search_model::only;
use crate::state_key::KeyLayout;
use vstd::prelude::*;

verus! {

/// What it costs to enter a cell: the digit it holds, or nothing.
pub open spec fn value_of(b: u8) -> u64 {
    if 48 <= b <= 57 {
        (b - 48) as u64
    } else {
        0
    }
}

/// What it costs to enter a cell.
pub fn value(b: u8) -> (v: u64)
    ensures
        v == value_of(b),
        v <= 9,
{
    if b >= 48 && b <= 57 {
        (b - 48) as u64
    } else {
        0
    }
}

/// The sum of the values of the first `k` cells whose radius is at least
/// `least` and at most `most`.
pub open spec fn ring_sum(cells: Seq<u8>, radii: Seq<u64>, least: u64, most: u64, k: nat) -> nat
    decreases k,
{
    if k == 0 || k > cells.len() || k > radii.len() {
        0
    } else {
        ring_sum(cells, radii, least, most, (k - 1) as nat) + if least <= radii[k - 1] <= most {
            value_of(cells[k - 1]) as nat
        } else {
            0nat
        }
    }
}

/// The values of the cells whose radius is at least `least` and at most
/// `most`, summed.
pub fn sum_of_rings(grid: &Grid, radii: &Vec<u64>, least: u64, most: u64) -> (r: u64)
    requires
        grid.wf(),
        radii@.len() == grid.area(),
        grid.area() <= 0x0fff_ffff_ffff_ffff,
    ensures
        r == ring_sum(grid.cells@, radii@, least, most, grid.area()),
{
    let mut total: u64 = 0;
    let mut c: usize = 0;
    while c < grid.cells.len()
        invariant
            c <= grid.cells@.len(),
            radii@.len() == grid.cells@.len(),
            grid.cells@.len() <= 0x0fff_ffff_ffff_ffff,
            total == ring_sum(grid.cells@, radii@, least, most, c as nat),
            total <= 9 * c,
        decreases grid.cells@.len() - c,
    {
        if radii[c] >= least && radii[c] <= most {
            total += value(grid.cells[c]);
        }
        c += 1;
    }
    total
}

/// Whether `ring` is the ring among the first `rings` that destroys
/// most: no ring destroys more, and none after it as much.
pub open spec fn is_worst_ring(cells: Seq<u8>, radii: Seq<u64>, rings: u64, ring: u64) -> bool {
    &&& 1 <= ring <= rings
    &&& forall|q: u64|
        1 <= q <= rings ==> #[trigger] ring_sum(cells, radii, q, q, cells.len()) <= ring_sum(
            cells,
            radii,
            ring,
            ring,
            cells.len(),
        )
    &&& forall|q: u64|
        ring < q <= rings ==> #[trigger] ring_sum(cells, radii, q, q, cells.len()) < ring_sum(
            cells,
            radii,
            ring,
            ring,
            cells.len(),
        )
}

/// The ring among the first `rings` that destroys most, the outermost of
/// those that destroy as much, with what it destroys; `None` without
/// rings.
pub fn worst_ring(grid: &Grid, radii: &Vec<u64>, rings: u64) -> (r: Option<(u64, u64)>)
    requires
        grid.wf(),
        radii@.len() == grid.area(),
        grid.area() <= 0x0fff_ffff_ffff_ffff,
    ensures
        r.is_none() <==> rings == 0,
        r matches Some(found) ==> is_worst_ring(grid.cells@, radii@, rings, found.0) && found.1
            == ring_sum(grid.cells@, radii@, found.0, found.0, grid.area()),
{
    if rings == 0 {
        return None;
    }
    let mut best: u64 = 1;
    let mut most: u64 = sum_of_rings(grid, radii, 1, 1);
    let mut q: u64 = 1;
    while q < rings
        invariant
            1 <= q <= rings,
            grid.wf(),
            radii@.len() == grid.area(),
            grid.area() <= 0x0fff_ffff_ffff_ffff,
            is_worst_ring(grid.cells@, radii@, q, best),
            most == ring_sum(grid.cells@, radii@, best, best, grid.area()),
        decreases rings - q,
    {
        q += 1;
        let here: u64 = sum_of_rings(grid, radii, q, q);
        if here >= most {
            best = q;
            most = here;
        }
    }
    Some((best, most))
}

/// The greatest of the first `k` radii.
pub open spec fn top(radii: Seq<u64>, k: nat) -> u64
    decreases k,
{
    if k == 0 || k > radii.len() {
        0
    } else {
        let before = top(radii, (k - 1) as nat);
        if radii[k - 1] > before {
            radii[k - 1]
        } else {
            before
        }
    }
}

/// No radius is greater than the greatest.
pub proof fn lemma_top(radii: Seq<u64>, k: nat, i: int)
    requires
        0 <= i < k <= radii.len(),
    ensures
        radii[i] <= top(radii, k),
    decreases k,
{
    if i < k - 1 {
        lemma_top(radii, (k - 1) as nat, i);
    }
}

/// The number of levels of a way: one for every radius up to the
/// greatest.
pub open spec fn levels_of(radii: Seq<u64>) -> int {
    top(radii, radii.len()) + 1
}

/// Whether the states of the ways round the volcano can be numbered on
/// this machine: a cell, the least radius on the way so far, and the
/// side.
pub open spec fn round_fits(grid: Grid, radii: Seq<u64>) -> bool {
    grid.area() * (2 * levels_of(radii)) <= usize::MAX
}

/// The numbering of the states.
pub open spec fn states(grid: Grid, radii: Seq<u64>) -> KeyLayout {
    KeyLayout {
        width: grid.area() as usize,
        height: 1,
        aux_range: (2 * levels_of(radii)) as usize,
    }
}

/// The number of the state in the cell `c`, at the level `level`, on the
/// left side or on the right.
pub open spec fn state_key(grid: Grid, radii: Seq<u64>, c: usize, level: int, left: bool) -> usize {
    states(grid, radii).key_of(
        c as nat,
        0,
        (2 * level + if left {
            0int
        } else {
            1int
        }) as nat,
    ) as usize
}

/// The step from the state `s` in the direction `d`: to the neighbour
/// cell, at the lesser of the level and the radius of that cell, at the
/// cost of entering it. No step crosses the row of the volcano on the
/// far side: to the right of it on the left way, to the left of it on
/// the right way.
pub open spec fn round_step(grid: Grid, radii: Seq<u64>, origin: usize, s: usize, d: int) -> Option<
    (usize, u64),
> {
    let layout = states(grid, radii);
    let c = layout.x_of(s as nat) as usize;
    let aux = layout.aux_of(s as nat);
    let left = aux % 2 == 0;
    match grid.neighbor_of(c, d) {
        None => None,
        Some(t) => if grid.y_of(t) == grid.y_of(origin) && ((left && grid.x_of(t) > grid.x_of(
            origin,
        )) || (!left && grid.x_of(t) < grid.x_of(origin))) {
            None
        } else {
            let level = if radii[t as int] < aux / 2 {
                radii[t as int] as int
            } else {
                (aux / 2) as int
            };
            Some((state_key(grid, radii, t, level, left), value_of(grid.cells@[t as int])))
        },
    }
}

/// The steps from the state `s` in the first `upto` directions.
pub open spec fn round_steps(grid: Grid, radii: Seq<u64>, origin: usize, s: usize, upto: nat) -> Seq<
    (usize, u64),
>
    decreases upto,
{
    if upto == 0 {
        Seq::empty()
    } else {
        let before = round_steps(grid, radii, origin, s, (upto - 1) as nat);
        match round_step(grid, radii, origin, s, upto - 1) {
            Some(step) => before.push(step),
            None => before,
        }
    }
}

/// The ways round the volcano as a graph.
pub open spec fn round_graph(grid: Grid, radii: Seq<u64>, origin: usize) -> spec_fn(usize) -> Seq<
    (usize, u64),
> {
    |s: usize| round_steps(grid, radii, origin, s, 4)
}

/// The steps out of the state `s`.
pub fn round_from(grid: &Grid, radii: &Vec<u64>, origin: usize, layout: &KeyLayout, s: usize) -> (r:
    Vec<(usize, u64)>)
    requires
        grid.wf(),
        radii@.len() == grid.area(),
        origin < grid.area(),
        round_fits(*grid, radii@),
        *layout == states(*grid, radii@),
        layout.wf(),
        s < layout.capacity(),
    ensures
        r@ == round_graph(*grid, radii@, origin)(s),
        forall|i: int| 0 <= i < r@.len() ==> (#[trigger] r@[i]).0 < layout.capacity(),
{
    let state: (usize, usize, usize) = layout.decode(s);
    proof {
        layout.lemma_decode_in_domain(s as nat);
        assert(2 * levels_of(radii@) <= grid.area() * (2 * levels_of(radii@))) by (nonlinear_arith)
            requires
                grid.area() >= 1,
                levels_of(radii@) >= 0,
        ;
    }
    let area: usize = grid.cells.len();
    let c: usize = state.0;
    let aux: usize = state.2;
    let left: bool = aux % 2 == 0;
    let ox: usize = origin % grid.width;
    let oy: usize = origin / grid.width;
    let mut out: Vec<(usize, u64)> = Vec::new();
    let mut d: usize = 0;
    while d < 4
        invariant
            d <= 4,
            grid.wf(),
            radii@.len() == grid.area(),
            origin < grid.area(),
            round_fits(*grid, radii@),
            *layout == states(*grid, radii@),
            layout.wf(),
            s < layout.capacity(),
            c == layout.x_of(s as nat),
            c < grid.area(),
            area == grid.area(),
            2 * levels_of(radii@) <= usize::MAX,
            aux == layout.aux_of(s as nat),
            aux < 2 * levels_of(radii@),
            left == (aux % 2 == 0),
            ox == grid.x_of(origin),
            oy == grid.y_of(origin),
            out@ == round_steps(*grid, radii@, origin, s, d as nat),
            forall|i: int| 0 <= i < out@.len() ==> (#[trigger] out@[i]).0 < layout.capacity(),
        decreases 4 - d,
    {
        match grid.neighbor(c, d) {
            None => {},
            Some(t) => {
                let tx: usize = t % grid.width;
                let ty: usize = t / grid.width;
                if !(ty == oy && ((left && tx > ox) || (!left && tx < ox))) {
                    proof {
                        lemma_top(radii@, radii@.len(), t as int);
                    }
                    let level: usize = if radii[t] < (aux / 2) as u64 {
                        radii[t] as usize
                    } else {
                        aux / 2
                    };
                    let side: usize = if left {
                        0
                    } else {
                        1
                    };
                    let key: usize = layout.encode(t, 0, 2 * level + side);
                    out.push((key, value(grid.cells[t])));
                }
            },
        }
        d += 1;
    }
    out
}

/// Whether `t` is the least time of a way on one side from the cell
/// `start` to the cell `c` that has `level` for its least radius.
pub open spec fn arrives(
    grid: Grid,
    radii: Seq<u64>,
    origin: usize,
    start: usize,
    c: usize,
    level: int,
    left: bool,
    t: Option<u64>,
) -> bool {
    is_shortest_cost(
        edges_of(round_graph(grid, radii, origin)),
        only(state_key(grid, radii, c, level, left)),
        state_key(grid, radii, start, radii[start as int] as int, left),
        u64::MAX as nat,
        t,
    )
}

/// Whether two ways meet in the cell `c` in time: the cell lies straight
/// below the volcano, the least way on the left takes `a` and the least
/// on the right `b`, both with `level` for their least radius, and
/// together, the cell counted once, they take less than the lava takes
/// to that ring.
pub open spec fn meets(
    grid: Grid,
    radii: Seq<u64>,
    origin: usize,
    start: usize,
    c: usize,
    level: int,
    a: u64,
    b: u64,
) -> bool {
    &&& c < grid.area()
    &&& grid.x_of(c) == grid.x_of(origin)
    &&& grid.y_of(c) > grid.y_of(origin)
    &&& 1 <= level < levels_of(radii)
    &&& arrives(grid, radii, origin, start, c, level, true, Some(a))
    &&& arrives(grid, radii, origin, start, c, level, false, Some(b))
    &&& a + b >= value_of(grid.cells@[c as int])
    &&& a + b - value_of(grid.cells@[c as int]) < 30 * level
}

/// The later of two times.
pub open spec fn later(a: u64, b: u64) -> u64 {
    if a > b {
        a
    } else {
        b
    }
}

/// Whether the meeting in `c` comes no later than that in `c2`: its
/// later way is shorter, or as long and the cell or the level comes
/// first.
pub open spec fn comes_first(
    a: u64,
    b: u64,
    c: usize,
    level: int,
    a2: u64,
    b2: u64,
    c2: usize,
    level2: int,
) -> bool {
    later(a, b) < later(a2, b2) || (later(a, b) == later(a2, b2) && (c < c2 || (c == c2 && level
        <= level2)))
}

/// Whether the meeting in `c` is the first of all.
pub open spec fn is_first_meeting(
    grid: Grid,
    radii: Seq<u64>,
    origin: usize,
    start: usize,
    c: usize,
    level: int,
    a: u64,
    b: u64,
) -> bool {
    &&& meets(grid, radii, origin, start, c, level, a, b)
    &&& forall|c2: usize, l2: int, a2: u64, b2: u64| #[trigger]
        meets(grid, radii, origin, start, c2, l2, a2, b2) ==> comes_first(
            a,
            b,
            c,
            level,
            a2,
            b2,
            c2,
            l2,
        )
}

/// The time of a meeting, the cell counted once, times the rings that
/// the lava had still to go.
pub open spec fn printed(grid: Grid, c: usize, level: int, a: u64, b: u64) -> int {
    (a + b - value_of(grid.cells@[c as int])) * (level - 1)
}

/// The way round the volcano: from the cell `start` down both sides to
/// the first cell straight below the volcano in which the two least
/// ways meet before the lava is there. Returns the time of the round
/// times the rings the lava had still to go; `None` where no two ways
/// meet in time, or the number does not fit.
pub fn round_volcano(grid: &Grid, radii: &Vec<u64>, origin: usize, start: usize) -> (r: Option<u64>)
    requires
        grid.wf(),
        radii@.len() == grid.area(),
        origin < grid.area(),
        start < grid.area(),
        round_fits(*grid, radii@),
    ensures
        r matches Some(p) ==> exists|c: usize, level: int, a: u64, b: u64|
            #![trigger is_first_meeting(*grid, radii@, origin, start, c, level, a, b)]
            is_first_meeting(*grid, radii@, origin, start, c, level, a, b) && p == printed(
                *grid,
                c,
                level,
                a,
                b,
            ),
        r.is_none() ==> forall|c: usize, level: int, a: u64, b: u64| #[trigger]
            is_first_meeting(*grid, radii@, origin, start, c, level, a, b) ==> printed(
                *grid,
                c,
                level,
                a,
                b,
            ) > u64::MAX,
{
    let area: usize = grid.cells.len();
    let mut high: u64 = 0;
    let mut i: usize = 0;
    while i < radii.len()
        invariant
            i <= radii@.len(),
            high == top(radii@, i as nat),
        decreases radii@.len() - i,
    {
        if radii[i] > high {
            high = radii[i];
        }
        i += 1;
    }
    proof {
        assert(2 * levels_of(radii@) <= grid.area() * (2 * levels_of(radii@))) by (nonlinear_arith)
            requires
                grid.area() >= 1,
                levels_of(radii@) >= 0,
        ;
        lemma_top(radii@, radii@.len(), start as int);
    }
    let levels: usize = high as usize + 1;
    let layout = KeyLayout { width: area, height: 1, aux_range: 2 * levels };
    assert(layout == states(*grid, radii@));
    assert(layout.wf()) by {
        assert(layout.capacity() == grid.area() * (2 * levels_of(radii@))) by (nonlinear_arith)
            requires
                layout.capacity() == (area as nat) * 1 * ((2 * levels) as nat),
                area == grid.area(),
                levels == levels_of(radii@),
        ;
    }
    let n: usize = layout.capacity_of();
    let from: usize = radii[start] as usize;
    let left_start: usize = layout.encode(start, 0, 2 * from);
    let right_start: usize = layout.encode(start, 0, 2 * from + 1);
    let ghost graph = round_graph(*grid, radii@, origin);
    let ghost ready = grid.wf() && radii@.len() == grid.area() && origin < grid.area()
        && round_fits(*grid, radii@) && layout == states(*grid, radii@) && layout.wf();
    let down_left = |s: usize| -> (list: Vec<(usize, u64)>)
        requires
            ready,
            s < layout.capacity(),
        ensures
            list@ == graph(s),
            forall|i: int| 0 <= i < list@.len() ==> (#[trigger] list@[i]).0 < layout.capacity(),
        { round_from(grid, radii, origin, &layout, s) };
    let down_right = |s: usize| -> (list: Vec<(usize, u64)>)
        requires
            ready,
            s < layout.capacity(),
        ensures
            list@ == graph(s),
            forall|i: int| 0 <= i < list@.len() ==> (#[trigger] list@[i]).0 < layout.capacity(),
        { round_from(grid, radii, origin, &layout, s) };
    let left: Vec<Option<u64>> = distances(left_start, n, down_left);
    let right: Vec<Option<u64>> = distances(right_start, n, down_right);
    proof {
        assert(computes_successors(&down_left, n, graph));
        assert(computes_successors(&down_right, n, graph));
        assert forall|t: usize| t < n implies is_shortest_cost(
            edges_of(graph),
            #[trigger] only(t),
            left_start,
            u64::MAX as nat,
            left@[t as int],
        ) && is_shortest_cost(
            edges_of(graph),
            only(t),
            right_start,
            u64::MAX as nat,
            right@[t as int],
        ) by {}
    }
    let ox: usize = origin % grid.width;
    let oy: usize = origin / grid.width;
    let mut best: Option<(usize, usize, u64, u64)> = None;
    let mut c: usize = 0;
    while c < area
        invariant
            c <= area,
            area == grid.area(),
            grid.wf(),
            radii@.len() == grid.area(),
            origin < grid.area(),
            start < grid.area(),
            layout == states(*grid, radii@),
            layout.wf(),
            n == layout.capacity(),
            levels == levels_of(radii@),
            2 * levels <= usize::MAX,
            ox == grid.x_of(origin),
            oy == grid.y_of(origin),
            graph == round_graph(*grid, radii@, origin),
            left_start == state_key(*grid, radii@, start, radii@[start as int] as int, true),
            right_start == state_key(*grid, radii@, start, radii@[start as int] as int, false),
            left@.len() == n,
            right@.len() == n,
            forall|t: usize|
                t < n ==> is_shortest_cost(
                    edges_of(graph),
                    #[trigger] only(t),
                    left_start,
                    u64::MAX as nat,
                    left@[t as int],
                ) && is_shortest_cost(
                    edges_of(graph),
                    only(t),
                    right_start,
                    u64::MAX as nat,
                    right@[t as int],
                ),
            best matches Some(m) ==> meets(*grid, radii@, origin, start, m.0, m.1 as int, m.2, m.3)
                && m.0 < c,
            forall|c2: usize, l2: int, a2: u64, b2: u64| #[trigger]
                meets(*grid, radii@, origin, start, c2, l2, a2, b2) && c2 < c ==> (
                best matches Some(m) && comes_first(m.2, m.3, m.0, m.1 as int, a2, b2, c2, l2)),
        decreases area - c,
    {
        let cx: usize = c % grid.width;
        let cy: usize = c / grid.width;
        if cx == ox && cy > oy {
            let v: u64 = value(grid.cells[c]);
            let mut l: usize = 1;
            while l < levels
                invariant
                    1 <= l <= levels || (l == 1 && levels == 0),
                    c < area,
                    area == grid.area(),
                    grid.wf(),
                    radii@.len() == grid.area(),
                    origin < grid.area(),
                    layout == states(*grid, radii@),
                    layout.wf(),
                    n == layout.capacity(),
                    levels == levels_of(radii@),
                    2 * levels <= usize::MAX,
                    grid.x_of(c) == grid.x_of(origin),
                    grid.y_of(c) > grid.y_of(origin),
                    v == value_of(grid.cells@[c as int]),
                    graph == round_graph(*grid, radii@, origin),
                    left_start == state_key(*grid, radii@, start, radii@[start as int] as int, true),
                    right_start == state_key(
                        *grid,
                        radii@,
                        start,
                        radii@[start as int] as int,
                        false,
                    ),
                    left@.len() == n,
                    right@.len() == n,
                    forall|t: usize|
                        t < n ==> is_shortest_cost(
                            edges_of(graph),
                            #[trigger] only(t),
                            left_start,
                            u64::MAX as nat,
                            left@[t as int],
                        ) && is_shortest_cost(
                            edges_of(graph),
                            only(t),
                            right_start,
                            u64::MAX as nat,
                            right@[t as int],
                        ),
                    best matches Some(m) ==> meets(
                        *grid,
                        radii@,
                        origin,
                        start,
                        m.0,
                        m.1 as int,
                        m.2,
                        m.3,
                    ) && (m.0 < c || (m.0 == c && m.1 < l)),
                    forall|c2: usize, l2: int, a2: u64, b2: u64| #[trigger]
                        meets(*grid, radii@, origin, start, c2, l2, a2, b2) && (c2 < c || (c2 == c
                            && l2 < l)) ==> (best matches Some(m) && comes_first(
                            m.2,
                            m.3,
                            m.0,
                            m.1 as int,
                            a2,
                            b2,
                            c2,
                            l2,
                        )),
                decreases levels - l,
            {
                let kl: usize = layout.encode(c, 0, 2 * l);
                let kr: usize = layout.encode(c, 0, 2 * l + 1);
                assert(kl == state_key(*grid, radii@, c, l as int, true));
                assert(kr == state_key(*grid, radii@, c, l as int, false));
                let ghost before = best;
                let found: Option<(u64, u64)> = match (left[kl], right[kr]) {
                    (Some(a), Some(b)) => {
                        let sum: u128 = a as u128 + b as u128;
                        if sum >= v as u128 && sum - (v as u128) < 30 * (l as u128) {
                            Some((a, b))
                        } else {
                            None
                        }
                    },
                    _ => None,
                };
                proof {
                    assert(is_shortest_cost(
                        edges_of(graph),
                        only(kl),
                        left_start,
                        u64::MAX as nat,
                        left@[kl as int],
                    ));
                    assert(is_shortest_cost(
                        edges_of(graph),
                        only(kr),
                        right_start,
                        u64::MAX as nat,
                        right@[kr as int],
                    ));
                    assert forall|a2: u64, b2: u64| #[trigger]
                        meets(*grid, radii@, origin, start, c, l as int, a2, b2) implies found
                        == Some((a2, b2)) by {
                        lemma_shortest_cost_unique(
                            edges_of(graph),
                            only(kl),
                            left_start,
                            u64::MAX as nat,
                            Some(a2),
                            left@[kl as int],
                        );
                        lemma_shortest_cost_unique(
                            edges_of(graph),
                            only(kr),
                            right_start,
                            u64::MAX as nat,
                            Some(b2),
                            right@[kr as int],
                        );
                    }
                }
                match found {
                    None => {},
                    Some((a, b)) => {
                        assert(meets(*grid, radii@, origin, start, c, l as int, a, b));
                        let arrival: u64 = if a > b {
                            a
                        } else {
                            b
                        };
                        let sooner: bool = match best {
                            None => true,
                            Some(m) => arrival < (if m.2 > m.3 {
                                m.2
                            } else {
                                m.3
                            }),
                        };
                        if sooner {
                            best = Some((c, l, a, b));
                        }
                    },
                }
                l += 1;
            }
        }
        c += 1;
    }
    match best {
        None => None,
        Some(m) => {
            assert(is_first_meeting(*grid, radii@, origin, start, m.0, m.1 as int, m.2, m.3));
            proof {
                assert forall|c2: usize, l2: int, a2: u64, b2: u64| #[trigger]
                    is_first_meeting(
                        *grid,
                        radii@,
                        origin,
                        start,
                        c2,
                        l2,
                        a2,
                        b2,
                    ) implies c2 == m.0 && l2 == m.1 && a2 == m.2 && b2 == m.3 by {
                    assert(meets(*grid, radii@, origin, start, c2, l2, a2, b2));
                    assert(comes_first(m.2, m.3, m.0, m.1 as int, a2, b2, c2, l2));
                    assert(comes_first(a2, b2, c2, l2, m.2, m.3, m.0, m.1 as int));
                    if c2 == m.0 && l2 == m.1 {
                        lemma_shortest_cost_unique(
                            edges_of(graph),
                            only(state_key(*grid, radii@, c2, l2, true)),
                            left_start,
                            u64::MAX as nat,
                            Some(a2),
                            Some(m.2),
                        );
                        lemma_shortest_cost_unique(
                            edges_of(graph),
                            only(state_key(*grid, radii@, c2, l2, false)),
                            right_start,
                            u64::MAX as nat,
                            Some(b2),
                            Some(m.3),
                        );
                    }
                }
            }
            let v: u64 = value(grid.cells[m.0]);
            let spent: u128 = m.2 as u128 + m.3 as u128 - v as u128;
            assert(spent == m.2 + m.3 - value_of(grid.cells@[m.0 as int]));
            assert(printed(*grid, m.0, m.1 as int, m.2, m.3) == spent * (m.1 - 1));
            match spent.checked_mul((m.1 - 1) as u128) {
                None => None,
                Some(p) => if p <= 0xffff_ffff_ffff_ffff {
                    Some(p as u64)
                } else {
                    None
                },
            }
        },
    }
}

} // verus!
