//! Jumps across a park of triangular tiles that turns while one jumps.
//!
//! The park is given as one grid for every position of its turn; a jump
//! leads from a tile in one grid to a tile in the next. Tiles alternate
//! between pointing up and pointing down: a tile points up where row and
//! column have the same parity, and then borders on the tile above, else
//! on the tile below, and always on the tiles to its left and right.
//! `#` and `.` are no tiles.

use vstd::prelude::*;
use crate::graph::{edges_of, is_shortest_cost};
use crate::search::{computes_successors, decides_goal, dijkstra};
use crate::state_key::KeyLayout;

verus! {

/// A park: its grids, each of `width` by `height` cells.
pub struct Park {
    pub grids: Vec<Vec<u8>>,
    pub width: usize,
    pub height: usize,
}

/// The step to the `d`-th neighbour of the tile at `(x, y)`: towards the
/// side the tile points to, left, right, and as a fourth none at all.
pub open spec fn side(x: int, y: int, d: int) -> (int, int) {
    if d == 0 {
        if y % 2 == x % 2 {
            (0, -1)
        } else {
            (0, 1)
        }
    } else if d == 1 {
        (-1, 0)
    } else if d == 2 {
        (1, 0)
    } else {
        (0, 0)
    }
}

/// Whether a cell that holds `byte` is a tile.
pub open spec fn is_tile(byte: u8) -> bool {
    byte != 0x23 && byte != 0x2e
}

impl Park {
    /// The layout that numbers the tiles of all grids.
    pub open spec fn layout(&self) -> KeyLayout {
        KeyLayout { width: self.width, height: self.height, aux_range: self.grids@.len() as usize }
    }

    /// A park is in order when it has a grid, every grid has its cells, and
    /// the tiles of all grids can be numbered.
    pub open spec fn wf(&self) -> bool {
        &&& self.grids@.len() >= 1
        &&& self.layout().wf()
        &&& self.layout().aux_range == self.grids@.len()
        &&& forall|g: int|
            0 <= g < self.grids@.len() ==> (#[trigger] self.grids@[g])@.len() == self.width
                * self.height
    }

    /// The byte in cell `(x, y)` of grid `g`.
    pub open spec fn at(&self, g: int, x: int, y: int) -> u8 {
        self.grids@[g]@[y * self.width + x]
    }

    /// The jump from the tile with key `s` to its `d`-th neighbour in the
    /// next grid, if `s` is a tile and so is the neighbour.
    pub open spec fn jump(&self, s: usize, d: int) -> Option<usize> {
        let x = self.layout().x_of(s as nat) as int;
        let y = self.layout().y_of(s as nat) as int;
        let g = self.layout().aux_of(s as nat) as int;
        let next = (g + 1) % (self.grids@.len() as int);
        let nx = x + side(x, y, d).0;
        let ny = y + side(x, y, d).1;
        if is_tile(self.at(g, x, y)) && 0 <= nx < self.width && 0 <= ny < self.height && is_tile(
            self.at(next, nx, ny),
        ) {
            Some(self.layout().key_of(nx as nat, ny as nat, next as nat) as usize)
        } else {
            None
        }
    }

    /// The jumps from the tile with key `s` to the neighbours with the
    /// numbers in `order`, taken one after the other.
    pub open spec fn jumps(&self, s: usize, order: Seq<int>, upto: nat) -> Seq<usize>
        decreases upto,
    {
        if upto == 0 || upto > order.len() {
            Seq::empty()
        } else {
            let before = self.jumps(s, order, (upto - 1) as nat);
            match self.jump(s, order[upto - 1]) {
                Some(t) => before.push(t),
                None => before,
            }
        }
    }
}

/// The order in which the neighbours are tried: staying first where that
/// is allowed, then the side the tile points to, left and right.
pub open spec fn jump_order(can_stay: bool) -> Seq<int> {
    if can_stay {
        seq![3, 0, 1, 2]
    } else {
        seq![0, 1, 2]
    }
}

/// Whether `map` lists, for every key, the jumps from the tile with that
/// key.
pub open spec fn is_jump_map(park: Park, can_stay: bool, map: Seq<Vec<usize>>) -> bool {
    &&& map.len() == park.layout().capacity()
    &&& forall|s: int|
        0 <= s < map.len() ==> (#[trigger] map[s])@ == park.jumps(
            s as usize,
            jump_order(can_stay),
            jump_order(can_stay).len(),
        )
}

/// The byte in cell `(x, y)` of grid `g`.
pub fn cell(park: &Park, g: usize, x: usize, y: usize) -> (byte: u8)
    requires
        park.wf(),
        g < park.grids@.len(),
        x < park.width,
        y < park.height,
    ensures
        byte == park.at(g as int, x as int, y as int),
{
    let grid: &Vec<u8> = &park.grids[g];
    proof {
        assert(grid@.len() == grid.len());
        lemma_cell_index(park.width as int, park.height as int, x as int, y as int);
    }
    grid[y * park.width + x]
}

/// The jump from the tile `(x, y)` of grid `g` to its `d`-th neighbour.
pub fn jump_from(park: &Park, g: usize, x: usize, y: usize, d: usize) -> (r: Option<usize>)
    requires
        park.wf(),
        g < park.grids@.len(),
        x < park.width,
        y < park.height,
        d < 4,
    ensures
        r == park.jump(park.layout().key_of(x as nat, y as nat, g as nat) as usize, d as int),
        r matches Some(t) ==> t < park.layout().capacity(),
{
    let layout = KeyLayout { width: park.width, height: park.height, aux_range: park.grids.len() };
    proof {
        layout.lemma_decode_encode(x as nat, y as nat, g as nat);
        layout.lemma_key_in_range(x as nat, y as nat, g as nat);
    }
    let here: u8 = cell(park, g, x, y);
    if here == 0x23 || here == 0x2e {
        return None;
    }
    let next: usize = if g + 1 == park.grids.len() {
        0
    } else {
        g + 1
    };
    assert(next == (g + 1) % (park.grids@.len() as int)) by {
        if g + 1 == park.grids@.len() {
            vstd::arithmetic::div_mod::lemma_mod_self_0(park.grids@.len() as int);
        } else {
            vstd::arithmetic::div_mod::lemma_small_mod((g + 1) as nat, park.grids@.len());
        }
    }
    let up: bool = y % 2 == x % 2;
    let target: Option<(usize, usize)> = if d == 0 {
        if up {
            if y > 0 {
                Some((x, y - 1))
            } else {
                None
            }
        } else {
            if y + 1 < park.height {
                Some((x, y + 1))
            } else {
                None
            }
        }
    } else if d == 1 {
        if x > 0 {
            Some((x - 1, y))
        } else {
            None
        }
    } else if d == 2 {
        if x + 1 < park.width {
            Some((x + 1, y))
        } else {
            None
        }
    } else {
        Some((x, y))
    };
    match target {
        None => None,
        Some((nx, ny)) => {
            proof {
                layout.lemma_key_in_range(nx as nat, ny as nat, next as nat);
            }
            let there: u8 = cell(park, next, nx, ny);
            if there == 0x23 || there == 0x2e {
                None
            } else {
                Some(layout.encode(nx, ny, next))
            }
        },
    }
}

/// The index of a cell of a grid is below the number of its cells.
pub proof fn lemma_cell_index(width: int, height: int, x: int, y: int)
    requires
        0 <= x < width,
        0 <= y < height,
    ensures
        0 <= y * width + x < width * height,
        0 <= y * width,
{
    assert(0 <= y * width && y * width + x < width * height) by (nonlinear_arith)
        requires
            0 <= x < width,
            0 <= y < height,
    ;
}

/// The map of the park: for every key the jumps from the tile with that
/// key. With `can_stay`, a jump may also lead to the same place in the next
/// grid.
pub fn make_map(park: &Park, can_stay: bool) -> (map: Vec<Vec<usize>>)
    requires
        park.wf(),
    ensures
        is_jump_map(*park, can_stay, map@),
        forall|s: int, i: int|
            0 <= s < map@.len() && 0 <= i < map@[s]@.len() ==> (#[trigger] map@[s]@[i])
                < park.layout().capacity(),
{
    let layout = KeyLayout { width: park.width, height: park.height, aux_range: park.grids.len() };
    let n: usize = layout.capacity_of();
    let ghost order = jump_order(can_stay);
    let mut map: Vec<Vec<usize>> = Vec::new();
    let mut s: usize = 0;
    while s < n
        invariant
            s <= n,
            n == park.layout().capacity(),
            park.wf(),
            layout == park.layout(),
            order == jump_order(can_stay),
            map@.len() == s,
            forall|k: int|
                0 <= k < s ==> (#[trigger] map@[k])@ == park.jumps(k as usize, order, order.len()),
            forall|k: int, i: int|
                0 <= k < s && 0 <= i < map@[k]@.len() ==> (#[trigger] map@[k]@[i]) < n,
        decreases n - s,
    {
        let (x, y, g) = layout.decode(s);
        let mut out: Vec<usize> = Vec::new();
        let first: usize = if can_stay {
            0
        } else {
            1
        };
        let mut i: usize = first;
        proof {
            assert(park.jumps(s, order, 0) =~= Seq::<usize>::empty());
        }
        while i < 4
            invariant
                first <= i <= 4,
                first == (if can_stay {
                    0usize
                } else {
                    1usize
                }),
                park.wf(),
                layout == park.layout(),
                n == park.layout().capacity(),
                order == jump_order(can_stay),
                g < park.grids@.len(),
                x < park.width,
                y < park.height,
                layout.key_of(x as nat, y as nat, g as nat) == s,
                out@ == park.jumps(s, order, (i - first) as nat),
                forall|j: int| 0 <= j < out@.len() ==> (#[trigger] out@[j]) < n,
            decreases 4 - i,
        {
            let d: usize = if i == 0 {
                3
            } else {
                i - 1
            };
            assert(order[i - first] == d);
            match jump_from(park, g, x, y, d) {
                Some(t) => {
                    out.push(t);
                },
                None => {},
            }
            i += 1;
        }
        map.push(out);
        s += 1;
    }
    map
}

/// The park as a graph: every jump of the map is a step of cost 1.
pub open spec fn jump_graph(map: Seq<Vec<usize>>) -> spec_fn(usize) -> Seq<(usize, u64)> {
    |s: usize|
        if s < map.len() {
            Seq::new(map[s as int]@.len(), |i: int| (map[s as int]@[i], 1u64))
        } else {
            Seq::empty()
        }
}

/// The tiles at which the way ends: those that hold `E`.
pub open spec fn park_goals(park: Park) -> spec_fn(usize) -> bool {
    |s: usize|
        park.at(
            park.layout().aux_of(s as nat) as int,
            park.layout().x_of(s as nat) as int,
            park.layout().y_of(s as nat) as int,
        ) == 0x45
}

/// The jumps out of the tile with key `s` as steps of cost 1.
pub fn jumps_from(map: &Vec<Vec<usize>>, s: usize) -> (r: Vec<(usize, u64)>)
    requires
        s < map@.len(),
    ensures
        r@ == jump_graph(map@)(s),
        r@.len() == map@[s as int]@.len(),
        forall|i: int| 0 <= i < r@.len() ==> (#[trigger] r@[i]).0 == map@[s as int]@[i],
{
    let list: &Vec<usize> = &map[s];
    let mut out: Vec<(usize, u64)> = Vec::new();
    let mut i: usize = 0;
    while i < list.len()
        invariant
            i <= list@.len(),
            out@.len() == i,
            forall|j: int| 0 <= j < i ==> out@[j] == (list@[j], 1u64),
        decreases list@.len() - i,
    {
        out.push((list[i], 1));
        i += 1;
    }
    assert(out@ =~= jump_graph(map@)(s));
    out
}

/// The fewest jumps that lead from the tile `(x, y)` of the first grid to
/// a tile that holds `E` in whatever grid, or `None` when no jumps lead
/// there.
pub fn shortest_path(park: &Park, map: &Vec<Vec<usize>>, x: usize, y: usize) -> (r: Option<u64>)
    requires
        park.wf(),
        x < park.width,
        y < park.height,
        map@.len() == park.layout().capacity(),
        forall|s: int, i: int|
            0 <= s < map@.len() && 0 <= i < map@[s]@.len() ==> (#[trigger] map@[s]@[i])
                < map@.len(),
    ensures
        is_shortest_cost(
            edges_of(jump_graph(map@)),
            park_goals(*park),
            park.layout().key_of(x as nat, y as nat, 0) as usize,
            u64::MAX as nat,
            r,
        ),
{
    let layout = KeyLayout { width: park.width, height: park.height, aux_range: park.grids.len() };
    let n: usize = layout.capacity_of();
    let start: usize = layout.encode(x, y, 0);
    let transition = |s: usize| -> (list: Vec<(usize, u64)>)
        requires
            s < map@.len(),
            forall|k: int, i: int|
                0 <= k < map@.len() && 0 <= i < map@[k]@.len() ==> (#[trigger] map@[k]@[i])
                    < map@.len(),
        ensures
            list@ == jump_graph(map@)(s),
            forall|i: int| 0 <= i < list@.len() ==> (#[trigger] list@[i]).0 < map@.len(),
        {
            let list = jumps_from(map, s);
            proof {
                assert forall|i: int| 0 <= i < list@.len() implies (#[trigger] list@[i]).0
                    < map@.len() by {
                    assert(map@[s as int]@[i] < map@.len());
                }
            }
            list
        };
    let goal = |s: usize| -> (b: bool)
        requires
            park.wf(),
            layout == park.layout(),
            s < park.layout().capacity(),
        ensures
            b == park_goals(*park)(s),
        {
            let (cx, cy, g) = layout.decode(s);
            cell(park, g, cx, cy) == 0x45
        };
    let r = dijkstra(start, n, transition, goal);
    proof {
        assert(computes_successors(&transition, n, jump_graph(map@)));
        assert(decides_goal(&goal, n, park_goals(*park)));
    }
    r
}

/// What to take away from `a`, but not below nothing.
pub open spec fn less(a: int, b: int) -> int {
    if a >= b {
        a - b
    } else {
        0
    }
}

/// The cell of the grid that comes to lie in `(x, y)` when a triangular
/// park of `height` rows is turned by a third of a full turn: the rows of
/// the turned park run along what were the diagonals, beginning at the
/// lower right corner. Cells beside the triangle stay as they are.
pub open spec fn turned_from(height: int, x: int, y: int) -> (int, int) {
    let width = 2 * height - 1;
    if y <= x < width - y {
        let t = x - y;
        (less(height - 1 + y, t / 2), less(height - 1 - y, (t + 1) / 2))
    } else {
        (x, y)
    }
}

/// Whether `turned` is the grid `grid` of a triangular park, turned by a
/// third of a full turn.
pub open spec fn is_turned(grid: Seq<u8>, height: int, turned: Seq<u8>) -> bool {
    &&& turned.len() == grid.len()
    &&& forall|x: int, y: int|
        #![trigger turned[y * (2 * height - 1) + x]]
        0 <= x < 2 * height - 1 && 0 <= y < height ==> turned[y * (2 * height - 1) + x] == grid[
            turned_from(height, x, y).1 * (2 * height - 1) + turned_from(height, x, y).0
        ]
}

/// Turns the grid of a triangular park by a third of a full turn.
pub fn rotate(grid: &Vec<u8>, width: usize, height: usize) -> (new_grid: Vec<u8>)
    requires
        height >= 1,
        width + 1 == 2 * height,
        grid@.len() == width * height,
    ensures
        is_turned(grid@, height as int, new_grid@),
{
    let mut new_grid: Vec<u8> = grid.clone();
    assert(new_grid@ == grid@);
    assert(grid@.len() == grid.len());
    let mut source: (usize, usize) = (height - 1, height - 1);
    let ghost w = width as int;
    let ghost h = height as int;
    let mut y: usize = 0;
    while y < height
        invariant
            y <= height,
            height >= 1,
            width + 1 == 2 * height,
            w == width,
            h == height,
            grid@.len() == width * height,
            width * height <= usize::MAX,
            new_grid@.len() == grid@.len(),
            source.0 == height - 1 + y,
            source.1 == less(h - 1, y as int),
            forall|cx: int, cy: int|
                #![trigger new_grid@[cy * w + cx]]
                0 <= cx < w && 0 <= cy < y ==> new_grid@[cy * w + cx] == grid@[turned_from(
                    h,
                    cx,
                    cy,
                ).1 * w + turned_from(h, cx, cy).0],
            forall|cx: int, cy: int|
                #![trigger new_grid@[cy * w + cx]]
                0 <= cx < w && y <= cy < h ==> new_grid@[cy * w + cx] == grid@[cy * w + cx],
        decreases height - y,
    {
        let mut s: (usize, usize) = source;
        let mut x: usize = y;
        let ghost row = new_grid@;
        while x < width - y
            invariant
                y <= x <= width - y,
                y < height,
                height >= 1,
                width + 1 == 2 * height,
                w == width,
                h == height,
                grid@.len() == width * height,
                width * height <= usize::MAX,
                new_grid@.len() == grid@.len(),
                row.len() == grid@.len(),
                s.0 == less(h - 1 + y, (x - y) / 2),
                s.1 == less(h - 1 - y, (x - y + 1) / 2),
                forall|cx: int, cy: int|
                    #![trigger new_grid@[cy * w + cx]]
                    0 <= cx < w && 0 <= cy < h && (cy != y || cx < y || cx >= x)
                        ==> new_grid@[cy * w + cx] == row[cy * w + cx],
                forall|cx: int|
                    #![trigger new_grid@[y * w + cx]]
                    y <= cx < x ==> new_grid@[y * w + cx] == grid@[turned_from(h, cx, y as int).1
                        * w + turned_from(h, cx, y as int).0],
            decreases width - y - x,
        {
            proof {
                lemma_cell_index(w, h, s.0 as int, s.1 as int);
                lemma_cell_index(w, h, x as int, y as int);
            }
            let ghost before = new_grid@;
            let byte: u8 = grid[s.1 * width + s.0];
            new_grid[y * width + x] = byte;
            if (x - y) % 2 == 0 {
                s.1 = s.1.saturating_sub(1);
            } else {
                s.0 = s.0.saturating_sub(1);
            }
            proof {
                assert forall|cx: int, cy: int|
                    #![trigger new_grid@[cy * w + cx]]
                    0 <= cx < w && 0 <= cy < h && (cy != y || cx < y || cx >= x + 1)
                        implies new_grid@[cy * w + cx] == row[cy * w + cx] by {
                    lemma_cell_index(w, h, cx, cy);
                    assert(before[cy * w + cx] == row[cy * w + cx]);
                    lemma_cells_differ_from(w, h, x as int, y as int, cx, cy);
                }
                assert forall|cx: int|
                    #![trigger new_grid@[y * w + cx]]
                    y <= cx < x + 1 implies new_grid@[y * w + cx] == grid@[turned_from(
                    h,
                    cx,
                    y as int,
                ).1 * w + turned_from(h, cx, y as int).0] by {
                    if cx < x {
                        lemma_cells_differ_from(w, h, x as int, y as int, cx, y as int);
                        assert(before[y * w + cx] == grid@[turned_from(h, cx, y as int).1 * w
                            + turned_from(h, cx, y as int).0]);
                    }
                }
            }
            x += 1;
        }
        proof {
            assert forall|cx: int, cy: int|
                #![trigger new_grid@[cy * w + cx]]
                0 <= cx < w && 0 <= cy < y + 1 implies new_grid@[cy * w + cx] == grid@[turned_from(
                h,
                cx,
                cy,
            ).1 * w + turned_from(h, cx, cy).0] by {
                if cy < y {
                    assert(row[cy * w + cx] == grid@[turned_from(h, cx, cy).1 * w + turned_from(
                        h,
                        cx,
                        cy,
                    ).0]);
                } else if cx < y || cx >= w - y {
                    assert(row[cy * w + cx] == grid@[cy * w + cx]);
                }
            }
            assert forall|cx: int, cy: int|
                #![trigger new_grid@[cy * w + cx]]
                0 <= cx < w && y + 1 <= cy < h implies new_grid@[cy * w + cx] == grid@[cy * w
                + cx] by {
                assert(row[cy * w + cx] == grid@[cy * w + cx]);
            }
        }
        source.0 += 1;
        source.1 = source.1.saturating_sub(1);
        y += 1;
    }
    new_grid
}

/// Two cells of a grid have one index only if they are one cell.
pub proof fn lemma_cells_differ_from(width: int, height: int, x: int, y: int, cx: int, cy: int)
    requires
        0 <= x < width,
        0 <= y < height,
        0 <= cx < width,
        0 <= cy < height,
    ensures
        (cy * width + cx == y * width + x) <==> (cx == x && cy == y),
{
    if cy * width + cx == y * width + x {
        lemma_cell_index(width, height, x, y);
        vstd::arithmetic::div_mod::lemma_fundamental_div_mod_converse(y * width + x, width, y, x);
        vstd::arithmetic::div_mod::lemma_fundamental_div_mod_converse(
            cy * width + cx,
            width,
            cy,
            cx,
        );
    }
}

/// Whether a trampoline stands on the tile with key `s` of a park of one
/// grid and another on its `d`-th neighbour, the neighbour having the
/// greater key.
pub open spec fn pair_at(park: Park, s: usize, d: int) -> bool {
    let layout = park.layout();
    &&& park.at(0, layout.x_of(s as nat) as int, layout.y_of(s as nat) as int) == 0x54
    &&& park.jump(s, d) matches Some(t) && t > s && park.at(
        0,
        layout.x_of(t as nat) as int,
        layout.y_of(t as nat) as int,
    ) == 0x54
}

/// The number of pairs of trampolines among the tile with key `s` and its
/// first `upto` neighbours.
pub open spec fn pairs_at(park: Park, s: usize, upto: nat) -> nat
    decreases upto,
{
    if upto == 0 {
        0
    } else {
        pairs_at(park, s, (upto - 1) as nat) + if pair_at(park, s, upto - 1) {
            1nat
        } else {
            0nat
        }
    }
}

/// The number of pairs of trampolines that border on each other, among the
/// tiles with a key below `k`; every pair is counted at the tile with the
/// lesser key.
pub open spec fn pairs_below(park: Park, k: nat) -> nat
    decreases k,
{
    if k == 0 {
        0
    } else {
        pairs_below(park, (k - 1) as nat) + pairs_at(park, (k - 1) as usize, 3)
    }
}

/// The number of pairs of trampolines (`T`) that border on each other in a
/// park of one grid.
pub fn count_pairs(park: &Park) -> (n: usize)
    requires
        park.wf(),
        park.grids@.len() == 1,
        park.layout().capacity() * 3 <= usize::MAX,
    ensures
        n == pairs_below(*park, park.layout().capacity()),
{
    let layout = KeyLayout { width: park.width, height: park.height, aux_range: 1 };
    let cells: usize = layout.capacity_of();
    let mut n: usize = 0;
    let mut s: usize = 0;
    while s < cells
        invariant
            s <= cells,
            cells == park.layout().capacity(),
            cells * 3 <= usize::MAX,
            park.wf(),
            park.grids@.len() == 1,
            layout == park.layout(),
            n == pairs_below(*park, s as nat),
            n <= 3 * s,
        decreases cells - s,
    {
        let (x, y, g) = layout.decode(s);
        let here: u8 = cell(park, 0, x, y);
        let mut d: usize = 0;
        let ghost before = n;
        while d < 3
            invariant
                d <= 3,
                s < cells,
                cells == park.layout().capacity(),
                cells * 3 <= usize::MAX,
                park.wf(),
                park.grids@.len() == 1,
                layout == park.layout(),
                x == layout.x_of(s as nat),
                y == layout.y_of(s as nat),
                g == 0,
                x < park.width,
                y < park.height,
                layout.key_of(x as nat, y as nat, 0) == s,
                here == park.at(0, x as int, y as int),
                n == before + pairs_at(*park, s, d as nat),
                before <= 3 * s,
                n <= before + d,
            decreases 3 - d,
        {
            if here == 0x54 {
                match jump_from(park, 0, x, y, d) {
                    Some(t) => {
                        if t > s {
                            let (tx, ty, _) = layout.decode(t);
                            if cell(park, 0, tx, ty) == 0x54 {
                                n += 1;
                            }
                        }
                    },
                    None => {},
                }
            }
            d += 1;
        }
        s += 1;
    }
    n
}

} // verus!
