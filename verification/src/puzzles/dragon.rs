//! A dragon that hunts sheep on a small board, both moving in turn.
//!
//! On its turn one sheep steps one row down; a sheep that would leave the
//! board or step into a hideout that reaches the bottom (`H`) has escaped,
//! and a sheep may not step onto the dragon unless the cell is a hideout
//! (`#`). When no sheep can move the dragon moves at once. The dragon moves
//! like a knight and eats the sheep it lands on unless the cell is a
//! hideout. What is counted are the ways in which the dragon eats all
//! sheep.

use vstd::prelude::*;
use crate::memo::{clip, count_computes, path_count, solve_path_count, CountModel, MemoCache};
use crate::puzzles::sheep::{nibble, with_nibble, SheepMask};
use crate::state_key::KeyLayout;

verus! {

/// The board: what every cell holds, row by row.
pub struct Board {
    pub hideouts: Vec<u8>,
    pub width: usize,
    pub height: usize,
}

/// The step of the `k`-th move of a knight, in columns and rows.
pub open spec fn knight(k: int) -> (int, int) {
    if k == 0 {
        (2, 1)
    } else if k == 1 {
        (2, -1)
    } else if k == 2 {
        (1, 2)
    } else if k == 3 {
        (1, -2)
    } else if k == 4 {
        (-1, 2)
    } else if k == 5 {
        (-1, -2)
    } else if k == 6 {
        (-2, 1)
    } else {
        (-2, -1)
    }
}

/// The number of sets of sheep: one value of four bits for each of eight
/// columns.
pub open spec fn mask_span() -> nat {
    0x1_0000_0000
}

impl Board {
    /// A board has at most eight columns and fourteen rows, and a byte for
    /// each of its cells.
    pub open spec fn wf(&self) -> bool {
        &&& 1 <= self.width <= 8
        &&& 1 <= self.height <= 14
        &&& self.hideouts@.len() == self.width * self.height
    }

    /// The layout that numbers the states: the cell of the dragon, whose
    /// turn it is, and the sheep.
    pub open spec fn layout(&self) -> KeyLayout {
        KeyLayout {
            width: (self.width * self.height) as usize,
            height: 2,
            aux_range: mask_span() as usize,
        }
    }

    /// The key of the state in which all sheep are eaten.
    pub open spec fn won(&self) -> usize {
        self.layout().capacity() as usize
    }

    /// The byte in the cell `(x, y)`.
    pub open spec fn at(&self, x: int, y: int) -> u8 {
        self.hideouts@[y * self.width + x]
    }

    /// What the sheep of column `x` does on the sheep's turn: 0 when the
    /// column has no sheep or the sheep cannot move, 1 when it escapes, 2
    /// when it steps one row down.
    pub open spec fn sheep_choice(&self, mask: u32, dragon: int, x: int) -> int {
        let y = nibble(mask, x as u32) as int;
        if y >= self.height {
            0
        } else if y + 1 == self.height || self.at(x, y + 1) == 0x48 {
            1
        } else if dragon != (y + 1) * self.width + x || self.at(x, y + 1) == 0x23 {
            2
        } else {
            0
        }
    }

    /// Whether a sheep in one of the first `upto` columns can move or
    /// escape.
    pub open spec fn any_choice(&self, mask: u32, dragon: int, upto: nat) -> bool
        decreases upto,
    {
        if upto == 0 {
            false
        } else {
            self.any_choice(mask, dragon, (upto - 1) as nat) || self.sheep_choice(
                mask,
                dragon,
                upto - 1,
            ) != 0
        }
    }

    /// The steps of the sheep in the first `upto` columns: each leads to
    /// the dragon's turn with the sheep one row further down.
    pub open spec fn sheep_steps(&self, mask: u32, dragon: int, upto: nat) -> Seq<(usize, u64)>
        decreases upto,
    {
        if upto == 0 {
            Seq::empty()
        } else {
            let before = self.sheep_steps(mask, dragon, (upto - 1) as nat);
            let x = upto - 1;
            if self.sheep_choice(mask, dragon, x) == 2 {
                before.push(
                    (
                        self.layout().key_of(
                            dragon as nat,
                            1,
                            with_nibble(mask, x as u32, (nibble(mask, x as u32) + 1) as u32) as nat,
                        ) as usize,
                        1u64,
                    ),
                )
            } else {
                before
            }
        }
    }

    /// The steps of the sheep's turn: those of the sheep, or the one that
    /// passes the turn to the dragon when no sheep can move or escape.
    pub open spec fn sheep_turn(&self, mask: u32, dragon: int) -> Seq<(usize, u64)> {
        if self.any_choice(mask, dragon, self.width as nat) {
            self.sheep_steps(mask, dragon, self.width as nat)
        } else {
            seq![(self.layout().key_of(dragon as nat, 1, mask as nat) as usize, 1u64)]
        }
    }

    /// The step of the dragon's `k`-th move, if it stays on the board: to
    /// the state in which all sheep are eaten when it eats the last one,
    /// else to the sheep's turn.
    pub open spec fn dragon_step(&self, mask: u32, dragon: int, k: int) -> Option<(usize, u64)> {
        let nx = dragon % (self.width as int) + knight(k).0;
        let ny = dragon / (self.width as int) + knight(k).1;
        if 0 <= nx < self.width && 0 <= ny < self.height {
            let eats = nibble(mask, nx as u32) == ny && self.at(nx, ny) != 0x23;
            let left = if eats {
                with_nibble(mask, nx as u32, 0xf)
            } else {
                mask
            };
            if eats && left == !0u32 {
                Some((self.won(), 1u64))
            } else {
                Some(
                    (
                        self.layout().key_of((ny * self.width + nx) as nat, 0, left as nat) as usize,
                        1u64,
                    ),
                )
            }
        } else {
            None
        }
    }

    /// The steps of the dragon's first `upto` moves.
    pub open spec fn dragon_steps(&self, mask: u32, dragon: int, upto: nat) -> Seq<(usize, u64)>
        decreases upto,
    {
        if upto == 0 {
            Seq::empty()
        } else {
            let before = self.dragon_steps(mask, dragon, (upto - 1) as nat);
            match self.dragon_step(mask, dragon, upto - 1) {
                Some(step) => before.push(step),
                None => before,
            }
        }
    }
}

/// The hunt as a graph: from a state of the sheep's turn the steps of the
/// sheep, from a state of the dragon's turn those of the dragon, and none
/// once all sheep are eaten.
pub open spec fn hunt_graph(board: Board) -> spec_fn(usize) -> Seq<(usize, u64)> {
    |s: usize|
        if s >= board.won() {
            Seq::empty()
        } else {
            let dragon = board.layout().x_of(s as nat) as int;
            let mask = board.layout().aux_of(s as nat) as u32;
            if board.layout().y_of(s as nat) == 0 {
                board.sheep_turn(mask, dragon)
            } else {
                board.dragon_steps(mask, dragon, 8)
            }
        }
}

/// The hunt as a graph for counting: a walk ends where all sheep are
/// eaten.
pub open spec fn hunt(board: Board) -> CountModel {
    CountModel { succ: hunt_graph(board), terminal: |s: usize, left: usize| s == board.won() }
}

/// The byte in the cell `(x, y)` of the board.
pub fn cell(board: &Board, x: usize, y: usize) -> (byte: u8)
    requires
        board.wf(),
        x < board.width,
        y < board.height,
    ensures
        byte == board.at(x as int, y as int),
{
    assert(y * board.width + x < board.width * board.height) by (nonlinear_arith)
        requires
            x < board.width,
            y < board.height,
    ;
    assert(y * board.width <= 14 * 8) by (nonlinear_arith)
        requires
            y < board.height,
            board.height <= 14,
            board.width <= 8,
    ;
    board.hideouts[y * board.width + x]
}

/// The step of the `k`-th move of a knight, in columns and rows.
pub fn knight_move(k: usize) -> (r: (i64, i64))
    requires
        k < 8,
    ensures
        r.0 == knight(k as int).0,
        r.1 == knight(k as int).1,
{
    if k == 0 {
        (2, 1)
    } else if k == 1 {
        (2, -1)
    } else if k == 2 {
        (1, 2)
    } else if k == 3 {
        (1, -2)
    } else if k == 4 {
        (-1, 2)
    } else if k == 5 {
        (-1, -2)
    } else if k == 6 {
        (-2, 1)
    } else {
        (-2, -1)
    }
}

/// Whether this machine can number the states of the hunt on `board`.
pub open spec fn hunt_fits(board: Board) -> bool {
    (board.width * board.height) * 2 * mask_span() < usize::MAX
}

/// The layout that numbers the states of the hunt on `board`, or `None`
/// when this machine cannot number them.
pub fn layout_of(board: &Board) -> (r: Option<KeyLayout>)
    requires
        board.wf(),
    ensures
        r.is_some() <==> hunt_fits(*board),
        r matches Some(l) ==> l == board.layout() && l.wf() && l.width == board.width
            * board.height && l.height == 2 && l.aux_range == mask_span() && l.capacity()
            < usize::MAX,
{
    assert(1 <= board.width * board.height <= 8 * 14) by (nonlinear_arith)
        requires
            1 <= board.width <= 8,
            1 <= board.height <= 14,
    ;
    let cells: usize = board.width * board.height;
    let span: usize = match 65536usize.checked_mul(65536) {
        Some(v) => v,
        None => {
            assert((board.width * board.height) * 2 * mask_span() >= mask_span())
                by (nonlinear_arith)
                requires
                    board.width * board.height >= 1,
            ;
            return None;
        },
    };
    match KeyLayout::new(cells, 2, span) {
        Some(l) => {
            if l.capacity_of() < usize::MAX {
                Some(l)
            } else {
                None
            }
        },
        None => None,
    }
}

/// The steps of the sheep's turn with the sheep `mask` and the dragon in
/// the cell `dragon`.
pub fn sheep_from(board: &Board, layout: &KeyLayout, mask: u32, dragon: usize) -> (r: Vec<
    (usize, u64),
>)
    requires
        board.wf(),
        *layout == board.layout(),
        layout.wf(),
        layout.width == board.width * board.height,
        layout.height == 2,
        layout.aux_range == mask_span(),
        dragon < board.width * board.height,
    ensures
        r@ == board.sheep_turn(mask, dragon as int),
        forall|i: int|
            0 <= i < r@.len() ==> (#[trigger] r@[i]).0 < layout.capacity() && r@[i].1 == 1,
{
    let sheep = SheepMask(mask);
    let mut out: Vec<(usize, u64)> = Vec::new();
    let mut moved: bool = false;
    let mut x: usize = 0;
    while x < board.width
        invariant
            x <= board.width,
            board.wf(),
            *layout == board.layout(),
            layout.wf(),
            layout.width == board.width * board.height,
            layout.height == 2,
            layout.aux_range == mask_span(),
            dragon < board.width * board.height,
            sheep.0 == mask,
            moved == board.any_choice(mask, dragon as int, x as nat),
            out@ == board.sheep_steps(mask, dragon as int, x as nat),
            forall|i: int|
                0 <= i < out@.len() ==> (#[trigger] out@[i]).0 < layout.capacity() && out@[i].1
                    == 1,
        decreases board.width - x,
    {
        let y: i64 = sheep.get(x as i64);
        if (y as usize) < board.height {
            let below: usize = y as usize + 1;
            if below == board.height {
                moved = true;
            } else {
                let byte: u8 = cell(board, x, below);
                assert(below * board.width + x <= 14 * 8 + 8) by (nonlinear_arith)
                    requires
                        below < board.height,
                        board.height <= 14,
                        x < board.width,
                        board.width <= 8,
                ;
                if byte == 0x48 {
                    moved = true;
                } else if dragon != below * board.width + x || byte == 0x23 {
                    let next = sheep.set(x as i64, y + 1);
                    let key: usize = layout.encode(dragon, 1, next.0 as usize);
                    out.push((key, 1));
                    moved = true;
                }
            }
        }
        x += 1;
    }
    if !moved {
        let key: usize = layout.encode(dragon, 1, mask as usize);
        out.push((key, 1));
        assert(out@ =~= seq![(key, 1u64)]) by {
            lemma_no_choice_no_steps(*board, mask, dragon as int, board.width as nat);
        }
    }
    out
}

/// Where no sheep can move or escape, the sheep have no steps.
pub proof fn lemma_no_choice_no_steps(board: Board, mask: u32, dragon: int, upto: nat)
    requires
        !board.any_choice(mask, dragon, upto),
    ensures
        board.sheep_steps(mask, dragon, upto) =~= Seq::<(usize, u64)>::empty(),
    decreases upto,
{
    if upto > 0 {
        lemma_no_choice_no_steps(board, mask, dragon, (upto - 1) as nat);
    }
}

/// The steps of the dragon's turn with the sheep `mask` and the dragon in
/// the cell `dragon`.
pub fn dragon_from(board: &Board, layout: &KeyLayout, mask: u32, dragon: usize) -> (r: Vec<
    (usize, u64),
>)
    requires
        board.wf(),
        *layout == board.layout(),
        layout.wf(),
        layout.width == board.width * board.height,
        layout.height == 2,
        layout.aux_range == mask_span(),
        layout.capacity() < usize::MAX,
        dragon < board.width * board.height,
    ensures
        r@ == board.dragon_steps(mask, dragon as int, 8),
        forall|i: int|
            0 <= i < r@.len() ==> (#[trigger] r@[i]).0 <= layout.capacity() && r@[i].1 == 1,
{
    let sheep = SheepMask(mask);
    let won: usize = layout.capacity_of();
    assert(board.width * board.height <= 8 * 14) by (nonlinear_arith)
        requires
            board.width <= 8,
            board.height <= 14,
    ;
    let x: i64 = (dragon % board.width) as i64;
    let y: i64 = (dragon / board.width) as i64;
    let mut out: Vec<(usize, u64)> = Vec::new();
    let mut k: usize = 0;
    while k < 8
        invariant
            k <= 8,
            board.wf(),
            *layout == board.layout(),
            layout.wf(),
            layout.width == board.width * board.height,
            layout.height == 2,
            layout.aux_range == mask_span(),
            won == layout.capacity(),
            won == board.won(),
            dragon < board.width * board.height,
            sheep.0 == mask,
            x == (dragon as int) % (board.width as int),
            y == (dragon as int) / (board.width as int),
            0 <= x < 8,
            0 <= y < 120,
            out@ == board.dragon_steps(mask, dragon as int, k as nat),
            forall|i: int|
                0 <= i < out@.len() ==> (#[trigger] out@[i]).0 <= layout.capacity() && out@[i].1
                    == 1,
        decreases 8 - k,
    {
        let by = knight_move(k);
        let nx: i64 = x + by.0;
        let ny: i64 = y + by.1;
        if nx >= 0 && nx < board.width as i64 && ny >= 0 && ny < board.height as i64 {
            let byte: u8 = cell(board, nx as usize, ny as usize);
            let eats: bool = sheep.get(nx) == ny && byte != 0x23;
            let left = if eats {
                sheep.clear(nx)
            } else {
                sheep
            };
            if eats && left.is_empty() {
                out.push((won, 1));
            } else {
                assert((ny as usize) * board.width + (nx as usize) < board.width * board.height)
                    by (nonlinear_arith)
                    requires
                        0 <= nx < board.width,
                        0 <= ny < board.height,
                ;
                assert((ny as usize) * board.width <= 14 * 8) by (nonlinear_arith)
                    requires
                        0 <= ny < board.height,
                        board.height <= 14,
                        board.width <= 8,
                ;
                let to: usize = (ny as usize) * board.width + (nx as usize);
                let key: usize = layout.encode(to, 0, left.0 as usize);
                out.push((key, 1));
            }
        }
        k += 1;
    }
    out
}

/// The steps of the hunt out of the state with key `s`.
pub fn hunt_from(board: &Board, layout: &KeyLayout, s: usize) -> (r: Vec<(usize, u64)>)
    requires
        board.wf(),
        *layout == board.layout(),
        layout.wf(),
        layout.width == board.width * board.height,
        layout.height == 2,
        layout.aux_range == mask_span(),
        layout.capacity() < usize::MAX,
        s <= layout.capacity(),
    ensures
        r@ == hunt_graph(*board)(s),
        forall|i: int|
            0 <= i < r@.len() ==> (#[trigger] r@[i]).0 <= layout.capacity() && r@[i].1 >= 1,
{
    let won: usize = layout.capacity_of();
    if s >= won {
        return Vec::new();
    }
    let (dragon, turn, mask) = layout.decode(s);
    if turn == 0 {
        sheep_from(board, layout, mask as u32, dragon)
    } else {
        dragon_from(board, layout, mask as u32, dragon)
    }
}

/// The number of ways in which the dragon eats all sheep within `budget`
/// moves, counting those of the sheep and those of the dragon, from the
/// position with the sheep `sheep` and the dragon in the cell
/// `(dragon.0, dragon.1)` when it is the sheep's turn; `None` when that
/// number does not fit in a `u64`.
pub fn dfs(board: &Board, sheep: SheepMask, dragon: (usize, usize), budget: usize) -> (r: Option<
    u64,
>)
    requires
        board.wf(),
        dragon.0 < board.width,
        dragon.1 < board.height,
        hunt_fits(*board),
        budget < usize::MAX,
        (board.layout().capacity() + 1) * (budget + 1) <= usize::MAX,
    ensures
        r == clip(
            path_count(
                hunt(*board),
                board.layout().key_of(
                    (dragon.1 * board.width + dragon.0) as nat,
                    0,
                    sheep.0 as nat,
                ) as usize,
                budget,
            ),
        ),
{
    let layout = match layout_of(board) {
        Some(l) => l,
        None => {
            return None;
        },
    };
    let won: usize = layout.capacity_of();
    let n: usize = won + 1;
    assert(dragon.1 * board.width + dragon.0 < board.width * board.height) by (nonlinear_arith)
        requires
            dragon.0 < board.width,
            dragon.1 < board.height,
    ;
    assert(dragon.1 * board.width <= 14 * 8) by (nonlinear_arith)
        requires
            dragon.1 < board.height,
            board.height <= 14,
            board.width <= 8,
    ;
    let at: usize = dragon.1 * board.width + dragon.0;
    let start: usize = layout.encode(at, 0, sheep.0 as usize);
    let ghost numbered = board.layout();
    let ghost graph = hunt_graph(*board);
    let transition = |s: usize| -> (list: Vec<(usize, u64)>)
        requires
            board.wf(),
            layout == numbered,
            layout.wf(),
            layout.width == board.width * board.height,
            layout.height == 2,
            layout.aux_range == mask_span(),
            layout.capacity() < usize::MAX,
            s <= layout.capacity(),
        ensures
            list@ == graph(s),
            forall|i: int|
                0 <= i < list@.len() ==> (#[trigger] list@[i]).0 <= layout.capacity()
                    && list@[i].1 >= 1,
        { hunt_from(board, &layout, s) };
    let done = |s: usize, left: usize| -> (b: bool)
        ensures
            b == (s == won),
        { s == won };
    match MemoCache::new(n, budget) {
        None => None,
        Some(cache) => {
            let mut cache = cache;
            let r = solve_path_count(start, budget, &transition, &done, &mut cache);
            proof {
                assert(count_computes(&transition, &done, n as nat, hunt(*board)));
            }
            r
        },
    }
}

} // verus!
