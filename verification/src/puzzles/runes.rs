//! Rune blocks: a block of eight by eight cells has symbols on its two
//! outer rows and columns and sixteen inner cells. An inner cell takes
//! the symbol that its row and its column share; where a symbol on the
//! edge is unknown, it is guessed from what is left.

use vstd::arithmetic::div_mod::{lemma_fundamental_div_mod, lemma_fundamental_div_mod_converse};
use vstd::prelude::*;

verus! {

/// The rows and columns of the edge, in order: 0, 1, 6, 7.
pub open spec fn edge(i: int) -> int {
    if i == 0 {
        0
    } else if i == 1 {
        1
    } else if i == 2 {
        6
    } else {
        7
    }
}

/// The column of the `k`-th inner cell.
pub open spec fn inner_x(k: int) -> int {
    2 + k % 4
}

/// The row of the `k`-th inner cell.
pub open spec fn inner_y(k: int) -> int {
    2 + k / 4
}

/// The place of the `k`-th inner cell in the block.
pub open spec fn inner(k: int) -> int {
    inner_y(k) * 8 + inner_x(k)
}

/// The place on the column `x` that the pair `p` names.
pub open spec fn above(x: int, p: int) -> int {
    edge(p / 4) * 8 + x
}

/// The place on the row `y` that the pair `p` names.
pub open spec fn beside(y: int, p: int) -> int {
    y * 8 + edge(p % 4)
}

/// Whether the pair `p` of edge cells, one on the column `x` and one on
/// the row `y`, holds one symbol twice.
pub open spec fn pair_matches(cells: Seq<u8>, x: int, y: int, p: int) -> bool {
    cells[above(x, p)] == cells[beside(y, p)]
}

/// Whether `p` is the first pair that matches, or 16 where none does.
pub open spec fn is_first_match(cells: Seq<u8>, x: int, y: int, p: int) -> bool {
    &&& 0 <= p <= 16
    &&& forall|q: int| 0 <= q < p ==> !#[trigger] pair_matches(cells, x, y, q)
    &&& p < 16 ==> pair_matches(cells, x, y, p)
}

/// The first pair that matches, or 16.
pub open spec fn first_match(cells: Seq<u8>, x: int, y: int) -> int {
    choose|p: int| is_first_match(cells, x, y, p)
}

/// There is exactly one first match.
pub proof fn lemma_first_match(cells: Seq<u8>, x: int, y: int, p: int)
    requires
        is_first_match(cells, x, y, p),
    ensures
        first_match(cells, x, y) == p,
{
    let f = first_match(cells, x, y);
    assert(is_first_match(cells, x, y, f));
    if f < p {
        assert(!pair_matches(cells, x, y, f));
    }
    if p < f {
        assert(!pair_matches(cells, x, y, p));
    }
}

/// A block while it is solved: its 64 cells, and which edge cells are
/// used up.
pub struct Block {
    pub cells: Vec<u8>,
    pub used: Vec<bool>,
}

/// The cells and marks of a block as sequences.
pub type Model = (Seq<u8>, Seq<bool>);

impl Block {
    /// The cells and marks as sequences.
    pub open spec fn model(&self) -> Model {
        (self.cells@, self.used@)
    }

    /// A block has 64 cells and 64 marks.
    pub open spec fn wf(&self) -> bool {
        self.cells@.len() == 64 && self.used@.len() == 64
    }
}

/// The block after its `k`-th inner cell has taken the symbol of the
/// first pair that matches, and the pair is marked.
pub open spec fn matched(b: Model, k: int) -> Model {
    let x = inner_x(k);
    let y = inner_y(k);
    let p = first_match(b.0, x, y);
    if p < 16 {
        (
            b.0.update(inner(k), b.0[beside(y, p)]),
            b.1.update(beside(y, p), true).update(above(x, p), true),
        )
    } else {
        b
    }
}

/// The block after its first `k` inner cells were matched.
pub open spec fn paired(b: Model, k: nat) -> Model
    decreases k,
{
    if k == 0 {
        b
    } else {
        matched(paired(b, (k - 1) as nat), k - 1)
    }
}

/// The edge cell of index `i`.
fn edge_at(i: usize) -> (r: usize)
    requires
        i < 4,
    ensures
        r == edge(i as int),
        r < 8,
{
    if i == 0 {
        0
    } else if i == 1 {
        1
    } else if i == 2 {
        6
    } else {
        7
    }
}

/// Matches the `k`-th inner cell.
fn match_cell(block: &mut Block, k: usize)
    requires
        old(block).wf(),
        k < 16,
    ensures
        final(block).wf(),
        final(block).model() == matched(old(block).model(), k as int),
{
    let x: usize = 2 + k % 4;
    let y: usize = 2 + k / 4;
    let mut p: usize = 0;
    while p < 16
        invariant
            p <= 16,
            block.wf(),
            block.model() == old(block).model(),
            x == inner_x(k as int),
            y == inner_y(k as int),
            2 <= x < 6,
            2 <= y < 6,
            forall|q: int| 0 <= q < p ==> !#[trigger] pair_matches(block.cells@, x as int, y as int, q),
        decreases 16 - p,
    {
        let y1: usize = edge_at(p / 4);
        let x1: usize = edge_at(p % 4);
        let cy: u8 = block.cells[y1 * 8 + x];
        let cx: u8 = block.cells[y * 8 + x1];
        if cx == cy {
            proof {
                lemma_first_match(block.cells@, x as int, y as int, p as int);
            }
            block.used.set(y * 8 + x1, true);
            block.used.set(y1 * 8 + x, true);
            block.cells.set(y * 8 + x, cx);
            return ;
        }
        p += 1;
    }
    proof {
        lemma_first_match(block.cells@, x as int, y as int, 16);
    }
}

/// What the pair `p` offers for the unknown symbol of the inner cell
/// `(x, y)`: where neither edge cell is used up and exactly one of them
/// is unknown, the symbol of the other and the place of the unknown one.
pub open spec fn offer(b: Model, x: int, y: int, p: int) -> Option<(u8, int)> {
    let cy = b.0[above(x, p)];
    let cx = b.0[beside(y, p)];
    if b.1[above(x, p)] || b.1[beside(y, p)] {
        None
    } else if cx == 63 && cy != 63 {
        Some((cy, beside(y, p)))
    } else if cx != 63 && cy == 63 {
        Some((cx, above(x, p)))
    } else {
        None
    }
}

/// The offers of the first `p` pairs, in order.
pub open spec fn offers(b: Model, x: int, y: int, p: nat) -> Seq<(u8, int)>
    decreases p,
{
    if p == 0 {
        Seq::empty()
    } else {
        let before = offers(b, x, y, (p - 1) as nat);
        match offer(b, x, y, p - 1) {
            Some(o) => before.push(o),
            None => before,
        }
    }
}

/// The block after its `k`-th inner cell, if it is empty and has exactly
/// one offer, has taken the offered symbol, and so has the unknown edge
/// cell, which is then used up.
pub open spec fn guessed(b: Model, k: int) -> Model {
    let all = offers(b, inner_x(k), inner_y(k), 16);
    if b.0[inner(k)] == 46 && all.len() == 1 {
        (b.0.update(inner(k), all[0].0).update(all[0].1, all[0].0), b.1.update(all[0].1, true))
    } else {
        b
    }
}

/// The block after its first `k` inner cells were guessed.
pub open spec fn filled(b: Model, k: nat) -> Model
    decreases k,
{
    if k == 0 {
        b
    } else {
        guessed(filled(b, (k - 1) as nat), k - 1)
    }
}

/// Guesses the `k`-th inner cell.
fn guess_cell(block: &mut Block, k: usize)
    requires
        old(block).wf(),
        k < 16,
    ensures
        final(block).wf(),
        final(block).model() == guessed(old(block).model(), k as int),
{
    let x: usize = 2 + k % 4;
    let y: usize = 2 + k / 4;
    if block.cells[y * 8 + x] != 46 {
        return ;
    }
    let mut count: usize = 0;
    let mut symbol: u8 = 0;
    let mut place: usize = 0;
    let mut p: usize = 0;
    let ghost b = block.model();
    while p < 16
        invariant
            p <= 16,
            block.wf(),
            block.model() == b,
            x == inner_x(k as int),
            y == inner_y(k as int),
            2 <= x < 6,
            2 <= y < 6,
            count == offers(b, x as int, y as int, p as nat).len(),
            count <= p,
            count >= 1 ==> offers(b, x as int, y as int, p as nat)[0] == (symbol, place as int)
                && place < 64,
        decreases 16 - p,
    {
        let y1: usize = edge_at(p / 4);
        let x1: usize = edge_at(p % 4);
        let cy: u8 = block.cells[y1 * 8 + x];
        let cx: u8 = block.cells[y * 8 + x1];
        if !block.used[y1 * 8 + x] && !block.used[y * 8 + x1] {
            if cx == 63 && cy != 63 {
                if count == 0 {
                    symbol = cy;
                    place = y * 8 + x1;
                }
                count += 1;
            } else if cx != 63 && cy == 63 {
                if count == 0 {
                    symbol = cx;
                    place = y1 * 8 + x;
                }
                count += 1;
            }
        }
        p += 1;
    }
    if count == 1 {
        block.cells.set(y * 8 + x, symbol);
        block.cells.set(place, symbol);
        block.used.set(place, true);
    }
}

/// The block solved as far as it can be: every inner cell matched, then
/// every inner cell guessed.
pub open spec fn solved(cells: Seq<u8>) -> Seq<u8> {
    filled(paired((cells, Seq::new(64, |i: int| false)), 16), 16).0
}

/// Whether every inner cell holds a rune: a symbol from `A` on.
pub open spec fn is_solved(cells: Seq<u8>) -> bool {
    forall|k: int| 0 <= k < 16 ==> #[trigger] cells[inner(k)] >= 65
}

/// The runes of the inner cells, row by row.
pub open spec fn runes(cells: Seq<u8>) -> Seq<u8> {
    Seq::new(16, |k: int| cells[inner(k)])
}

/// The power of the first `k` runes: each rune counts its place in the
/// alphabet times its place in the word.
pub open spec fn rune_power(cells: Seq<u8>, k: nat) -> nat
    decreases k,
{
    if k == 0 {
        0
    } else {
        (rune_power(cells, (k - 1) as nat) + k * (cells[inner(k - 1)] - 64)) as nat
    }
}

/// Solves a block of 64 cells, given row by row, as far as it can be
/// solved. Returns the power and the runes of the block, or `None`
/// where an inner cell is left without a rune.
pub fn solve_block(cells: Vec<u8>) -> (r: (Vec<u8>, Option<(usize, Vec<u8>)>))
    requires
        cells@.len() == 64,
    ensures
        r.0@ == solved(cells@),
        r.0@.len() == 64,
        r.1.is_some() <==> is_solved(r.0@),
        r.1 matches Some(found) ==> found.0 == rune_power(r.0@, 16) && found.1@ == runes(r.0@),
{
    let mut used: Vec<bool> = Vec::new();
    let mut i: usize = 0;
    while i < 64
        invariant
            i <= 64,
            used@.len() == i,
            forall|j: int| 0 <= j < i ==> !used@[j],
        decreases 64 - i,
    {
        used.push(false);
        i += 1;
    }
    assert(used@ =~= Seq::new(64, |i: int| false));
    let ghost start: Model = (cells@, used@);
    let mut block = Block { cells, used };
    let mut k: usize = 0;
    while k < 16
        invariant
            k <= 16,
            block.wf(),
            block.model() == paired(start, k as nat),
        decreases 16 - k,
    {
        match_cell(&mut block, k);
        k += 1;
    }
    let ghost half: Model = block.model();
    k = 0;
    while k < 16
        invariant
            k <= 16,
            block.wf(),
            block.model() == filled(half, k as nat),
        decreases 16 - k,
    {
        guess_cell(&mut block, k);
        k += 1;
    }
    let mut power: usize = 0;
    let mut word: Vec<u8> = Vec::new();
    let mut whole: bool = true;
    k = 0;
    while k < 16
        invariant
            k <= 16,
            block.wf(),
            word@.len() == k,
            forall|j: int| 0 <= j < k ==> word@[j] == block.cells@[inner(j)],
            whole <==> forall|j: int| 0 <= j < k ==> #[trigger] block.cells@[inner(j)] >= 65,
            whole ==> power == rune_power(block.cells@, k as nat),
            power <= k * 3056,
        decreases 16 - k,
    {
        let c: u8 = block.cells[(2 + k / 4) * 8 + 2 + k % 4];
        assert(c == block.cells@[inner(k as int)]);
        word.push(c);
        if c >= 65 {
            if whole {
                assert((k + 1) * (c - 64) <= 3056) by (nonlinear_arith)
                    requires
                        k + 1 <= 16,
                        0 <= c - 64 <= 191,
                ;
                power = power + (k + 1) * ((c - 64) as usize);
            }
        } else {
            whole = false;
        }
        k += 1;
    }
    assert(word@ =~= runes(block.cells@));
    let found: Option<(usize, Vec<u8>)> = if whole {
        Some((power, word))
    } else {
        None
    };
    (block.cells, found)
}

/// Whether the block whose first cell is `(sx, sy)` lies on a grid of
/// `len` cells in rows of `width`.
pub open spec fn block_fits(len: int, width: int, sx: int, sy: int) -> bool {
    sx + 8 <= width && (sy + 8) * width <= len
}

/// The place on the grid of the cell `j` of the block.
pub open spec fn place_of(width: int, sx: int, sy: int, j: int) -> int {
    (sy + j / 8) * width + sx + j % 8
}

/// The cells of the block at `(sx, sy)`, row by row.
pub open spec fn block_of(grid: Seq<u8>, width: int, sx: int, sy: int) -> Seq<u8> {
    Seq::new(64, |j: int| grid[place_of(width, sx, sy, j)])
}

/// The grid with the first `upto` cells of the block at `(sx, sy)`
/// replaced by those of `block`.
pub open spec fn with_cells(
    grid: Seq<u8>,
    width: int,
    sx: int,
    sy: int,
    block: Seq<u8>,
    upto: int,
) -> Seq<u8> {
    Seq::new(
        grid.len(),
        |i: int|
            {
                let x = i % width - sx;
                let y = i / width - sy;
                if 0 <= x < 8 && 0 <= y < 8 && y * 8 + x < upto {
                    block[y * 8 + x]
                } else {
                    grid[i]
                }
            },
    )
}

/// The grid with the block at `(sx, sy)` replaced by `block`.
pub open spec fn with_block(grid: Seq<u8>, width: int, sx: int, sy: int, block: Seq<u8>) -> Seq<u8> {
    with_cells(grid, width, sx, sy, block, 64)
}

/// The cells of a block that fits lie on the grid, each in its own place.
pub proof fn lemma_place(len: int, width: int, sx: int, sy: int, j: int)
    requires
        0 <= sx,
        0 <= sy,
        block_fits(len, width, sx, sy),
        0 <= j < 64,
    ensures
        0 <= place_of(width, sx, sy, j) < len,
        place_of(width, sx, sy, j) / width == sy + j / 8,
        place_of(width, sx, sy, j) % width == sx + j % 8,
        sy + 8 <= len,
        0 <= (sy + j / 8) * width <= place_of(width, sx, sy, j),
{
    let row = sy + j / 8;
    assert(sy + 8 <= (sy + 8) * width) by (nonlinear_arith)
        requires
            sy + 8 >= 0,
            width >= 1,
    ;
    assert(0 <= row * width && row * width + width <= (sy + 8) * width) by (nonlinear_arith)
        requires
            0 <= row <= sy + 7,
            width >= 8,
    ;
    lemma_fundamental_div_mod_converse(place_of(width, sx, sy, j), width, row, sx + j % 8);
}

/// Solves the block at `(sx, sy)` of the grid as far as it can be solved,
/// in place. Returns the power and the runes of the block, or `None` where
/// an inner cell is left without a rune.
pub fn try_solve(grid: &mut Vec<u8>, width: usize, sx: usize, sy: usize) -> (r: Option<
    (usize, Vec<u8>),
>)
    requires
        block_fits(old(grid)@.len() as int, width as int, sx as int, sy as int),
    ensures
        final(grid)@ == with_block(
            old(grid)@,
            width as int,
            sx as int,
            sy as int,
            solved(block_of(old(grid)@, width as int, sx as int, sy as int)),
        ),
        r.is_some() <==> is_solved(
            solved(block_of(old(grid)@, width as int, sx as int, sy as int)),
        ),
        r matches Some(found) ==> {
            let block = solved(block_of(old(grid)@, width as int, sx as int, sy as int));
            found.0 == rune_power(block, 16) && found.1@ == runes(block)
        },
{
    let n: usize = grid.len();
    let ghost len = grid@.len() as int;
    let ghost given = grid@;
    let mut cells: Vec<u8> = Vec::new();
    let mut j: usize = 0;
    while j < 64
        invariant
            j <= 64,
            grid@ == given,
            len == given.len(),
            len == n,
            block_fits(len, width as int, sx as int, sy as int),
            cells@.len() == j,
            forall|i: int|
                0 <= i < j ==> cells@[i] == given[place_of(width as int, sx as int, sy as int, i)],
        decreases 64 - j,
    {
        proof {
            lemma_place(len, width as int, sx as int, sy as int, j as int);
        }
        cells.push(grid[(sy + j / 8) * width + sx + j % 8]);
        j += 1;
    }
    assert(cells@ =~= block_of(given, width as int, sx as int, sy as int));
    let (block, found) = solve_block(cells);
    j = 0;
    assert(grid@ =~= with_cells(given, width as int, sx as int, sy as int, block@, 0));
    while j < 64
        invariant
            j <= 64,
            len == given.len(),
            len == n,
            block_fits(len, width as int, sx as int, sy as int),
            block@.len() == 64,
            grid@ == with_cells(given, width as int, sx as int, sy as int, block@, j as int),
        decreases 64 - j,
    {
        let ghost before = grid@;
        proof {
            lemma_place(len, width as int, sx as int, sy as int, j as int);
        }
        grid.set((sy + j / 8) * width + sx + j % 8, block[j]);
        proof {
            let w = width as int;
            let at = place_of(w, sx as int, sy as int, j as int);
            let next = with_cells(given, w, sx as int, sy as int, block@, j + 1);
            assert forall|i: int| 0 <= i < len implies grid@[i] == next[i] by {
                let x = i % w - sx;
                let y = i / w - sy;
                if i != at && 0 <= x < 8 && 0 <= y < 8 && y * 8 + x == j {
                    lemma_fundamental_div_mod(i, w);
                    assert(x == j % 8 && y == j / 8);
                    assert(w * (i / w) == (sy + j / 8) * w) by (nonlinear_arith)
                        requires
                            i / w == sy + j / 8,
                    ;
                    assert(false);
                }
            }
            assert(grid@ =~= next);
        }
        j += 1;
    }
    found
}

} // verus!
