//! A floor of tiles that switch between active and inactive together.
//!
//! A row of the floor is a number whose bit `x` tells whether the tile in
//! column `x` is active. In a round an active tile stays active when an odd
//! number of its four diagonal neighbours is active, and an inactive tile
//! becomes active when an even number is.

use vstd::prelude::*;

verus! {

/// Whether the tile in column `x` of the row `row` is active.
pub open spec fn lit(row: u64, x: u64) -> bool {
    (row >> x) & 1 == 1
}

/// Whether the tile to the left of column `x` in the row `row` is active:
/// the row moved up by one column has it in column `x`.
pub open spec fn lit_left(row: u64, x: u64) -> bool {
    lit(row << 1, x)
}

/// Whether the tile to the right of column `x` in the row `row` is active:
/// the row moved down by one column has it in column `x`.
pub open spec fn lit_right(row: u64, x: u64) -> bool {
    lit(row >> 1, x)
}

/// Whether an even number of the diagonal neighbours of column `x` is
/// active, the rows above and below being `above` and `below`.
pub open spec fn even_around(above: u64, below: u64, x: u64) -> bool {
    ((lit_left(above, x) != lit_right(above, x)) != (lit_left(below, x) != lit_right(below, x)))
        == false
}

/// The row `row` after a round on a floor of `len` columns.
pub open spec fn row_after(above: u64, row: u64, below: u64, len: u64) -> u64 {
    let d = !(above ^ below);
    let e = !((d >> 1) ^ ((d << 1) | (d >> 63)));
    (row ^ e) & !(!0u64 << len)
}

/// After a round a tile is active exactly when it was active and an odd
/// number of its diagonal neighbours was, or it was inactive and an even
/// number was; nothing is active beyond the floor.
pub proof fn lemma_row_after(above: u64, row: u64, below: u64, len: u64, x: u64)
    requires
        len < 64,
        above < (1u64 << len),
        below < (1u64 << len),
        x < 64,
    ensures
        lit(row_after(above, row, below, len), x) == (x < len && (lit(row, x) != even_around(
            above,
            below,
            x,
        ))),
        row_after(above, row, below, len) < (1u64 << len),
{
    let d = !(above ^ below);
    let e = !((d >> 1) ^ ((d << 1) | (d >> 63)));
    let r = row_after(above, row, below, len);
    assert(r < (1u64 << len)) by (bit_vector)
        requires
            len < 64,
            r == (row ^ e) & !(!0u64 << len),
    ;
    if x >= len {
        assert((r >> x) & 1 == 0) by (bit_vector)
            requires
                len < 64,
                len <= x < 64,
                r < (1u64 << len),
        ;
    } else {
        assert(((r >> x) & 1 == 1) == (((row >> x) & 1 == 1) != ((((((above << 1) >> x) & 1 == 1)
            != (((above >> 1) >> x) & 1 == 1)) != ((((below << 1) >> x) & 1 == 1) != (((below
            >> 1) >> x) & 1 == 1))) == false))) by (bit_vector)
            requires
                len < 64,
                x < len,
                above < (1u64 << len),
                below < (1u64 << len),
                d == !(above ^ below),
                e == !((d >> 1) ^ ((d << 1) | (d >> 63))),
                r == (row ^ e) & !(!0u64 << len),
        ;
    }
}

/// The row above the row `y` of the floor, or an inactive row at the top.
pub open spec fn row_above(grid: Seq<u64>, y: int) -> u64 {
    if y == 0 {
        0
    } else {
        grid[y - 1]
    }
}

/// The row below the row `y` of the floor, or an inactive row at the
/// bottom.
pub open spec fn row_below(grid: Seq<u64>, y: int) -> u64 {
    if y == grid.len() - 1 {
        0
    } else {
        grid[y + 1]
    }
}

/// The floor after a round: a square floor of as many columns as rows.
pub fn transform(grid: Vec<u64>) -> (new_grid: Vec<u64>)
    requires
        grid@.len() < 64,
    ensures
        new_grid@.len() == grid@.len(),
        forall|y: int|
            0 <= y < grid@.len() ==> #[trigger] new_grid@[y] == row_after(
                row_above(grid@, y),
                grid@[y],
                row_below(grid@, y),
                grid@.len() as u64,
            ),
{
    let len: usize = grid.len();
    let mut new_grid: Vec<u64> = Vec::new();
    let mut y: usize = 0;
    while y < len
        invariant
            y <= len,
            len == grid@.len(),
            len < 64,
            new_grid@.len() == y,
            forall|k: int|
                0 <= k < y ==> #[trigger] new_grid@[k] == row_after(
                    row_above(grid@, k),
                    grid@[k],
                    row_below(grid@, k),
                    len as u64,
                ),
        decreases len - y,
    {
        let a: u64 = if y == 0 {
            0
        } else {
            grid[y - 1]
        };
        let b: u64 = grid[y];
        let c: u64 = if y == len - 1 {
            0
        } else {
            grid[y + 1]
        };
        let d: u64 = !(a ^ c);
        let e: u64 = !((d >> 1) ^ ((d << 1) | (d >> 63)));
        let width: u64 = len as u64;
        // The columns of the floor: as many low bits as there are rows.
        let r: u64 = (b ^ e) & !(!0u64 << width);
        new_grid.push(r);
        y += 1;
    }
    new_grid
}

} // verus!
