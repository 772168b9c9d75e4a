//! Dragons and sheep on a board, round by round: dragons jump like
//! knights, sheep walk down one row, and a dragon eats the sheep it lands
//! on unless the cell is a hideout.

use crate::puzzles::dragon::{knight, knight_move};
use vstd::prelude::*;

verus! {

/// Whether a dragon of `grid` stands a knight's move away from the cell
/// `(x, y)`.
pub open spec fn reached(grid: Seq<u8>, width: int, height: int, x: int, y: int) -> bool {
    exists|k: int| 0 <= k < 8 && #[trigger] dragon_at(grid, width, height, x, y, k)
}

/// Whether a dragon of `grid` stands on the cell that the `k`-th move of
/// a knight reaches from `(x, y)`.
pub open spec fn dragon_at(grid: Seq<u8>, width: int, height: int, x: int, y: int, k: int) -> bool {
    let fx = x + knight(k).0;
    let fy = y + knight(k).1;
    0 <= fx < width && 0 <= fy < height && grid[fy * width + fx] == 68
}

/// What the cell `(x, y)` holds when the dragons have moved: a dragon
/// where one lands; else what it held, if the dragons leave a copy
/// behind, or nothing.
pub open spec fn after_move(grid: Seq<u8>, width: int, height: int, stay: bool, x: int, y: int) -> u8 {
    if reached(grid, width, height, x, y) {
        68
    } else if stay {
        grid[y * width + x]
    } else {
        46
    }
}

/// Whether `next` is `grid` after the dragons have moved.
pub open spec fn is_dragons_moved(
    grid: Seq<u8>,
    width: int,
    height: int,
    stay: bool,
    next: Seq<u8>,
) -> bool {
    &&& next.len() == grid.len()
    &&& forall|x: int, y: int|
        0 <= x < width && 0 <= y < height ==> #[trigger] next[y * width + x] == after_move(
            grid,
            width,
            height,
            stay,
            x,
            y,
        )
    &&& forall|c: int|
        width * height <= c < grid.len() ==> #[trigger] next[c] == if stay {
            grid[c]
        } else {
            46u8
        }
}

/// The cells of a row lie behind those of the rows before it.
pub proof fn lemma_row_order(width: int, x: int, y: int, x2: int, y2: int)
    requires
        0 <= x < width,
        0 <= x2 < width,
        0 <= y,
        0 <= y2,
    ensures
        y < y2 ==> y * width + x < y2 * width + x2,
        y * width + x == y2 * width + x2 ==> x == x2 && y == y2,
        0 <= y * width + x,
{
    assert(y < y2 ==> y * width + width <= y2 * width) by (nonlinear_arith)
        requires
            width > 0,
    ;
    assert(y2 < y ==> y2 * width + width <= y * width) by (nonlinear_arith)
        requires
            width > 0,
    ;
    assert(0 <= y * width) by (nonlinear_arith)
        requires
            width > 0,
            0 <= y,
    ;
}

/// The cells of the board lie below `width * height`.
pub proof fn lemma_on_board(width: int, height: int, x: int, y: int)
    requires
        0 <= x < width,
        0 <= y < height,
    ensures
        0 <= y * width + x < width * height,
        0 <= y * width <= y * width + x,
{
    assert(y * width + width <= width * height) by (nonlinear_arith)
        requires
            0 <= y < height,
            width > 0,
    ;
    assert(0 <= y * width) by (nonlinear_arith)
        requires
            width > 0,
            0 <= y,
    ;
}

/// Whether a dragon stands a knight's move away from `(x, y)`.
pub fn is_reached(grid: &Vec<u8>, width: usize, height: usize, x: usize, y: usize) -> (r: bool)
    requires
        width * height <= grid@.len(),
        x < width,
        y < height,
    ensures
        r == reached(grid@, width as int, height as int, x as int, y as int),
{
    let n: usize = grid.len();
    let mut k: usize = 0;
    while k < 8
        invariant
            k <= 8,
            n == grid@.len(),
            width * height <= grid@.len(),
            x < width,
            y < height,
            forall|j: int|
                0 <= j < k ==> !#[trigger] dragon_at(
                    grid@,
                    width as int,
                    height as int,
                    x as int,
                    y as int,
                    j,
                ),
        decreases 8 - k,
    {
        let m: (i64, i64) = knight_move(k);
        let in_x: bool = if m.0 < 0 {
            x >= 2 || (m.0 == -1 && x >= 1)
        } else {
            (m.0 == 1 && width - x > 1) || (m.0 == 2 && width - x > 2)
        };
        let in_y: bool = if m.1 < 0 {
            y >= 2 || (m.1 == -1 && y >= 1)
        } else {
            (m.1 == 1 && height - y > 1) || (m.1 == 2 && height - y > 2)
        };
        if in_x && in_y {
            let fx: usize = if m.0 < 0 {
                x - (if m.0 == -1 {
                    1usize
                } else {
                    2usize
                })
            } else {
                x + (if m.0 == 1 {
                    1usize
                } else {
                    2usize
                })
            };
            let fy: usize = if m.1 < 0 {
                y - (if m.1 == -1 {
                    1usize
                } else {
                    2usize
                })
            } else {
                y + (if m.1 == 1 {
                    1usize
                } else {
                    2usize
                })
            };
            proof {
                lemma_on_board(width as int, height as int, fx as int, fy as int);
            }
            if grid[fy * width + fx] == 68 {
                assert(dragon_at(grid@, width as int, height as int, x as int, y as int, k as int));
                return true;
            }
        }
        k += 1;
    }
    false
}

/// Moves the dragons: every dragon jumps to all cells of the board that
/// a knight reaches from it. Where `stay` holds, a copy of every dragon
/// stays behind.
pub fn move_dragons(grid: &Vec<u8>, width: usize, height: usize, stay: bool) -> (next: Vec<u8>)
    requires
        width * height <= grid@.len(),
    ensures
        is_dragons_moved(grid@, width as int, height as int, stay, next@),
{
    let n: usize = grid.len();
    let mut next: Vec<u8> = Vec::new();
    let mut y: usize = 0;
    while y < height
        invariant
            y <= height,
            n == grid@.len(),
            width * height <= grid@.len(),
            next@.len() == y * width,
            forall|x2: int, y2: int|
                0 <= x2 < width && 0 <= y2 < y ==> #[trigger] next@[y2 * width + x2] == after_move(
                    grid@,
                    width as int,
                    height as int,
                    stay,
                    x2,
                    y2,
                ),
        decreases height - y,
    {
        let mut x: usize = 0;
        while x < width
            invariant
                x <= width,
                y < height,
                n == grid@.len(),
                width * height <= grid@.len(),
                next@.len() == y * width + x,
                forall|x2: int, y2: int|
                    0 <= x2 < width && 0 <= y2 < y ==> #[trigger] next@[y2 * width + x2]
                        == after_move(grid@, width as int, height as int, stay, x2, y2),
                forall|x2: int|
                    0 <= x2 < x ==> #[trigger] next@[y * width + x2] == after_move(
                        grid@,
                        width as int,
                        height as int,
                        stay,
                        x2,
                        y as int,
                    ),
            decreases width - x,
        {
            proof {
                lemma_on_board(width as int, height as int, x as int, y as int);
            }
            let value: u8 = if is_reached(grid, width, height, x, y) {
                68
            } else if stay {
                grid[y * width + x]
            } else {
                46
            };
            let ghost before = next@;
            next.push(value);
            proof {
                assert forall|x2: int, y2: int| 0 <= x2 < width && 0 <= y2 < y implies #[trigger] next@[y2
                    * width + x2] == after_move(
                    grid@,
                    width as int,
                    height as int,
                    stay,
                    x2,
                    y2,
                ) by {
                    lemma_row_order(width as int, x2, y2, x as int, y as int);
                    assert(next@[y2 * width + x2] == before[y2 * width + x2]);
                }
                assert forall|x2: int| 0 <= x2 < x + 1 implies #[trigger] next@[y * width + x2]
                    == after_move(grid@, width as int, height as int, stay, x2, y as int) by {
                    if x2 < x {
                        assert(next@[y * width + x2] == before[y * width + x2]);
                    }
                }
            }
            x += 1;
        }
        assert((y + 1) * width == y * width + width) by (nonlinear_arith);
        y += 1;
    }
    assert(height * width == width * height) by (nonlinear_arith);
    let mut c: usize = next.len();
    while c < grid.len()
        invariant
            width * height <= c <= grid@.len(),
            next@.len() == c,
            forall|x2: int, y2: int|
                0 <= x2 < width && 0 <= y2 < height ==> #[trigger] next@[y2 * width + x2]
                    == after_move(grid@, width as int, height as int, stay, x2, y2),
            forall|i: int|
                width * height <= i < c ==> #[trigger] next@[i] == if stay {
                    grid@[i]
                } else {
                    46u8
                },
        decreases grid@.len() - c,
    {
        let ghost before = next@;
        next.push(if stay {
            grid[c]
        } else {
            46
        });
        proof {
            assert forall|x2: int, y2: int| 0 <= x2 < width && 0 <= y2 < height implies #[trigger] next@[y2
                * width + x2] == after_move(grid@, width as int, height as int, stay, x2, y2) by {
                lemma_on_board(width as int, height as int, x2, y2);
                assert(next@[y2 * width + x2] == before[y2 * width + x2]);
            }
        }
        c += 1;
    }
    next
}

/// What the cell `(x, y)` holds when the sheep have walked: a sheep
/// where one stood in the row above, else nothing.
pub open spec fn after_walk(grid: Seq<u8>, width: int, x: int, y: int) -> u8 {
    if y >= 1 && grid[(y - 1) * width + x] == 83 {
        83
    } else {
        46
    }
}

/// Whether `next` is `grid` after the sheep have walked down one row;
/// those of the last row have left the board.
pub open spec fn is_sheep_moved(grid: Seq<u8>, width: int, height: int, next: Seq<u8>) -> bool {
    &&& next.len() == grid.len()
    &&& forall|x: int, y: int|
        0 <= x < width && 0 <= y < height ==> #[trigger] next[y * width + x] == after_walk(
            grid,
            width,
            x,
            y,
        )
    &&& forall|c: int| width * height <= c < grid.len() ==> #[trigger] next[c] == 46
}

/// Moves all sheep one row down.
pub fn move_sheep(grid: &Vec<u8>, width: usize, height: usize) -> (next: Vec<u8>)
    requires
        width * height <= grid@.len(),
    ensures
        is_sheep_moved(grid@, width as int, height as int, next@),
{
    let n: usize = grid.len();
    let mut next: Vec<u8> = Vec::new();
    let mut y: usize = 0;
    while y < height
        invariant
            y <= height,
            n == grid@.len(),
            width * height <= grid@.len(),
            next@.len() == y * width,
            forall|x2: int, y2: int|
                0 <= x2 < width && 0 <= y2 < y ==> #[trigger] next@[y2 * width + x2] == after_walk(
                    grid@,
                    width as int,
                    x2,
                    y2,
                ),
        decreases height - y,
    {
        let mut x: usize = 0;
        while x < width
            invariant
                x <= width,
                y < height,
                n == grid@.len(),
                width * height <= grid@.len(),
                next@.len() == y * width + x,
                forall|x2: int, y2: int|
                    0 <= x2 < width && 0 <= y2 < y ==> #[trigger] next@[y2 * width + x2]
                        == after_walk(grid@, width as int, x2, y2),
                forall|x2: int|
                    0 <= x2 < x ==> #[trigger] next@[y * width + x2] == after_walk(
                        grid@,
                        width as int,
                        x2,
                        y as int,
                    ),
            decreases width - x,
        {
            proof {
                lemma_on_board(width as int, height as int, x as int, y as int);
                if y >= 1 {
                    lemma_on_board(width as int, height as int, x as int, y - 1);
                }
            }
            let value: u8 = if y >= 1 && grid[(y - 1) * width + x] == 83 {
                83
            } else {
                46
            };
            let ghost before = next@;
            next.push(value);
            proof {
                assert forall|x2: int, y2: int| 0 <= x2 < width && 0 <= y2 < y implies #[trigger] next@[y2
                    * width + x2] == after_walk(grid@, width as int, x2, y2) by {
                    lemma_row_order(width as int, x2, y2, x as int, y as int);
                    assert(next@[y2 * width + x2] == before[y2 * width + x2]);
                }
                assert forall|x2: int| 0 <= x2 < x + 1 implies #[trigger] next@[y * width + x2]
                    == after_walk(grid@, width as int, x2, y as int) by {
                    if x2 < x {
                        assert(next@[y * width + x2] == before[y * width + x2]);
                    }
                }
            }
            x += 1;
        }
        assert((y + 1) * width == y * width + width) by (nonlinear_arith);
        y += 1;
    }
    assert(height * width == width * height) by (nonlinear_arith);
    let mut c: usize = next.len();
    while c < grid.len()
        invariant
            width * height <= c <= grid@.len(),
            next@.len() == c,
            forall|x2: int, y2: int|
                0 <= x2 < width && 0 <= y2 < height ==> #[trigger] next@[y2 * width + x2]
                    == after_walk(grid@, width as int, x2, y2),
            forall|i: int| width * height <= i < c ==> #[trigger] next@[i] == 46,
        decreases grid@.len() - c,
    {
        let ghost before = next@;
        next.push(46);
        proof {
            assert forall|x2: int, y2: int| 0 <= x2 < width && 0 <= y2 < height implies #[trigger] next@[y2
                * width + x2] == after_walk(grid@, width as int, x2, y2) by {
                lemma_on_board(width as int, height as int, x2, y2);
                assert(next@[y2 * width + x2] == before[y2 * width + x2]);
            }
        }
        c += 1;
    }
    next
}

/// Whether the sheep on the cell `i` is eaten: a dragon stands on the
/// cell, and the cell is no hideout.
pub open spec fn eaten(sheep: Seq<u8>, dragons: Seq<u8>, grid: Seq<u8>, i: int) -> bool {
    sheep[i] == 83 && dragons[i] == 68 && grid[i] != 35
}

/// The number of sheep eaten on the first `n` cells.
pub open spec fn eaten_below(sheep: Seq<u8>, dragons: Seq<u8>, grid: Seq<u8>, n: nat) -> nat
    decreases n,
{
    if n == 0 {
        0
    } else {
        eaten_below(sheep, dragons, grid, (n - 1) as nat) + if eaten(sheep, dragons, grid, n - 1) {
            1nat
        } else {
            0nat
        }
    }
}

/// The sheep that are left when the eaten ones on the first `n` cells
/// are gone.
pub open spec fn sheep_left(sheep: Seq<u8>, dragons: Seq<u8>, grid: Seq<u8>, n: int) -> Seq<u8> {
    Seq::new(
        sheep.len(),
        |i: int|
            if i < n && eaten(sheep, dragons, grid, i) {
                46u8
            } else {
                sheep[i]
            },
    )
}

/// Removes all sheep of the board that share their cell with a dragon
/// and are in no hideout. Returns the number of sheep removed.
pub fn remove_sheep(
    sheep: &mut Vec<u8>,
    dragons: &Vec<u8>,
    grid: &Vec<u8>,
    width: usize,
    height: usize,
) -> (r: u64)
    requires
        width * height <= old(sheep)@.len(),
        width * height <= dragons@.len(),
        width * height <= grid@.len(),
    ensures
        final(sheep)@ == sheep_left(old(sheep)@, dragons@, grid@, width * height),
        r == eaten_below(old(sheep)@, dragons@, grid@, (width * height) as nat),
{
    let n: usize = sheep.len();
    assert(width * height <= n);
    let cells: usize = width * height;
    let mut result: u64 = 0;
    let mut i: usize = 0;
    assert(sheep@ =~= sheep_left(old(sheep)@, dragons@, grid@, 0));
    while i < cells
        invariant
            i <= cells,
            cells == width * height,
            cells <= sheep@.len(),
            cells <= dragons@.len(),
            cells <= grid@.len(),
            sheep@ == sheep_left(old(sheep)@, dragons@, grid@, i as int),
            result == eaten_below(old(sheep)@, dragons@, grid@, i as nat),
            result <= i,
        decreases cells - i,
    {
        if sheep[i] == 83 && dragons[i] == 68 && grid[i] != 35 {
            result += 1;
            sheep.set(i, 46);
        }
        assert(sheep@ =~= sheep_left(old(sheep)@, dragons@, grid@, i + 1));
        i += 1;
    }
    result
}

} // verus!
