//! A grid of letters that is scrambled by turning rings: the eight cells
//! around a centre move on by one place, clockwise or the other way.

use crate::puzzles::measures::apply_permutation;
use vstd::arithmetic::div_mod::lemma_multiply_divide_lt;
use vstd::prelude::*;

verus! {

/// The `i`-th cell of the ring around a centre, as steps in `x` and `y`
/// from the centre: clockwise from the cell up and to the left.
pub open spec fn ring(i: int) -> (int, int) {
    if i == 0 {
        (-1, -1)
    } else if i == 1 {
        (0, -1)
    } else if i == 2 {
        (1, -1)
    } else if i == 3 {
        (1, 0)
    } else if i == 4 {
        (1, 1)
    } else if i == 5 {
        (0, 1)
    } else if i == 6 {
        (-1, 1)
    } else {
        (-1, 0)
    }
}

/// The index of the `i`-th cell of the ring around `(x, y)`.
pub open spec fn ring_at(width: int, x: int, y: int, i: int) -> int {
    (y + ring(i).1) * width + x + ring(i).0
}

/// Whether the ring around `(x, y)` lies on a grid of `len` cells in rows
/// of `width`.
pub open spec fn ring_fits(len: int, width: int, x: int, y: int) -> bool {
    1 <= x && x + 1 < width && 1 <= y && (y + 1) * width + x + 1 < len
}

/// The grid with the ring around `(x, y)` turned by one place: to the
/// left, every cell of the ring takes what the next cell clockwise held;
/// to the right, what the cell before it held.
pub open spec fn turned<T>(grid: Seq<T>, width: int, x: int, y: int, left: bool) -> Seq<T> {
    Seq::new(
        grid.len(),
        |c: int|
            if exists|i: int| 0 <= i < 8 && ring_at(width, x, y, i) == c {
                let i = choose|i: int| 0 <= i < 8 && ring_at(width, x, y, i) == c;
                if left {
                    grid[ring_at(width, x, y, (i + 1) % 8)]
                } else {
                    grid[ring_at(width, x, y, (i + 7) % 8)]
                }
            } else {
                grid[c]
            },
    )
}

/// The cells of a ring are eight different cells of the grid.
pub proof fn lemma_ring_cells(len: int, width: int, x: int, y: int)
    requires
        ring_fits(len, width, x, y),
    ensures
        forall|i: int| 0 <= i < 8 ==> 0 <= #[trigger] ring_at(width, x, y, i) < len,
        forall|i: int, j: int|
            0 <= i < 8 && 0 <= j < 8 && i != j ==> #[trigger] ring_at(width, x, y, i)
                != #[trigger] ring_at(width, x, y, j),
{
    assert((y - 1) * width == y * width - width && (y + 1) * width == y * width + width)
        by (nonlinear_arith);
    assert(0 <= (y - 1) * width) by (nonlinear_arith)
        requires
            y >= 1,
            width >= 0,
    ;
}

/// Turns the ring around `(x, y)` by one place.
pub fn rotate<T: Copy>(grid: &mut Vec<T>, width: usize, x: usize, y: usize, left: bool)
    requires
        ring_fits(old(grid)@.len() as int, width as int, x as int, y as int),
    ensures
        final(grid)@ == turned(old(grid)@, width as int, x as int, y as int, left),
{
    let ghost w = width as int;
    let ghost cx = x as int;
    let ghost cy = y as int;
    proof {
        lemma_ring_cells(grid@.len() as int, w, cx, cy);
        assert((cy - 1) * w == cy * w - w && (cy + 1) * w == cy * w + w) by (nonlinear_arith);
        assert(0 <= (cy - 1) * w) by (nonlinear_arith)
            requires
                cy >= 1,
                w >= 0,
        ;
        assert(grid@.len() == grid.len());
        assert(cy + 1 <= (cy + 1) * w) by (nonlinear_arith)
            requires
                cy >= 1,
                w >= 2,
        ;
    }
    let above: usize = (y - 1) * width;
    let level: usize = y * width;
    let below: usize = (y + 1) * width;
    let p0: usize = above + x - 1;
    let p1: usize = above + x;
    let p2: usize = above + x + 1;
    let p3: usize = level + x + 1;
    let p4: usize = below + x + 1;
    let p5: usize = below + x;
    let p6: usize = below + x - 1;
    let p7: usize = level + x - 1;
    proof {
        assert(p0 == ring_at(w, cx, cy, 0) && p1 == ring_at(w, cx, cy, 1) && p2 == ring_at(
            w,
            cx,
            cy,
            2,
        ) && p3 == ring_at(w, cx, cy, 3) && p4 == ring_at(w, cx, cy, 4) && p5 == ring_at(
            w,
            cx,
            cy,
            5,
        ) && p6 == ring_at(w, cx, cy, 6) && p7 == ring_at(w, cx, cy, 7));
    }
    let v0: T = grid[p0];
    let v1: T = grid[p1];
    let v2: T = grid[p2];
    let v3: T = grid[p3];
    let v4: T = grid[p4];
    let v5: T = grid[p5];
    let v6: T = grid[p6];
    let v7: T = grid[p7];
    if left {
        grid[p0] = v1;
        grid[p1] = v2;
        grid[p2] = v3;
        grid[p3] = v4;
        grid[p4] = v5;
        grid[p5] = v6;
        grid[p6] = v7;
        grid[p7] = v0;
    } else {
        grid[p0] = v7;
        grid[p1] = v0;
        grid[p2] = v1;
        grid[p3] = v2;
        grid[p4] = v3;
        grid[p5] = v4;
        grid[p6] = v5;
        grid[p7] = v6;
    }
    proof {
        let want = turned(old(grid)@, w, cx, cy, left);
        assert forall|c: int| 0 <= c < grid@.len() implies grid@[c] == want[c] by {
            if exists|i: int| 0 <= i < 8 && ring_at(w, cx, cy, i) == c {
                let i = choose|i: int| 0 <= i < 8 && ring_at(w, cx, cy, i) == c;
                assert(i == 0 || i == 1 || i == 2 || i == 3 || i == 4 || i == 5 || i == 6 || i
                    == 7);
            } else {
                assert(ring_at(w, cx, cy, 0) != c && ring_at(w, cx, cy, 1) != c && ring_at(
                    w,
                    cx,
                    cy,
                    2,
                ) != c && ring_at(w, cx, cy, 3) != c && ring_at(w, cx, cy, 4) != c && ring_at(
                    w,
                    cx,
                    cy,
                    5,
                ) != c && ring_at(w, cx, cy, 6) != c && ring_at(w, cx, cy, 7) != c);
            }
        }
        assert(grid@ =~= want);
    }
}

/// The grid after the first `k` turns of a message: the centres are the
/// cells inside the border of a grid of `width` by `height`, row by row,
/// and the `k`-th centre is turned to the left where the instructions,
/// repeated as often as needed, hold `L` in the `k`-th place.
pub open spec fn decrypted<T>(
    grid: Seq<T>,
    width: int,
    height: int,
    instructions: Seq<u8>,
    k: nat,
) -> Seq<T>
    decreases k,
{
    if k == 0 || width < 3 {
        grid
    } else {
        let before = decrypted(grid, width, height, instructions, (k - 1) as nat);
        let x = 1 + (k - 1) % (width - 2);
        let y = 1 + (k - 1) / (width - 2);
        turned(before, width, x, y, instructions[(k - 1) % (instructions.len() as int)] == 0x4c)
    }
}

/// Turning a ring keeps the number of cells.
pub proof fn lemma_decrypted_len<T>(
    grid: Seq<T>,
    width: int,
    height: int,
    instructions: Seq<u8>,
    k: nat,
)
    ensures
        decrypted(grid, width, height, instructions, k).len() == grid.len(),
    decreases k,
{
    if k > 0 && width >= 3 {
        lemma_decrypted_len(grid, width, height, instructions, (k - 1) as nat);
    }
}

/// Turns the ring around every cell inside the border once, row by row,
/// as the instructions say.
pub fn decrypt<T: Copy>(grid: &mut Vec<T>, width: usize, height: usize, instructions: &Vec<u8>)
    requires
        old(grid)@.len() == width * height,
        instructions@.len() > 0,
        height >= 1,
        width >= 1,
    ensures
        final(grid)@ == decrypted(
            old(grid)@,
            width as int,
            height as int,
            instructions@,
            (if width >= 3 && height >= 3 {
                (width - 2) * (height - 2)
            } else {
                0
            }) as nat,
        ),
{
    if width < 3 || height < 3 {
        return ;
    }
    let steps: usize = instructions.len();
    let mut j: usize = 0;
    let ghost mut k: nat = 0;
    let ghost w = width as int;
    let ghost h = height as int;
    proof {
        assert(grid@.len() == grid.len());
    }
    let mut y: usize = 1;
    while y < height - 1
        invariant
            1 <= y <= height - 1,
            width >= 3,
            height >= 3,
            w == width,
            h == height,
            steps == instructions@.len(),
            steps > 0,
            grid@.len() == width * height,
            width * height <= usize::MAX,
            k == (y - 1) * (width - 2),
            j == k % (steps as nat),
            grid@ == decrypted(old(grid)@, w, h, instructions@, k),
        decreases height - y,
    {
        let mut x: usize = 1;
        while x < width - 1
            invariant
                1 <= x <= width - 1,
                1 <= y < height - 1,
                width >= 3,
                height >= 3,
                w == width,
                h == height,
                steps == instructions@.len(),
                steps > 0,
                grid@.len() == width * height,
                width * height <= usize::MAX,
                k == (y - 1) * (width - 2) + (x - 1),
                j == k % (steps as nat),
                grid@ == decrypted(old(grid)@, w, h, instructions@, k),
            decreases width - x,
        {
            proof {
                vstd::arithmetic::div_mod::lemma_fundamental_div_mod_converse(
                    k as int,
                    w - 2,
                    y as int - 1,
                    x as int - 1,
                );
                crate::puzzles::chariots::lemma_next_place(k, steps as nat);
                assert((y as int + 1) * w + x + 1 < w * h) by (nonlinear_arith)
                    requires
                        y + 1 < h,
                        x + 1 < w,
                        0 < x,
                ;
            }
            let left: bool = instructions[j] == 0x4c;
            rotate(grid, width, x, y, left);
            j = if j + 1 == steps {
                0
            } else {
                j + 1
            };
            proof {
                k = k + 1;
            }
            x += 1;
        }
        proof {
            assert(y as int * (w - 2) == (y as int - 1) * (w - 2) + (w - 2)) by (nonlinear_arith);
        }
        y += 1;
    }
    proof {
        assert((h - 2) * (w - 2) == (w - 2) * (h - 2)) by (nonlinear_arith);
    }
}

/// The number of turns of one message: one for every cell inside the
/// border.
pub open spec fn whole(width: int, height: int) -> nat {
    if width >= 3 && height >= 3 {
        ((width - 2) * (height - 2)) as nat
    } else {
        0
    }
}

/// The list in which every place holds its own number.
pub open spec fn identity(len: nat) -> Seq<usize> {
    Seq::new(len, |i: int| i as usize)
}

/// The grid shuffled by `p`: every place takes what stood at the place
/// that `p` names for it.
pub open spec fn applied<T>(grid: Seq<T>, p: Seq<usize>) -> Seq<T> {
    Seq::new(grid.len(), |c: int| grid[p[c] as int])
}

/// Whether `p` names a place of the grid for every place.
pub open spec fn is_shuffle(p: Seq<usize>, len: nat) -> bool {
    p.len() == len && forall|c: int| 0 <= c < len ==> (#[trigger] p[c]) < len
}

/// The grid shuffled `n` times by `p`.
pub open spec fn applied_times<T>(grid: Seq<T>, p: Seq<usize>, n: nat) -> Seq<T>
    decreases n,
{
    if n == 0 {
        grid
    } else {
        applied(applied_times(grid, p, (n - 1) as nat), p)
    }
}

/// The grid after `n` messages.
pub open spec fn decrypted_times<T>(
    grid: Seq<T>,
    width: int,
    height: int,
    instructions: Seq<u8>,
    n: nat,
) -> Seq<T>
    decreases n,
{
    if n == 0 {
        grid
    } else {
        decrypted(
            decrypted_times(grid, width, height, instructions, (n - 1) as nat),
            width,
            height,
            instructions,
            whole(width, height),
        )
    }
}

/// Turning a ring shuffles the grid, whatever it holds: by the list that
/// the turn makes of the list of places.
pub proof fn lemma_turned_natural<T>(grid: Seq<T>, width: int, x: int, y: int, left: bool)
    requires
        ring_fits(grid.len() as int, width, x, y),
        grid.len() <= usize::MAX,
    ensures
        turned(grid, width, x, y, left) == applied(
            grid,
            turned(identity(grid.len()), width, x, y, left),
        ),
        is_shuffle(turned(identity(grid.len()), width, x, y, left), grid.len()),
{
    let id = identity(grid.len());
    let tau = turned(id, width, x, y, left);
    lemma_ring_cells(grid.len() as int, width, x, y);
    assert forall|c: int| 0 <= c < grid.len() implies (#[trigger] tau[c]) < grid.len() && turned(
        grid,
        width,
        x,
        y,
        left,
    )[c] == grid[tau[c] as int] by {
        if exists|i: int| 0 <= i < 8 && ring_at(width, x, y, i) == c {
            let i = choose|i: int| 0 <= i < 8 && ring_at(width, x, y, i) == c;
            let from = if left {
                ring_at(width, x, y, (i + 1) % 8)
            } else {
                ring_at(width, x, y, (i + 7) % 8)
            };
            assert(0 <= from < grid.len());
            assert(tau[c] == id[from]);
        } else {
            assert(tau[c] == id[c]);
        }
    }
    assert(turned(grid, width, x, y, left) =~= applied(grid, tau));
}

/// Two shuffles, one after the other, are one shuffle.
pub proof fn lemma_applied_twice<T>(grid: Seq<T>, p: Seq<usize>, q: Seq<usize>)
    requires
        is_shuffle(p, grid.len()),
        is_shuffle(q, grid.len()),
    ensures
        applied(applied(grid, p), q) == applied(grid, applied(p, q)),
        is_shuffle(applied(p, q), grid.len()),
{
    assert forall|c: int| 0 <= c < grid.len() implies (#[trigger] applied(p, q)[c]) < grid.len() by {
        assert(q[c] < grid.len());
        assert(p[q[c] as int] < grid.len());
    }
    assert(applied(applied(grid, p), q) =~= applied(grid, applied(p, q)));
}

/// Every turn of a message lies on the grid.
pub proof fn lemma_turn_fits(width: int, height: int, k: nat)
    requires
        width >= 3,
        height >= 3,
        1 <= k <= whole(width, height),
    ensures
        ring_fits(width * height, width, 1 + (k - 1) % (width - 2), 1 + (k - 1) / (width - 2)),
{
    let inner = width - 2;
    lemma_multiply_divide_lt(k - 1, inner, height - 2);
    let y = 1 + (k - 1) / inner;
    let x = 1 + (k - 1) % inner;
    assert((y + 1) * width + x + 1 < width * height) by (nonlinear_arith)
        requires
            1 <= y <= height - 2,
            1 <= x <= width - 2,
    ;
}

/// The turns of a message shuffle the grid, whatever it holds: by the
/// list that they make of the list of places.
pub proof fn lemma_decrypted_natural<T>(
    grid: Seq<T>,
    width: int,
    height: int,
    instructions: Seq<u8>,
    k: nat,
)
    requires
        width >= 1,
        height >= 1,
        grid.len() == width * height,
        grid.len() <= usize::MAX,
        k <= whole(width, height),
    ensures
        decrypted(grid, width, height, instructions, k) == applied(
            grid,
            decrypted(identity(grid.len()), width, height, instructions, k),
        ),
        is_shuffle(decrypted(identity(grid.len()), width, height, instructions, k), grid.len()),
    decreases k,
{
    let id = identity(grid.len());
    if k == 0 || width < 3 {
        assert(grid =~= applied(grid, id));
    } else {
        lemma_decrypted_natural(grid, width, height, instructions, (k - 1) as nat);
        lemma_turn_fits(width, height, k);
        let before = decrypted(grid, width, height, instructions, (k - 1) as nat);
        let pi = decrypted(id, width, height, instructions, (k - 1) as nat);
        let x = 1 + (k - 1) % (width - 2);
        let y = 1 + (k - 1) / (width - 2);
        let left = instructions[(k - 1) % (instructions.len() as int)] == 0x4c;
        let tau = turned(id, width, x, y, left);
        lemma_turned_natural(before, width, x, y, left);
        lemma_turned_natural(pi, width, x, y, left);
        lemma_applied_twice(grid, pi, tau);
    }
}

/// One shuffle more at the end is one shuffle more at the start.
pub proof fn lemma_applied_times_shift<T>(grid: Seq<T>, p: Seq<usize>, n: nat)
    ensures
        applied_times(grid, p, n + 1) == applied_times(applied(grid, p), p, n),
    decreases n,
{
    if n > 0 {
        lemma_applied_times_shift(grid, p, (n - 1) as nat);
        assert(applied_times(grid, p, n + 1) == applied(applied_times(grid, p, n), p));
        assert(applied_times(grid, p, n) == applied_times(applied(grid, p), p, (n - 1) as nat));
        assert(applied_times(applied(grid, p), p, n) == applied(
            applied_times(applied(grid, p), p, (n - 1) as nat),
            p,
        ));
    } else {
        assert(applied_times(grid, p, 1) == applied(applied_times(grid, p, 0), p));
        assert(applied_times(grid, p, 0) == grid);
        assert(applied_times(applied(grid, p), p, 0) == applied(grid, p));
    }
}

/// Shuffles keep the length of the grid.
pub proof fn lemma_applied_times_len<T>(grid: Seq<T>, p: Seq<usize>, n: nat)
    ensures
        applied_times(grid, p, n).len() == grid.len(),
    decreases n,
{
    if n > 0 {
        lemma_applied_times_len(grid, p, (n - 1) as nat);
    }
}

/// Twice as many shuffles are as many shuffles by the shuffle done
/// twice.
pub proof fn lemma_applied_times_double<T>(grid: Seq<T>, p: Seq<usize>, j: nat)
    requires
        is_shuffle(p, grid.len()),
    ensures
        applied_times(grid, p, 2 * j) == applied_times(grid, applied(p, p), j),
    decreases j,
{
    if j > 0 {
        lemma_applied_times_double(grid, p, (j - 1) as nat);
        let before = applied_times(grid, p, (2 * j - 2) as nat);
        lemma_applied_times_len(grid, p, (2 * j - 2) as nat);
        assert(applied_times(grid, p, (2 * j - 1) as nat) == applied(before, p));
        assert(applied_times(grid, p, 2 * j) == applied(applied(before, p), p));
        lemma_applied_twice(before, p, p);
    }
}

/// Messages shuffle the grid by the shuffle of one message.
pub proof fn lemma_messages_shuffle<T>(
    grid: Seq<T>,
    width: int,
    height: int,
    instructions: Seq<u8>,
    n: nat,
)
    requires
        width >= 1,
        height >= 1,
        grid.len() == width * height,
        grid.len() <= usize::MAX,
    ensures
        decrypted_times(grid, width, height, instructions, n) == applied_times(
            grid,
            decrypted(identity(grid.len()), width, height, instructions, whole(width, height)),
            n,
        ),
    decreases n,
{
    if n > 0 {
        lemma_messages_shuffle(grid, width, height, instructions, (n - 1) as nat);
        let pi = decrypted(identity(grid.len()), width, height, instructions, whole(width, height));
        let before = applied_times(grid, pi, (n - 1) as nat);
        lemma_applied_times_len(grid, pi, (n - 1) as nat);
        lemma_decrypted_natural(before, width, height, instructions, whole(width, height));
    }
}

/// Reads `times` messages, one after the other: the shuffle of one
/// message is worked out once and then squared again and again.
pub fn decrypt_times(
    grid: &mut Vec<u8>,
    width: usize,
    height: usize,
    instructions: &Vec<u8>,
    times: u64,
)
    requires
        old(grid)@.len() == width * height,
        instructions@.len() > 0,
        height >= 1,
        width >= 1,
    ensures
        final(grid)@ == decrypted_times(
            old(grid)@,
            width as int,
            height as int,
            instructions@,
            times as nat,
        ),
{
    let len: usize = grid.len();
    let mut permutation: Vec<usize> = Vec::new();
    let mut i: usize = 0;
    while i < len
        invariant
            i <= len,
            permutation@.len() == i,
            forall|j: int| 0 <= j < i ==> permutation@[j] == j,
        decreases len - i,
    {
        permutation.push(i);
        i += 1;
    }
    assert(permutation@ =~= identity(len as nat));
    decrypt(&mut permutation, width, height, instructions);
    let ghost start = grid@;
    let ghost pi = permutation@;
    proof {
        lemma_decrypted_natural(
            identity(len as nat),
            width as int,
            height as int,
            instructions@,
            whole(width as int, height as int),
        );
        lemma_messages_shuffle(start, width as int, height as int, instructions@, times as nat);
    }
    let mut k: u64 = times;
    while k > 0
        invariant
            grid@.len() == len,
            is_shuffle(permutation@, len as nat),
            applied_times(grid@, permutation@, k as nat) == applied_times(start, pi, times as nat),
        decreases k,
    {
        let ghost before = grid@;
        let ghost p = permutation@;
        if k & 1 > 0 {
            assert(k & 1 > 0 ==> k % 2 == 1) by (bit_vector);
            let mut turned_grid: Vec<u8> = Vec::new();
            let mut j: usize = 0;
            while j < len
                invariant
                    j <= len,
                    turned_grid@.len() == j,
                decreases len - j,
            {
                turned_grid.push(46);
                j += 1;
            }
            apply_permutation(&mut turned_grid, grid, &permutation);
            assert(turned_grid@ =~= applied(before, p));
            proof {
                lemma_applied_times_shift(before, p, (k - 1) as nat);
            }
            *grid = turned_grid;
        } else {
            assert(k & 1 == 0 ==> k % 2 == 0) by (bit_vector);
        }
        let mut squared: Vec<usize> = Vec::new();
        let mut j: usize = 0;
        while j < len
            invariant
                j <= len,
                squared@.len() == j,
            decreases len - j,
        {
            squared.push(0);
            j += 1;
        }
        apply_permutation(&mut squared, &permutation, &permutation);
        assert(squared@ =~= applied(p, p));
        proof {
            lemma_applied_times_double(grid@, p, (k / 2) as nat);
            lemma_applied_twice(grid@, p, p);
            assert(k >> 1 == k / 2) by (bit_vector);
        }
        permutation = squared;
        k = k >> 1;
    }
}

} // verus!
