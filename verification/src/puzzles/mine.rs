//! A mine dug level by level: a block of earth may be dug one level
//! deeper when all its neighbours are as deep as it is; what lies beyond
//! the edge of the field counts as not dug at all.

use vstd::prelude::*;

verus! {

/// The depth of the cell `(x, y)`: zero beyond the edge of the field.
pub open spec fn depth_at(grid: Seq<usize>, width: int, height: int, x: int, y: int) -> int {
    if 0 <= x < width && 0 <= y < height {
        grid[y * width + x] as int
    } else {
        0
    }
}

/// Whether the first `k` neighbours of the cell `c` are as deep as it
/// is.
pub open spec fn level_with(
    grid: Seq<usize>,
    width: int,
    height: int,
    dirs: Seq<(i64, i64)>,
    c: int,
    k: int,
) -> bool {
    forall|i: int|
        0 <= i < k ==> depth_at(
            grid,
            width,
            height,
            c % width + (#[trigger] dirs[i]).0,
            c / width + dirs[i].1,
        ) == grid[c]
}

/// Whether the cell `c` is dug in this round: it lies on the field, is
/// dug already, and all its neighbours are as deep as it is.
pub open spec fn is_dug(grid: Seq<usize>, width: int, height: int, dirs: Seq<(i64, i64)>, c: int) -> bool {
    0 <= c < width * height && grid[c] != 0 && level_with(grid, width, height, dirs, c, dirs.len() as int)
}

/// The field after one round: the cells that are dug get the depth
/// `level`.
pub open spec fn dug_once(
    grid: Seq<usize>,
    width: int,
    height: int,
    dirs: Seq<(i64, i64)>,
    level: usize,
) -> Seq<usize> {
    Seq::new(
        grid.len(),
        |c: int|
            if is_dug(grid, width, height, dirs, c) {
                level
            } else {
                grid[c]
            },
    )
}

/// Whether a cell is dug in this round.
pub open spec fn any_dug(grid: Seq<usize>, width: int, height: int, dirs: Seq<(i64, i64)>) -> bool {
    exists|c: int| #[trigger] is_dug(grid, width, height, dirs, c)
}

/// The field after the rounds from depth `level` on, until no cell is
/// dug or `rounds` rounds are over.
pub open spec fn dug(
    grid: Seq<usize>,
    width: int,
    height: int,
    dirs: Seq<(i64, i64)>,
    level: usize,
    rounds: nat,
) -> Seq<usize>
    decreases rounds,
{
    if rounds == 0 || !any_dug(grid, width, height, dirs) || level == usize::MAX {
        grid
    } else {
        dug(
            dug_once(grid, width, height, dirs, level),
            width,
            height,
            dirs,
            (level + 1) as usize,
            (rounds - 1) as nat,
        )
    }
}

/// The sum of the first `k` depths.
pub open spec fn earth(grid: Seq<usize>, k: nat) -> nat
    decreases k,
{
    if k == 0 || k > grid.len() {
        0
    } else {
        earth(grid, (k - 1) as nat) + grid[k - 1] as nat
    }
}

/// The sum over more cells is no smaller.
pub proof fn lemma_earth_grows(grid: Seq<usize>, j: nat, k: nat)
    requires
        j <= k <= grid.len(),
    ensures
        earth(grid, j) <= earth(grid, k),
    decreases k,
{
    if j < k {
        lemma_earth_grows(grid, j, (k - 1) as nat);
    }
}

/// Whether the cell `c` of the field is dug in this round.
pub fn dig_cell(grid: &Vec<usize>, width: usize, height: usize, dirs: &Vec<(i64, i64)>, c: usize) -> (r: bool)
    requires
        width * height <= grid@.len(),
        c < width * height,
    ensures
        r == is_dug(grid@, width as int, height as int, dirs@, c as int),
{
    let here: usize = grid[c];
    if here == 0 {
        return false;
    }
    assert(width > 0) by (nonlinear_arith)
        requires
            c < width * height,
    ;
    let x: usize = c % width;
    let y: usize = c / width;
    let n: usize = grid.len();
    let mut k: usize = 0;
    while k < dirs.len()
        invariant
            k <= dirs@.len(),
            width > 0,
            width * height <= grid@.len(),
            n == grid@.len(),
            c < width * height,
            x == c % width,
            y == c / width,
            here == grid@[c as int],
            level_with(grid@, width as int, height as int, dirs@, c as int, k as int),
        decreases dirs@.len() - k,
    {
        let (dx, dy) = dirs[k];
        let nx: i128 = x as i128 + dx as i128;
        let ny: i128 = y as i128 + dy as i128;
        let deep: usize = if nx >= 0 && ny >= 0 && nx < width as i128 && ny < height as i128 {
            proof {
                crate::puzzles::flock::lemma_on_board(width as int, height as int, nx as int, ny as int);
            }
            grid[(ny as usize) * width + (nx as usize)]
        } else {
            0
        };
        assert(deep == depth_at(grid@, width as int, height as int, x + dirs@[k as int].0, y
            + dirs@[k as int].1));
        if deep != here {
            return false;
        }
        k += 1;
    }
    true
}

/// Digs one round at depth `level`. Returns the field after the round,
/// and whether a cell was dug.
pub fn dig_round(grid: &Vec<usize>, width: usize, height: usize, dirs: &Vec<(i64, i64)>, level: usize) -> (r: (Vec<usize>, bool))
    requires
        width * height <= grid@.len(),
    ensures
        r.0@ == dug_once(grid@, width as int, height as int, dirs@, level),
        r.1 == any_dug(grid@, width as int, height as int, dirs@),
{
    let n: usize = grid.len();
    let cells: usize = width * height;
    let mut next: Vec<usize> = Vec::new();
    let mut changed: bool = false;
    let mut c: usize = 0;
    while c < n
        invariant
            c <= n,
            n == grid@.len(),
            cells == width * height,
            cells <= n,
            next@.len() == c,
            forall|i: int|
                0 <= i < c ==> #[trigger] next@[i] == dug_once(
                    grid@,
                    width as int,
                    height as int,
                    dirs@,
                    level,
                )[i],
            changed <==> exists|i: int|
                0 <= i < c && #[trigger] is_dug(grid@, width as int, height as int, dirs@, i),
        decreases n - c,
    {
        let dug_here: bool = c < cells && dig_cell(grid, width, height, dirs, c);
        if dug_here {
            next.push(level);
            changed = true;
        } else {
            next.push(grid[c]);
        }
        proof {
            if !changed {
                assert forall|i: int| 0 <= i < c + 1 implies !#[trigger] is_dug(
                    grid@,
                    width as int,
                    height as int,
                    dirs@,
                    i,
                ) by {}
            }
        }
        c += 1;
    }
    assert(next@ =~= dug_once(grid@, width as int, height as int, dirs@, level));
    proof {
        if any_dug(grid@, width as int, height as int, dirs@) {
            let i = choose|i: int| #[trigger] is_dug(grid@, width as int, height as int, dirs@, i);
            assert(0 <= i < n);
        }
    }
    (next, changed)
}

/// Digs the mine round by round from depth 2 on, until no cell is dug,
/// for as many rounds as the field has cells at most. Returns the earth
/// that was moved: the sum of the depths; `None` where it does not fit.
pub fn dig(grid: Vec<usize>, width: usize, height: usize, dirs: &Vec<(i64, i64)>) -> (r: Option<usize>)
    requires
        width * height <= grid@.len(),
    ensures
        r.is_some() <==> earth(
            dug(grid@, width as int, height as int, dirs@, 2, grid@.len()),
            grid@.len(),
        ) <= usize::MAX,
        r matches Some(sum) ==> sum == earth(
            dug(grid@, width as int, height as int, dirs@, 2, grid@.len()),
            grid@.len(),
        ),
{
    let n: usize = grid.len();
    let ghost goal = dug(grid@, width as int, height as int, dirs@, 2, grid@.len());
    let mut field: Vec<usize> = grid;
    let mut level: usize = 2;
    let mut rounds: usize = n;
    let mut going: bool = true;
    while going && rounds > 0 && level < usize::MAX
        invariant
            field@.len() == n,
            width * height <= n,
            going ==> goal == dug(field@, width as int, height as int, dirs@, level, rounds as nat),
            !going ==> goal == field@,
        decreases rounds, going as int,
    {
        let (next, changed) = dig_round(&field, width, height, dirs, level);
        if changed {
            field = next;
            level += 1;
            rounds -= 1;
        } else {
            going = false;
        }
    }
    assert(goal == field@);
    let mut sum: usize = 0;
    let mut i: usize = 0;
    while i < n
        invariant
            i <= n,
            n == field@.len(),
            goal == field@,
            n == grid@.len(),
            goal == dug(grid@, width as int, height as int, dirs@, 2, grid@.len()),
            sum == earth(field@, i as nat),
        decreases n - i,
    {
        match sum.checked_add(field[i]) {
            Some(s) => {
                sum = s;
            },
            None => {
                proof {
                    lemma_earth_grows(field@, (i + 1) as nat, n as nat);
                }
                return None;
            },
        }
        i += 1;
    }
    Some(sum)
}

} // verus!
