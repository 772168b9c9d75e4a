//! A glider that sinks straight down a column of the map, round and
//! round: a cell of warm air lifts it by one, any other cell costs it
//! one, and the flight ends when no altitude is left.

use crate::grid::Grid;
use vstd::arithmetic::div_mod::lemma_mod_add_multiples_vanish;
use vstd::prelude::*;

verus! {

/// What the cell in the row `row` of the column `x` does to the
/// altitude.
pub open spec fn gain(grid: Grid, x: int, row: int) -> int {
    if grid.cells@[row * grid.width + x] == 43 {
        1
    } else {
        -1
    }
}

/// The altitude after `k` steps down the column `x` from the row `y`,
/// where the map begins again below its last row.
pub open spec fn altitude_after(grid: Grid, x: int, y: int, altitude: int, k: nat) -> int
    decreases k,
{
    if k == 0 {
        altitude
    } else {
        altitude_after(grid, x, y, altitude, (k - 1) as nat) + gain(
            grid,
            x,
            (y + k) % (grid.height as int),
        )
    }
}

/// Whether the flight ends with the `k`-th step: no altitude is left
/// then, and some was left before.
pub open spec fn lands_at(grid: Grid, x: int, y: int, altitude: int, k: nat) -> bool {
    altitude_after(grid, x, y, altitude, k) <= 0 && forall|j: nat|
        j < k ==> #[trigger] altitude_after(grid, x, y, altitude, j) > 0
}

/// A round of the map later the glider has gained what one round gains.
pub proof fn lemma_round_later(grid: Grid, x: int, y: int, altitude: int, k: nat)
    requires
        grid.height > 0,
    ensures
        altitude_after(grid, x, y, altitude, k + grid.height as nat) - altitude_after(
            grid,
            x,
            y,
            altitude,
            k,
        ) == altitude_after(grid, x, y, altitude, grid.height as nat) - altitude,
    decreases k,
{
    let h = grid.height as nat;
    if k > 0 {
        lemma_round_later(grid, x, y, altitude, (k - 1) as nat);
        lemma_mod_add_multiples_vanish(y + k, h as int);
        assert((y + (k + h)) % (h as int) == (y + k) % (h as int)) by {
            assert(y + (k + h) == h + (y + k));
        }
        assert(altitude_after(grid, x, y, altitude, k + h) == altitude_after(
            grid,
            x,
            y,
            altitude,
            (k + h - 1) as nat,
        ) + gain(grid, x, (y + (k + h)) % (h as int)));
        assert((k - 1) as nat + h == (k + h - 1) as nat);
    }
}

/// Where the glider has not landed within one round of the map and has
/// lost nothing over it, it never lands.
pub proof fn lemma_never_lands(grid: Grid, x: int, y: int, altitude: int, k: nat)
    requires
        grid.height > 0,
        forall|j: nat| j <= grid.height ==> #[trigger] altitude_after(grid, x, y, altitude, j) > 0,
        altitude_after(grid, x, y, altitude, grid.height as nat) >= altitude,
    ensures
        altitude_after(grid, x, y, altitude, k) > 0,
    decreases k,
{
    let h = grid.height as nat;
    if k > h {
        lemma_never_lands(grid, x, y, altitude, (k - h) as nat);
        lemma_round_later(grid, x, y, altitude, (k - h) as nat);
        assert((k - h) as nat + h == k);
    }
}

/// The altitude after more steps, from where the glider is after `k`.
pub proof fn lemma_flight_goes_on(grid: Grid, x: int, y: int, altitude: int, k: nat, more: nat)
    requires
        grid.height > 0,
        k % (grid.height as nat) == 0,
    ensures
        altitude_after(grid, x, y, altitude_after(grid, x, y, altitude, k), more)
            == altitude_after(grid, x, y, altitude, k + more),
    decreases more,
{
    if more > 0 {
        lemma_flight_goes_on(grid, x, y, altitude, k, (more - 1) as nat);
        let h = grid.height as int;
        assert((y + (k + more)) % h == (y + more) % h) by {
            vstd::arithmetic::div_mod::lemma_fundamental_div_mod(k as int, h);
            vstd::arithmetic::div_mod::lemma_mod_multiples_vanish(k as int / h, y + more, h);
            assert(h * (k as int / h) + (y + more) == y + (k + more));
        }
        assert((k + more - 1) as nat == k + (more - 1) as nat);
    }
}

/// The flight ends at most once.
pub proof fn lemma_lands_once(grid: Grid, x: int, y: int, altitude: int, j: nat, k: nat)
    requires
        lands_at(grid, x, y, altitude, j),
        lands_at(grid, x, y, altitude, k),
    ensures
        j == k,
{
    if j < k {
        assert(altitude_after(grid, x, y, altitude, j) > 0);
    }
    if k < j {
        assert(altitude_after(grid, x, y, altitude, k) > 0);
    }
}

/// The column down which the glider sinks: two cells to the right of
/// the cell `start`.
pub open spec fn column_of(grid: Grid, start: usize) -> int {
    grid.x_of(start) + 2
}

/// The altitude with which the glider begins to sink: the two cells to
/// the column have cost it two.
pub open spec fn altitude_from(altitude: u64) -> int {
    altitude - 2
}

/// Whether the glider that sets out from the cell `start` lands in the
/// row `row`, counted on from the first row of the map over all the
/// rounds it has sunk through.
pub open spec fn lands_in(grid: Grid, start: usize, altitude: u64, row: int) -> bool {
    exists|k: nat| #[trigger]
        lands_at(grid, column_of(grid, start), grid.y_of(start), altitude_from(altitude), k) && row
            == grid.y_of(start) + k
}

/// The row in which the glider lands that sets out from the cell `start`
/// with `altitude`, flies two cells to the right and sinks from there;
/// the rows are counted on from the first row of the map over all the
/// rounds. `None` where the map has no column two cells to the right,
/// where the glider never lands, or where the number of the row does
/// not fit.
pub fn part3(grid: &Grid, start: usize, altitude: u64) -> (r: Option<u64>)
    requires
        grid.wf(),
        start < grid.area(),
    ensures
        r matches Some(row) ==> column_of(*grid, start) < grid.width && lands_in(
            *grid,
            start,
            altitude,
            row as int,
        ),
        r.is_none() ==> column_of(*grid, start) >= grid.width || forall|row: int|
            lands_in(*grid, start, altitude, row) ==> row > u64::MAX,
{
    proof {
        grid.lemma_cell_in_grid(start);
    }
    let width: usize = grid.width;
    let height: usize = grid.height;
    let x0: usize = start % width;
    let y0: usize = start / width;
    if width - x0 <= 2 {
        return None;
    }
    let x: usize = x0 + 2;
    let ghost gx = x as int;
    let ghost gy = y0 as int;
    let ghost a0 = altitude_from(altitude);
    let area: usize = grid.cells.len();
    assert(gx == column_of(*grid, start) && gy == grid.y_of(start));
    if altitude <= 2 {
        assert(lands_at(*grid, gx, gy, a0, 0));
        assert(lands_at(
            *grid,
            column_of(*grid, start),
            grid.y_of(start),
            altitude_from(altitude),
            0,
        ) && gy + 0 == grid.y_of(start) + 0);
        return Some(y0 as u64);
    }
    let mut alt: u128 = (altitude - 2) as u128;
    let mut steps: u64 = 0;
    let mut landed: Option<u64> = None;
    let mut going: bool = true;
    while going
        invariant
            grid.wf(),
            area == grid.area(),
            width == grid.width,
            height == grid.height,
            height > 0,
            x < width,
            y0 < height,
            gx == x,
            gy == y0,
            gx == column_of(*grid, start),
            gy == grid.y_of(start),
            a0 == altitude_from(altitude),
            going ==> (steps as nat) % (height as nat) == 0 && alt == altitude_after(
                *grid,
                gx,
                gy,
                a0,
                steps as nat,
            ) && 0 < alt <= a0 && forall|j: nat|
                j <= steps ==> #[trigger] altitude_after(*grid, gx, gy, a0, j) > 0,
            !going ==> (landed matches Some(row) ==> lands_in(*grid, start, altitude, row as int))
                && (landed.is_none() ==> forall|row: int|
                lands_in(*grid, start, altitude, row) ==> row > u64::MAX),
        decreases going as int, alt,
    {
        let ghost from = steps as nat;
        let ghost high = alt as int;
        let mut row: usize = y0;
        let mut j: usize = 0;
        let mut now: u128 = alt;
        let mut count: u64 = steps;
        let mut done: bool = false;
        proof {
            let h = height as int;
            vstd::arithmetic::div_mod::lemma_fundamental_div_mod(from as int, h);
            assert(from as int == h * (from as int / h));
            vstd::arithmetic::div_mod::lemma_mod_multiples_vanish(from as int / h, gy, h);
            assert(h * (from as int / h) + gy == gy + from + 0);
            vstd::arithmetic::div_mod::lemma_small_mod(gy as nat, h as nat);
        }
        while j < height && !done
            invariant
                j <= height,
                grid.wf(),
                area == grid.area(),
                width == grid.width,
                height == grid.height,
                height > 0,
                x < width,
                y0 < height,
                row < height,
                gx == x,
                gy == y0,
                gx == column_of(*grid, start),
                gy == grid.y_of(start),
                a0 == altitude_from(altitude),
                from % (height as nat) == 0,
                high <= a0,
                !done ==> count == from + j && row == (gy + from + j) % (height as int) && now
                    == altitude_after(*grid, gx, gy, a0, (from + j) as nat) && 0 < now <= high + j
                    && forall|i: nat|
                    i <= from + j ==> #[trigger] altitude_after(*grid, gx, gy, a0, i) > 0,
                done ==> (landed matches Some(v) ==> lands_in(*grid, start, altitude, v as int))
                    && (landed.is_none() ==> forall|v: int|
                    lands_in(*grid, start, altitude, v) ==> v > u64::MAX),
            decreases height - j, !done as int,
        {
            let ghost k = (from + j + 1) as nat;
            let below: usize = if row + 1 == height {
                0
            } else {
                row + 1
            };
            proof {
                grid.lemma_key_in_grid(gx, below as int);
                assert(below == (gy + k) % (height as int)) by {
                    let h = height as int;
                    let q = (gy + from + j) / h;
                    vstd::arithmetic::div_mod::lemma_fundamental_div_mod(gy + from + j, h);
                    assert(h * q == q * h && (q + 1) * h == q * h + h) by (nonlinear_arith);
                    if row + 1 == height {
                        vstd::arithmetic::div_mod::lemma_fundamental_div_mod_converse(
                            gy + k,
                            h,
                            q + 1,
                            0,
                        );
                    } else {
                        vstd::arithmetic::div_mod::lemma_fundamental_div_mod_converse(
                            gy + k,
                            h,
                            q,
                            row + 1,
                        );
                    }
                }
                assert(altitude_after(*grid, gx, gy, a0, k) == altitude_after(
                    *grid,
                    gx,
                    gy,
                    a0,
                    (k - 1) as nat,
                ) + gain(*grid, gx, (gy + k) % (height as int)));
            }
            let lifted: bool = grid.cells[below * width + x] == 43;
            let next: u128 = if lifted {
                now + 1
            } else {
                (now - 1) as u128
            };
            assert(next == altitude_after(*grid, gx, gy, a0, k));
            match count.checked_add(1) {
                None => {
                    proof {
                        assert forall|v: int| lands_in(*grid, start, altitude, v) implies v
                            > u64::MAX by {
                            let kk = choose|kk: nat| #[trigger]
                                lands_at(*grid, gx, gy, a0, kk) && v == gy + kk;
                            if kk <= from + j {
                                assert(altitude_after(*grid, gx, gy, a0, kk) > 0);
                            }
                        }
                    }
                    landed = None;
                    done = true;
                },
                Some(c) => {
                    if next == 0 {
                        proof {
                            assert(lands_at(*grid, gx, gy, a0, k));
                            assert forall|v: int| lands_in(*grid, start, altitude, v) implies v
                                == gy + k by {
                                let kk = choose|kk: nat| #[trigger]
                                    lands_at(*grid, gx, gy, a0, kk) && v == gy + kk;
                                lemma_lands_once(*grid, gx, gy, a0, kk, k);
                            }
                        }
                        landed = match (y0 as u64).checked_add(c) {
                            Some(v) => Some(v),
                            None => None,
                        };
                        done = true;
                    } else {
                        count = c;
                        now = next;
                        row = below;
                        j += 1;
                    }
                },
            }
        }
        if done {
            going = false;
        } else if now >= alt {
            proof {
                let ground = altitude_after(*grid, gx, gy, a0, from);
                assert forall|m: nat| #[trigger] altitude_after(*grid, gx, gy, ground, m) == altitude_after(
                    *grid,
                    gx,
                    gy,
                    a0,
                    from + m,
                ) by {
                    lemma_flight_goes_on(*grid, gx, gy, a0, from, m);
                }
                assert forall|i: nat| i <= height implies #[trigger] altitude_after(
                    *grid,
                    gx,
                    gy,
                    ground,
                    i,
                ) > 0 by {
                    assert(altitude_after(*grid, gx, gy, a0, from + i) > 0);
                }
                assert forall|v: int| lands_in(*grid, start, altitude, v) implies v > u64::MAX by {
                    let kk = choose|kk: nat| #[trigger]
                        lands_at(*grid, gx, gy, a0, kk) && v == gy + kk;
                    if kk <= from {
                        assert(altitude_after(*grid, gx, gy, a0, kk) > 0);
                    } else {
                        lemma_never_lands(*grid, gx, gy, ground, (kk - from) as nat);
                        assert(from + (kk - from) as nat == kk);
                        assert(altitude_after(*grid, gx, gy, ground, (kk - from) as nat)
                            == altitude_after(*grid, gx, gy, a0, kk));
                    }
                }
            }
            landed = None;
            going = false;
        } else {
            proof {
                assert((from + height as nat) % (height as nat) == 0) by {
                    vstd::arithmetic::div_mod::lemma_mod_add_multiples_vanish(
                        from as int,
                        height as int,
                    );
                }
            }
            alt = now;
            steps = count;
        }
    }
    landed
}

} // verus!
