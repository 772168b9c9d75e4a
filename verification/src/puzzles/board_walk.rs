//! Players on a board of numbers, moved by the rolls of a die: with
//! every roll a player stays or steps to a neighbouring cell, and only
//! onto a cell that shows the number rolled.

use crate::puzzles::flock::{lemma_on_board, lemma_row_order};
use vstd::prelude::*;

verus! {

/// The five moves of a player: to stay, and a step to the left, to the
/// right, up and down.
pub open spec fn step(d: int) -> (int, int) {
    if d == 0 {
        (0, 0)
    } else if d == 1 {
        (-1, 0)
    } else if d == 2 {
        (1, 0)
    } else if d == 3 {
        (0, -1)
    } else {
        (0, 1)
    }
}

/// Whether the `d`-th move of the `i`-th player leads to `(x, y)`.
pub open spec fn leads_to(players: Seq<(usize, usize)>, i: int, d: int, x: int, y: int) -> bool {
    players[i].0 + step(d).0 == x && players[i].1 + step(d).1 == y
}

/// Whether one of the first `i` players can move to `(x, y)`, or the
/// `i`-th by one of its first `d` moves.
pub open spec fn within_reach(
    players: Seq<(usize, usize)>,
    i: int,
    d: int,
    x: int,
    y: int,
) -> bool {
    exists|j: int, e: int|
        0 <= j < players.len() && 0 <= e < 5 && (j < i || (j == i && e < d)) && #[trigger] leads_to(
            players,
            j,
            e,
            x,
            y,
        )
}

/// Whether `next` are the marks `marks` with the cells marked that one
/// of the first `i` players can take, or the `i`-th by one of its first
/// `d` moves.
pub open spec fn marked_to(
    grid: Seq<i32>,
    width: int,
    height: int,
    players: Seq<(usize, usize)>,
    score: i32,
    marks: Seq<bool>,
    next: Seq<bool>,
    i: int,
    d: int,
) -> bool {
    &&& next.len() == marks.len()
    &&& forall|x: int, y: int|
        0 <= x < width && 0 <= y < height ==> #[trigger] next[y * width + x] == (marks[y * width
            + x] || (grid[y * width + x] == score && within_reach(players, i, d, x, y)))
    &&& forall|c: int| width * height <= c < marks.len() ==> #[trigger] next[c] == marks[c]
}

/// Whether `out` lists, each once, the cells newly marked.
pub open spec fn lists_new(
    width: int,
    height: int,
    marks: Seq<bool>,
    next: Seq<bool>,
    out: Seq<(usize, usize)>,
) -> bool {
    &&& forall|k: int|
        0 <= k < out.len() ==> (#[trigger] out[k]).0 < width && out[k].1 < height && !marks[out[k].1
            * width + out[k].0] && next[out[k].1 * width + out[k].0]
    &&& forall|k: int, l: int| 0 <= k < l < out.len() ==> out[k] != out[l]
    &&& forall|x: int, y: int|
        0 <= x < width && 0 <= y < height && !marks[y * width + x] && next[y * width + x]
            ==> #[trigger] out.contains((x as usize, y as usize))
}

/// Moves the players with one roll of the die: every player stays or
/// steps to a neighbouring cell that shows `score` and that no player
/// has reached with this roll before. The cells reached are marked in
/// `seen`, which holds what this roll has reached, and in `taken`, and
/// are returned, each once.
pub fn advance(
    grid: &Vec<i32>,
    width: usize,
    height: usize,
    players: &Vec<(usize, usize)>,
    score: i32,
    seen: &mut Vec<bool>,
    taken: &mut Vec<bool>,
) -> (out: Vec<(usize, usize)>)
    requires
        width * height <= grid@.len(),
        old(seen)@.len() == grid@.len(),
        old(taken)@.len() == grid@.len(),
        forall|i: int|
            0 <= i < players@.len() ==> (#[trigger] players@[i]).0 < width && players@[i].1
                < height,
    ensures
        marked_to(
            grid@,
            width as int,
            height as int,
            players@,
            score,
            old(seen)@,
            final(seen)@,
            players@.len() as int,
            0,
        ),
        lists_new(width as int, height as int, old(seen)@, final(seen)@, out@),
        final(taken)@.len() == old(taken)@.len(),
        forall|c: int|
            0 <= c < grid@.len() ==> #[trigger] final(taken)@[c] == (old(taken)@[c] || (!old(
                seen,
            )@[c] && final(seen)@[c])),
{
    let n: usize = grid.len();
    let ghost w = width as int;
    let ghost h = height as int;
    let mut out: Vec<(usize, usize)> = Vec::new();
    let mut i: usize = 0;
    proof {
        assert(marked_to(grid@, w, h, players@, score, old(seen)@, seen@, 0, 0));
    }
    while i < players.len()
        invariant
            i <= players@.len(),
            n == grid@.len(),
            w == width,
            h == height,
            w * h <= n,
            seen@.len() == n,
            taken@.len() == n,
            old(seen)@.len() == n,
            old(taken)@.len() == n,
            forall|j: int|
                0 <= j < players@.len() ==> (#[trigger] players@[j]).0 < width && players@[j].1
                    < height,
            marked_to(grid@, w, h, players@, score, old(seen)@, seen@, i as int, 0),
            lists_new(w, h, old(seen)@, seen@, out@),
            forall|c: int|
                0 <= c < n ==> #[trigger] taken@[c] == (old(taken)@[c] || (!old(seen)@[c]
                    && seen@[c])),
        decreases players@.len() - i,
    {
        let (px, py) = players[i];
        let mut d: usize = 0;
        while d < 5
            invariant
                d <= 5,
                i < players@.len(),
                players@[i as int] == (px, py),
                px < width,
                py < height,
                n == grid@.len(),
                w == width,
                h == height,
                w * h <= n,
                seen@.len() == n,
                taken@.len() == n,
                old(seen)@.len() == n,
                old(taken)@.len() == n,
                marked_to(grid@, w, h, players@, score, old(seen)@, seen@, i as int, d as int),
                lists_new(w, h, old(seen)@, seen@, out@),
                forall|c: int|
                    0 <= c < n ==> #[trigger] taken@[c] == (old(taken)@[c] || (!old(seen)@[c]
                        && seen@[c])),
            decreases 5 - d,
        {
            let inside: bool = if d == 1 {
                px >= 1
            } else if d == 2 {
                width - px > 1
            } else if d == 3 {
                py >= 1
            } else if d == 4 {
                height - py > 1
            } else {
                true
            };
            let ghost before = seen@;
            let ghost listed = out@;
            if inside {
                let nx: usize = if d == 1 {
                    px - 1
                } else if d == 2 {
                    px + 1
                } else {
                    px
                };
                let ny: usize = if d == 3 {
                    py - 1
                } else if d == 4 {
                    py + 1
                } else {
                    py
                };
                proof {
                    lemma_on_board(w, h, nx as int, ny as int);
                    assert(leads_to(players@, i as int, d as int, nx as int, ny as int));
                }
                let at: usize = ny * width + nx;
                if grid[at] == score && !seen[at] {
                    proof {
                        if old(seen)@[at as int] {
                            assert(before[ny * w + nx]);
                        }
                    }
                    seen.set(at, true);
                    taken.set(at, true);
                    out.push((nx, ny));
                    proof {
                        assert forall|k: int, l: int| 0 <= k < l < out@.len() implies out@[k]
                            != out@[l] by {
                            if l == listed.len() {
                                assert(listed[k] == out@[k]);
                                if out@[k] == (nx, ny) {
                                    assert(before[listed[k].1 * w + listed[k].0]);
                                }
                            } else {
                                assert(listed[k] == out@[k] && listed[l] == out@[l]);
                            }
                        }
                        assert forall|k: int| 0 <= k < out@.len() implies (#[trigger] out@[k]).0 < w
                            && out@[k].1 < h && !old(seen)@[out@[k].1 * w + out@[k].0]
                            && seen@[out@[k].1 * w + out@[k].0] by {
                            if k < listed.len() {
                                assert(listed[k] == out@[k]);
                                lemma_on_board(w, h, listed[k].0 as int, listed[k].1 as int);
                            }
                        }
                        assert forall|x: int, y: int|
                            0 <= x < w && 0 <= y < h && !old(seen)@[y * w + x] && seen@[y * w
                                + x] implies #[trigger] out@.contains((x as usize, y as usize)) by {
                            lemma_on_board(w, h, x, y);
                            if y * w + x == at {
                                lemma_row_order(w, x, y, nx as int, ny as int);
                                assert(out@[listed.len() as int] == (nx, ny));
                            } else {
                                assert(before[y * w + x]);
                                assert(listed.contains((x as usize, y as usize)));
                                let k = choose|k: int|
                                    0 <= k < listed.len() && listed[k] == (x as usize, y as usize);
                                assert(out@[k] == listed[k]);
                            }
                        }
                    }
                }
            }
            proof {
                assert forall|x: int, y: int| 0 <= x < w && 0 <= y < h implies #[trigger] seen@[y * w
                    + x] == (old(seen)@[y * w + x] || (grid@[y * w + x] == score && within_reach(
                    players@,
                    i as int,
                    d + 1,
                    x,
                    y,
                ))) by {
                    lemma_on_board(w, h, x, y);
                    let c = y * w + x;
                    assert(before[c] == (old(seen)@[c] || (grid@[c] == score && within_reach(
                        players@,
                        i as int,
                        d as int,
                        x,
                        y,
                    ))));
                    if within_reach(players@, i as int, d as int, x, y) {
                        let (j, e) = choose|j: int, e: int|
                            0 <= j < players@.len() && 0 <= e < 5 && (j < i || (j == i && e < d))
                                && #[trigger] leads_to(players@, j, e, x, y);
                        assert(leads_to(players@, j, e, x, y));
                    }
                    if within_reach(players@, i as int, d + 1, x, y) && !within_reach(
                        players@,
                        i as int,
                        d as int,
                        x,
                        y,
                    ) {
                        let (j, e) = choose|j: int, e: int|
                            0 <= j < players@.len() && 0 <= e < 5 && (j < i || (j == i && e < d
                                + 1)) && #[trigger] leads_to(players@, j, e, x, y);
                        assert(j == i && e == d);
                        assert(inside);
                        if grid@[c] == score {
                            lemma_row_order(w, x, y, px + step(d as int).0, py + step(d as int).1);
                        }
                    }
                    if inside && seen@[c] != before[c] {
                        let nx = px + step(d as int).0;
                        let ny = py + step(d as int).1;
                        lemma_row_order(w, x, y, nx, ny);
                        assert(leads_to(players@, i as int, d as int, x, y));
                    }
                }
            }
            d += 1;
        }
        proof {
            assert forall|x: int, y: int| 0 <= x < w && 0 <= y < h implies within_reach(
                players@,
                i as int,
                5,
                x,
                y,
            ) == within_reach(players@, i + 1, 0, x, y) by {
                if within_reach(players@, i as int, 5, x, y) {
                    let (j, e) = choose|j: int, e: int|
                        0 <= j < players@.len() && 0 <= e < 5 && (j < i || (j == i && e < 5))
                            && #[trigger] leads_to(players@, j, e, x, y);
                    assert(leads_to(players@, j, e, x, y));
                }
                if within_reach(players@, i + 1, 0, x, y) {
                    let (j, e) = choose|j: int, e: int|
                        0 <= j < players@.len() && 0 <= e < 5 && (j < i + 1 || (j == i + 1 && e
                            < 0)) && #[trigger] leads_to(players@, j, e, x, y);
                    assert(leads_to(players@, j, e, x, y));
                }
            }
        }
        i += 1;
    }
    out
}

} // verus!
