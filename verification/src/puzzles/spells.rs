//! Walls that are built by spells, and marks on a square that add up to
//! areas.
//!
//! A spell is a list of numbers; the number `s` puts a block on every
//! `s`-th column of a wall, beginning with column `s`.

use vstd::prelude::*;

verus! {

/// The grid with `by` added in the cell `at`.
pub open spec fn bumped(grid: Seq<i64>, at: int, by: int) -> Seq<i64> {
    grid.update(at, (grid[at] + by) as i64)
}

/// The grid of `size` by `size` cells after the corners of the rectangle
/// from `(x1, y1)` up to, but not including, `(x2, y2)` were marked: one
/// more at the first corner, one less beside it in either direction, and one
/// more across from it. Running sums along both axes then add one to every
/// cell of the rectangle. Marks beyond the grid are left out, and nothing
/// is marked when the first corner lies beyond it.
pub open spec fn marked(grid: Seq<i64>, x1: int, y1: int, x2: int, y2: int, size: int) -> Seq<i64> {
    if x1 >= size || y1 >= size {
        grid
    } else {
        let a = bumped(grid, y1 * size + x1, 1);
        let b = if x2 < size {
            bumped(a, y1 * size + x2, -1)
        } else {
            a
        };
        let c = if y2 < size {
            bumped(b, y2 * size + x1, -1)
        } else {
            b
        };
        if x2 < size && y2 < size {
            bumped(c, y2 * size + x2, 1)
        } else {
            c
        }
    }
}

/// Marks the corners of the rectangle from `(x1, y1)` up to `(x2, y2)` on
/// the grid.
pub fn add_range(grid: &mut Vec<i64>, x1: usize, y1: usize, x2: usize, y2: usize, size: usize)
    requires
        old(grid)@.len() == size * size,
        forall|i: int|
            0 <= i < old(grid)@.len() ==> -0x4000_0000_0000_0000 < #[trigger] old(grid)@[i]
                < 0x4000_0000_0000_0000,
    ensures
        final(grid)@ == marked(
            old(grid)@,
            x1 as int,
            y1 as int,
            x2 as int,
            y2 as int,
            size as int,
        ),
{
    if x1 >= size || y1 >= size {
        return ;
    }
    assert(grid@.len() == grid.len());
    proof {
        lemma_in_square(size as int, x1 as int, y1 as int);
    }
    grid[y1 * size + x1] = grid[y1 * size + x1] + 1;
    if x2 < size {
        proof {
            lemma_in_square(size as int, x2 as int, y1 as int);
        }
        grid[y1 * size + x2] = grid[y1 * size + x2] - 1;
    }
    if y2 < size {
        proof {
            lemma_in_square(size as int, x1 as int, y2 as int);
        }
        grid[y2 * size + x1] = grid[y2 * size + x1] - 1;
    }
    if x2 < size && y2 < size {
        proof {
            lemma_in_square(size as int, x2 as int, y2 as int);
        }
        grid[y2 * size + x2] = grid[y2 * size + x2] + 1;
    }
}

/// The index of a cell of a square grid is below the number of its cells.
pub proof fn lemma_in_square(size: int, x: int, y: int)
    requires
        0 <= x < size,
        0 <= y < size,
    ensures
        0 <= y * size + x < size * size,
        0 <= y * size,
{
    assert(0 <= y * size && y * size + x < size * size) by (nonlinear_arith)
        requires
            0 <= x < size,
            0 <= y < size,
    ;
}

/// The wall with one block less on every `s`-th column from column `s`
/// on, among the first `upto` columns; columns are counted from one.
pub open spec fn lowered(wall: Seq<u64>, s: int, upto: nat) -> Seq<u64>
    decreases upto,
{
    if upto == 0 || upto > wall.len() || s <= 0 {
        wall
    } else {
        let before = lowered(wall, s, (upto - 1) as nat);
        if upto % (s as nat) == 0 {
            before.update(upto - 1, (before[upto - 1] - 1) as u64)
        } else {
            before
        }
    }
}

/// Whether every `s`-th column of the wall has a block.
pub open spec fn can_lower(wall: Seq<u64>, s: int) -> bool {
    forall|c: int| 1 <= c <= wall.len() && c % s == 0 ==> #[trigger] wall[c - 1] > 0
}

/// What is left of the wall when the numbers below `s` of its spell have
/// been taken away, or `None` when one of them asks for a block that is
/// not there.
pub open spec fn remainder(wall: Seq<u64>, s: nat) -> Option<Seq<u64>>
    decreases s,
{
    if s <= 1 {
        Some(wall)
    } else {
        match remainder(wall, (s - 1) as nat) {
            None => None,
            Some(left) => if s - 1 > left.len() || left[s - 2] == 0 {
                Some(left)
            } else if can_lower(left, s - 1) {
                Some(lowered(left, s - 1, left.len()))
            } else {
                None
            },
        }
    }
}

/// Whether the number `s` belongs to the spell of the wall: when the
/// numbers below it are taken away, column `s` still has a block.
pub open spec fn in_spell(wall: Seq<u64>, s: nat) -> bool {
    &&& 1 <= s <= wall.len()
    &&& remainder(wall, s) matches Some(left) && left[s - 1] > 0
}

/// Taking a number away keeps the length of the wall.
pub proof fn lemma_lowered_len(wall: Seq<u64>, s: int, upto: nat)
    ensures
        lowered(wall, s, upto).len() == wall.len(),
    decreases upto,
{
    if upto > 0 && upto <= wall.len() && s > 0 {
        lemma_lowered_len(wall, s, (upto - 1) as nat);
    }
}

/// What is left of a wall has the length of the wall.
pub proof fn lemma_remainder_len(wall: Seq<u64>, s: nat)
    ensures
        remainder(wall, s) matches Some(left) ==> left.len() == wall.len(),
    decreases s,
{
    if s > 1 {
        lemma_remainder_len(wall, (s - 1) as nat);
        match remainder(wall, (s - 1) as nat) {
            Some(left) => {
                lemma_lowered_len(left, s - 1, left.len());
            },
            None => {},
        }
    }
}

/// Whether `spell` lists the numbers of the spell of the wall, each once
/// and in ascending order.
pub open spec fn is_spell_of(wall: Seq<u64>, spell: Seq<u64>) -> bool {
    &&& forall|i: int| 0 <= i < spell.len() ==> in_spell(wall, #[trigger] spell[i] as nat)
    &&& forall|i: int, j: int|
        0 <= i < j < spell.len() ==> (#[trigger] spell[i]) < (#[trigger] spell[j])
    &&& forall|s: nat|
        in_spell(wall, s) ==> exists|i: int| 0 <= i < spell.len() && #[trigger] spell[i] == s
}

/// Once a number asks for a block that is not there, nothing is left of
/// the wall for the greater numbers either.
pub proof fn lemma_remainder_stays_none(wall: Seq<u64>, s: nat, t: nat)
    requires
        s <= t,
        remainder(wall, s).is_none(),
    ensures
        remainder(wall, t).is_none(),
    decreases t,
{
    if s < t {
        lemma_remainder_stays_none(wall, s, (t - 1) as nat);
    }
}

/// The spell of the wall `input`: its numbers in ascending order. `None`
/// when no spell builds the wall.
pub fn reconstruct(input: Vec<u64>) -> (r: Option<Vec<u64>>)
    requires
        input@.len() < u64::MAX,
    ensures
        r.is_some() <==> remainder(input@, input@.len() + 1).is_some(),
        r matches Some(spell) ==> is_spell_of(input@, spell@),
{
    let ghost given = input@;
    let mut wall: Vec<u64> = input.clone();
    assert(wall@ == input@);
    let len: usize = wall.len();
    let mut result: Vec<u64> = Vec::new();
    let mut i: usize = 0;
    while i < len
        invariant
            i <= len,
            given == input@,
            len == given.len(),
            len < u64::MAX,
            wall@.len() == len,
            remainder(given, (i + 1) as nat) == Some(wall@),
            forall|k: int| 0 <= k < result@.len() ==> in_spell(given, #[trigger] result@[k] as nat),
            forall|k: int| 0 <= k < result@.len() ==> (#[trigger] result@[k]) <= i,
            forall|k: int, j: int|
                0 <= k < j < result@.len() ==> (#[trigger] result@[k]) < (#[trigger] result@[j]),
            forall|s: nat|
                in_spell(given, s) && s <= i ==> exists|k: int|
                    0 <= k < result@.len() && #[trigger] result@[k] == s,
        decreases len - i,
    {
        let ghost before = wall@;
        let ghost so_far = result@;
        let n: u64 = wall[i];
        let step: usize = i + 1;
        let mut added: bool = false;
        if n > 0 {
            result.push(step as u64);
            added = true;
            let mut j: usize = i;
            let mut c: usize = 0;
            // c counts the columns since the last one that was lowered.
            let mut column: usize = 0;
            while column < len
                invariant
                    column <= len,
                    i < len,
                    given == input@,
                    len == before.len(),
                    len == given.len(),
                    wall@.len() == len,
                    remainder(given, (i + 1) as nat) == Some(before),
                    before[i as int] > 0,
                    step == i + 1,
                    step >= 1,
                    c < step,
                    c == column % step,
                    wall@ == lowered(before, step as int, column as nat),
                    forall|q: int|
                        1 <= q <= column && q % (step as int) == 0 ==> #[trigger] before[q - 1] > 0,
                    forall|q: int| column <= q < len ==> #[trigger] wall@[q] == before[q],
                decreases len - column,
            {
                proof {
                    crate::puzzles::chariots::lemma_next_place(column as nat, step as nat);
                }
                if c + 1 == step {
                    if wall[column] == 0 {
                        proof {
                            let q = column as int + 1;
                            assert(1 <= q <= before.len() && q % (step as int) == 0 && !(before[q
                                - 1] > 0));
                            assert(!can_lower(before, step as int));
                            assert(remainder(given, (i + 2) as nat).is_none());
                            lemma_remainder_stays_none(given, (i + 2) as nat, (len + 1) as nat);
                        }
                        return None;
                    }
                    wall[column] = wall[column] - 1;
                    c = 0;
                } else {
                    c = c + 1;
                }
                column += 1;
            }
            proof {
                assert(can_lower(before, step as int));
            }
        }
        proof {
            lemma_remainder_len(given, (i + 1) as nat);
            assert forall|s: nat| in_spell(given, s) && s <= i + 1 implies exists|k: int|
                0 <= k < result@.len() && #[trigger] result@[k] == s by {
                if s <= i {
                    let k = choose|k: int| 0 <= k < so_far.len() && #[trigger] so_far[k] == s;
                    assert(result@[k] == s);
                } else {
                    assert(added);
                    assert(result@[result@.len() - 1] == s);
                }
            }
        }
        i += 1;
    }
    proof {
        assert forall|s: nat| in_spell(given, s) implies exists|k: int|
            0 <= k < result@.len() && #[trigger] result@[k] == s by {
            assert(s <= len);
        }
        assert(is_spell_of(given, result@));
    }
    Some(result)
}

} // verus!
