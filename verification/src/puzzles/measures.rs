//! Small measures that the puzzles take of their inputs: distances, sums
//! of differences, matches and crossings.

use vstd::prelude::*;
use crate::memo::clip;

verus! {

/// The potions it takes to fight the creature `c`.
pub open spec fn potions_for(c: u8) -> nat {
    if c == 0x42 {
        1
    } else if c == 0x43 {
        3
    } else if c == 0x44 {
        5
    } else {
        0
    }
}

/// The potions it takes to fight the creature `c`: one for `B`, three for
/// `C`, five for `D`, none for any other.
pub fn creature_to_potion(c: u8) -> (r: u64)
    ensures
        r == potions_for(c),
{
    if c == 0x42 {
        1
    } else if c == 0x43 {
        3
    } else if c == 0x44 {
        5
    } else {
        0
    }
}

/// How far apart `a` and `b` are.
pub open spec fn apart(a: int, b: int) -> nat {
    if a >= b {
        (a - b) as nat
    } else {
        (b - a) as nat
    }
}

/// The blows it takes to bring the first `k` nails to the height `target`,
/// one blow moving a nail by one.
pub open spec fn blows(nails: Seq<u64>, target: u64, k: nat) -> nat
    decreases k,
{
    if k == 0 || k > nails.len() {
        0
    } else {
        blows(nails, target, (k - 1) as nat) + apart(nails[k - 1] as int, target as int)
    }
}

/// The blows never get fewer as more nails are counted.
pub proof fn lemma_blows_grow(nails: Seq<u64>, target: u64, i: nat, k: nat)
    requires
        i <= k <= nails.len(),
    ensures
        blows(nails, target, i) <= blows(nails, target, k),
    decreases k,
{
    if i < k {
        lemma_blows_grow(nails, target, i, (k - 1) as nat);
    }
}

/// The blows it takes to bring all nails to the height `target`, or `None`
/// when their number does not fit in a `u64`.
pub fn nail(nails: &Vec<u64>, target: u64) -> (r: Option<u64>)
    ensures
        r == clip(blows(nails@, target, nails@.len())),
{
    let mut total: u64 = 0;
    let mut i: usize = 0;
    while i < nails.len()
        invariant
            i <= nails@.len(),
            total == blows(nails@, target, i as nat),
        decreases nails@.len() - i,
    {
        let n: u64 = nails[i];
        let d: u64 = if n >= target {
            n - target
        } else {
            target - n
        };
        match total.checked_add(d) {
            Some(next) => {
                total = next;
            },
            None => {
                proof {
                    lemma_blows_grow(nails@, target, (i + 1) as nat, nails@.len());
                }
                return None;
            },
        }
        i += 1;
    }
    Some(total)
}

/// A star on the map.
#[derive(Clone, Copy, Debug)]
pub struct Star {
    pub x: usize,
    pub y: usize,
}

impl Star {
    /// The distance to `other`, counted in steps along the axes.
    pub fn dist(&self, other: &Star) -> (d: usize)
        requires
            apart(self.x as int, other.x as int) + apart(self.y as int, other.y as int)
                <= usize::MAX,
        ensures
            d == apart(self.x as int, other.x as int) + apart(self.y as int, other.y as int),
    {
        let dx: usize = if self.x >= other.x {
            self.x - other.x
        } else {
            other.x - self.x
        };
        let dy: usize = if self.y >= other.y {
            self.y - other.y
        } else {
            other.y - self.y
        };
        dx + dy
    }
}

/// A wall or a stretch of path: a segment along one of the axes, from its
/// first end to its second.
pub type Segment = ((i64, i64), (i64, i64));

/// Whether the segment runs along the `y` axis.
pub open spec fn is_upright(s: Segment) -> bool {
    s.0.0 == s.1.0
}

/// Whether `pos` lies on `wall`, whose first end is the lower one.
pub open spec fn lies_on(wall: Segment, pos: (i64, i64)) -> bool {
    if is_upright(wall) {
        pos.0 == wall.0.0 && wall.0.1 <= pos.1 <= wall.1.1
    } else {
        pos.1 == wall.0.1 && wall.0.0 <= pos.0 <= wall.1.0
    }
}

/// Whether `pos` lies on `wall`.
pub fn is_on_wall(wall: Segment, pos: (i64, i64)) -> (r: bool)
    ensures
        r == lies_on(wall, pos),
{
    if wall.0.0 == wall.1.0 {
        pos.0 == wall.0.0 && pos.1 >= wall.0.1 && pos.1 <= wall.1.1
    } else {
        pos.1 == wall.0.1 && pos.0 >= wall.0.0 && pos.0 <= wall.1.0
    }
}

/// Whether `a` and `b` lie on one side of `line`, both below or both above.
pub open spec fn same_side(a: i64, b: i64, line: i64) -> bool {
    (a < line && b < line) || (a > line && b > line)
}

/// Where the line through `wall` is met by `path`, a segment across it:
/// nowhere when the path runs along the wall's direction or stays on one
/// side of its line.
pub open spec fn crossing(wall: Segment, path: Segment) -> Option<(i64, i64)> {
    if is_upright(wall) {
        if is_upright(path) || same_side(path.0.0, path.1.0, wall.0.0) {
            None
        } else {
            Some((wall.0.0, path.0.1))
        }
    } else {
        if path.0.1 == path.1.1 || same_side(path.0.1, path.1.1, wall.0.1) {
            None
        } else {
            Some((path.0.0, wall.0.1))
        }
    }
}

/// Where the line through `wall` is met by `path`.
pub fn find_intersection(wall: Segment, path: Segment) -> (r: Option<(i64, i64)>)
    ensures
        r == crossing(wall, path),
{
    if wall.0.0 == wall.1.0 {
        if path.0.0 == path.1.0 {
            return None;
        }
        if (path.0.0 < wall.0.0 && path.1.0 < wall.0.0) || (path.0.0 > wall.0.0 && path.1.0
            > wall.0.0) {
            return None;
        }
        Some((wall.0.0, path.0.1))
    } else {
        if path.0.1 == path.1.1 {
            return None;
        }
        if (path.0.1 < wall.0.1 && path.1.1 < wall.0.1) || (path.0.1 > wall.0.1 && path.1.1
            > wall.0.1) {
            return None;
        }
        Some((path.0.0, wall.0.1))
    }
}

/// Whether the thread `old`, strung between two nails on a circle, is the
/// thread `new` or crosses it: one of its ends lies strictly between the
/// ends of `new` and the other strictly outside.
pub open spec fn crosses(new: (usize, usize), old: (usize, usize)) -> bool {
    old == new || (old.0 < new.0 && new.0 < old.1 < new.1) || (new.0 < old.0 < new.1 && old.1
        > new.1)
}

/// The number of the first `k` threads that are `new` or cross it.
pub open spec fn crossings(new: (usize, usize), threads: Seq<(usize, usize)>, k: nat) -> nat
    decreases k,
{
    if k == 0 || k > threads.len() {
        0
    } else {
        crossings(new, threads, (k - 1) as nat) + if crosses(new, threads[k - 1]) {
            1nat
        } else {
            0nat
        }
    }
}

/// The number of `threads` that are `new_thread` or cross it.
pub fn count_intersections(new_thread: (usize, usize), threads: &Vec<(usize, usize)>) -> (r: usize)
    ensures
        r == crossings(new_thread, threads@, threads@.len()),
{
    let mut result: usize = 0;
    let mut i: usize = 0;
    while i < threads.len()
        invariant
            i <= threads@.len(),
            result == crossings(new_thread, threads@, i as nat),
            result <= i,
        decreases threads@.len() - i,
    {
        let old: (usize, usize) = threads[i];
        let same: bool = old.0 == new_thread.0 && old.1 == new_thread.1;
        let first: bool = old.0 < new_thread.0 && new_thread.0 < old.1 && old.1 < new_thread.1;
        let second: bool = new_thread.0 < old.0 && old.0 < new_thread.1 && old.1 > new_thread.1;
        if same || first || second {
            result += 1;
        }
        i += 1;
    }
    result
}

/// The number of the first `k` places at which `a` and `b` agree.
pub open spec fn matches(a: Seq<u8>, b: Seq<u8>, k: nat) -> nat
    decreases k,
{
    if k == 0 || k > a.len() || k > b.len() {
        0
    } else {
        matches(a, b, (k - 1) as nat) + if a[k - 1] == b[k - 1] {
            1nat
        } else {
            0nat
        }
    }
}

/// Whether `a` may be the child of `p1` and `p2`: at every place it agrees
/// with one of them.
pub open spec fn descends(a: Seq<u8>, p1: Seq<u8>, p2: Seq<u8>) -> bool {
    forall|i: int| 0 <= i < a.len() ==> (#[trigger] a[i]) == p1[i] || a[i] == p2[i]
}

/// The similarity of a child to its parents: the number of places at which
/// it agrees with the one times the number at which it agrees with the
/// other, or `None` when `a` cannot be their child.
pub fn similarity(a: &Vec<u8>, p1: &Vec<u8>, p2: &Vec<u8>) -> (r: Option<u64>)
    requires
        a@.len() <= p1@.len(),
        a@.len() <= p2@.len(),
        a@.len() <= 0xffff_ffff,
    ensures
        r.is_some() <==> descends(a@, p1@, p2@),
        r matches Some(s) ==> s == matches(a@, p1@, a@.len()) * matches(a@, p2@, a@.len()),
{
    let mut result1: u64 = 0;
    let mut result2: u64 = 0;
    let mut i: usize = 0;
    while i < a.len()
        invariant
            i <= a@.len(),
            a@.len() <= p1@.len(),
            a@.len() <= p2@.len(),
            a@.len() <= 0xffff_ffff,
            result1 == matches(a@, p1@, i as nat),
            result2 == matches(a@, p2@, i as nat),
            result1 <= i,
            result2 <= i,
            forall|j: int| 0 <= j < i ==> (#[trigger] a@[j]) == p1@[j] || a@[j] == p2@[j],
        decreases a@.len() - i,
    {
        let c: u8 = a[i];
        if p1[i] != c && p2[i] != c {
            return None;
        }
        if p1[i] == c {
            result1 += 1;
        }
        if p2[i] == c {
            result2 += 1;
        }
        i += 1;
    }
    assert(result1 * result2 <= 0xffff_ffff * 0xffff_ffff) by (nonlinear_arith)
        requires
            result1 <= 0xffff_ffff,
            result2 <= 0xffff_ffff,
    ;
    Some(result1 * result2)
}

/// Copies into `dest` what `src` holds, in the order that `permutation`
/// gives: place `i` of `dest` takes what stands at `permutation[i]`.
pub fn apply_permutation<T: Copy>(dest: &mut Vec<T>, src: &Vec<T>, permutation: &Vec<usize>)
    requires
        old(dest)@.len() >= src@.len(),
        permutation@.len() >= src@.len(),
        forall|i: int| 0 <= i < src@.len() ==> (#[trigger] permutation@[i]) < src@.len(),
    ensures
        final(dest)@.len() == old(dest)@.len(),
        forall|i: int| 0 <= i < src@.len() ==> (#[trigger] final(dest)@[i]) == src@[permutation@[i] as int],
        forall|i: int|
            src@.len() <= i < old(dest)@.len() ==> (#[trigger] final(dest)@[i]) == old(dest)@[i],
{
    let mut i: usize = 0;
    while i < src.len()
        invariant
            i <= src@.len(),
            dest@.len() == old(dest)@.len(),
            dest@.len() >= src@.len(),
            permutation@.len() >= src@.len(),
            forall|j: int| 0 <= j < src@.len() ==> (#[trigger] permutation@[j]) < src@.len(),
            forall|j: int| 0 <= j < i ==> (#[trigger] dest@[j]) == src@[permutation@[j] as int],
            forall|j: int| i <= j < dest@.len() ==> (#[trigger] dest@[j]) == old(dest)@[j],
        decreases src@.len() - i,
    {
        dest[i] = src[permutation[i]];
        i += 1;
    }
}

/// Whether `index` lists, for each of the first 128 byte values, the
/// places at which `input` holds it, in ascending order.
pub open spec fn is_index(input: Seq<u8>, index: Seq<Vec<usize>>) -> bool {
    &&& index.len() == 128
    &&& forall|b: int, i: int|
        0 <= b < 128 && 0 <= i < index[b]@.len() ==> (#[trigger] index[b]@[i]) < input.len()
            && input[index[b]@[i] as int] == b
    &&& forall|b: int, i: int, j: int|
        0 <= b < 128 && 0 <= i < j < index[b]@.len() ==> (#[trigger] index[b]@[i]) < (
        #[trigger] index[b]@[j])
    &&& forall|p: int| 0 <= p < input.len() ==> #[trigger] lists(index[input[p] as int]@, p)
}

/// Whether the place `p` is among `places`.
pub open spec fn lists(places: Seq<usize>, p: int) -> bool {
    exists|i: int| 0 <= i < places.len() && #[trigger] places[i] == p
}

/// For each of the first 128 byte values, the places at which `input`
/// holds it.
pub fn make_index(input: &Vec<u8>) -> (result: Vec<Vec<usize>>)
    requires
        forall|p: int| 0 <= p < input@.len() ==> (#[trigger] input@[p]) < 128,
    ensures
        is_index(input@, result@),
{
    let mut result: Vec<Vec<usize>> = Vec::new();
    let mut b: usize = 0;
    while b < 128
        invariant
            b <= 128,
            result@.len() == b,
            forall|k: int| 0 <= k < b ==> (#[trigger] result@[k])@.len() == 0,
        decreases 128 - b,
    {
        result.push(Vec::new());
        b += 1;
    }
    let mut p: usize = 0;
    while p < input.len()
        invariant
            p <= input@.len(),
            result@.len() == 128,
            forall|q: int| 0 <= q < input@.len() ==> (#[trigger] input@[q]) < 128,
            forall|b: int, i: int|
                0 <= b < 128 && 0 <= i < result@[b]@.len() ==> (#[trigger] result@[b]@[i]) < p
                    && input@[result@[b]@[i] as int] == b,
            forall|b: int, i: int, j: int|
                0 <= b < 128 && 0 <= i < j < result@[b]@.len() ==> (#[trigger] result@[b]@[i]) < (
                #[trigger] result@[b]@[j]),
            forall|q: int| 0 <= q < p ==> #[trigger] lists(result@[input@[q] as int]@, q),
        decreases input@.len() - p,
    {
        let byte: usize = input[p] as usize;
        let ghost before = result@;
        result[byte].push(p);
        proof {
            assert forall|q: int| 0 <= q < p + 1 implies #[trigger] lists(
                result@[input@[q] as int]@,
                q,
            ) by {
                if q < p {
                    assert(lists(before[input@[q] as int]@, q));
                    let i = choose|i: int|
                        0 <= i < before[input@[q] as int]@.len() && #[trigger] before[input@[q] as int]@[i]
                            == q;
                    assert(result@[input@[q] as int]@[i] == q);
                } else {
                    let last = result@[byte as int]@.len() - 1;
                    assert(result@[input@[q] as int]@[last] == q);
                }
            }
        }
        p += 1;
    }
    result
}

/// The number of bits that are set in `v`.
pub open spec fn ones(v: u64) -> nat
    decreases v,
{
    if v == 0 {
        0
    } else {
        ((v % 2) as nat) + ones(v / 2)
    }
}

/// The number of bits that are set in the first `k` rows.
pub open spec fn active(grid: Seq<u64>, k: nat) -> nat
    decreases k,
{
    if k == 0 || k > grid.len() {
        0
    } else {
        active(grid, (k - 1) as nat) + ones(grid[k - 1])
    }
}

/// No more bits are set in a number than the number itself.
pub proof fn lemma_ones_bounded(v: u64)
    ensures
        ones(v) <= v,
    decreases v,
{
    if v != 0 {
        lemma_ones_bounded(v / 2);
    }
}

/// The number of bits that are set in `v`.
pub fn count_ones(v: u64) -> (n: u64)
    ensures
        n == ones(v),
{
    let mut rest: u64 = v;
    let mut n: u64 = 0;
    proof {
        lemma_ones_bounded(v);
    }
    while rest != 0
        invariant
            n + ones(rest) == ones(v),
            ones(v) <= u64::MAX,
        decreases rest,
    {
        n = n + rest % 2;
        rest = rest / 2;
    }
    n
}

/// The number of cells that are active in a grid whose rows are given by
/// their bits.
pub fn count_active(grid: &Vec<u64>) -> (r: Option<u64>)
    ensures
        r == clip(active(grid@, grid@.len())),
{
    let mut total: u64 = 0;
    let mut i: usize = 0;
    while i < grid.len()
        invariant
            i <= grid@.len(),
            total == active(grid@, i as nat),
        decreases grid@.len() - i,
    {
        match total.checked_add(count_ones(grid[i])) {
            Some(next) => {
                total = next;
            },
            None => {
                proof {
                    lemma_active_grows(grid@, (i + 1) as nat, grid@.len());
                }
                return None;
            },
        }
        i += 1;
    }
    Some(total)
}

/// The count never gets smaller as more rows are counted.
pub proof fn lemma_active_grows(grid: Seq<u64>, i: nat, k: nat)
    requires
        i <= k <= grid.len(),
    ensures
        active(grid, i) <= active(grid, k),
    decreases k,
{
    if i < k {
        lemma_active_grows(grid, i, (k - 1) as nat);
    }
}

} // verus!
