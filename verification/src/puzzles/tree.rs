//! A tree that grows in a cube of cells: every branch starts at the
//! origin and follows its instructions, each a direction and a number of
//! steps, and every cell it steps on becomes a segment of the tree.

use crate::graph::{edges_of, is_shortest_cost};
use crate::search::{computes_successors, distances};
use crate::search_model::only;
use crate::state_key::idx;
use crate::text::{copy_range, parse_i64, pieces, signed_of, split, trim, trimmed, views};
use vstd::prelude::*;

verus! {

/// A position in the cube, as `(x, y, z)`.
pub type Pos = (int, int, int);

/// The step that a direction letter stands for: up, down, right, left,
/// forward or back; no step for any other byte.
pub open spec fn heading(dir: u8) -> Pos {
    if dir == 85 {
        (0, 1, 0)
    } else if dir == 68 {
        (0, -1, 0)
    } else if dir == 82 {
        (1, 0, 0)
    } else if dir == 76 {
        (-1, 0, 0)
    } else if dir == 70 {
        (0, 0, 1)
    } else if dir == 66 {
        (0, 0, -1)
    } else {
        (0, 0, 0)
    }
}

/// Whether `dir` is a direction letter.
pub open spec fn is_heading(dir: u8) -> bool {
    dir == 85 || dir == 68 || dir == 82 || dir == 76 || dir == 70 || dir == 66
}

/// The position `n` steps from `p` in the direction `h`.
pub open spec fn ahead(p: Pos, h: Pos, n: int) -> Pos {
    (p.0 + n * h.0, p.1 + n * h.1, p.2 + n * h.2)
}

/// The number of steps of an instruction: none for a negative number.
pub open spec fn steps_of(dist: i32) -> int {
    if dist < 0 {
        0
    } else {
        dist as int
    }
}

/// The position of a branch after its first `k` instructions.
pub open spec fn after(branch: Seq<(u8, i32)>, k: nat) -> Pos
    decreases k,
{
    if k == 0 || k > branch.len() {
        (0, 0, 0)
    } else {
        ahead(after(branch, (k - 1) as nat), heading(branch[k - 1].0), steps_of(branch[k - 1].1))
    }
}

/// The cells that the first `n` steps from `p` in the direction `h` step
/// on.
pub open spec fn stretch(p: Pos, h: Pos, n: int) -> Set<Pos> {
    Set::new(|c: Pos| exists|s: int| 1 <= s <= n && c == #[trigger] ahead(p, h, s))
}

/// The cells that the first `k` instructions of a branch step on.
pub open spec fn branch_cells(branch: Seq<(u8, i32)>, k: nat) -> Set<Pos>
    decreases k,
{
    if k == 0 || k > branch.len() {
        Set::empty()
    } else {
        branch_cells(branch, (k - 1) as nat).union(
            stretch(after(branch, (k - 1) as nat), heading(branch[k - 1].0), steps_of(branch[k - 1].1)),
        )
    }
}

/// The cells that the first `b` branches step on.
pub open spec fn tree_cells(branches: Seq<Seq<(u8, i32)>>, b: nat) -> Set<Pos>
    decreases b,
{
    if b == 0 || b > branches.len() {
        Set::empty()
    } else {
        tree_cells(branches, (b - 1) as nat).union(
            branch_cells(branches[b - 1], branches[b - 1].len()),
        )
    }
}

/// The greatest height at which one of the first `k` instructions of a
/// branch ends, and at least `least`.
pub open spec fn branch_top(branch: Seq<(u8, i32)>, k: nat, least: int) -> int
    decreases k,
{
    if k == 0 || k > branch.len() {
        least
    } else {
        let before = branch_top(branch, (k - 1) as nat, least);
        if after(branch, k).1 > before {
            after(branch, k).1
        } else {
            before
        }
    }
}

/// The greatest height at which an instruction of the first `b` branches
/// ends, and at least zero.
pub open spec fn tree_top(branches: Seq<Seq<(u8, i32)>>, b: nat) -> int
    decreases b,
{
    if b == 0 || b > branches.len() {
        0
    } else {
        branch_top(branches[b - 1], branches[b - 1].len(), tree_top(branches, (b - 1) as nat))
    }
}

/// Whether the position lies in the cube.
pub open spec fn in_cube(p: Pos) -> bool {
    -64 <= p.0 < 64 && 0 <= p.1 < 128 && -64 <= p.2 < 64
}

/// The key of a position of the cube.
pub open spec fn cube_key(p: Pos) -> int {
    (p.2 + 64) * 16384 + p.1 * 128 + p.0 + 64
}

/// Whether the first `k` instructions of a branch use direction letters
/// only and step on cells of the cube only.
pub open spec fn branch_stays(branch: Seq<(u8, i32)>, k: nat) -> bool {
    forall|i: int|
        0 <= i < k && i < branch.len() ==> is_heading((#[trigger] branch[i]).0) && forall|c: Pos|
            stretch(after(branch, i as nat), heading(branch[i].0), steps_of(branch[i].1)).contains(c)
                ==> in_cube(c)
}

/// Whether the first `b` branches use direction letters only and step on
/// cells of the cube only.
pub open spec fn tree_stays(branches: Seq<Seq<(u8, i32)>>, b: nat) -> bool {
    forall|i: int|
        0 <= i < b && i < branches.len() ==> branch_stays(#[trigger] branches[i], branches[i].len())
}

/// The number of marked cells.
pub open spec fn marked(cells: Seq<bool>) -> nat
    decreases cells.len(),
{
    if cells.len() == 0 {
        0
    } else {
        marked(cells.drop_last()) + if cells.last() {
            1nat
        } else {
            0nat
        }
    }
}

/// Marking a cell that was not marked makes one marked cell more.
pub proof fn lemma_marked_more(cells: Seq<bool>, i: int)
    requires
        0 <= i < cells.len(),
        !cells[i],
    ensures
        marked(cells.update(i, true)) == marked(cells) + 1,
    decreases cells.len(),
{
    if i == cells.len() - 1 {
        assert(cells.update(i, true).drop_last() =~= cells.drop_last());
    } else {
        lemma_marked_more(cells.drop_last(), i);
        assert(cells.update(i, true).drop_last() =~= cells.drop_last().update(i, true));
    }
}

/// No more cells are marked than there are.
pub proof fn lemma_marked_bound(cells: Seq<bool>)
    ensures
        marked(cells) <= cells.len(),
    decreases cells.len(),
{
    if cells.len() > 0 {
        lemma_marked_bound(cells.drop_last());
    }
}

/// Whether `segments` marks exactly the cells of `cells` that lie in the
/// cube.
pub open spec fn marks(segments: Seq<bool>, cells: Set<Pos>) -> bool {
    &&& segments.len() == 2097152
    &&& forall|c: Pos| in_cube(c) ==> segments[cube_key(c)] == #[trigger] cells.contains(c)
}

/// A grown tree.
pub struct Tree {
    /// For every cell of the cube, by its key, whether it is a segment.
    pub segments: Vec<bool>,
    /// Where each branch ends.
    pub leaves: Vec<(i32, i32, i32)>,
    /// The greatest height at which an instruction ends.
    pub height: i32,
    /// The number of segments.
    pub n_segments: usize,
}

/// A position of machine integers as a position.
pub open spec fn pos_of(p: (i32, i32, i32)) -> Pos {
    (p.0 as int, p.1 as int, p.2 as int)
}

/// The step of a direction letter, or `None` for any other byte.
pub fn direction(dir: u8) -> (r: Option<(i32, i32, i32)>)
    ensures
        r.is_some() == is_heading(dir),
        r matches Some(h) ==> pos_of(h) == heading(dir),
{
    if dir == 85 {
        Some((0, 1, 0))
    } else if dir == 68 {
        Some((0, -1, 0))
    } else if dir == 82 {
        Some((1, 0, 0))
    } else if dir == 76 {
        Some((-1, 0, 0))
    } else if dir == 70 {
        Some((0, 0, 1))
    } else if dir == 66 {
        Some((0, 0, -1))
    } else {
        None
    }
}

/// The key of the cell at `(x, y, z)`.
pub fn key_at(x: i32, y: i32, z: i32) -> (key: usize)
    requires
        in_cube((x as int, y as int, z as int)),
    ensures
        key == cube_key((x as int, y as int, z as int)),
        key < 2097152,
{
    idx(x, y, z)
}

/// One step more leads to the cell next to the last.
pub proof fn lemma_ahead_next(p: Pos, h: Pos, n: int)
    ensures
        ahead(p, h, n + 1) == ahead(ahead(p, h, n), h, 1),
        ahead(p, h, 0) == p,
{
    assert((n + 1) * h.0 == n * h.0 + h.0) by (nonlinear_arith);
    assert((n + 1) * h.1 == n * h.1 + h.1) by (nonlinear_arith);
    assert((n + 1) * h.2 == n * h.2 + h.2) by (nonlinear_arith);
}

/// The cells of one step more are those before and the cell reached.
pub proof fn lemma_stretch_next(p: Pos, h: Pos, n: int)
    requires
        n >= 0,
    ensures
        stretch(p, h, n + 1) =~= stretch(p, h, n).insert(ahead(p, h, n + 1)),
        stretch(p, h, 0) =~= Set::<Pos>::empty(),
{
    assert forall|c: Pos| #[trigger]
        stretch(p, h, n + 1).contains(c) implies stretch(p, h, n).insert(
        ahead(p, h, n + 1),
    ).contains(c) by {
        let s = choose|s: int| 1 <= s <= n + 1 && c == #[trigger] ahead(p, h, s);
        if s <= n {
            assert(stretch(p, h, n).contains(c));
        }
    }
    assert forall|c: Pos| #[trigger]
        stretch(p, h, n).insert(ahead(p, h, n + 1)).contains(c) implies stretch(
        p,
        h,
        n + 1,
    ).contains(c) by {
        if stretch(p, h, n).contains(c) {
            let s = choose|s: int| 1 <= s <= n && c == #[trigger] ahead(p, h, s);
            assert(1 <= s <= n + 1 && c == ahead(p, h, s));
        } else {
            assert(c == ahead(p, h, n + 1));
        }
    }
}

/// Follows one instruction from `pos`: marks every cell stepped on and
/// counts those that were not marked. Returns the position reached, or
/// `None` as soon as a step leaves the cube.
fn follow(
    segments: &mut Vec<bool>,
    count: &mut usize,
    pos: (i32, i32, i32),
    dir: u8,
    dist: i32,
    Ghost(done): Ghost<Set<Pos>>,
) -> (r: Option<(i32, i32, i32)>)
    requires
        marks(old(segments)@, done),
        *old(count) == marked(old(segments)@),
        in_cube(pos_of(pos)),
    ensures
        final(segments)@.len() == old(segments)@.len(),
        r.is_some() <==> is_heading(dir) && forall|c: Pos|
            stretch(pos_of(pos), heading(dir), steps_of(dist)).contains(c) ==> in_cube(c),
        r matches Some(q) ==> {
            &&& pos_of(q) == ahead(pos_of(pos), heading(dir), steps_of(dist))
            &&& in_cube(pos_of(q))
            &&& marks(
                final(segments)@,
                done.union(stretch(pos_of(pos), heading(dir), steps_of(dist))),
            )
            &&& *final(count) == marked(final(segments)@)
        },
{
    let h: (i32, i32, i32) = match direction(dir) {
        Some(h) => h,
        None => {
            return None;
        },
    };
    let ghost from = pos_of(pos);
    let ghost step = heading(dir);
    let mut cur: (i32, i32, i32) = pos;
    let mut s: i32 = 0;
    proof {
        lemma_ahead_next(from, step, 0);
        lemma_stretch_next(from, step, 0);
        assert(done.union(stretch(from, step, 0)) =~= done);
    }
    while s < dist
        invariant
            0 <= s,
            s <= steps_of(dist),
            segments@.len() == old(segments)@.len(),
            step == heading(dir),
            is_heading(dir),
            pos_of(h) == step,
            from == pos_of(pos),
            pos_of(cur) == ahead(from, step, s as int),
            in_cube(pos_of(cur)),
            marks(segments@, done.union(stretch(from, step, s as int))),
            *count == marked(segments@),
            forall|c: Pos| stretch(from, step, s as int).contains(c) ==> in_cube(c),
        decreases dist - s,
    {
        let x: i32 = cur.0 + h.0;
        let y: i32 = cur.1 + h.1;
        let z: i32 = cur.2 + h.2;
        proof {
            lemma_ahead_next(from, step, s as int);
            lemma_stretch_next(from, step, s as int);
        }
        let ghost next: Pos = (x as int, y as int, z as int);
        assert(next == ahead(from, step, s + 1));
        if x < -64 || x >= 64 || y < 0 || y >= 128 || z < -64 || z >= 64 {
            proof {
                assert(stretch(from, step, steps_of(dist)).contains(next));
                assert(!in_cube(next));
            }
            return None;
        }
        let key: usize = key_at(x, y, z);
        let ghost before = segments@;
        if !segments[key] {
            proof {
                lemma_marked_more(before, key as int);
                lemma_marked_bound(before);
            }
            *count = *count + 1;
            segments.set(key, true);
        }
        proof {
            let cells = done.union(stretch(from, step, s + 1));
            assert forall|c: Pos| in_cube(c) implies segments@[cube_key(c)] == #[trigger] cells.contains(
                c,
            ) by {
                assert(before[cube_key(c)] == done.union(stretch(from, step, s as int)).contains(c));
                if cube_key(c) == cube_key(next) {
                    assert(c == next);
                }
            }
        }
        cur = (x, y, z);
        s += 1;
    }
    Some(cur)
}

/// The branches that the vectors of `branches` hold.
pub open spec fn branches_of(branches: Seq<Vec<(u8, i32)>>) -> Seq<Seq<(u8, i32)>> {
    Seq::new(branches.len(), |b: int| branches[b]@)
}

/// Follows the instructions of one branch from the origin. Returns where
/// the branch ends, or `None` as soon as an instruction has no direction
/// letter or a step leaves the cube.
fn grow_branch(
    segments: &mut Vec<bool>,
    count: &mut usize,
    height: &mut i32,
    branch: &Vec<(u8, i32)>,
    Ghost(done): Ghost<Set<Pos>>,
) -> (r: Option<(i32, i32, i32)>)
    requires
        marks(old(segments)@, done),
        *old(count) == marked(old(segments)@),
        0 <= *old(height) < 128,
    ensures
        final(segments)@.len() == old(segments)@.len(),
        r.is_some() <==> branch_stays(branch@, branch@.len()),
        r matches Some(q) ==> {
            &&& pos_of(q) == after(branch@, branch@.len())
            &&& marks(final(segments)@, done.union(branch_cells(branch@, branch@.len())))
            &&& *final(count) == marked(final(segments)@)
            &&& *final(height) == branch_top(branch@, branch@.len(), *old(height) as int)
            &&& 0 <= *final(height) < 128
        },
{
    let mut pos: (i32, i32, i32) = (0, 0, 0);
    let mut k: usize = 0;
    proof {
        assert(done.union(branch_cells(branch@, 0)) =~= done);
    }
    while k < branch.len()
        invariant
            k <= branch@.len(),
            segments@.len() == old(segments)@.len(),
            pos_of(pos) == after(branch@, k as nat),
            in_cube(pos_of(pos)),
            marks(segments@, done.union(branch_cells(branch@, k as nat))),
            *count == marked(segments@),
            *height == branch_top(branch@, k as nat, *old(height) as int),
            0 <= *height < 128,
            branch_stays(branch@, k as nat),
        decreases branch@.len() - k,
    {
        let (dir, dist) = branch[k];
        let ghost so_far = done.union(branch_cells(branch@, k as nat));
        match follow(segments, count, pos, dir, dist, Ghost(so_far)) {
            None => {
                assert(!branch_stays(branch@, branch@.len())) by {
                    if branch_stays(branch@, branch@.len()) {
                        assert(is_heading(branch@[k as int].0));
                    }
                }
                return None;
            },
            Some(q) => {
                proof {
                    assert(so_far.union(
                        stretch(pos_of(pos), heading(dir), steps_of(dist)),
                    ) =~= done.union(branch_cells(branch@, (k + 1) as nat)));
                    assert forall|i: int|
                        0 <= i < k + 1 && i < branch@.len() implies is_heading(
                        (#[trigger] branch@[i]).0,
                    ) && forall|c: Pos|
                        stretch(
                            after(branch@, i as nat),
                            heading(branch@[i].0),
                            steps_of(branch@[i].1),
                        ).contains(c) ==> in_cube(c) by {
                        if i < k {
                            assert(is_heading(branch@[i].0));
                        }
                    }
                }
                pos = q;
                if pos.1 > *height {
                    *height = pos.1;
                }
            },
        }
        k += 1;
    }
    Some(pos)
}

/// Grows the tree of the branches. Returns `None` where an instruction
/// has no direction letter or a step leaves the cube.
pub fn grow(branches: &Vec<Vec<(u8, i32)>>) -> (r: Option<Tree>)
    ensures
        r.is_some() <==> tree_stays(branches_of(branches@), branches@.len()),
        r matches Some(tree) ==> {
            let all = branches_of(branches@);
            &&& marks(tree.segments@, tree_cells(all, all.len()))
            &&& tree.n_segments == marked(tree.segments@)
            &&& tree.height == tree_top(all, all.len())
            &&& tree.leaves@.len() == all.len()
            &&& forall|b: int|
                0 <= b < all.len() ==> pos_of(#[trigger] tree.leaves@[b]) == after(
                    all[b],
                    all[b].len(),
                )
        },
{
    let ghost all = branches_of(branches@);
    let mut segments: Vec<bool> = Vec::new();
    let mut i: usize = 0;
    while i < 2097152
        invariant
            i <= 2097152,
            segments@.len() == i,
            forall|j: int| 0 <= j < i ==> !segments@[j],
            marked(segments@) == 0,
        decreases 2097152 - i,
    {
        let ghost before = segments@;
        segments.push(false);
        assert(segments@.drop_last() =~= before);
        i += 1;
    }
    let mut leaves: Vec<(i32, i32, i32)> = Vec::new();
    let mut height: i32 = 0;
    let mut count: usize = 0;
    let mut b: usize = 0;
    while b < branches.len()
        invariant
            b <= branches@.len(),
            all == branches_of(branches@),
            all.len() == branches@.len(),
            marks(segments@, tree_cells(all, b as nat)),
            count == marked(segments@),
            height == tree_top(all, b as nat),
            0 <= height < 128,
            tree_stays(all, b as nat),
            leaves@.len() == b,
            forall|j: int|
                0 <= j < b ==> pos_of(#[trigger] leaves@[j]) == after(all[j], all[j].len()),
        decreases branches@.len() - b,
    {
        assert(all[b as int] == branches@[b as int]@);
        match grow_branch(
            &mut segments,
            &mut count,
            &mut height,
            &branches[b],
            Ghost(tree_cells(all, b as nat)),
        ) {
            None => {
                assert(!tree_stays(all, all.len())) by {
                    if tree_stays(all, all.len()) {
                        assert(branch_stays(all[b as int], all[b as int].len()));
                    }
                }
                return None;
            },
            Some(q) => {
                leaves.push(q);
                assert forall|j: int| 0 <= j < b + 1 && j < all.len() implies branch_stays(
                    #[trigger] all[j],
                    all[j].len(),
                ) by {
                    if j < b {
                        assert(branch_stays(all[j], all[j].len()));
                    }
                }
            },
        }
        b += 1;
    }
    Some(Tree { segments, leaves, height, n_segments: count })
}

/// The instruction that a piece of text writes: a direction letter and
/// a number of steps behind it; `None` where the piece is empty or what
/// follows its first byte is no number of the size of an `i32`.
pub open spec fn instruction_of(piece: Seq<u8>) -> Option<(u8, i32)> {
    if piece.len() == 0 {
        None
    } else {
        match signed_of(piece.skip(1)) {
            Some(v) => if -0x8000_0000 <= v <= 0x7fff_ffff {
                Some((piece[0], v as i32))
            } else {
                None
            },
            None => None,
        }
    }
}

/// The instructions that a line writes, separated by commas.
pub open spec fn branch_text(line: Seq<u8>) -> Seq<Option<(u8, i32)>> {
    let p = pieces(trimmed(line), 44);
    Seq::new(p.len(), |k: int| instruction_of(p[k]))
}

/// Reads the instructions of a branch, or returns `None` where a piece
/// of the line writes none.
pub fn read_branch(line: &Vec<u8>) -> (r: Option<Vec<(u8, i32)>>)
    ensures
        r.is_some() <==> forall|k: int|
            0 <= k < branch_text(line@).len() ==> (#[trigger] branch_text(line@)[k]).is_some(),
        r matches Some(branch) ==> branch@.len() == branch_text(line@).len() && forall|k: int|
            0 <= k < branch@.len() ==> Some(#[trigger] branch@[k]) == branch_text(line@)[k],
{
    let inner: Vec<u8> = trim(line);
    let parts: Vec<Vec<u8>> = split(&inner, 44);
    let ghost p = pieces(trimmed(line@), 44);
    assert(views(parts@).len() == parts@.len());
    let mut out: Vec<(u8, i32)> = Vec::new();
    let mut i: usize = 0;
    while i < parts.len()
        invariant
            i <= parts@.len(),
            views(parts@) == p,
            p == pieces(trimmed(line@), 44),
            branch_text(line@).len() == parts@.len(),
            out@.len() == i,
            forall|k: int| 0 <= k < i ==> Some(#[trigger] out@[k]) == branch_text(line@)[k],
        decreases parts@.len() - i,
    {
        assert(views(parts@)[i as int] == parts@[i as int]@);
        let piece: &Vec<u8> = &parts[i];
        if piece.len() == 0 {
            assert(branch_text(line@)[i as int].is_none());
            return None;
        }
        let digits: Vec<u8> = copy_range(piece, 1, piece.len());
        assert(digits@ =~= piece@.skip(1));
        match parse_i64(&digits) {
            Some(v) => {
                if v < -0x8000_0000 || v > 0x7fff_ffff {
                    assert(branch_text(line@)[i as int].is_none());
                    return None;
                }
                out.push((piece[0], v as i32));
            },
            None => {
                assert(branch_text(line@)[i as int].is_none());
                return None;
            },
        }
        i += 1;
    }
    assert forall|k: int| 0 <= k < branch_text(line@).len() implies (#[trigger] branch_text(
        line@,
    )[k]).is_some() by {
        assert(Some(out@[k]) == branch_text(line@)[k]);
    }
    Some(out)
}

/// The position of the cell with key `s`.
pub open spec fn pos_at(s: int) -> Pos {
    (s % 128 - 64, (s / 128) % 128, s / 16384 - 64)
}

/// The six directions: up and down first, then right, left, forward and
/// back.
pub open spec fn way(d: int) -> Pos {
    if d == 0 {
        (0, 1, 0)
    } else if d == 1 {
        (0, -1, 0)
    } else if d == 2 {
        (1, 0, 0)
    } else if d == 3 {
        (-1, 0, 0)
    } else if d == 4 {
        (0, 0, 1)
    } else {
        (0, 0, -1)
    }
}

/// The step from the cell `s` in the direction `d`, if it leads to a
/// segment of the tree. From a cell of the trunk, which stands on the
/// origin, a step leads only up or down.
pub open spec fn tree_step(segments: Seq<bool>, s: usize, d: int) -> Option<(usize, u64)> {
    let p = pos_at(s as int);
    let q = ahead(p, way(d), 1);
    if p.0 == 0 && p.2 == 0 && d >= 2 {
        None
    } else if in_cube(q) && segments[cube_key(q)] {
        Some((cube_key(q) as usize, 1u64))
    } else {
        None
    }
}

/// The steps from the cell `s` in the first `upto` directions.
pub open spec fn tree_steps(segments: Seq<bool>, s: usize, upto: nat) -> Seq<(usize, u64)>
    decreases upto,
{
    if upto == 0 {
        Seq::empty()
    } else {
        let before = tree_steps(segments, s, (upto - 1) as nat);
        match tree_step(segments, s, upto - 1) {
            Some(step) => before.push(step),
            None => before,
        }
    }
}

/// The tree as a graph: the steps out of each cell.
pub open spec fn tree_graph(segments: Seq<bool>) -> spec_fn(usize) -> Seq<(usize, u64)> {
    |s: usize| tree_steps(segments, s, 6)
}

/// The steps out of the cell `s`.
pub fn steps_from(segments: &Vec<bool>, s: usize) -> (r: Vec<(usize, u64)>)
    requires
        segments@.len() == 2097152,
        s < 2097152,
    ensures
        r@ == tree_graph(segments@)(s),
        forall|i: int| 0 <= i < r@.len() ==> (#[trigger] r@[i]).0 < 2097152,
{
    let x: i32 = (s % 128) as i32 - 64;
    let y: i32 = ((s / 128) % 128) as i32;
    let z: i32 = (s / 16384) as i32 - 64;
    let ways: [(i32, i32, i32); 6] = [(0, 1, 0), (0, -1, 0), (1, 0, 0), (-1, 0, 0), (0, 0, 1), (0, 0, -1)];
    let n_ways: usize = if x == 0 && z == 0 {
        2
    } else {
        6
    };
    let mut out: Vec<(usize, u64)> = Vec::new();
    let mut d: usize = 0;
    while d < n_ways
        invariant
            d <= n_ways <= 6,
            n_ways == 2 <==> x == 0 && z == 0,
            segments@.len() == 2097152,
            pos_at(s as int) == (x as int, y as int, z as int),
            in_cube(pos_at(s as int)),
            forall|i: int| 0 <= i < 6 ==> pos_of(#[trigger] ways@[i]) == way(i),
            out@ == tree_steps(segments@, s, d as nat),
            forall|i: int| 0 <= i < out@.len() ==> (#[trigger] out@[i]).0 < 2097152,
        decreases n_ways - d,
    {
        let (dx, dy, dz) = ways[d];
        assert(pos_of(ways@[d as int]) == way(d as int));
        let nx: i32 = x + dx;
        let ny: i32 = y + dy;
        let nz: i32 = z + dz;
        if nx >= -64 && nx < 64 && ny >= 0 && ny < 128 && nz >= -64 && nz < 64 {
            let key: usize = key_at(nx, ny, nz);
            if segments[key] {
                out.push((key, 1));
            }
        }
        d += 1;
    }
    proof {
        if n_ways == 2 {
            reveal_with_fuel(tree_steps, 5);
            assert(tree_steps(segments@, s, 6) == tree_steps(segments@, s, 2));
        }
    }
    out
}

/// For every height, the fewest steps along the tree from the leaf to
/// the cell of the trunk at that height, or `None` where the trunk has
/// no such cell or it cannot be reached.
pub fn trunk_distances(segments: &Vec<bool>, leaf: (i32, i32, i32)) -> (r: Vec<Option<u64>>)
    requires
        segments@.len() == 2097152,
        in_cube(pos_of(leaf)),
    ensures
        r@.len() == 128,
        forall|y: int|
            0 <= y < 128 ==> is_shortest_cost(
                edges_of(tree_graph(segments@)),
                only(cube_key((0, y, 0)) as usize),
                cube_key(pos_of(leaf)) as usize,
                u64::MAX as nat,
                #[trigger] r@[y],
            ),
{
    let start: usize = key_at(leaf.0, leaf.1, leaf.2);
    let n: usize = 2097152;
    let transition = |s: usize| -> (list: Vec<(usize, u64)>)
        requires
            segments@.len() == 2097152,
            s < 2097152,
        ensures
            list@ == tree_graph(segments@)(s),
            forall|i: int| 0 <= i < list@.len() ==> (#[trigger] list@[i]).0 < 2097152,
        { steps_from(segments, s) };
    let costs: Vec<Option<u64>> = distances(start, n, transition);
    proof {
        assert(computes_successors(&transition, n, tree_graph(segments@)));
    }
    let mut out: Vec<Option<u64>> = Vec::new();
    let mut y: i32 = 0;
    while y < 128
        invariant
            0 <= y <= 128,
            n == 2097152,
            costs@.len() == n,
            start == cube_key(pos_of(leaf)),
            out@.len() == y,
            forall|t: usize|
                t < n ==> is_shortest_cost(
                    edges_of(tree_graph(segments@)),
                    #[trigger] only(t),
                    start,
                    u64::MAX as nat,
                    costs@[t as int],
                ),
            forall|h: int|
                0 <= h < y ==> is_shortest_cost(
                    edges_of(tree_graph(segments@)),
                    only(cube_key((0, h, 0)) as usize),
                    start,
                    u64::MAX as nat,
                    #[trigger] out@[h],
                ),
        decreases 128 - y,
    {
        let key: usize = key_at(0, y, 0);
        assert(is_shortest_cost(
            edges_of(tree_graph(segments@)),
            only(key),
            start,
            u64::MAX as nat,
            costs@[key as int],
        ));
        out.push(costs[key]);
        y += 1;
    }
    out
}

/// The steps that a distance counts: none where there is no way.
pub open spec fn steps_or_none(c: Option<u64>) -> nat {
    match c {
        Some(v) => v as nat,
        None => 0,
    }
}

/// The rows of distances that the vectors of `rows` hold.
pub open spec fn rows_of(rows: Seq<Vec<Option<u64>>>) -> Seq<Seq<Option<u64>>> {
    Seq::new(rows.len(), |l: int| rows[l]@)
}

/// The sum of the steps from the first `k` leaves to the cell of the
/// trunk at height `y`.
pub open spec fn trunk_sum(rows: Seq<Seq<Option<u64>>>, y: int, k: nat) -> nat
    decreases k,
{
    if k == 0 || k > rows.len() {
        0
    } else {
        trunk_sum(rows, y, (k - 1) as nat) + steps_or_none(rows[k - 1][y])
    }
}

/// The sum over more leaves is no smaller.
pub proof fn lemma_trunk_sum_grows(rows: Seq<Seq<Option<u64>>>, y: int, k: nat, n: nat)
    requires
        k <= n <= rows.len(),
    ensures
        trunk_sum(rows, y, k) <= trunk_sum(rows, y, n),
    decreases n,
{
    if k < n {
        lemma_trunk_sum_grows(rows, y, k, (n - 1) as nat);
    }
}

/// For every height, the sum of the steps from all leaves to the cell of
/// the trunk at that height; `None` where a sum does not fit in a `u64`.
pub fn trunk_sums(rows: &Vec<Vec<Option<u64>>>) -> (r: Option<Vec<u64>>)
    requires
        forall|l: int| 0 <= l < rows@.len() ==> (#[trigger] rows@[l])@.len() == 128,
    ensures
        r.is_some() <==> forall|y: int|
            0 <= y < 128 ==> #[trigger] trunk_sum(rows_of(rows@), y, rows@.len()) <= u64::MAX,
        r matches Some(sums) ==> sums@.len() == 128 && forall|y: int|
            0 <= y < 128 ==> #[trigger] sums@[y] == trunk_sum(rows_of(rows@), y, rows@.len()),
{
    let ghost all = rows_of(rows@);
    let mut sums: Vec<u64> = Vec::new();
    let mut y: usize = 0;
    while y < 128
        invariant
            y <= 128,
            all == rows_of(rows@),
            forall|l: int| 0 <= l < rows@.len() ==> (#[trigger] rows@[l])@.len() == 128,
            sums@.len() == y,
            forall|h: int| 0 <= h < y ==> #[trigger] sums@[h] == trunk_sum(all, h, rows@.len()),
        decreases 128 - y,
    {
        let mut total: u64 = 0;
        let mut l: usize = 0;
        while l < rows.len()
            invariant
                l <= rows@.len(),
                y < 128,
                all == rows_of(rows@),
                forall|i: int| 0 <= i < rows@.len() ==> (#[trigger] rows@[i])@.len() == 128,
                total == trunk_sum(all, y as int, l as nat),
            decreases rows@.len() - l,
        {
            assert(all[l as int] == rows@[l as int]@);
            let steps: u64 = match rows[l][y] {
                Some(v) => v,
                None => 0,
            };
            match total.checked_add(steps) {
                Some(t) => {
                    total = t;
                },
                None => {
                    proof {
                        lemma_trunk_sum_grows(all, y as int, (l + 1) as nat, rows@.len());
                        assert(trunk_sum(all, y as int, rows@.len()) > u64::MAX);
                    }
                    return None;
                },
            }
            l += 1;
        }
        sums.push(total);
        y += 1;
    }
    assert forall|h: int| 0 <= h < 128 implies #[trigger] trunk_sum(all, h, rows@.len())
        <= u64::MAX by {
        assert(sums@[h] == trunk_sum(all, h, rows@.len()));
    }
    Some(sums)
}

/// The least of the sums that is not zero, or `None` where all are zero.
pub fn least_positive(sums: &Vec<u64>) -> (r: Option<u64>)
    ensures
        match r {
            Some(m) => m > 0 && sums@.contains(m) && forall|i: int|
                0 <= i < sums@.len() && sums@[i] > 0 ==> m <= sums@[i],
            None => forall|i: int| 0 <= i < sums@.len() ==> sums@[i] == 0,
        },
{
    let mut least: Option<u64> = None;
    let mut i: usize = 0;
    while i < sums.len()
        invariant
            i <= sums@.len(),
            match least {
                Some(m) => m > 0 && sums@.contains(m) && forall|j: int|
                    0 <= j < i && sums@[j] > 0 ==> m <= sums@[j],
                None => forall|j: int| 0 <= j < i ==> sums@[j] == 0,
            },
        decreases sums@.len() - i,
    {
        let v: u64 = sums[i];
        if v > 0 {
            let lower: bool = match least {
                Some(m) => v < m,
                None => true,
            };
            if lower {
                assert(sums@[i as int] == v);
                least = Some(v);
            }
        }
        i += 1;
    }
    least
}

} // verus!
