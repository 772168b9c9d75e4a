//! Tokens that fall through a board of nails, and the best and the worst
//! way to give every token a slot of its own.

use vstd::prelude::*;
use crate::memo::{
    best_of_steps, clip, extremal_value, lemma_greatest_step, lemma_greatest_step_is_taken,
    lemma_least_step, lemma_least_step_is_taken, solve_extremal, Combine, MemoCache,
};
use crate::puzzles::herbs::mask_count;
use crate::search::computes_successors;
use crate::state_key::KeyLayout;

verus! {

/// Whether the board is a rectangle of at least two columns.
pub open spec fn board_ok(machine: Seq<Vec<bool>>, width: nat) -> bool {
    &&& width >= 2
    &&& forall|y: int| 0 <= y < machine.len() ==> (#[trigger] machine[y])@.len() == width
}

/// The first row from `y` on that has a nail in column `x`, or the number
/// of rows when there is none.
pub open spec fn fall(machine: Seq<Vec<bool>>, x: int, y: nat) -> nat
    decreases machine.len() - y,
{
    if y >= machine.len() {
        machine.len()
    } else if machine[y as int]@[x] {
        y
    } else {
        fall(machine, x, y + 1)
    }
}

/// The column that a token in column `x` bounces to on a nail: to the
/// left for `L`, to the right for anything else, and back in from the
/// edge of the board.
pub open spec fn bounce(x: int, turn: u8, width: int) -> int {
    if turn == 0x4c {
        if x == 0 {
            1
        } else {
            x - 1
        }
    } else if x == width - 1 {
        width - 2
    } else {
        x + 1
    }
}

/// The column in which a token leaves the board that is in column `x` at
/// row `y` and has `j` turns of its sequence behind it; `None` when the
/// sequence runs out on the way.
pub open spec fn landing(
    machine: Seq<Vec<bool>>,
    width: int,
    sequence: Seq<u8>,
    x: int,
    y: nat,
    j: nat,
) -> Option<int>
    decreases sequence.len() - j,
{
    let nail = fall(machine, x, y);
    if nail >= machine.len() {
        Some(x)
    } else if j >= sequence.len() {
        None
    } else {
        landing(machine, width, sequence, bounce(x, sequence[j as int], width), nail, j + 1)
    }
}

/// The coins that a token wins that was tossed into the slot `slot` and
/// leaves the board in column `x`: twice the number of the slot it ends
/// in less the number of the slot it was tossed into, slots counted from
/// one, and never less than nothing.
pub open spec fn winnings(x: int, slot: int) -> int {
    let won = (x / 2 + 1) * 2 - (slot + 1);
    if won > 0 {
        won
    } else {
        0
    }
}

/// `fall` finds a nail or the end of the board, at or below `y`.
pub proof fn lemma_fall(machine: Seq<Vec<bool>>, x: int, y: nat)
    requires
        y <= machine.len(),
    ensures
        y <= fall(machine, x, y) <= machine.len(),
        fall(machine, x, y) < machine.len() ==> machine[fall(machine, x, y) as int]@[x],
        fall(machine, x, fall(machine, x, y)) == fall(machine, x, y),
    decreases machine.len() - y,
{
    if y < machine.len() && !machine[y as int]@[x] {
        lemma_fall(machine, x, y + 1);
    }
}

/// The coins that a token wins that is tossed into the slot `slot` and
/// bounces as `sequence` says, or `None` when the sequence runs out
/// before the token has left the board.
pub fn drop_token(slot: usize, sequence: &Vec<u8>, machine: &Vec<Vec<bool>>) -> (r: Option<usize>)
    requires
        machine@.len() >= 1,
        board_ok(machine@, machine@[0]@.len()),
        slot * 2 < machine@[0]@.len(),
    ensures
        match landing(machine@, machine@[0]@.len() as int, sequence@, slot * 2, 0, 0) {
            Some(x) => r == Some(winnings(x, slot as int) as usize),
            None => r.is_none(),
        },
{
    let width: usize = machine[0].len();
    let rows: usize = machine.len();
    let mut j: usize = 0;
    let mut x: usize = slot * 2;
    let mut y: usize = 0;
    loop
        invariant
            machine@.len() >= 1,
            rows == machine@.len(),
            width == machine@[0]@.len(),
            board_ok(machine@, width as nat),
            x < width,
            y <= rows,
            j <= sequence@.len(),
            landing(machine@, width as int, sequence@, x as int, y as nat, j as nat) == landing(
                machine@,
                width as int,
                sequence@,
                slot * 2,
                0,
                0,
            ),
        ensures
            x < width,
            landing(machine@, width as int, sequence@, slot * 2, 0, 0) == Some(x as int),
        decreases sequence@.len() - j,
    {
        let ghost from = y;
        while y < rows && !machine[y][x]
            invariant
                rows == machine@.len(),
                board_ok(machine@, width as nat),
                x < width,
                y <= rows,
                fall(machine@, x as int, y as nat) == fall(machine@, x as int, from as nat),
            decreases rows - y,
        {
            y += 1;
        }
        proof {
            lemma_fall(machine@, x as int, y as nat);
        }
        if y == rows {
            break ;
        }
        if j >= sequence.len() {
            return None;
        }
        if sequence[j] == 0x4c {
            if x == 0 {
                x = 1;
            } else {
                x -= 1;
            }
        } else if x == width - 1 {
            x = width - 2;
        } else {
            x += 1;
        }
        j += 1;
    }
    // Twice the number of the end slot, less one: x rounded down to an
    // even number, plus one.
    let reach: usize = x - x % 2 + 1;
    assert((x as int / 2 + 1) * 2 - (slot + 1) == reach - slot);
    if reach >= slot {
        Some(reach - slot)
    } else {
        Some(0)
    }
}

/// The scores of the tokens: `scores[y][i]` is what token `y` wins in slot
/// `i`. Every token has a score for each of the `slots` slots.
pub open spec fn scores_ok(scores: Seq<Vec<usize>>, slots: nat) -> bool {
    forall|y: int| 0 <= y < scores.len() ==> (#[trigger] scores[y])@.len() == slots
}

/// The layout that numbers the pairs of a number of tokens placed and the
/// set of slots taken.
pub open spec fn placing_layout(scores: Seq<Vec<usize>>, slots: nat) -> KeyLayout {
    KeyLayout {
        width: (scores.len() + 1) as usize,
        height: 1,
        aux_range: vstd::arithmetic::power2::pow2(slots) as usize,
    }
}

/// The set `seen` of slots with the slot `i` added.
pub open spec fn with_slot(seen: u32, i: u32) -> u32 {
    seen | (1u32 << i)
}

/// Whether the slot `i` is in the set `seen`.
pub open spec fn has_slot(seen: u32, i: u32) -> bool {
    seen & (1u32 << i) != 0
}

/// The steps that place token `y` into one of the first `upto` slots that
/// are free: each leads to the next token with the slot taken and pays the
/// score of the token in the slot.
pub open spec fn placings(scores: Seq<Vec<usize>>, slots: nat, y: int, seen: u32, upto: nat) -> Seq<
    (usize, u64),
>
    decreases upto,
{
    if upto == 0 || upto > slots || y < 0 || y >= scores.len() {
        Seq::empty()
    } else {
        let before = placings(scores, slots, y, seen, (upto - 1) as nat);
        let i = (upto - 1) as u32;
        if has_slot(seen, i) {
            before
        } else {
            before.push(
                (
                    placing_layout(scores, slots).key_of(
                        (y + 1) as nat,
                        0,
                        with_slot(seen, i) as nat,
                    ) as usize,
                    scores[y]@[i as int] as u64,
                ),
            )
        }
    }
}

/// The placing of tokens as a graph.
pub open spec fn placing_graph(scores: Seq<Vec<usize>>, slots: nat) -> spec_fn(usize) -> Seq<
    (usize, u64),
> {
    |s: usize|
        placings(
            scores,
            slots,
            placing_layout(scores, slots).x_of(s as nat) as int,
            placing_layout(scores, slots).aux_of(s as nat) as u32,
            slots,
        )
}

/// Adding a slot to a set of the first `slots` slots gives such a set.
pub proof fn lemma_with_slot_in_range(seen: u32, i: u32, slots: u32)
    requires
        slots <= 31,
        i < slots,
        seen < (1u32 << slots),
    ensures
        (seen | (1u32 << i)) < (1u32 << slots),
{
    assert((seen | (1u32 << i)) < (1u32 << slots)) by (bit_vector)
        requires
            slots <= 31,
            i < slots,
            seen < (1u32 << slots),
    ;
}

/// The steps out of the state with key `s`.
pub fn placings_from(scores: &Vec<Vec<usize>>, slots: u32, s: usize) -> (r: Vec<(usize, u64)>)
    requires
        slots <= 31,
        scores_ok(scores@, slots as nat),
        placing_layout(scores@, slots as nat).wf(),
        scores@.len() < usize::MAX,
        s < placing_layout(scores@, slots as nat).capacity(),
    ensures
        r@ == placing_graph(scores@, slots as nat)(s),
        forall|i: int|
            0 <= i < r@.len() ==> (#[trigger] r@[i]).0 < placing_layout(
                scores@,
                slots as nat,
            ).capacity(),
{
    let masks: u32 = mask_count(slots);
    let layout = KeyLayout { width: scores.len() + 1, height: 1, aux_range: masks as usize };
    assert(layout == placing_layout(scores@, slots as nat));
    let (y, _, mask) = layout.decode(s);
    let seen: u32 = mask as u32;
    let mut out: Vec<(usize, u64)> = Vec::new();
    if y >= scores.len() {
        return out;
    }
    proof {
        vstd::arithmetic::power2::lemma_pow2_strictly_increases(slots as nat, 32);
        vstd::arithmetic::power2::lemma2_to64();
        vstd::bits::lemma_u32_shl_is_mul(1, slots);
    }
    let mut i: u32 = 0;
    while i < slots
        invariant
            i <= slots,
            slots <= 31,
            scores_ok(scores@, slots as nat),
            layout == placing_layout(scores@, slots as nat),
            layout.wf(),
            layout.width == scores@.len() + 1,
            layout.height == 1,
            layout.aux_range == masks,
            masks == (1u32 << slots),
            seen < masks,
            y < scores@.len(),
            out@ == placings(scores@, slots as nat, y as int, seen, i as nat),
            forall|j: int| 0 <= j < out@.len() ==> (#[trigger] out@[j]).0 < layout.capacity(),
        decreases slots - i,
    {
        if seen & (1u32 << i) == 0 {
            proof {
                lemma_with_slot_in_range(seen, i, slots);
            }
            let taken: u32 = seen | (1u32 << i);
            let key: usize = layout.encode(y + 1, 0, taken as usize);
            out.push((key, scores[y][i as usize] as u64));
        }
        i += 1;
    }
    out
}

/// The least and the greatest total that the tokens win when each is
/// given a slot of its own. With more tokens than slots there is no
/// such placing, and the result is `None`; otherwise each total is given,
/// or `None` in its place where it does not fit in a `u64`.
pub fn dijkstra(scores: &Vec<Vec<usize>>, slots: u32) -> (r: Option<(Option<u64>, Option<u64>)>)
    requires
        slots <= 31,
        scores_ok(scores@, slots as nat),
        scores@.len() < usize::MAX,
        (scores@.len() + 1) * vstd::arithmetic::power2::pow2(slots as nat) * (scores@.len() + 1)
            <= usize::MAX,
    ensures
        r.is_none() <==> scores@.len() > slots,
        r matches Some(totals) ==> totals.0 == clip(
            extremal_value(
                placing_graph(scores@, slots as nat),
                Combine::Min,
                0,
                0,
                scores@.len() as usize,
            ),
        ) && totals.1 == clip(
            extremal_value(
                placing_graph(scores@, slots as nat),
                Combine::Max,
                0,
                0,
                scores@.len() as usize,
            ),
        ),
{
    if scores.len() > slots as usize {
        return None;
    }
    let masks: u32 = mask_count(slots);
    let rows: usize = scores.len();
    let ghost layout = placing_layout(scores@, slots as nat);
    proof {
        vstd::arithmetic::power2::lemma_pow2_pos(slots as nat);
        let w = (rows + 1) as nat;
        let m = vstd::arithmetic::power2::pow2(slots as nat);
        assert(w * m <= w * m * w) by (nonlinear_arith)
            requires
                w >= 1,
                m >= 1,
        ;
        assert(layout.capacity() == w * m) by (nonlinear_arith)
            requires
                layout.capacity() == w * 1 * m,
        ;
    }
    let states: usize = (rows + 1) * (masks as usize);
    assert(states >= 1) by (nonlinear_arith)
        requires
            states == (rows + 1) * masks,
            masks >= 1,
    ;
    let transition = |s: usize| -> (list: Vec<(usize, u64)>)
        requires
            slots <= 31,
            scores_ok(scores@, slots as nat),
            placing_layout(scores@, slots as nat).wf(),
            scores@.len() < usize::MAX,
            s < placing_layout(scores@, slots as nat).capacity(),
        ensures
            list@ == placing_graph(scores@, slots as nat)(s),
            forall|i: int|
                0 <= i < list@.len() ==> (#[trigger] list@[i]).0 < placing_layout(
                    scores@,
                    slots as nat,
                ).capacity(),
        { placings_from(scores, slots, s) };
    let least = match MemoCache::new(states, rows) {
        None => None,
        Some(cache) => {
            let mut cache = cache;
            solve_extremal(0, rows, &transition, Combine::Min, 0, &mut cache)
        },
    };
    let greatest = match MemoCache::new(states, rows) {
        None => None,
        Some(cache) => {
            let mut cache = cache;
            solve_extremal(0, rows, &transition, Combine::Max, 0, &mut cache)
        },
    };
    proof {
        assert(computes_successors(&transition, states, placing_graph(scores@, slots as nat)));
    }
    Some((least, greatest))
}

/// Whether `q` gives a slot of its own to each of a row of tokens: a slot
/// of the first `slots` that is not in `seen`, and no slot twice.
pub open spec fn is_placing(slots: nat, seen: u32, q: Seq<u32>) -> bool {
    &&& forall|k: int| 0 <= k < q.len() ==> (#[trigger] q[k]) < slots && !has_slot(seen, q[k])
    &&& forall|k: int, l: int| 0 <= k < l < q.len() ==> q[k] != q[l]
}

/// What the tokens from the token `y` on win in the slots that `q` gives
/// them.
pub open spec fn placing_total(scores: Seq<Vec<usize>>, y: int, q: Seq<u32>) -> nat
    decreases q.len(),
{
    if q.len() == 0 {
        0
    } else {
        scores[y]@[q[0] as int] as nat + placing_total(scores, y + 1, q.skip(1))
    }
}

/// The key of the state in which `y` tokens are placed and the slots of
/// `seen` are taken.
pub open spec fn placing_key(scores: Seq<Vec<usize>>, slots: nat, y: nat, seen: u32) -> usize {
    placing_layout(scores, slots).key_of(y, 0, seen as nat) as usize
}

/// Whether the states of the placing can be numbered.
pub open spec fn placing_fits(scores: Seq<Vec<usize>>, slots: u32) -> bool {
    &&& slots <= 31
    &&& scores_ok(scores, slots as nat)
    &&& scores.len() < usize::MAX
    &&& placing_layout(scores, slots as nat).wf()
}

/// The key of a state names the state.
pub proof fn lemma_placing_key(scores: Seq<Vec<usize>>, slots: u32, y: nat, seen: u32)
    requires
        placing_fits(scores, slots),
        y <= scores.len(),
        seen < (1u32 << slots),
    ensures
        placing_layout(scores, slots as nat).x_of(placing_key(scores, slots as nat, y, seen) as nat)
            == y,
        placing_layout(scores, slots as nat).aux_of(
            placing_key(scores, slots as nat, y, seen) as nat,
        ) as u32 == seen,
        placing_graph(scores, slots as nat)(placing_key(scores, slots as nat, y, seen))
            == placings(scores, slots as nat, y as int, seen, slots as nat),
{
    let layout = placing_layout(scores, slots as nat);
    vstd::arithmetic::power2::lemma_pow2_pos(slots as nat);
    vstd::arithmetic::power2::lemma2_to64();
    vstd::bits::lemma_u32_shl_is_mul(1, slots);
    let w = (scores.len() + 1) as nat;
    let m = vstd::arithmetic::power2::pow2(slots as nat);
    assert(m <= w * 1 * m) by (nonlinear_arith)
        requires
            w >= 1,
            m >= 1,
    ;
    assert(layout.in_domain(y, 0, seen as nat));
    layout.lemma_decode_encode(y, 0, seen as nat);
    layout.lemma_key_in_range(y, 0, seen as nat);
}

/// A free slot is among the steps.
pub proof fn lemma_free_slot_listed(
    scores: Seq<Vec<usize>>,
    slots: nat,
    y: int,
    seen: u32,
    upto: nat,
    i: u32,
) -> (j: int)
    requires
        i < upto <= slots,
        0 <= y < scores.len(),
        !has_slot(seen, i),
    ensures
        0 <= j < placings(scores, slots, y, seen, upto).len(),
        placings(scores, slots, y, seen, upto)[j] == (
            placing_key(scores, slots, (y + 1) as nat, with_slot(seen, i)),
            scores[y]@[i as int] as u64,
        ),
    decreases upto,
{
    let before = placings(scores, slots, y, seen, (upto - 1) as nat);
    if i == upto - 1 {
        before.len() as int
    } else {
        let j = lemma_free_slot_listed(scores, slots, y, seen, (upto - 1) as nat, i);
        j
    }
}

/// Every step takes a free slot.
pub proof fn lemma_step_takes_slot(
    scores: Seq<Vec<usize>>,
    slots: nat,
    y: int,
    seen: u32,
    upto: nat,
    j: int,
) -> (i: u32)
    requires
        upto <= slots,
        0 <= y < scores.len(),
        0 <= j < placings(scores, slots, y, seen, upto).len(),
    ensures
        i < upto,
        !has_slot(seen, i),
        placings(scores, slots, y, seen, upto)[j] == (
            placing_key(scores, slots, (y + 1) as nat, with_slot(seen, i)),
            scores[y]@[i as int] as u64,
        ),
    decreases upto,
{
    let before = placings(scores, slots, y, seen, (upto - 1) as nat);
    let last = (upto - 1) as u32;
    if !has_slot(seen, last) && j == before.len() {
        last
    } else {
        lemma_step_takes_slot(scores, slots, y, seen, (upto - 1) as nat, j)
    }
}

/// A slot is taken after another is added where it was taken before or
/// is the one added.
pub proof fn lemma_slot_added(seen: u32, i: u32, k: u32)
    requires
        i < 32,
        k < 32,
    ensures
        has_slot(with_slot(seen, i), k) == (has_slot(seen, k) || k == i),
{
    assert(((seen | (1u32 << i)) & (1u32 << k) != 0) == ((seen & (1u32 << k) != 0) || k == i))
        by (bit_vector)
        requires
            i < 32,
            k < 32,
    ;
}

/// No placing of the tokens that are left wins less than the least total
/// from the state.
pub proof fn lemma_least_is_a_lower_bound(
    scores: Seq<Vec<usize>>,
    slots: u32,
    y: nat,
    seen: u32,
    q: Seq<u32>,
)
    requires
        placing_fits(scores, slots),
        y + q.len() == scores.len(),
        seen < (1u32 << slots),
        is_placing(slots as nat, seen, q),
    ensures
        extremal_value(
            placing_graph(scores, slots as nat),
            Combine::Min,
            0,
            placing_key(scores, slots as nat, y, seen),
            q.len() as usize,
        ) <= placing_total(scores, y as int, q),
    decreases q.len(),
{
    if q.len() > 0 {
        let graph = placing_graph(scores, slots as nat);
        let s = placing_key(scores, slots as nat, y, seen);
        lemma_placing_key(scores, slots, y, seen);
        let list = graph(s);
        let i = q[0];
        let j = lemma_free_slot_listed(scores, slots as nat, y as int, seen, slots as nat, i);
        let b = q.len() as usize;
        lemma_least_step(graph, 0, list, b, list.len(), j);
        let next = with_slot(seen, i);
        lemma_with_slot_in_range(seen, i, slots);
        let rest = q.skip(1);
        assert(is_placing(slots as nat, next, rest)) by {
            assert forall|k: int| 0 <= k < rest.len() implies (#[trigger] rest[k]) < slots
                && !has_slot(next, rest[k]) by {
                assert(rest[k] == q[k + 1]);
                lemma_slot_added(seen, i, rest[k]);
            }
            assert forall|k: int, l: int| 0 <= k < l < rest.len() implies rest[k] != rest[l] by {
                assert(rest[k] == q[k + 1] && rest[l] == q[l + 1]);
            }
        }
        lemma_least_is_a_lower_bound(scores, slots, y + 1, next, rest);
        assert(extremal_value(graph, Combine::Min, 0, s, b) == best_of_steps(
            graph,
            Combine::Min,
            0,
            list,
            b,
            list.len(),
        ));
    }
}

/// Some placing of the tokens that are left wins the least total from
/// the state, where there is a placing of them at all.
pub proof fn lemma_least_is_reached(
    scores: Seq<Vec<usize>>,
    slots: u32,
    y: nat,
    seen: u32,
    some: Seq<u32>,
) -> (q: Seq<u32>)
    requires
        placing_fits(scores, slots),
        y + some.len() == scores.len(),
        seen < (1u32 << slots),
        is_placing(slots as nat, seen, some),
    ensures
        q.len() == some.len(),
        is_placing(slots as nat, seen, q),
        extremal_value(
            placing_graph(scores, slots as nat),
            Combine::Min,
            0,
            placing_key(scores, slots as nat, y, seen),
            q.len() as usize,
        ) == placing_total(scores, y as int, q),
    decreases some.len(),
{
    if some.len() == 0 {
        Seq::empty()
    } else {
        let graph = placing_graph(scores, slots as nat);
        let s = placing_key(scores, slots as nat, y, seen);
        lemma_placing_key(scores, slots, y, seen);
        let list = graph(s);
        let j0 = lemma_free_slot_listed(scores, slots as nat, y as int, seen, slots as nat, some[0]);
        let b = some.len() as usize;
        let j = lemma_least_step_is_taken(graph, 0, list, b, list.len());
        let i = lemma_step_takes_slot(scores, slots as nat, y as int, seen, slots as nat, j);
        let next = with_slot(seen, i);
        lemma_with_slot_in_range(seen, i, slots);
        let shorter = if exists|k: int| 0 <= k < some.len() && some[k] == i {
            let k = choose|k: int| 0 <= k < some.len() && some[k] == i;
            some.remove(k)
        } else {
            some.skip(1)
        };
        assert(shorter.len() == some.len() - 1);
        assert(is_placing(slots as nat, next, shorter)) by {
            if exists|k: int| 0 <= k < some.len() && some[k] == i {
                let k = choose|k: int| 0 <= k < some.len() && some[k] == i;
                assert forall|m: int| 0 <= m < shorter.len() implies (#[trigger] shorter[m]) < slots
                    && !has_slot(next, shorter[m]) by {
                    let from = if m < k {
                        m
                    } else {
                        m + 1
                    };
                    assert(shorter[m] == some[from]);
                    assert(some[from] != some[k]);
                    lemma_slot_added(seen, i, shorter[m]);
                }
                assert forall|m: int, l: int| 0 <= m < l < shorter.len() implies shorter[m]
                    != shorter[l] by {
                    let fm = if m < k {
                        m
                    } else {
                        m + 1
                    };
                    let fl = if l < k {
                        l
                    } else {
                        l + 1
                    };
                    assert(shorter[m] == some[fm] && shorter[l] == some[fl]);
                }
            } else {
                assert forall|m: int| 0 <= m < shorter.len() implies (#[trigger] shorter[m]) < slots
                    && !has_slot(next, shorter[m]) by {
                    assert(shorter[m] == some[m + 1]);
                    lemma_slot_added(seen, i, shorter[m]);
                }
                assert forall|m: int, l: int| 0 <= m < l < shorter.len() implies shorter[m]
                    != shorter[l] by {
                    assert(shorter[m] == some[m + 1] && shorter[l] == some[l + 1]);
                }
            }
        }
        let rest = lemma_least_is_reached(scores, slots, y + 1, next, shorter);
        let q = seq![i] + rest;
        assert(q.skip(1) =~= rest);
        assert(q[0] == i);
        assert(is_placing(slots as nat, seen, q)) by {
            assert forall|m: int| 0 <= m < q.len() implies (#[trigger] q[m]) < slots && !has_slot(
                seen,
                q[m],
            ) by {
                if m > 0 {
                    assert(q[m] == rest[m - 1]);
                    lemma_slot_added(seen, i, rest[m - 1]);
                }
            }
            assert forall|m: int, l: int| 0 <= m < l < q.len() implies q[m] != q[l] by {
                assert(q[l] == rest[l - 1]);
                lemma_slot_added(seen, i, rest[l - 1]);
                if m > 0 {
                    assert(q[m] == rest[m - 1]);
                }
            }
        }
        assert(extremal_value(graph, Combine::Min, 0, s, b) == best_of_steps(
            graph,
            Combine::Min,
            0,
            list,
            b,
            list.len(),
        ));
        q
    }
}

/// The least total that [`dijkstra`] gives is the least over all ways to
/// give each token a slot of its own: some such placing wins it, and none
/// wins less.
pub proof fn lemma_least_total_is_least(scores: Seq<Vec<usize>>, slots: u32) -> (best: Seq<u32>)
    requires
        placing_fits(scores, slots),
        scores.len() <= slots,
    ensures
        best.len() == scores.len(),
        is_placing(slots as nat, 0, best),
        extremal_value(
            placing_graph(scores, slots as nat),
            Combine::Min,
            0,
            0,
            scores.len() as usize,
        ) == placing_total(scores, 0, best),
        forall|q: Seq<u32>|
            q.len() == scores.len() && #[trigger] is_placing(slots as nat, 0, q) ==> placing_total(
                scores,
                0,
                best,
            ) <= placing_total(scores, 0, q),
{
    let rows = scores.len();
    let first = Seq::new(rows, |k: int| k as u32);
    assert(0u32 < (1u32 << slots)) by (bit_vector)
        requires
            slots <= 31,
    ;
    assert(is_placing(slots as nat, 0, first)) by {
        assert forall|k: int| 0 <= k < first.len() implies (#[trigger] first[k]) < slots
            && !has_slot(0, first[k]) by {
            let i = first[k];
            assert(0u32 & (1u32 << i) == 0) by (bit_vector);
        }
    }
    assert(placing_key(scores, slots as nat, 0, 0) == 0) by {
        let layout = placing_layout(scores, slots as nat);
        assert((0 * (layout.width as nat) + 0) * (layout.aux_range as nat) + 0 == 0)
            by (nonlinear_arith);
    }
    let best = lemma_least_is_reached(scores, slots, 0, 0, first);
    assert forall|q: Seq<u32>|
        q.len() == scores.len() && #[trigger] is_placing(slots as nat, 0, q) implies placing_total(
        scores,
        0,
        best,
    ) <= placing_total(scores, 0, q) by {
        lemma_least_is_a_lower_bound(scores, slots, 0, 0, q);
    }
    best
}

/// No placing of the tokens that are left wins more than the greatest total
/// from the state.
pub proof fn lemma_greatest_is_an_upper_bound(
    scores: Seq<Vec<usize>>,
    slots: u32,
    y: nat,
    seen: u32,
    q: Seq<u32>,
)
    requires
        placing_fits(scores, slots),
        y + q.len() == scores.len(),
        seen < (1u32 << slots),
        is_placing(slots as nat, seen, q),
    ensures
        extremal_value(
            placing_graph(scores, slots as nat),
            Combine::Max,
            0,
            placing_key(scores, slots as nat, y, seen),
            q.len() as usize,
        ) >= placing_total(scores, y as int, q),
    decreases q.len(),
{
    if q.len() > 0 {
        let graph = placing_graph(scores, slots as nat);
        let s = placing_key(scores, slots as nat, y, seen);
        lemma_placing_key(scores, slots, y, seen);
        let list = graph(s);
        let i = q[0];
        let j = lemma_free_slot_listed(scores, slots as nat, y as int, seen, slots as nat, i);
        let b = q.len() as usize;
        lemma_greatest_step(graph, 0, list, b, list.len(), j);
        let next = with_slot(seen, i);
        lemma_with_slot_in_range(seen, i, slots);
        let rest = q.skip(1);
        assert(is_placing(slots as nat, next, rest)) by {
            assert forall|k: int| 0 <= k < rest.len() implies (#[trigger] rest[k]) < slots
                && !has_slot(next, rest[k]) by {
                assert(rest[k] == q[k + 1]);
                lemma_slot_added(seen, i, rest[k]);
            }
            assert forall|k: int, l: int| 0 <= k < l < rest.len() implies rest[k] != rest[l] by {
                assert(rest[k] == q[k + 1] && rest[l] == q[l + 1]);
            }
        }
        lemma_greatest_is_an_upper_bound(scores, slots, y + 1, next, rest);
        assert(extremal_value(graph, Combine::Max, 0, s, b) == best_of_steps(
            graph,
            Combine::Max,
            0,
            list,
            b,
            list.len(),
        ));
    }
}

/// Some placing of the tokens that are left wins the greatest total from
/// the state, where there is a placing of them at all.
pub proof fn lemma_greatest_is_reached(
    scores: Seq<Vec<usize>>,
    slots: u32,
    y: nat,
    seen: u32,
    some: Seq<u32>,
) -> (q: Seq<u32>)
    requires
        placing_fits(scores, slots),
        y + some.len() == scores.len(),
        seen < (1u32 << slots),
        is_placing(slots as nat, seen, some),
    ensures
        q.len() == some.len(),
        is_placing(slots as nat, seen, q),
        extremal_value(
            placing_graph(scores, slots as nat),
            Combine::Max,
            0,
            placing_key(scores, slots as nat, y, seen),
            q.len() as usize,
        ) == placing_total(scores, y as int, q),
    decreases some.len(),
{
    if some.len() == 0 {
        Seq::empty()
    } else {
        let graph = placing_graph(scores, slots as nat);
        let s = placing_key(scores, slots as nat, y, seen);
        lemma_placing_key(scores, slots, y, seen);
        let list = graph(s);
        let j0 = lemma_free_slot_listed(scores, slots as nat, y as int, seen, slots as nat, some[0]);
        let b = some.len() as usize;
        let j = lemma_greatest_step_is_taken(graph, 0, list, b, list.len());
        let i = lemma_step_takes_slot(scores, slots as nat, y as int, seen, slots as nat, j);
        let next = with_slot(seen, i);
        lemma_with_slot_in_range(seen, i, slots);
        let shorter = if exists|k: int| 0 <= k < some.len() && some[k] == i {
            let k = choose|k: int| 0 <= k < some.len() && some[k] == i;
            some.remove(k)
        } else {
            some.skip(1)
        };
        assert(shorter.len() == some.len() - 1);
        assert(is_placing(slots as nat, next, shorter)) by {
            if exists|k: int| 0 <= k < some.len() && some[k] == i {
                let k = choose|k: int| 0 <= k < some.len() && some[k] == i;
                assert forall|m: int| 0 <= m < shorter.len() implies (#[trigger] shorter[m]) < slots
                    && !has_slot(next, shorter[m]) by {
                    let from = if m < k {
                        m
                    } else {
                        m + 1
                    };
                    assert(shorter[m] == some[from]);
                    assert(some[from] != some[k]);
                    lemma_slot_added(seen, i, shorter[m]);
                }
                assert forall|m: int, l: int| 0 <= m < l < shorter.len() implies shorter[m]
                    != shorter[l] by {
                    let fm = if m < k {
                        m
                    } else {
                        m + 1
                    };
                    let fl = if l < k {
                        l
                    } else {
                        l + 1
                    };
                    assert(shorter[m] == some[fm] && shorter[l] == some[fl]);
                }
            } else {
                assert forall|m: int| 0 <= m < shorter.len() implies (#[trigger] shorter[m]) < slots
                    && !has_slot(next, shorter[m]) by {
                    assert(shorter[m] == some[m + 1]);
                    lemma_slot_added(seen, i, shorter[m]);
                }
                assert forall|m: int, l: int| 0 <= m < l < shorter.len() implies shorter[m]
                    != shorter[l] by {
                    assert(shorter[m] == some[m + 1] && shorter[l] == some[l + 1]);
                }
            }
        }
        let rest = lemma_greatest_is_reached(scores, slots, y + 1, next, shorter);
        let q = seq![i] + rest;
        assert(q.skip(1) =~= rest);
        assert(q[0] == i);
        assert(is_placing(slots as nat, seen, q)) by {
            assert forall|m: int| 0 <= m < q.len() implies (#[trigger] q[m]) < slots && !has_slot(
                seen,
                q[m],
            ) by {
                if m > 0 {
                    assert(q[m] == rest[m - 1]);
                    lemma_slot_added(seen, i, rest[m - 1]);
                }
            }
            assert forall|m: int, l: int| 0 <= m < l < q.len() implies q[m] != q[l] by {
                assert(q[l] == rest[l - 1]);
                lemma_slot_added(seen, i, rest[l - 1]);
                if m > 0 {
                    assert(q[m] == rest[m - 1]);
                }
            }
        }
        assert(extremal_value(graph, Combine::Max, 0, s, b) == best_of_steps(
            graph,
            Combine::Max,
            0,
            list,
            b,
            list.len(),
        ));
        q
    }
}

/// The greatest total that [`dijkstra`] gives is the greatest over all
/// ways to give each token a slot of its own: some such placing wins it,
/// and none wins more.
pub proof fn lemma_greatest_total_is_greatest(scores: Seq<Vec<usize>>, slots: u32) -> (best: Seq<u32>)
    requires
        placing_fits(scores, slots),
        scores.len() <= slots,
    ensures
        best.len() == scores.len(),
        is_placing(slots as nat, 0, best),
        extremal_value(
            placing_graph(scores, slots as nat),
            Combine::Max,
            0,
            0,
            scores.len() as usize,
        ) == placing_total(scores, 0, best),
        forall|q: Seq<u32>|
            q.len() == scores.len() && #[trigger] is_placing(slots as nat, 0, q) ==> placing_total(
                scores,
                0,
                best,
            ) >= placing_total(scores, 0, q),
{
    let rows = scores.len();
    let first = Seq::new(rows, |k: int| k as u32);
    assert(0u32 < (1u32 << slots)) by (bit_vector)
        requires
            slots <= 31,
    ;
    assert(is_placing(slots as nat, 0, first)) by {
        assert forall|k: int| 0 <= k < first.len() implies (#[trigger] first[k]) < slots
            && !has_slot(0, first[k]) by {
            let i = first[k];
            assert(0u32 & (1u32 << i) == 0) by (bit_vector);
        }
    }
    assert(placing_key(scores, slots as nat, 0, 0) == 0) by {
        let layout = placing_layout(scores, slots as nat);
        assert((0 * (layout.width as nat) + 0) * (layout.aux_range as nat) + 0 == 0)
            by (nonlinear_arith);
    }
    let best = lemma_greatest_is_reached(scores, slots, 0, 0, first);
    assert forall|q: Seq<u32>|
        q.len() == scores.len() && #[trigger] is_placing(slots as nat, 0, q) implies placing_total(
        scores,
        0,
        best,
    ) >= placing_total(scores, 0, q) by {
        lemma_greatest_is_an_upper_bound(scores, slots, 0, 0, q);
    }
    best
}

} // verus!
