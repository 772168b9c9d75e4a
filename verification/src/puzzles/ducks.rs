//! Columns of ducks that even out.
//!
//! In the first phase a duck moves to the next column wherever a column
//! has more ducks than the one after it; in the second phase a duck moves
//! back wherever a column has fewer. A round looks at the columns from the
//! first to the last, each pair once, and rounds go on until nothing moves.

use vstd::prelude::*;
use crate::memo::clip;

verus! {

/// The columns after the first `k` pairs of a round were looked at; with
/// `forward` ducks move on to the next column, else back.
pub open spec fn swept(ducks: Seq<u64>, forward: bool, k: nat) -> Seq<u64>
    decreases k,
{
    if k == 0 || k >= ducks.len() {
        ducks
    } else {
        let before = swept(ducks, forward, (k - 1) as nat);
        let i = k - 1;
        if forward && before[i] > before[i + 1] {
            before.update(i, (before[i] - 1) as u64).update(i + 1, (before[i + 1] + 1) as u64)
        } else if !forward && before[i] < before[i + 1] {
            before.update(i, (before[i] + 1) as u64).update(i + 1, (before[i + 1] - 1) as u64)
        } else {
            before
        }
    }
}

/// The columns after a whole round.
pub open spec fn round(ducks: Seq<u64>, forward: bool) -> Seq<u64> {
    swept(ducks, forward, (ducks.len() - 1) as nat)
}

/// The columns after `r` rounds.
pub open spec fn after_rounds(ducks: Seq<u64>, forward: bool, r: nat) -> Seq<u64>
    decreases r,
{
    if r == 0 {
        ducks
    } else {
        round(after_rounds(ducks, forward, (r - 1) as nat), forward)
    }
}

/// Whether a duck moves when the first `k` pairs of a round are looked at.
pub open spec fn moves(ducks: Seq<u64>, forward: bool, k: nat) -> bool
    decreases k,
{
    if k == 0 || k >= ducks.len() {
        false
    } else {
        let before = swept(ducks, forward, (k - 1) as nat);
        let i = k - 1;
        moves(ducks, forward, (k - 1) as nat) || (forward && before[i] > before[i + 1]) || (!forward
            && before[i] < before[i + 1])
    }
}

/// Whether a duck moves in a round.
pub open spec fn round_moves(ducks: Seq<u64>, forward: bool) -> bool {
    moves(ducks, forward, (ducks.len() - 1) as nat)
}

/// Whether a phase that begins with `ducks` takes `rounds` rounds when at
/// most `limit` are allowed: in every one of these rounds a duck moves,
/// and in the next none would unless the limit is reached.
pub open spec fn phase_takes(ducks: Seq<u64>, forward: bool, limit: nat, rounds: nat) -> bool {
    &&& rounds <= limit
    &&& forall|r: nat|
        r < rounds ==> round_moves(#[trigger] after_rounds(ducks, forward, r), forward)
    &&& rounds < limit ==> !round_moves(after_rounds(ducks, forward, rounds), forward)
}

/// Where no duck moves the columns stay as they are.
pub proof fn lemma_still(ducks: Seq<u64>, forward: bool, k: nat)
    requires
        !moves(ducks, forward, k),
    ensures
        swept(ducks, forward, k) == ducks,
    decreases k,
{
    if k > 0 && k < ducks.len() {
        lemma_still(ducks, forward, (k - 1) as nat);
    }
}

/// Runs one round on the columns and tells whether a duck moved.
pub fn sweep(ducks: &mut Vec<u64>, forward: bool) -> (changed: bool)
    requires
        old(ducks)@.len() >= 1,
    ensures
        final(ducks)@ == round(old(ducks)@, forward),
        final(ducks)@.len() == old(ducks)@.len(),
        changed == round_moves(old(ducks)@, forward),
{
    let mut changed: bool = false;
    let len: usize = ducks.len();
    let mut i: usize = 0;
    while i < len - 1
        invariant
            i <= len - 1,
            len >= 1,
            len == old(ducks)@.len(),
            ducks@.len() == len,
            ducks@ == swept(old(ducks)@, forward, i as nat),
            changed == moves(old(ducks)@, forward, i as nat),
        decreases len - 1 - i,
    {
        let a: u64 = ducks[i];
        let b: u64 = ducks[i + 1];
        if forward && a > b {
            ducks[i] = a - 1;
            ducks[i + 1] = b + 1;
            changed = true;
        } else if !forward && a < b {
            ducks[i] = a + 1;
            ducks[i + 1] = b - 1;
            changed = true;
        }
        i += 1;
    }
    changed
}

/// Runs rounds of a phase on the columns until nothing moves or `limit`
/// rounds are done, and returns how many rounds moved a duck.
pub fn phase(ducks: &mut Vec<u64>, forward: bool, limit: u64) -> (rounds: u64)
    requires
        old(ducks)@.len() >= 1,
    ensures
        final(ducks)@ == after_rounds(old(ducks)@, forward, rounds as nat),
        phase_takes(old(ducks)@, forward, limit as nat, rounds as nat),
{
    let mut rounds: u64 = 0;
    while rounds < limit
        invariant
            rounds <= limit,
            ducks@.len() == old(ducks)@.len(),
            ducks@.len() >= 1,
            ducks@ == after_rounds(old(ducks)@, forward, rounds as nat),
            forall|r: nat|
                r < rounds ==> round_moves(
                    #[trigger] after_rounds(old(ducks)@, forward, r),
                    forward,
                ),
        ensures
            ducks@ == after_rounds(old(ducks)@, forward, rounds as nat),
            phase_takes(old(ducks)@, forward, limit as nat, rounds as nat),
        decreases limit - rounds,
    {
        let ghost before = ducks@;
        let changed: bool = sweep(ducks, forward);
        if !changed {
            proof {
                lemma_still(before, forward, (before.len() - 1) as nat);
            }
            break ;
        }
        rounds += 1;
    }
    rounds
}

/// The first phase: ducks move on. Returns the rounds it took, at most
/// `max_rounds` where a limit is given.
pub fn phase1(ducks: &mut Vec<u64>, max_rounds: Option<u64>) -> (rounds: u64)
    requires
        old(ducks)@.len() >= 1,
    ensures
        final(ducks)@ == after_rounds(old(ducks)@, true, rounds as nat),
        phase_takes(
            old(ducks)@,
            true,
            (match max_rounds {
                Some(m) if m > 0 => m,
                _ => u64::MAX,
            }) as nat,
            rounds as nat,
        ),
{
    let limit: u64 = match max_rounds {
        Some(m) => if m > 0 {
            m
        } else {
            u64::MAX
        },
        None => u64::MAX,
    };
    phase(ducks, true, limit)
}

/// The second phase: ducks move back. Goes on counting from `rounds` and
/// returns the count when nothing moves any more or it has reached
/// `max_rounds`.
pub fn phase2(ducks: &mut Vec<u64>, rounds: u64, max_rounds: u64) -> (total: u64)
    requires
        old(ducks)@.len() >= 1,
        rounds < max_rounds,
    ensures
        total >= rounds,
        final(ducks)@ == after_rounds(old(ducks)@, false, (total - rounds) as nat),
        phase_takes(old(ducks)@, false, (max_rounds - rounds) as nat, (total - rounds) as nat),
{
    let more: u64 = phase(ducks, false, max_rounds - rounds);
    rounds + more
}

/// The least of the first `k` columns.
pub open spec fn least(ducks: Seq<u64>, k: nat) -> u64
    decreases k,
{
    if k <= 1 || k > ducks.len() {
        ducks[0]
    } else {
        let before = least(ducks, (k - 1) as nat);
        if ducks[k - 1] < before {
            ducks[k - 1]
        } else {
            before
        }
    }
}

/// The ducks that the first `k` columns have above `floor`.
pub open spec fn surplus(ducks: Seq<u64>, floor: u64, k: nat) -> nat
    decreases k,
{
    if k == 0 || k > ducks.len() {
        0
    } else {
        surplus(ducks, floor, (k - 1) as nat) + if ducks[k - 1] > floor {
            (ducks[k - 1] - floor) as nat
        } else {
            0nat
        }
    }
}

/// The ducks that the first `k` columns lack to `target`, counted up to
/// the first column that lacks none.
pub open spec fn shortfall(ducks: Seq<u64>, target: nat, k: nat) -> nat
    decreases k,
{
    if k == 0 || k > ducks.len() {
        0
    } else if exists|j: int| 0 <= j < k && ducks[j] >= target {
        shortfall(ducks, target, (k - 1) as nat)
    } else {
        shortfall(ducks, target, (k - 1) as nat) + (target - ducks[k - 1]) as nat
    }
}

/// The number of ducks that every column has once the columns are even:
/// the least column and its share of what the others have above it.
pub open spec fn level(ducks: Seq<u64>) -> nat {
    (surplus(ducks, least(ducks, ducks.len()), ducks.len()) / ducks.len() + least(
        ducks,
        ducks.len(),
    )) as nat
}

/// The surplus never gets less as more columns are counted.
pub proof fn lemma_surplus_grows(ducks: Seq<u64>, floor: u64, i: nat, k: nat)
    requires
        i <= k <= ducks.len(),
    ensures
        surplus(ducks, floor, i) <= surplus(ducks, floor, k),
    decreases k,
{
    if i < k {
        lemma_surplus_grows(ducks, floor, i, (k - 1) as nat);
    }
}

/// The rounds that the second phase takes on columns that ascend: the
/// ducks that the columns below the level lack to it. `None` when the
/// surplus, the level or the result does not fit in a `u64`.
pub fn count_phase2_rounds(ducks: &Vec<u64>) -> (r: Option<u64>)
    requires
        ducks@.len() >= 1,
    ensures
        r.is_some() <==> surplus(ducks@, least(ducks@, ducks@.len()), ducks@.len()) <= u64::MAX
            && level(ducks@) <= u64::MAX && shortfall(ducks@, level(ducks@), ducks@.len())
            <= u64::MAX,
        r matches Some(n) ==> n == shortfall(ducks@, level(ducks@), ducks@.len()),
{
    let len: usize = ducks.len();
    let mut min: u64 = ducks[0];
    let mut i: usize = 1;
    while i < len
        invariant
            1 <= i <= len,
            len == ducks@.len(),
            min == least(ducks@, i as nat),
        decreases len - i,
    {
        if ducks[i] < min {
            min = ducks[i];
        }
        i += 1;
    }
    let mut over: u64 = 0;
    let mut k: usize = 0;
    while k < len
        invariant
            k <= len,
            len == ducks@.len(),
            min == least(ducks@, ducks@.len()),
            over == surplus(ducks@, min, k as nat),
        decreases len - k,
    {
        let d: u64 = ducks[k];
        if d > min {
            match over.checked_add(d - min) {
                Some(next) => {
                    over = next;
                },
                None => {
                    proof {
                        lemma_surplus_grows(ducks@, min, (k + 1) as nat, len as nat);
                    }
                    return None;
                },
            }
        }
        k += 1;
    }
    let share: u64 = over / (len as u64);
    let target: u64 = match share.checked_add(min) {
        Some(t) => t,
        None => {
            return None;
        },
    };
    let mut result: u64 = 0;
    let mut j: usize = 0;
    while j < len && ducks[j] < target
        invariant
            j <= len,
            len == ducks@.len(),
            target == level(ducks@),
            forall|q: int| 0 <= q < j ==> ducks@[q] < target,
            result == shortfall(ducks@, target as nat, j as nat),
        decreases len - j,
    {
        match result.checked_add(target - ducks[j]) {
            Some(next) => {
                result = next;
            },
            None => {
                proof {
                    lemma_shortfall_grows(ducks@, target as nat, (j + 1) as nat, len as nat);
                }
                return None;
            },
        }
        j += 1;
    }
    proof {
        lemma_shortfall_stops(ducks@, target as nat, j as nat, len as nat);
    }
    Some(result)
}

/// The shortfall never gets less as more columns are counted.
pub proof fn lemma_shortfall_grows(ducks: Seq<u64>, target: nat, i: nat, k: nat)
    requires
        i <= k <= ducks.len(),
    ensures
        shortfall(ducks, target, i) <= shortfall(ducks, target, k),
    decreases k,
{
    if i < k {
        lemma_shortfall_grows(ducks, target, i, (k - 1) as nat);
    }
}

/// Behind the first column that lacks nothing the shortfall stays as it
/// is.
pub proof fn lemma_shortfall_stops(ducks: Seq<u64>, target: nat, j: nat, k: nat)
    requires
        j <= k <= ducks.len(),
        j < ducks.len() ==> ducks[j as int] >= target,
    ensures
        shortfall(ducks, target, k) == shortfall(ducks, target, j),
    decreases k,
{
    if j < k {
        lemma_shortfall_stops(ducks, target, j, (k - 1) as nat);
        assert(0 <= j < k && ducks[j as int] >= target);
    }
}

} // verus!
