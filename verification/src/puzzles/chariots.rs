//! Chariots that race on a track: every piece of the track raises the
//! power of a chariot by one, lowers it by one or leaves the choice to the
//! plan of the chariot, and after every piece the power is added to what
//! the chariot has gathered.

use vstd::prelude::*;
use crate::memo::clip;

verus! {

/// What a piece of track or a step of a plan asks for.
#[derive(Clone, Copy, Debug)]
pub enum Action {
    Inc,
    Dec,
    Maintain,
}

/// The action that counts at the `k`-th piece of the race: that of the
/// track, or that of the plan where the track leaves the choice.
pub open spec fn action_at(plan: Seq<Action>, track: Seq<Action>, k: int) -> Action {
    match track[k % (track.len() as int)] {
        Action::Maintain => plan[k % (plan.len() as int)],
        other => other,
    }
}

/// The power after an action: one more, one less but not less than
/// nothing, or the same.
pub open spec fn powered(power: nat, action: Action) -> nat {
    match action {
        Action::Inc => power + 1,
        Action::Dec => if power > 0 {
            (power - 1) as nat
        } else {
            0
        },
        Action::Maintain => power,
    }
}

/// The power after `k` pieces; a race begins with a power of ten.
pub open spec fn power_after(plan: Seq<Action>, track: Seq<Action>, k: nat) -> nat
    decreases k,
{
    if k == 0 {
        10
    } else {
        powered(power_after(plan, track, (k - 1) as nat), action_at(plan, track, k - 1))
    }
}

/// What has been gathered after `k` pieces.
pub open spec fn score_after(plan: Seq<Action>, track: Seq<Action>, k: nat) -> nat
    decreases k,
{
    if k == 0 {
        0
    } else {
        score_after(plan, track, (k - 1) as nat) + power_after(plan, track, k)
    }
}

/// What has been gathered never gets less.
pub proof fn lemma_score_grows(plan: Seq<Action>, track: Seq<Action>, i: nat, k: nat)
    requires
        i <= k,
    ensures
        score_after(plan, track, i) <= score_after(plan, track, k),
    decreases k,
{
    if i < k {
        lemma_score_grows(plan, track, i, (k - 1) as nat);
    }
}

/// What a chariot with the plan `actions` gathers in `rounds` rounds of
/// the track, or `None` when that does not fit in a `u64`.
pub fn race(actions: &Vec<Action>, track: &Vec<Action>, rounds: usize) -> (r: Option<u64>)
    requires
        actions@.len() > 0,
    ensures
        r == clip(score_after(actions@, track@, (rounds * track@.len()) as nat)),
{
    let mut power: u64 = 10;
    let mut score: u64 = 0;
    let steps: usize = actions.len();
    let mut j: usize = 0;
    let ghost total = (rounds * track@.len()) as nat;
    let ghost mut k: nat = 0;
    let mut round: usize = 0;
    while round < rounds
        invariant
            round <= rounds,
            actions@.len() > 0,
            steps == actions@.len(),
            total == rounds * track@.len(),
            k == round * track@.len(),
            j == k % actions@.len(),
            power == power_after(actions@, track@, k),
            score == score_after(actions@, track@, k),
        decreases rounds - round,
    {
        let mut i: usize = 0;
        while i < track.len()
            invariant
                i <= track@.len(),
                round < rounds,
                actions@.len() > 0,
                steps == actions@.len(),
                total == rounds * track@.len(),
                k == round * track@.len() + i,
                j == k % actions@.len(),
                power == power_after(actions@, track@, k),
                score == score_after(actions@, track@, k),
            decreases track@.len() - i,
        {
            proof {
                vstd::arithmetic::div_mod::lemma_fundamental_div_mod_converse(
                    k as int,
                    track@.len() as int,
                    round as int,
                    i as int,
                );
                lemma_next_place(k, actions@.len());
                assert(k + 1 <= total) by (nonlinear_arith)
                    requires
                        k == round * track@.len() + i,
                        i < track@.len(),
                        round < rounds,
                        total == rounds * track@.len(),
                ;
            }
            let action: Action = match track[i] {
                Action::Maintain => actions[j],
                other => other,
            };
            let next: Option<u64> = match action {
                Action::Inc => power.checked_add(1),
                Action::Dec => Some(if power > 0 {
                    power - 1
                } else {
                    0
                }),
                Action::Maintain => Some(power),
            };
            let sum: Option<u64> = match next {
                Some(p) => score.checked_add(p),
                None => None,
            };
            match (next, sum) {
                (Some(p), Some(s)) => {
                    power = p;
                    score = s;
                },
                _ => {
                    proof {
                        lemma_score_grows(actions@, track@, k + 1, total);
                    }
                    return None;
                },
            }
            j = if j + 1 == steps {
                0
            } else {
                j + 1
            };
            proof {
                k = k + 1;
            }
            i += 1;
        }
        proof {
            assert((round + 1) * track@.len() == round * track@.len() + track@.len())
                by (nonlinear_arith);
        }
        round += 1;
    }
    Some(score)
}

/// The place in a plan of `m` steps moves on by one with every piece and
/// begins again after the last.
pub proof fn lemma_next_place(k: nat, m: nat)
    requires
        m > 0,
    ensures
        (k + 1) % m == (if k % m + 1 == m {
            0
        } else {
            k % m + 1
        }),
{
    vstd::arithmetic::div_mod::lemma_fundamental_div_mod(k as int, m as int);
    let q = (k as int) / (m as int);
    let r = (k as int) % (m as int);
    assert(q * m == m * q) by (nonlinear_arith);
    if r + 1 == m {
        assert((q + 1) * m == m * q + m) by (nonlinear_arith);
        vstd::arithmetic::div_mod::lemma_fundamental_div_mod_converse(
            k as int + 1,
            m as int,
            q + 1,
            0,
        );
    } else {
        vstd::arithmetic::div_mod::lemma_fundamental_div_mod_converse(
            k as int + 1,
            m as int,
            q,
            r + 1,
        );
    }
}

} // verus!
