//! Many pulls of the right lever of a machine of wheels: the wheels come
//! back to where they stood, and from then on the pay of a round of pulls
//! repeats.

use crate::memo::clip;
use crate::puzzles::wheels::{count_coins, pull_right, sizes_of, LeftLever, Machine};
use crate::radix::{digits_fit, lemma_unpack_packed, pack, packed, span};
use std::collections::HashMap;
use vstd::prelude::*;

verus! {

/// Where the wheels stand after `i` pulls of the right lever.
pub open spec fn stand(machine: Machine, start: Seq<usize>, i: nat) -> Seq<usize>
    decreases i,
{
    if i == 0 {
        start
    } else {
        machine.moved(stand(machine, start, (i - 1) as nat), LeftLever::Rest)
    }
}

/// The coins that the first `i` pulls pay.
pub open spec fn paid(machine: Machine, start: Seq<usize>, i: nat) -> nat
    decreases i,
{
    if i == 0 {
        0
    } else {
        paid(machine, start, (i - 1) as nat) + machine.pay(stand(machine, start, i))
    }
}

/// More pulls pay no less.
pub proof fn lemma_paid_grows(machine: Machine, start: Seq<usize>, k: nat, i: nat)
    requires
        k <= i,
    ensures
        paid(machine, start, k) <= paid(machine, start, i),
    decreases i,
{
    if k < i {
        lemma_paid_grows(machine, start, k, (i - 1) as nat);
    }
}

/// Where the wheels stand again as before, they go on as before, and the
/// pulls pay as before.
pub proof fn lemma_repeats(machine: Machine, start: Seq<usize>, j: nat, i: nat, t: nat)
    requires
        stand(machine, start, j) == stand(machine, start, i),
    ensures
        stand(machine, start, j + t) == stand(machine, start, i + t),
        paid(machine, start, j + t) - paid(machine, start, j) == paid(machine, start, i + t)
            - paid(machine, start, i),
    decreases t,
{
    if t > 0 {
        lemma_repeats(machine, start, j, i, (t - 1) as nat);
        assert(stand(machine, start, j + t) == machine.moved(
            stand(machine, start, (j + t - 1) as nat),
            LeftLever::Rest,
        ));
        assert(stand(machine, start, i + t) == machine.moved(
            stand(machine, start, (i + t - 1) as nat),
            LeftLever::Rest,
        ));
        assert(paid(machine, start, j + t) == paid(machine, start, (j + t - 1) as nat)
            + machine.pay(stand(machine, start, j + t)));
        assert(paid(machine, start, i + t) == paid(machine, start, (i + t - 1) as nat)
            + machine.pay(stand(machine, start, i + t)));
    }
}

/// After whole rounds of a cycle the wheels stand as before, and every
/// round has paid what the first paid.
pub proof fn lemma_rounds(machine: Machine, start: Seq<usize>, j: nat, i: nat, times: nat)
    requires
        j < i,
        stand(machine, start, j) == stand(machine, start, i),
    ensures
        stand(machine, start, (i + (i - j) * times) as nat) == stand(machine, start, i),
        paid(machine, start, (i + (i - j) * times) as nat) == paid(machine, start, i) + times * (
        paid(machine, start, i) - paid(machine, start, j)),
    decreases times,
{
    let c = (i - j) as nat;
    let round = paid(machine, start, i) - paid(machine, start, j);
    if times == 0 {
        assert((i - j) * times == 0) by (nonlinear_arith)
            requires
                times == 0,
        ;
        assert(times * round == 0) by (nonlinear_arith)
            requires
                times == 0,
        ;
    } else {
        lemma_rounds(machine, start, j, i, (times - 1) as nat);
        let at = (i + c * (times - 1)) as nat;
        assert(c * (times - 1) >= 0) by (nonlinear_arith)
            requires
                c >= 0,
                times >= 1,
        ;
        assert(at + c == i + (i - j) * times) by (nonlinear_arith)
            requires
                at == i + c * (times - 1),
                c == i - j,
        ;
        assert(j + c == i);
        lemma_repeats(machine, start, j, at, c);
        assert(times * round == (times - 1) * round + round) by (nonlinear_arith);
    }
}

/// The wheels always stand on a face.
pub proof fn lemma_stand_fits(machine: Machine, start: Seq<usize>, i: nat)
    requires
        machine.wf(),
        digits_fit(start, machine.sizes()),
    ensures
        digits_fit(stand(machine, start, i), machine.sizes()),
    decreases i,
{
    if i > 0 {
        lemma_stand_fits(machine, start, (i - 1) as nat);
        let before = stand(machine, start, (i - 1) as nat);
        assert forall|n: int| 0 <= n < before.len() implies (#[trigger] machine.moved(
            before,
            LeftLever::Rest,
        )[n]) < machine.sizes()[n] by {
            assert(machine.wheels@[n]@.len() >= 1);
        }
    }
}

/// Where every wheel shows its first face.
pub open spec fn at_rest(machine: Machine) -> Seq<usize> {
    Seq::new(machine.wheels@.len(), |n: int| 0usize)
}

/// The coins that `pulls` pulls of the right lever pay, from where every
/// wheel shows its first face; `None` where they do not fit in a `u64`.
/// Where the wheels stand as they stood before, whole rounds of the cycle
/// are paid at once.
pub fn coins_of_pulls(machine: &Machine, pulls: u64) -> (r: Option<u64>)
    requires
        machine.wf(),
        machine.wheels@.len() <= 0x7fff_ffff,
        span(machine.sizes()) <= usize::MAX,
    ensures
        r == clip(paid(*machine, at_rest(*machine), pulls as nat)),
{
    broadcast use vstd::std_specs::hash::group_hash_axioms;

    let sizes: Vec<usize> = sizes_of(machine);
    let mut positions: Vec<usize> = Vec::new();
    let mut n: usize = 0;
    while n < machine.wheels.len()
        invariant
            n <= machine.wheels@.len(),
            machine.wf(),
            positions@.len() == n,
            forall|k: int| 0 <= k < n ==> positions@[k] == 0,
        decreases machine.wheels@.len() - n,
    {
        positions.push(0);
        n += 1;
    }
    let ghost start = at_rest(*machine);
    assert(positions@ =~= start);
    assert(digits_fit(start, machine.sizes())) by {
        assert forall|k: int| 0 <= k < start.len() implies (#[trigger] start[k])
            < machine.sizes()[k] by {
            assert(machine.wheels@[k]@.len() >= 1);
        }
    }
    let mut seen: HashMap<u64, (u64, u64)> = HashMap::new();
    let mut total: u64 = 0;
    let mut i: u64 = 0;
    while i < pulls
        invariant
            i <= pulls,
            machine.wf(),
            machine.wheels@.len() <= 0x7fff_ffff,
            span(machine.sizes()) <= usize::MAX,
            sizes@ == machine.sizes(),
            start == at_rest(*machine),
            digits_fit(start, machine.sizes()),
            positions@ == stand(*machine, start, i as nat),
            digits_fit(positions@, machine.sizes()),
            total == paid(*machine, start, i as nat),
            forall|k: u64| #[trigger]
                seen@.contains_key(k) ==> seen@[k].0 < i && packed(
                    stand(*machine, start, seen@[k].0 as nat),
                    machine.sizes(),
                ) == k && seen@[k].1 == paid(*machine, start, seen@[k].0 as nat),
        decreases pulls - i,
    {
        let key: u64 = pack(&positions, &sizes) as u64;
        let known: Option<(u64, u64)> = match seen.get(&key) {
            Some(entry) => Some(*entry),
            None => None,
        };
        match known {
            Some((j, old_total)) => {
                assert(seen@.contains_key(key) && seen@[key] == (j, old_total));
                proof {
                    lemma_stand_fits(*machine, start, j as nat);
                    lemma_unpack_packed(stand(*machine, start, j as nat), machine.sizes());
                    lemma_unpack_packed(positions@, machine.sizes());
                    lemma_paid_grows(*machine, start, j as nat, i as nat);
                }
                let cycle_len: u64 = i - j;
                let round: u64 = total - old_total;
                let times: u64 = (pulls - i) / cycle_len;
                proof {
                    lemma_rounds(*machine, start, j as nat, i as nat, times as nat);
                    assert(cycle_len * times <= pulls - i) by (nonlinear_arith)
                        requires
                            times == (pulls - i) / (cycle_len as int),
                            cycle_len > 0,
                            pulls - i >= 0,
                    ;
                    lemma_paid_grows(*machine, start, (i + cycle_len * times) as nat, pulls as nat);
                    assert(round * times == times * round) by (nonlinear_arith);
                }
                let more: Option<u64> = match round.checked_mul(times) {
                    Some(whole) => total.checked_add(whole),
                    None => None,
                };
                match more {
                    Some(s) => {
                        total = s;
                    },
                    None => {
                        return None;
                    },
                }
                i = i + cycle_len * times;
                seen.clear();
            },
            None => {},
        }
        if i < pulls {
            seen.insert(key, (i, total));
            pull_right(machine, &mut positions);
            let coins: u64 = count_coins(machine, &positions);
            proof {
                lemma_paid_grows(*machine, start, (i + 1) as nat, pulls as nat);
            }
            match total.checked_add(coins) {
                Some(s) => {
                    total = s;
                },
                None => {
                    return None;
                },
            }
            i += 1;
        }
    }
    Some(total)
}

} // verus!
