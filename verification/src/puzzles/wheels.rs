//! A machine of wheels with symbols on their faces. A pull of the right
//! lever turns every wheel by its own amount and pays coins for symbols
//! that show more than twice; before each pull the left lever may nudge all
//! wheels one face forward or back. What is sought is the least and the
//! greatest pay of a given number of pulls.

use vstd::prelude::*;
use crate::memo::{
    clip, extremal_cached, extremal_value, solve_extremal, solve_extremal_in, Combine, MemoCache,
};
use crate::radix::{
    digits_fit, lemma_pack_unpacked, pack, packed, span, span_of, unpack, unpacked,
};
use crate::search::computes_successors;

verus! {

/// A machine: the faces of every wheel, each face three symbols of which
/// the first and the third are eyes, and the amount by which a pull turns
/// every wheel.
pub struct Machine {
    pub wheels: Vec<Vec<Vec<u8>>>,
    pub instructions: Vec<usize>,
}

/// What the left lever does before a pull.
#[derive(Clone, Copy, Debug)]
pub enum LeftLever {
    Up,
    Down,
    Rest,
}

impl Machine {
    /// A machine is in order when every wheel has an amount and at least
    /// one face, and every face has its three symbols, the eyes among the
    /// first 128 byte values.
    pub open spec fn wf(&self) -> bool {
        &&& self.wheels@.len() == self.instructions@.len()
        &&& forall|n: int| 0 <= n < self.wheels@.len() ==> (#[trigger] self.wheels@[n])@.len() >= 1
        &&& forall|n: int, f: int|
            0 <= n < self.wheels@.len() && 0 <= f < self.wheels@[n]@.len() ==> (
            #[trigger] self.wheels@[n]@[f])@.len() >= 3 && self.wheels@[n]@[f]@[0] < 128
                && self.wheels@[n]@[f]@[2] < 128
    }

    /// The number of faces of every wheel.
    pub open spec fn sizes(&self) -> Seq<usize> {
        Seq::new(self.wheels@.len(), |n: int| self.wheels@[n].len())
    }

    /// Where wheel `n` stands after the left lever and a pull, from `at`.
    pub open spec fn turned(&self, n: int, at: usize, lever: LeftLever) -> usize {
        let len = self.wheels@[n]@.len() as int;
        let nudge = match lever {
            LeftLever::Up => 1,
            LeftLever::Down => len - 1,
            LeftLever::Rest => 0,
        };
        (((at + nudge) % len + self.instructions@[n]) % len) as usize
    }

    /// Where the wheels stand after the left lever and a pull.
    pub open spec fn moved(&self, positions: Seq<usize>, lever: LeftLever) -> Seq<usize> {
        Seq::new(positions.len(), |n: int| self.turned(n, positions[n], lever))
    }

    /// The eyes that the first `upto` wheels show.
    pub open spec fn eyes(&self, positions: Seq<usize>, upto: nat) -> Seq<u8>
        decreases upto,
    {
        if upto == 0 || upto > self.wheels@.len() {
            Seq::empty()
        } else {
            let face = self.wheels@[upto - 1]@[positions[upto - 1] as int]@;
            self.eyes(positions, (upto - 1) as nat).push(face[0]).push(face[2])
        }
    }

    /// The coins that the wheels pay as they stand.
    pub open spec fn pay(&self, positions: Seq<usize>) -> nat {
        coins(self.eyes(positions, self.wheels@.len()), 128)
    }

    /// The step that the left lever and a pull make from the state with
    /// key `s`: the key of where the wheels stand then, and the pay.
    pub open spec fn pull(&self, s: usize, lever: LeftLever) -> (usize, u64) {
        let after = self.moved(unpacked(s as nat, self.sizes()), lever);
        (packed(after, self.sizes()) as usize, self.pay(after) as u64)
    }
}

/// The coins paid for the symbols below `upto`: for each, one coin for
/// every eye beyond the second that shows it.
pub open spec fn coins(eyes: Seq<u8>, upto: nat) -> nat
    decreases upto,
{
    if upto == 0 {
        0
    } else {
        let shown = eyes.to_multiset().count((upto - 1) as u8);
        coins(eyes, (upto - 1) as nat) + if shown > 2 {
            (shown - 2) as nat
        } else {
            0nat
        }
    }
}

/// The machine as a graph: from every state the three steps that the left
/// lever allows, up, down and none.
pub open spec fn wheel_graph(machine: Machine) -> spec_fn(usize) -> Seq<(usize, u64)> {
    |s: usize|
        seq![
            machine.pull(s, LeftLever::Up),
            machine.pull(s, LeftLever::Down),
            machine.pull(s, LeftLever::Rest),
        ]
}

/// Adding `by` to `at` on a wheel of `len` faces.
pub fn turn(at: usize, by: usize, len: usize) -> (r: usize)
    requires
        at < len,
    ensures
        r == (at + by) % (len as int),
        r < len,
{
    let step: usize = by % len;
    let room: usize = len - at;
    proof {
        let l = len as int;
        vstd::arithmetic::div_mod::lemma_fundamental_div_mod(by as int, l);
        let q = (by as int) / l;
        assert((q + 1) * l == l * q + l) by (nonlinear_arith);
        assert(q * l == l * q) by (nonlinear_arith);
        if step >= room {
            vstd::arithmetic::div_mod::lemma_fundamental_div_mod_converse(
                at + by,
                l,
                q + 1,
                step - room,
            );
        } else {
            vstd::arithmetic::div_mod::lemma_fundamental_div_mod_converse(
                at + by,
                l,
                q,
                at + step,
            );
        }
    }
    if step >= room {
        step - room
    } else {
        at + step
    }
}

/// The sizes of the wheels: the radices of the machine's states.
pub fn sizes_of(machine: &Machine) -> (r: Vec<usize>)
    ensures
        r@ == machine.sizes(),
{
    let mut out: Vec<usize> = Vec::new();
    let mut n: usize = 0;
    while n < machine.wheels.len()
        invariant
            n <= machine.wheels@.len(),
            out@.len() == n,
            forall|k: int| 0 <= k < n ==> out@[k] == machine.wheels@[k]@.len(),
        decreases machine.wheels@.len() - n,
    {
        out.push(machine.wheels[n].len());
        n += 1;
    }
    assert(out@ =~= machine.sizes());
    out
}

/// Pulls the right lever: every wheel turns by its amount.
pub fn pull_right(machine: &Machine, positions: &mut Vec<usize>)
    requires
        machine.wf(),
        digits_fit(old(positions)@, machine.sizes()),
    ensures
        digits_fit(final(positions)@, machine.sizes()),
        final(positions)@ == machine.moved(old(positions)@, LeftLever::Rest),
{
    let mut n: usize = 0;
    while n < machine.wheels.len()
        invariant
            n <= machine.wheels@.len(),
            machine.wf(),
            positions@.len() == old(positions)@.len(),
            digits_fit(old(positions)@, machine.sizes()),
            forall|k: int|
                0 <= k < n ==> (#[trigger] positions@[k]) == machine.turned(
                    k,
                    old(positions)@[k],
                    LeftLever::Rest,
                ) && positions@[k] < machine.wheels@[k]@.len(),
            forall|k: int| n <= k < positions@.len() ==> (#[trigger] positions@[k]) == old(
                positions,
            )@[k],
        decreases machine.wheels@.len() - n,
    {
        let len: usize = machine.wheels[n].len();
        assert(old(positions)@[n as int] < machine.sizes()[n as int]);
        let at: usize = positions[n];
        assert((at + 0) % (len as int) == at) by {
            vstd::arithmetic::div_mod::lemma_small_mod(at as nat, len as nat);
        }
        positions[n] = turn(at, machine.instructions[n], len);
        n += 1;
    }
    assert(positions@ =~= machine.moved(old(positions)@, LeftLever::Rest));
    assert(digits_fit(positions@, machine.sizes())) by {
        assert forall|k: int| 0 <= k < positions@.len() implies (#[trigger] positions@[k])
            < machine.sizes()[k] by {
            assert(positions@[k] < machine.wheels@[k]@.len());
        }
    }
}

/// Moves the left lever and pulls the right one.
pub fn pull_both(machine: &Machine, positions: &Vec<usize>, lever: LeftLever) -> (r: Vec<usize>)
    requires
        machine.wf(),
        digits_fit(positions@, machine.sizes()),
    ensures
        digits_fit(r@, machine.sizes()),
        r@ == machine.moved(positions@, lever),
{
    let mut out: Vec<usize> = Vec::new();
    let mut n: usize = 0;
    while n < machine.wheels.len()
        invariant
            n <= machine.wheels@.len(),
            machine.wf(),
            digits_fit(positions@, machine.sizes()),
            out@.len() == n,
            forall|k: int|
                0 <= k < n ==> (#[trigger] out@[k]) == machine.turned(k, positions@[k], lever)
                    && out@[k] < machine.wheels@[k]@.len(),
        decreases machine.wheels@.len() - n,
    {
        let len: usize = machine.wheels[n].len();
        assert(positions@[n as int] < machine.sizes()[n as int]);
        let nudge: usize = match lever {
            LeftLever::Up => 1,
            LeftLever::Down => len - 1,
            LeftLever::Rest => 0,
        };
        let nudged: usize = turn(positions[n], nudge, len);
        out.push(turn(nudged, machine.instructions[n], len));
        n += 1;
    }
    assert(out@ =~= machine.moved(positions@, lever));
    assert(digits_fit(out@, machine.sizes())) by {
        assert forall|k: int| 0 <= k < out@.len() implies (#[trigger] out@[k])
            < machine.sizes()[k] by {
            assert(out@[k] < machine.wheels@[k]@.len());
        }
    }
    out
}

/// The coins that the wheels pay as they stand.
pub fn count_coins(machine: &Machine, positions: &Vec<usize>) -> (result: u64)
    requires
        machine.wf(),
        digits_fit(positions@, machine.sizes()),
        machine.wheels@.len() <= 0x7fff_ffff,
    ensures
        result == machine.pay(positions@),
        result <= 2 * machine.wheels@.len(),
{
    broadcast use vstd::multiset::group_multiset_axioms;

    let mut chars: Vec<u64> = Vec::new();
    let mut c: usize = 0;
    while c < 128
        invariant
            c <= 128,
            chars@.len() == c,
            forall|k: int| 0 <= k < c ==> chars@[k] == 0,
        decreases 128 - c,
    {
        chars.push(0);
        c += 1;
    }
    proof {
        vstd::seq_lib::to_multiset_len(machine.eyes(positions@, 0));
        assert forall|k: u8| #[trigger]
            machine.eyes(positions@, 0).to_multiset().count(k) == 0 by {
            vstd::multiset::axiom_count_le_len(machine.eyes(positions@, 0).to_multiset(), k);
        }
    }
    let mut n: usize = 0;
    while n < machine.wheels.len()
        invariant
            n <= machine.wheels@.len(),
            machine.wf(),
            digits_fit(positions@, machine.sizes()),
            machine.wheels@.len() <= 0x7fff_ffff,
            chars@.len() == 128,
            machine.eyes(positions@, n as nat).len() == 2 * n,
            forall|k: u8|
                k < 128 ==> chars@[k as int] == #[trigger] machine.eyes(
                    positions@,
                    n as nat,
                ).to_multiset().count(k),
        decreases machine.wheels@.len() - n,
    {
        assert(positions@[n as int] < machine.sizes()[n as int]);
        let face: &Vec<u8> = &machine.wheels[n][positions[n]];
        let left: u8 = face[0];
        let right: u8 = face[2];
        proof {
            let before = machine.eyes(positions@, n as nat);
            let after = machine.eyes(positions@, (n + 1) as nat);
            vstd::seq_lib::to_multiset_build(before, left);
            vstd::seq_lib::to_multiset_build(before.push(left), right);
            vstd::seq_lib::to_multiset_len(before);
            vstd::multiset::axiom_count_le_len(before.to_multiset(), left);
            vstd::multiset::axiom_count_le_len(before.to_multiset(), right);
        }
        chars[left as usize] = chars[left as usize] + 1;
        chars[right as usize] = chars[right as usize] + 1;
        n += 1;
    }
    let ghost eyes = machine.eyes(positions@, machine.wheels@.len());
    let mut result: u64 = 0;
    let mut k: usize = 0;
    let ghost mut counted: nat = 0;
    while k < 128
        invariant
            k <= 128,
            chars@.len() == 128,
            eyes.len() == 2 * machine.wheels@.len(),
            machine.wheels@.len() <= 0x7fff_ffff,
            forall|j: u8| j < 128 ==> chars@[j as int] == #[trigger] eyes.to_multiset().count(j),
            result == coins(eyes, k as nat),
            result <= counted,
            counted == count_below(eyes, k as nat),
            counted <= eyes.len(),
        decreases 128 - k,
    {
        let cnt: u64 = chars[k];
        proof {
            lemma_count_below_bounded(eyes, (k + 1) as nat);
            counted = counted + cnt as nat;
        }
        if cnt > 2 {
            result = result + (cnt - 2);
        }
        k += 1;
    }
    result
}

/// The number of eyes that show a symbol below `upto`.
pub open spec fn count_below(eyes: Seq<u8>, upto: nat) -> nat
    decreases upto,
{
    if upto == 0 {
        0
    } else {
        count_below(eyes, (upto - 1) as nat) + eyes.to_multiset().count((upto - 1) as u8)
    }
}

/// No more eyes show a symbol below `upto` than there are eyes.
pub proof fn lemma_count_below_bounded(eyes: Seq<u8>, upto: nat)
    requires
        upto <= 256,
    ensures
        count_below(eyes, upto) <= eyes.len(),
    decreases eyes.len(),
{
    broadcast use vstd::multiset::group_multiset_axioms;

    if eyes.len() == 0 {
        vstd::seq_lib::to_multiset_len(eyes);
        lemma_count_below_of_none(eyes, upto);
    } else {
        let fewer = eyes.drop_last();
        lemma_count_below_bounded(fewer, upto);
        assert(eyes =~= fewer.push(eyes.last()));
        vstd::seq_lib::to_multiset_build(fewer, eyes.last());
        lemma_count_below_push(fewer, eyes.last(), upto);
    }
}

/// Without eyes, no symbol shows.
proof fn lemma_count_below_of_none(eyes: Seq<u8>, upto: nat)
    requires
        eyes.to_multiset().len() == 0,
    ensures
        count_below(eyes, upto) == 0,
    decreases upto,
{
    if upto > 0 {
        lemma_count_below_of_none(eyes, (upto - 1) as nat);
        vstd::multiset::axiom_count_le_len(eyes.to_multiset(), (upto - 1) as u8);
    }
}

/// One more eye adds at most one to the count.
proof fn lemma_count_below_push(eyes: Seq<u8>, eye: u8, upto: nat)
    requires
        upto <= 256,
        eyes.push(eye).to_multiset() == eyes.to_multiset().insert(eye),
    ensures
        count_below(eyes.push(eye), upto) == count_below(eyes, upto) + if eye < upto {
            1nat
        } else {
            0nat
        },
    decreases upto,
{
    broadcast use vstd::multiset::group_multiset_axioms;

    if upto > 0 {
        lemma_count_below_push(eyes, eye, (upto - 1) as nat);
    }
}

/// The three steps out of the state with key `s`: with the left lever up,
/// down and at rest.
pub fn lever_steps(machine: &Machine, sizes: &Vec<usize>, s: usize) -> (r: Vec<(usize, u64)>)
    requires
        machine.wf(),
        machine.wheels@.len() <= 0x7fff_ffff,
        sizes@ == machine.sizes(),
        span(sizes@) <= usize::MAX,
        s < span(sizes@),
    ensures
        r@ == wheel_graph(*machine)(s),
        forall|i: int| 0 <= i < r@.len() ==> (#[trigger] r@[i]).0 < span(machine.sizes()),
{
    let positions: Vec<usize> = unpack(s, sizes);
    let up: Vec<usize> = pull_both(machine, &positions, LeftLever::Up);
    let down: Vec<usize> = pull_both(machine, &positions, LeftLever::Down);
    let rest: Vec<usize> = pull_both(machine, &positions, LeftLever::Rest);
    let mut out: Vec<(usize, u64)> = Vec::new();
    out.push((pack(&up, sizes), count_coins(machine, &up)));
    out.push((pack(&down, sizes), count_coins(machine, &down)));
    out.push((pack(&rest, sizes), count_coins(machine, &rest)));
    assert(out@ =~= wheel_graph(*machine)(s));
    out
}

/// The least and the greatest pay of `moves_left` pulls of the right lever
/// from where the wheels stand, the left lever being free before each
/// pull; `None` for a pay that does not fit in a `u64`.
pub fn dfs(moves_left: usize, positions: &Vec<usize>, machine: &Machine) -> (r: (
    Option<u64>,
    Option<u64>,
))
    requires
        machine.wf(),
        machine.wheels@.len() <= 0x7fff_ffff,
        digits_fit(positions@, machine.sizes()),
        moves_left < usize::MAX,
        span(machine.sizes()) * (moves_left + 1) <= usize::MAX,
    ensures
        r.0 == clip(
            extremal_value(
                wheel_graph(*machine),
                Combine::Min,
                0,
                packed(positions@, machine.sizes()) as usize,
                moves_left,
            ),
        ),
        r.1 == clip(
            extremal_value(
                wheel_graph(*machine),
                Combine::Max,
                0,
                packed(positions@, machine.sizes()) as usize,
                moves_left,
            ),
        ),
{
    let sizes: Vec<usize> = sizes_of(machine);
    proof {
        assert(crate::radix::radices_ok(sizes@)) by {
            assert forall|i: int| 0 <= i < sizes@.len() implies (#[trigger] sizes@[i]) >= 1 by {
                assert(positions@[i] < sizes@[i]);
            }
        }
        assert(span(sizes@) * (moves_left + 1) >= span(sizes@)) by (nonlinear_arith)
            requires
                moves_left + 1 >= 1,
        ;
    }
    let states: usize = match span_of(&sizes) {
        Some(n) => n,
        None => {
            return (None, None);
        },
    };
    let start: usize = pack(positions, &sizes);
    let transition = |s: usize| -> (list: Vec<(usize, u64)>)
        requires
            machine.wf(),
            machine.wheels@.len() <= 0x7fff_ffff,
            sizes@ == machine.sizes(),
            span(sizes@) <= usize::MAX,
            s < span(sizes@),
        ensures
            list@ == wheel_graph(*machine)(s),
            forall|i: int| 0 <= i < list@.len() ==> (#[trigger] list@[i]).0 < span(machine.sizes()),
        { lever_steps(machine, &sizes, s) };
    let least = match MemoCache::new(states, moves_left) {
        None => None,
        Some(cache) => {
            let mut cache = cache;
            solve_extremal(start, moves_left, &transition, Combine::Min, 0, &mut cache)
        },
    };
    let greatest = match MemoCache::new(states, moves_left) {
        None => None,
        Some(cache) => {
            let mut cache = cache;
            solve_extremal(start, moves_left, &transition, Combine::Max, 0, &mut cache)
        },
    };
    proof {
        assert(computes_successors(&transition, states, wheel_graph(*machine)));
    }
    (least, greatest)
}

/// As [`dfs`], with two caches that are kept from call to call, one for
/// the least pay and one for the greatest: a pay that a cache holds is
/// returned from it, and one that is worked out is stored in it.
pub fn dfs_cached(
    moves_left: usize,
    positions: &Vec<usize>,
    machine: &Machine,
    least: &mut MemoCache,
    greatest: &mut MemoCache,
) -> (r: (Option<u64>, Option<u64>))
    requires
        machine.wf(),
        machine.wheels@.len() <= 0x7fff_ffff,
        digits_fit(positions@, machine.sizes()),
        span(machine.sizes()) <= usize::MAX,
        old(least).wf(),
        old(greatest).wf(),
        old(least).states() == span(machine.sizes()),
        old(greatest).states() == span(machine.sizes()),
        moves_left < old(least).budgets(),
        moves_left < old(greatest).budgets(),
        extremal_cached(wheel_graph(*machine), Combine::Min, 0, old(least)@.entries),
        extremal_cached(wheel_graph(*machine), Combine::Max, 0, old(greatest)@.entries),
    ensures
        final(least).wf(),
        final(greatest).wf(),
        final(least).states() == old(least).states(),
        final(greatest).states() == old(greatest).states(),
        final(least).budgets() == old(least).budgets(),
        final(greatest).budgets() == old(greatest).budgets(),
        extremal_cached(wheel_graph(*machine), Combine::Min, 0, final(least)@.entries),
        extremal_cached(wheel_graph(*machine), Combine::Max, 0, final(greatest)@.entries),
        old(least)@.entries.submap_of(final(least)@.entries),
        old(greatest)@.entries.submap_of(final(greatest)@.entries),
        r.0 == clip(
            extremal_value(
                wheel_graph(*machine),
                Combine::Min,
                0,
                packed(positions@, machine.sizes()) as usize,
                moves_left,
            ),
        ),
        r.1 == clip(
            extremal_value(
                wheel_graph(*machine),
                Combine::Max,
                0,
                packed(positions@, machine.sizes()) as usize,
                moves_left,
            ),
        ),
        moves_left > 0 ==> (r.0 matches Some(v) ==> final(least)@.entries.contains_key(
            (packed(positions@, machine.sizes()) as usize, moves_left),
        ) && final(least)@.entries[(packed(positions@, machine.sizes()) as usize, moves_left)]
            == v),
        moves_left > 0 ==> (r.1 matches Some(v) ==> final(greatest)@.entries.contains_key(
            (packed(positions@, machine.sizes()) as usize, moves_left),
        ) && final(greatest)@.entries[(packed(positions@, machine.sizes()) as usize, moves_left)]
            == v),
        old(least)@.entries.contains_key((packed(positions@, machine.sizes()) as usize, moves_left))
            ==> final(least)@ == old(least)@,
        old(greatest)@.entries.contains_key(
            (packed(positions@, machine.sizes()) as usize, moves_left),
        ) ==> final(greatest)@ == old(greatest)@,
{
    let sizes: Vec<usize> = sizes_of(machine);
    let start: usize = pack(positions, &sizes);
    let ghost graph = wheel_graph(*machine);
    let ghost room = span(machine.sizes());
    let ghost ready = machine.wf() && machine.wheels@.len() <= 0x7fff_ffff && sizes@
        == machine.sizes() && span(sizes@) <= usize::MAX;
    let transition = |s: usize| -> (list: Vec<(usize, u64)>)
        requires
            ready,
            s < room,
        ensures
            list@ == graph(s),
            forall|i: int| 0 <= i < list@.len() ==> (#[trigger] list@[i]).0 < room,
        { lever_steps(machine, &sizes, s) };
    proof {
        assert(computes_successors(&transition, room as usize, graph));
    }
    let low = solve_extremal_in(
        start,
        moves_left,
        &transition,
        Combine::Min,
        0,
        least,
        Ghost(graph),
    );
    let high = solve_extremal_in(
        start,
        moves_left,
        &transition,
        Combine::Max,
        0,
        greatest,
        Ghost(graph),
    );
    (low, high)
}

} // verus!
