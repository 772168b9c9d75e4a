//! A shrine of blocks, built in layers: every layer is two columns
//! wider than the one before and as thick as its rule says, and layers
//! are added until the blocks at hand are used up.

use crate::puzzles::powers::mul_mod;
use vstd::arithmetic::div_mod::{lemma_mul_mod_noop_left, lemma_mul_mod_noop_right};
use vstd::prelude::*;

verus! {

/// The rule of a shrine: the thickness of a layer is that of the layer
/// before times `priests`, modulo `acolytes`, plus `extra`.
pub struct Rule {
    pub priests: u64,
    pub acolytes: u64,
    pub extra: u64,
}

/// The thickness of the `k`-th layer; the first is one block thick.
pub open spec fn thickness(rule: Rule, k: nat) -> nat
    decreases k,
{
    if k <= 1 {
        1
    } else {
        (((thickness(rule, (k - 1) as nat) * rule.priests) as int) % (rule.acolytes as int)
            + rule.extra) as nat
    }
}

/// The blocks that the first `k` layers need: the `i`-th layer is
/// `2 * i - 1` columns wide.
pub open spec fn required(rule: Rule, k: nat) -> nat
    decreases k,
{
    if k == 0 {
        0
    } else {
        (required(rule, (k - 1) as nat) + (2 * k - 1) * thickness(rule, k)) as nat
    }
}

/// Whether the shrine is complete with its `k`-th layer: the blocks at
/// hand are used up with it and not before.
pub open spec fn completes(rule: Rule, available: nat, k: nat) -> bool {
    k >= 1 && required(rule, k) >= available && (k > 1 ==> required(rule, (k - 1) as nat)
        < available)
}

/// The first layer needs one block.
pub proof fn lemma_first_layer(rule: Rule)
    ensures
        required(rule, 1) == 1,
        thickness(rule, 1) == 1,
{
    assert(thickness(rule, 1) == 1);
    assert(required(rule, 0) == 0);
    assert((2 * 1 - 1) * thickness(rule, 1) == 1) by (nonlinear_arith)
        requires
            thickness(rule, 1) == 1,
    ;
    assert(required(rule, 1) == (required(rule, 0) + (2 * 1 - 1) * thickness(rule, 1)) as nat);
}

/// More layers need no fewer blocks.
pub proof fn lemma_required_grows(rule: Rule, j: nat, k: nat)
    requires
        j <= k,
    ensures
        required(rule, j) <= required(rule, k),
    decreases k,
{
    if j < k {
        lemma_required_grows(rule, j, (k - 1) as nat);
        assert((2 * k - 1) * thickness(rule, k) >= 0) by (nonlinear_arith)
            requires
                k >= 1,
        ;
    }
}

/// At most one layer completes the shrine.
pub proof fn lemma_completes_once(rule: Rule, available: nat, j: nat, k: nat)
    requires
        completes(rule, available, j),
        completes(rule, available, k),
    ensures
        j == k,
{
    if j < k {
        lemma_required_grows(rule, j, (k - 1) as nat);
    }
    if k < j {
        lemma_required_grows(rule, k, (j - 1) as nat);
    }
}

/// Where a layer has no thickness and nothing is added, no later layer
/// has any, and the shrine never grows again.
pub proof fn lemma_stuck(rule: Rule, j: nat, k: nat)
    requires
        rule.acolytes > 0,
        rule.extra == 0,
        j >= 2,
        thickness(rule, j) == 0,
        j <= k,
    ensures
        thickness(rule, k) == 0,
        required(rule, k) == required(rule, j),
    decreases k,
{
    if j < k {
        lemma_stuck(rule, j, (k - 1) as nat);
        assert(thickness(rule, (k - 1) as nat) * rule.priests == 0) by (nonlinear_arith)
            requires
                thickness(rule, (k - 1) as nat) == 0,
        ;
        assert(thickness(rule, k) == (((thickness(rule, (k - 1) as nat) * rule.priests) as int) % (
        rule.acolytes as int) + rule.extra) as nat);
        assert((2 * k - 1) * thickness(rule, k) == 0) by (nonlinear_arith)
            requires
                thickness(rule, k) == 0,
        ;
    }
}

/// A shrine that is complete: its width, the blocks it needs, and the
/// thickness of each of its layers.
pub struct Shrine {
    pub width: u128,
    pub required: u128,
    pub layers: u128,
    /// The thickness of each layer, where the builder was asked to keep
    /// it.
    pub heights: Vec<u64>,
}

/// Whether `shrine` is the shrine that its last layer completes.
pub open spec fn is_shrine(rule: Rule, available: nat, keep: bool, shrine: Shrine) -> bool {
    let k = shrine.layers as nat;
    &&& completes(rule, available, k)
    &&& shrine.width == 2 * k - 1
    &&& shrine.required == required(rule, k)
    &&& forall|i: nat| 1 <= i <= k ==> #[trigger] thickness(rule, i) >= 1
    &&& keep ==> shrine.heights@.len() == k && forall|i: int|
        0 <= i < k ==> #[trigger] shrine.heights@[i] == thickness(rule, (i + 1) as nat)
}

/// Builds the shrine layer by layer until the blocks at hand are used
/// up, and keeps the thickness of every layer where `keep` holds.
/// Returns `None` where the blocks are never used up: a layer has no
/// thickness, and none after it.
pub fn build(rule: &Rule, available: u64, keep: bool) -> (r: Option<Shrine>)
    requires
        rule.acolytes > 0,
        rule.acolytes + rule.extra <= u64::MAX,
    ensures
        r matches Some(shrine) ==> is_shrine(*rule, available as nat, keep, shrine),
        r.is_none() <==> forall|k: nat| !completes(*rule, available as nat, k),
{
    let mut heights: Vec<u64> = Vec::new();
    if keep {
        heights.push(1);
    }
    let mut height: u64 = 1;
    let mut width: u128 = 1;
    let mut needed: u128 = 1;
    let mut layers: u128 = 1;
    proof {
        lemma_first_layer(*rule);
    }
    while needed < available as u128
        invariant
            rule.acolytes > 0,
            rule.acolytes + rule.extra <= u64::MAX,
            layers >= 1,
            width == 2 * layers - 1,
            width <= needed,
            height == thickness(*rule, layers as nat),
            needed == required(*rule, layers as nat),
            layers > 1 ==> required(*rule, (layers - 1) as nat) < available,
            forall|i: nat| 1 <= i <= layers ==> #[trigger] thickness(*rule, i) >= 1,
            keep ==> heights@.len() == layers && forall|i: int|
                0 <= i < layers ==> #[trigger] heights@[i] == thickness(*rule, (i + 1) as nat),
        decreases
                if needed < available {
                    available - needed
                } else {
                    0
                },
    {
        let ghost before = layers as nat;
        height = mul_mod(height, rule.priests, rule.acolytes) + rule.extra;
        assert(height == thickness(*rule, (before + 1) as nat));
        if height == 0 {
            proof {
                assert forall|j: nat| !completes(*rule, available as nat, j) by {
                    if completes(*rule, available as nat, j) {
                        if j <= before {
                            lemma_required_grows(*rule, j, before);
                        } else {
                            lemma_stuck(*rule, (before + 1) as nat, j);
                            assert((2 * (before + 1) - 1) * thickness(
                                *rule,
                                (before + 1) as nat,
                            ) == 0) by (nonlinear_arith)
                                requires
                                    thickness(*rule, (before + 1) as nat) == 0,
                            ;
                        }
                    }
                }
            }
            return None;
        }
        width = width + 2;
        layers = layers + 1;
        assert(required(*rule, (before + 1) as nat) == needed + width * height);
        assert(width <= width * height <= 0xffff_ffff_ffff_ffff * 0xffff_ffff_ffff_ffff)
            by (nonlinear_arith)
            requires
                1 <= height <= 0xffff_ffff_ffff_ffff,
                0 <= width <= 0xffff_ffff_ffff_ffff,
        ;
        needed = needed + width * (height as u128);
        if keep {
            heights.push(height);
        }
    }
    proof {
        assert(completes(*rule, available as nat, layers as nat));
    }
    Some(Shrine { width, required: needed, layers, heights })
}

/// The blocks that are left over when the shrine is complete with its
/// `k`-th layer, times its width.
pub open spec fn left_over(rule: Rule, available: nat, k: nat) -> int {
    (2 * k - 1) * (required(rule, k) - available)
}

/// The blocks left over, times the width of the shrine, as far as the
/// number fits.
pub open spec fn answer(v: int) -> Option<u64> {
    if 0 <= v <= u64::MAX {
        Some(v as u64)
    } else {
        None
    }
}

/// The rule of a plain shrine: every layer is one block thick.
pub open spec fn plain() -> Rule {
    Rule { priests: 1, acolytes: 2, extra: 0 }
}

/// The width of the shrine times the blocks that are left over.
fn width_times_rest(shrine: &Shrine, available: u64) -> (r: Option<u64>)
    requires
        shrine.required >= available,
        shrine.width >= 1,
    ensures
        r == answer(shrine.width * (shrine.required - available)),
{
    let rest: u128 = shrine.required - available as u128;
    assert(shrine.width * rest >= rest) by (nonlinear_arith)
        requires
            shrine.width >= 1,
            rest >= 0,
    ;
    match shrine.width.checked_mul(rest) {
        Some(v) => if v <= 0xffff_ffff_ffff_ffff {
            Some(v as u64)
        } else {
            None
        },
        None => None,
    }
}

/// The answer for the shrine that `rule` builds of `available` blocks.
fn missing_blocks(rule: &Rule, available: u64) -> (r: Option<u64>)
    requires
        rule.acolytes > 0,
        rule.acolytes + rule.extra <= u64::MAX,
    ensures
        forall|k: nat| #[trigger]
            completes(*rule, available as nat, k) ==> r == answer(
                left_over(*rule, available as nat, k),
            ),
        r.is_some() ==> exists|k: nat| completes(*rule, available as nat, k),
{
    match build(rule, available, false) {
        None => None,
        Some(shrine) => {
            proof {
                assert forall|k: nat| #[trigger]
                    completes(*rule, available as nat, k) implies k == shrine.layers by {
                    lemma_completes_once(*rule, available as nat, k, shrine.layers as nat);
                }
            }
            width_times_rest(&shrine, available)
        },
    }
}

/// A plain shrine of `available` blocks: the width of the smallest that
/// uses them up, times the blocks that are missing for it. Without
/// blocks there is no shrine, and nothing is missing.
pub fn part1(available: u64) -> (r: Option<u64>)
    ensures
        available == 0 ==> r == Some(0u64),
        available > 0 ==> forall|k: nat| #[trigger]
            completes(plain(), available as nat, k) ==> r == answer(
                left_over(plain(), available as nat, k),
            ),
        available > 0 && r.is_some() ==> exists|k: nat| completes(plain(), available as nat, k),
{
    if available == 0 {
        return Some(0);
    }
    let rule = Rule { priests: 1, acolytes: 2, extra: 0 };
    missing_blocks(&rule, available)
}

/// A shrine whose layers grow by the rule of the priests: the width of
/// the smallest that uses up the blocks, times the blocks that are
/// missing for it; `None` where no shrine uses them up, or the number
/// does not fit.
pub fn part2(priests: u64, acolytes: u64, available: u64) -> (r: Option<u64>)
    requires
        acolytes > 0,
    ensures
        forall|k: nat| #[trigger]
            completes(Rule { priests, acolytes, extra: 0 }, available as nat, k) ==> r == answer(
                left_over(Rule { priests, acolytes, extra: 0 }, available as nat, k),
            ),
        r.is_some() ==> exists|k: nat|
            completes(Rule { priests, acolytes, extra: 0 }, available as nat, k),
{
    let rule = Rule { priests, acolytes, extra: 0 };
    missing_blocks(&rule, available)
}

/// The height of the `i`-th column of a shrine of `k` layers, counted
/// from the middle one, which is column 0: the thickness of all layers
/// from the `i + 1`-th on.
pub open spec fn column(rule: Rule, k: nat, i: nat) -> nat
    decreases k - i,
{
    if i >= k {
        0
    } else {
        thickness(rule, i + 1) + column(rule, k, i + 1)
    }
}

/// The blocks that are taken out of the `i`-th column and its mirror
/// image: none out of the outermost columns.
pub open spec fn taken_out(rule: Rule, k: nat, i: nat) -> nat {
    let each = ((rule.priests * (2 * k - 1) * column(rule, k, i)) as int % (rule.acolytes as int)) as nat;
    if i == 0 {
        each
    } else {
        2 * each
    }
}

/// The blocks that are taken out of the columns from the `i`-th on.
pub open spec fn empties(rule: Rule, k: nat, i: nat) -> nat
    decreases k - i,
{
    if i + 1 >= k {
        0
    } else {
        taken_out(rule, k, i) + empties(rule, k, i + 1)
    }
}

/// A shrine whose layers are all at least one block thick needs at
/// least as many blocks as the square of the number of its layers.
pub proof fn lemma_required_square(rule: Rule, k: nat)
    requires
        forall|i: nat| 1 <= i <= k ==> #[trigger] thickness(rule, i) >= 1,
    ensures
        required(rule, k) >= k * k,
    decreases k,
{
    if k > 0 {
        lemma_required_square(rule, (k - 1) as nat);
        assert((2 * k - 1) * thickness(rule, k) >= 2 * k - 1) by (nonlinear_arith)
            requires
                thickness(rule, k) >= 1,
                k >= 1,
        ;
        let j = (k - 1) as nat;
        assert(j * j + 2 * k - 1 == k * k) by (nonlinear_arith)
            requires
                j == k - 1,
        ;
        assert(required(rule, k) == required(rule, j) + (2 * k - 1) * thickness(rule, k));
    } else {
        assert(k * k == 0) by (nonlinear_arith)
            requires
                k == 0,
        ;
    }
}

/// A shrine with blocks taken out of its columns: the blocks that the
/// smallest shrine needs that uses up the blocks at hand, less those
/// taken out and those at hand; `None` where more are taken out than
/// are missing, or the number does not fit.
pub fn part3(priests: u64, acolytes: u64, available: u64) -> (r: Option<u64>)
    requires
        acolytes > 0,
        acolytes <= 0x7fff_ffff_ffff_ffff,
    ensures
        forall|k: nat| #[trigger]
            completes(Rule { priests, acolytes, extra: acolytes }, available as nat, k) ==> r
                == answer(
                required(Rule { priests, acolytes, extra: acolytes }, k) - empties(
                    Rule { priests, acolytes, extra: acolytes },
                    k,
                    0,
                ) - available,
            ),
        r.is_some() ==> exists|k: nat|
            completes(Rule { priests, acolytes, extra: acolytes }, available as nat, k),
{
    let rule = Rule { priests, acolytes, extra: acolytes };
    let shrine: Shrine = match build(&rule, available, true) {
        None => {
            return None;
        },
        Some(shrine) => shrine,
    };
    let ghost k = shrine.heights@.len();
    let layers: usize = shrine.heights.len();
    proof {
        assert forall|j: nat| #[trigger]
            completes(rule, available as nat, j) implies j == k by {
            lemma_completes_once(rule, available as nat, j, k);
        }
        if k > 1 {
            lemma_required_square(rule, (k - 1) as nat);
            assert(k - 1 < 0x1_0000_0000) by (nonlinear_arith)
                requires
                    (k - 1) * (k - 1) < 0x1_0000_0000_0000_0000,
                    k >= 1,
            ;
        }
    }
    let across: u64 = mul_mod(priests, (shrine.width % (acolytes as u128)) as u64, acolytes);
    let mut total: u128 = 0;
    let mut empty: u128 = 0;
    let mut i: usize = layers;
    while i > 0
        invariant
            i <= layers,
            layers == k,
            k == shrine.heights@.len(),
            k <= 0x1_0000_0000,
            acolytes > 0,
            acolytes <= 0x7fff_ffff_ffff_ffff,
            rule == (Rule { priests, acolytes, extra: acolytes }),
            shrine.width == 2 * k - 1,
            across == (priests * (shrine.width % (acolytes as u128))) % (acolytes as int),
            forall|j: int|
                0 <= j < k ==> #[trigger] shrine.heights@[j] == thickness(rule, (j + 1) as nat),
            total == column(rule, k, i as nat),
            total <= (k - i) * 0xffff_ffff_ffff_ffff,
            empty == empties(rule, k, i as nat),
            empty <= (k - i) * 0xffff_ffff_ffff_ffff,
        decreases i,
    {
        i -= 1;
        let height: u64 = shrine.heights[i];
        assert(height == thickness(rule, (i + 1) as nat));
        assert((k - i) * 0xffff_ffff_ffff_ffff == (k - (i + 1)) * 0xffff_ffff_ffff_ffff
            + 0xffff_ffff_ffff_ffff) by (nonlinear_arith);
        assert((k - i) * 0xffff_ffff_ffff_ffff <= 0x1_0000_0000 * 0xffff_ffff_ffff_ffff)
            by (nonlinear_arith)
            requires
                0 <= k - i <= 0x1_0000_0000,
        ;
        total = total + height as u128;
        if i + 1 < layers {
            let each: u64 = mul_mod(across, (total % (acolytes as u128)) as u64, acolytes);
            proof {
                let a = acolytes as int;
                let w = shrine.width as int;
                lemma_mul_mod_noop_right(priests as int, w, a);
                lemma_mul_mod_noop_left(priests * w, total as int, a);
                lemma_mul_mod_noop_right(across as int, total as int, a);
                assert(each == ((priests * w) * total) % a);
                assert(priests * w * total == (priests * w) * total);
                assert(w == 2 * k - 1);
            }
            let out: u128 = if i == 0 {
                each as u128
            } else {
                2 * (each as u128)
            };
            assert(out == taken_out(rule, k, i as nat));
            empty = empty + out;
        }
    }
    let missing: u128 = shrine.required - available as u128;
    if empty <= missing && missing - empty <= 0xffff_ffff_ffff_ffff {
        Some((missing - empty) as u64)
    } else {
        None
    }
}

} // verus!
