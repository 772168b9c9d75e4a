//! Two puzzles on lists: a place in a list of names that moves left and
//! right as instructions say, and novices in a row who look for the
//! mentors of their craft that stand before them.

use vstd::prelude::*;

verus! {

/// How the place is brought back into the list after a move: held at
/// the ends, carried round the ends, or carried round and then swapped
/// to the front.
#[derive(Clone, Copy, Debug, PartialEq, Eq, Structural)]
pub enum Rule {
    Clamp,
    Wrap,
    Swap,
}

/// The place after a move by `by` from `pos` in a list of `n` names: held
/// at the ends, or carried round them.
pub open spec fn moved(rule: Rule, n: int, pos: int, by: int) -> int {
    let to = pos + by;
    if rule == Rule::Clamp {
        if to < 0 {
            0
        } else if to > n - 1 {
            n - 1
        } else {
            to
        }
    } else {
        to % n
    }
}

/// The order of the names and the place after the first `k` moves: the
/// order as a list of the places that the names had at first.
pub open spec fn after_moves(rule: Rule, n: int, moves: Seq<i32>, k: nat) -> (Seq<usize>, int)
    decreases k,
{
    if k == 0 || k > moves.len() {
        (Seq::new(n as nat, |i: int| i as usize), 0)
    } else {
        let before = after_moves(rule, n, moves, (k - 1) as nat);
        let to = moved(rule, n, before.1, moves[k - 1] as int);
        if rule == Rule::Swap {
            (before.0.update(0, before.0[to]).update(to, before.0[0]), 0)
        } else {
            (before.0, to)
        }
    }
}

/// The moves keep the list at its length and the place inside it.
pub proof fn lemma_after_moves(rule: Rule, n: int, moves: Seq<i32>, k: nat)
    requires
        n >= 1,
    ensures
        after_moves(rule, n, moves, k).0.len() == n,
        0 <= after_moves(rule, n, moves, k).1 < n,
    decreases k,
{
    if k > 0 && k <= moves.len() {
        lemma_after_moves(rule, n, moves, (k - 1) as nat);
    }
}

/// Follows the moves, to the left for a negative number, in a list of
/// `n` names. Returns the place in the first order of the list of the
/// name at which the moves end.
pub fn follow(rule: Rule, n: usize, moves: &Vec<i32>) -> (r: usize)
    requires
        1 <= n <= 0x7fff_ffff,
    ensures
        r == after_moves(rule, n as int, moves@, moves@.len()).0[after_moves(
            rule,
            n as int,
            moves@,
            moves@.len(),
        ).1],
        r < n,
{
    let mut names: Vec<usize> = Vec::new();
    let mut i: usize = 0;
    while i < n
        invariant
            i <= n,
            names@.len() == i,
            forall|j: int| 0 <= j < i ==> names@[j] == j,
        decreases n - i,
    {
        names.push(i);
        i += 1;
    }
    assert(names@ =~= Seq::new(n as nat, |i: int| i as usize));
    let mut pos: usize = 0;
    let mut k: usize = 0;
    while k < moves.len()
        invariant
            k <= moves@.len(),
            1 <= n <= 0x7fff_ffff,
            names@.len() == n,
            pos < n,
            forall|j: int| 0 <= j < n ==> (#[trigger] names@[j]) < n,
            (names@, pos as int) == after_moves(rule, n as int, moves@, k as nat),
        decreases moves@.len() - k,
    {
        let to: i64 = pos as i64 + moves[k] as i64;
        let at: usize = match rule {
            Rule::Clamp => if to < 0 {
                0
            } else if to > n as i64 - 1 {
                n - 1
            } else {
                to as usize
            },
            _ => if to >= 0 {
                (to as u64 % (n as u64)) as usize
            } else {
                let back: u64 = (-to) as u64 % (n as u64);
                proof {
                    let m = n as int;
                    let q = (-to) / m;
                    vstd::arithmetic::div_mod::lemma_fundamental_div_mod(-to as int, m);
                    assert(m * q == q * m && (-q - 1) * m == -(q * m) - m && (-q) * m == -(q * m))
                        by (nonlinear_arith);
                    if back == 0 {
                        vstd::arithmetic::div_mod::lemma_fundamental_div_mod_converse(
                            to as int,
                            m,
                            -q,
                            0,
                        );
                    } else {
                        vstd::arithmetic::div_mod::lemma_fundamental_div_mod_converse(
                            to as int,
                            m,
                            -q - 1,
                            m - back,
                        );
                    }
                }
                if back == 0 {
                    0
                } else {
                    n - back as usize
                }
            },
        };
        assert(at == moved(rule, n as int, pos as int, moves@[k as int] as int));
        match rule {
            Rule::Swap => {
                let first: usize = names[0];
                let other: usize = names[at];
                names.set(0, other);
                names.set(at, first);
                pos = 0;
            },
            _ => {
                pos = at;
            },
        }
        k += 1;
    }
    names[pos]
}

/// The number of mentors of the craft `craft`, a capital letter, among
/// the first `k` of the row.
pub open spec fn mentors_before(row: Seq<u8>, craft: u8, k: nat) -> nat
    decreases k,
{
    if k == 0 || k > row.len() {
        0
    } else {
        mentors_before(row, craft, (k - 1) as nat) + if row[k - 1] == craft {
            1nat
        } else {
            0nat
        }
    }
}

/// The number of pairs of a novice of the craft among the first `k` of
/// the row, marked by the small letter, and a mentor that stands before
/// the novice.
pub open spec fn pairs(row: Seq<u8>, craft: u8, k: nat) -> nat
    decreases k,
{
    if k == 0 || k > row.len() {
        0
    } else {
        pairs(row, craft, (k - 1) as nat) + if row[k - 1] == craft + 32 {
            mentors_before(row, craft, (k - 1) as nat)
        } else {
            0nat
        }
    }
}

/// The number of pairs of a novice and a mentor of the craft `craft`
/// that stands before the novice; `None` where it does not fit.
pub fn count_pairs(row: &Vec<u8>, craft: u8) -> (r: Option<u64>)
    requires
        65 <= craft <= 90,
    ensures
        r.is_some() <==> pairs(row@, craft, row@.len()) <= u64::MAX,
        r matches Some(n) ==> n == pairs(row@, craft, row@.len()),
{
    let mut mentors: u64 = 0;
    let mut total: u64 = 0;
    let mut k: usize = 0;
    while k < row.len()
        invariant
            k <= row@.len(),
            65 <= craft <= 90,
            mentors == mentors_before(row@, craft, k as nat),
            mentors <= k,
            total == pairs(row@, craft, k as nat),
        decreases row@.len() - k,
    {
        let b: u8 = row[k];
        if b == craft {
            mentors += 1;
        } else if b == craft + 32 {
            match total.checked_add(mentors) {
                Some(t) => {
                    total = t;
                },
                None => {
                    proof {
                        lemma_pairs_grow(row@, craft, (k + 1) as nat, row@.len());
                    }
                    return None;
                },
            }
        }
        k += 1;
    }
    Some(total)
}

/// More of the row holds no fewer pairs.
pub proof fn lemma_pairs_grow(row: Seq<u8>, craft: u8, j: nat, k: nat)
    requires
        j <= k <= row.len(),
    ensures
        pairs(row, craft, j) <= pairs(row, craft, k),
    decreases k,
{
    if j < k {
        lemma_pairs_grow(row, craft, j, (k - 1) as nat);
    }
}

} // verus!
