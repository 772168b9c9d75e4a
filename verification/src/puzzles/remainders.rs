//! The remainders of the powers of a number: the number that the
//! remainders write, the newest in front, and their sum.

use crate::puzzles::dancers::{digits, lemma_ten_to_positive, shift_for, ten_to};
use crate::puzzles::powers::{mul_mod, pow_mod};
use std::collections::HashMap;
use vstd::arithmetic::div_mod::lemma_mul_mod_noop_left;
use vstd::arithmetic::power::{lemma_pow1, lemma_pow_adds, pow};
use vstd::prelude::*;

verus! {

/// The `i`-th remainder: one to begin with, then the remainder before
/// times `n`, modulo `m`.
pub open spec fn remainder(n: nat, m: nat, i: nat) -> nat
    decreases i,
{
    if i == 0 {
        1
    } else {
        (remainder(n, m, (i - 1) as nat) * n) % m
    }
}

/// From the first on, the `i`-th remainder is that of the `i`-th power.
pub proof fn lemma_remainder_is_power(n: nat, m: nat, i: nat)
    requires
        m > 0,
        i > 0,
    ensures
        remainder(n, m, i) == pow(n as int, i) % (m as int),
    decreases i,
{
    if i == 1 {
        lemma_pow1(n as int);
        assert(remainder(n, m, 0) == 1);
        assert(1 * n == n) by (nonlinear_arith);
    } else {
        lemma_remainder_is_power(n, m, (i - 1) as nat);
        let before = pow(n as int, (i - 1) as nat);
        lemma_mul_mod_noop_left(before, n as int, m as int);
        lemma_pow_adds(n as int, (i - 1) as nat, 1);
        lemma_pow1(n as int);
        assert(((i - 1) as nat + 1) as nat == i);
        assert(pow(n as int, i) == before * n);
        assert(remainder(n, m, i) == (remainder(n, m, (i - 1) as nat) * n) % m);
        assert(remainder(n, m, (i - 1) as nat) as int == before % (m as int));
    }
}

/// The number of digits of the remainders after the `from`-th up to the
/// `upto`-th.
pub open spec fn width(n: nat, m: nat, from: nat, upto: nat) -> nat
    decreases upto,
{
    if upto <= from {
        0
    } else {
        width(n, m, from, (upto - 1) as nat) + digits(remainder(n, m, upto))
    }
}

/// The number that the remainders after the `from`-th up to the `upto`-th
/// write, the newest in front.
pub open spec fn written(n: nat, m: nat, from: nat, upto: nat) -> nat
    decreases upto,
{
    if upto <= from {
        0
    } else {
        written(n, m, from, (upto - 1) as nat) + ten_to(width(n, m, from, (upto - 1) as nat))
            * remainder(n, m, upto)
    }
}

/// Every remainder more makes the number no smaller.
pub proof fn lemma_written_grows(n: nat, m: nat, from: nat, k: nat, upto: nat)
    requires
        k <= upto,
    ensures
        written(n, m, from, k) <= written(n, m, from, upto),
    decreases upto,
{
    if k < upto {
        lemma_written_grows(n, m, from, k, (upto - 1) as nat);
        if upto > from {
            assert(ten_to(width(n, m, from, (upto - 1) as nat)) * remainder(n, m, upto) >= 0)
                by (nonlinear_arith);
        }
    }
}

/// A power of ten with a sum for exponent is the product of the powers.
pub proof fn lemma_ten_to_adds(a: nat, b: nat)
    ensures
        ten_to(a + b) == ten_to(a) * ten_to(b),
    decreases b,
{
    if b == 0 {
        assert(ten_to(a) * 1 == ten_to(a)) by (nonlinear_arith);
    } else {
        lemma_ten_to_adds(a, (b - 1) as nat);
        assert(ten_to(a + b) == 10 * ten_to((a + b - 1) as nat));
        assert(10 * (ten_to(a) * ten_to((b - 1) as nat)) == ten_to(a) * (10 * ten_to((b - 1) as nat)))
            by (nonlinear_arith);
    }
}

/// The number that `count` remainders write, the newest in front, from
/// the remainder `p`, which is the `from`-th, on; `None` where the number
/// does not fit in a `u64`.
fn write_remainders(p: u64, n: u64, m: u64, count: u64, Ghost(from): Ghost<nat>) -> (r: Option<u64>)
    requires
        m > 0,
        p == remainder(n as nat, m as nat, from),
    ensures
        r.is_some() <==> written(n as nat, m as nat, from, (from + count) as nat) <= u64::MAX,
        r matches Some(v) ==> v == written(n as nat, m as nat, from, (from + count) as nat),
{
    let ghost nn = n as nat;
    let ghost mm = m as nat;
    let mut p: u64 = p;
    let mut f: Option<u64> = Some(1);
    let mut r: u64 = 0;
    let mut k: u64 = 0;
    while k < count
        invariant
            k <= count,
            m > 0,
            nn == n,
            mm == m,
            p == remainder(nn, mm, (from + k) as nat),
            r == written(nn, mm, from, (from + k) as nat),
            match f {
                Some(a) => a == ten_to(width(nn, mm, from, (from + k) as nat)),
                None => ten_to(width(nn, mm, from, (from + k) as nat)) > u64::MAX,
            },
        decreases count - k,
    {
        let ghost w = width(nn, mm, from, (from + k) as nat);
        let ghost upto = (from + k + 1) as nat;
        p = mul_mod(p, n, m);
        assert(p == remainder(nn, mm, upto));
        assert(written(nn, mm, from, upto) == r + ten_to(w) * p);
        assert(width(nn, mm, from, upto) == w + digits(p as nat));
        proof {
            lemma_written_grows(nn, mm, from, upto, (from + count) as nat);
            lemma_ten_to_adds(w, digits(p as nat));
            lemma_ten_to_positive(w);
            lemma_ten_to_positive(digits(p as nat));
        }
        if p > 0 {
            let term: Option<u64> = match f {
                Some(a) => a.checked_mul(p),
                None => {
                    assert(ten_to(w) * p >= ten_to(w)) by (nonlinear_arith)
                        requires
                            p >= 1,
                            ten_to(w) >= 0,
                    ;
                    None
                },
            };
            let sum: Option<u64> = match term {
                Some(t) => r.checked_add(t),
                None => None,
            };
            match sum {
                Some(s) => {
                    r = s;
                },
                None => {
                    return None;
                },
            }
        } else {
            assert(ten_to(w) * p == 0) by (nonlinear_arith)
                requires
                    p == 0,
            ;
        }
        f = match f {
            Some(a) => match shift_for(p) {
                Some(s) => {
                    let moved: Option<u64> = a.checked_mul(s);
                    moved
                },
                None => {
                    assert(ten_to(w) * ten_to(digits(p as nat)) >= ten_to(digits(p as nat)))
                        by (nonlinear_arith)
                        requires
                            ten_to(w) >= 1,
                            ten_to(digits(p as nat)) >= 0,
                    ;
                    None
                },
            },
            None => {
                assert(ten_to(w) * ten_to(digits(p as nat)) >= ten_to(w)) by (nonlinear_arith)
                    requires
                        ten_to(w) >= 0,
                        ten_to(digits(p as nat)) >= 1,
                ;
                None
            },
        };
        k += 1;
    }
    Some(r)
}

/// The number that the remainders of the first `e` powers of `n` modulo
/// `m` write, the newest in front; `None` where it does not fit.
pub fn eni_part1(n: u64, e: u64, m: u64) -> (r: Option<u64>)
    requires
        m > 0,
    ensures
        r.is_some() <==> written(n as nat, m as nat, 0, e as nat) <= u64::MAX,
        r matches Some(v) ==> v == written(n as nat, m as nat, 0, e as nat),
{
    write_remainders(1, n, m, e, Ghost(0))
}

/// The number that the remainders of the last five of the first `e`
/// powers of `n` modulo `m` write, the newest in front; `None` where it
/// does not fit.
pub fn eni_part2(n: u64, e: u64, m: u64) -> (r: Option<u64>)
    requires
        m > 0,
        e >= 5,
    ensures
        r.is_some() <==> written(n as nat, m as nat, (e - 5) as nat, e as nat) <= u64::MAX,
        r matches Some(v) ==> v == written(n as nat, m as nat, (e - 5) as nat, e as nat),
{
    let p: u64 = if e == 5 {
        1
    } else {
        pow_mod(n, e - 5, m)
    };
    proof {
        if e > 5 {
            lemma_remainder_is_power(n as nat, m as nat, (e - 5) as nat);
        }
    }
    write_remainders(p, n, m, 5, Ghost((e - 5) as nat))
}

/// The sum of the first `i` remainders after the one to begin with.
pub open spec fn remainder_sum(n: nat, m: nat, i: nat) -> nat
    decreases i,
{
    if i == 0 {
        0
    } else {
        remainder_sum(n, m, (i - 1) as nat) + remainder(n, m, i)
    }
}

/// The sum of more remainders is no smaller.
pub proof fn lemma_sum_grows(n: nat, m: nat, k: nat, i: nat)
    requires
        k <= i,
    ensures
        remainder_sum(n, m, k) <= remainder_sum(n, m, i),
    decreases i,
{
    if k < i {
        lemma_sum_grows(n, m, k, (i - 1) as nat);
    }
}

/// Where a remainder comes again, all that follow come again, and their
/// sums grow alike.
pub proof fn lemma_repeats(n: nat, m: nat, j: nat, i: nat, t: nat)
    requires
        remainder(n, m, j) == remainder(n, m, i),
    ensures
        remainder(n, m, j + t) == remainder(n, m, i + t),
        remainder_sum(n, m, j + t) - remainder_sum(n, m, j) == remainder_sum(n, m, i + t)
            - remainder_sum(n, m, i),
    decreases t,
{
    if t > 0 {
        lemma_repeats(n, m, j, i, (t - 1) as nat);
        assert(remainder(n, m, j + t) == (remainder(n, m, (j + t - 1) as nat) * n) % m);
        assert(remainder(n, m, i + t) == (remainder(n, m, (i + t - 1) as nat) * n) % m);
        assert(remainder_sum(n, m, j + t) == remainder_sum(n, m, (j + t - 1) as nat) + remainder(
            n,
            m,
            j + t,
        ));
        assert(remainder_sum(n, m, i + t) == remainder_sum(n, m, (i + t - 1) as nat) + remainder(
            n,
            m,
            i + t,
        ));
    }
}

/// After a whole number of rounds of a cycle the remainder is the same,
/// and the sum has grown by the sum of the cycle for each round.
pub proof fn lemma_rounds(n: nat, m: nat, j: nat, i: nat, times: nat)
    requires
        j < i,
        remainder(n, m, j) == remainder(n, m, i),
    ensures
        remainder(n, m, (i + (i - j) * times) as nat) == remainder(n, m, i),
        remainder_sum(n, m, (i + (i - j) * times) as nat) == remainder_sum(n, m, i) + times * (
        remainder_sum(n, m, i) - remainder_sum(n, m, j)),
    decreases times,
{
    let c = (i - j) as nat;
    let round = remainder_sum(n, m, i) - remainder_sum(n, m, j);
    if times == 0 {
        assert((i - j) * times == 0) by (nonlinear_arith)
            requires
                times == 0,
        ;
        assert(times * round == 0) by (nonlinear_arith)
            requires
                times == 0,
        ;
    } else {
        lemma_rounds(n, m, j, i, (times - 1) as nat);
        let at = (i + c * (times - 1)) as nat;
        assert(c * (times - 1) >= 0) by (nonlinear_arith)
            requires
                c >= 0,
                times >= 1,
        ;
        assert(at + c == i + (i - j) * times) by (nonlinear_arith)
            requires
                at == i + c * (times - 1),
                c == i - j,
        ;
        assert(j + c == i);
        lemma_repeats(n, m, j, at, c);
        assert(times * round == (times - 1) * round + round) by (nonlinear_arith);
    }
}

/// The sum of the remainders of the first `e` powers of `n` modulo `m`;
/// `None` where it does not fit in a `u64`. Where a remainder comes
/// again, whole rounds of the cycle are added at once.
pub fn eni_part3(n: u64, e: u64, m: u64) -> (r: Option<u64>)
    requires
        m > 0,
    ensures
        r.is_some() <==> remainder_sum(n as nat, m as nat, e as nat) <= u64::MAX,
        r matches Some(v) ==> v == remainder_sum(n as nat, m as nat, e as nat),
{
    broadcast use vstd::std_specs::hash::group_hash_axioms;

    let ghost nn = n as nat;
    let ghost mm = m as nat;
    let mut seen: HashMap<u64, (u64, u64)> = HashMap::new();
    let mut p: u64 = 1;
    let mut sum: u64 = 0;
    let mut i: u64 = 0;
    while i < e
        invariant
            i <= e,
            m > 0,
            nn == n,
            mm == m,
            p == remainder(nn, mm, i as nat),
            sum == remainder_sum(nn, mm, i as nat),
            forall|k: u64| #[trigger]
                seen@.contains_key(k) ==> seen@[k].0 < i && remainder(nn, mm, seen@[k].0 as nat) == k
                    && seen@[k].1 == remainder_sum(nn, mm, seen@[k].0 as nat),
        decreases e - i,
    {
        let known: Option<(u64, u64)> = match seen.get(&p) {
            Some(entry) => Some(*entry),
            None => None,
        };
        match known {
            Some((j, old_sum)) => {
                assert(seen@.contains_key(p) && seen@[p] == (j, old_sum));
                let cycle_len: u64 = i - j;
                proof {
                    lemma_sum_grows(nn, mm, j as nat, i as nat);
                }
                let round: u64 = sum - old_sum;
                let times: u64 = (e - i) / cycle_len;
                proof {
                    lemma_rounds(nn, mm, j as nat, i as nat, times as nat);
                    assert(cycle_len * times <= e - i) by (nonlinear_arith)
                        requires
                            times == (e - i) / (cycle_len as int),
                            cycle_len > 0,
                            e - i >= 0,
                    ;
                    lemma_sum_grows(nn, mm, (i + cycle_len * times) as nat, e as nat);
                }
                let more: Option<u64> = match round.checked_mul(times) {
                    Some(whole) => sum.checked_add(whole),
                    None => None,
                };
                match more {
                    Some(s) => {
                        assert(round * times == times * round) by (nonlinear_arith);
                        sum = s;
                    },
                    None => {
                        assert(round * times == times * round) by (nonlinear_arith);
                        return None;
                    },
                }
                i = i + cycle_len * times;
                seen.clear();
            },
            None => {},
        }
        if i < e {
            seen.insert(p, (i, sum));
            p = mul_mod(p, n, m);
            proof {
                lemma_sum_grows(nn, mm, (i + 1) as nat, e as nat);
            }
            match sum.checked_add(p) {
                Some(s) => {
                    sum = s;
                },
                None => {
                    return None;
                },
            }
            i += 1;
        }
    }
    Some(sum)
}

/// The number of the remainders as the part of the puzzle asks for it:
/// all remainders written in part 1, the last five written in part 2,
/// and the sum of all in part 3.
pub fn eni(n: u64, e: u64, m: u64, part: usize) -> (r: Option<u64>)
    requires
        m > 0,
        1 <= part <= 3,
        part == 2 ==> e >= 5,
    ensures
        part == 1 ==> (r.is_some() <==> written(n as nat, m as nat, 0, e as nat) <= u64::MAX) && (
        r matches Some(v) ==> v == written(n as nat, m as nat, 0, e as nat)),
        part == 2 ==> (r.is_some() <==> written(n as nat, m as nat, (e - 5) as nat, e as nat)
            <= u64::MAX) && (r matches Some(v) ==> v == written(
            n as nat,
            m as nat,
            (e - 5) as nat,
            e as nat,
        )),
        part == 3 ==> (r.is_some() <==> remainder_sum(n as nat, m as nat, e as nat) <= u64::MAX)
            && (r matches Some(v) ==> v == remainder_sum(n as nat, m as nat, e as nat)),
{
    if part == 1 {
        eni_part1(n, e, m)
    } else if part == 2 {
        eni_part2(n, e, m)
    } else {
        eni_part3(n, e, m)
    }
}

} // verus!
