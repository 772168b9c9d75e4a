//! Making an amount from as few pieces as possible, the pieces coming in a
//! given set of sizes and in any number.

use vstd::prelude::*;

verus! {

/// The sum of the pieces of `combo`.
pub open spec fn total(combo: Seq<u64>) -> nat
    decreases combo.len(),
{
    if combo.len() == 0 {
        0
    } else {
        total(combo.drop_last()) + combo.last() as nat
    }
}

/// Whether `combo` makes the amount `n` from pieces of the sizes `dots`.
pub open spec fn makes(dots: Seq<u64>, combo: Seq<u64>, n: nat) -> bool {
    &&& total(combo) == n
    &&& forall|i: int| 0 <= i < combo.len() ==> dots.contains(#[trigger] combo[i])
}

/// Whether `r` is the least number of pieces that make `n`: `None` when no
/// number of pieces does.
pub open spec fn is_fewest(dots: Seq<u64>, n: nat, r: Option<u64>) -> bool {
    match r {
        Some(k) => {
            &&& exists|combo: Seq<u64>| makes(dots, combo, n) && combo.len() == k
            &&& forall|combo: Seq<u64>| makes(dots, combo, n) ==> k <= combo.len()
        },
        None => forall|combo: Seq<u64>| !makes(dots, combo, n),
    }
}

/// What a cache may hold: under an amount, either the mark for "not known"
/// or the least number of pieces that make the amount.
pub open spec fn cache_ok(dots: Seq<u64>, cache: Seq<u64>) -> bool {
    forall|i: int|
        0 <= i < cache.len() && #[trigger] cache[i] != u64::MAX ==> is_fewest(
            dots,
            i as nat,
            Some(cache[i]),
        )
}

/// Adding a piece adds its size to the total.
pub proof fn lemma_total_push(combo: Seq<u64>, piece: u64)
    ensures
        total(combo.push(piece)) == total(combo) + piece,
{
    assert(combo.push(piece).drop_last() =~= combo);
}

/// Taking a piece out takes its size off the total.
pub proof fn lemma_total_remove(combo: Seq<u64>, at: int)
    requires
        0 <= at < combo.len(),
    ensures
        total(combo.remove(at)) + combo[at] == total(combo),
    decreases combo.len(),
{
    if at == combo.len() - 1 {
        assert(combo.remove(at) =~= combo.drop_last());
    } else {
        lemma_total_remove(combo.drop_last(), at);
        assert(combo.remove(at).drop_last() =~= combo.drop_last().remove(at));
    }
}

/// Pieces of size 1 only make an amount equal to their number.
pub proof fn lemma_total_of_ones(combo: Seq<u64>)
    requires
        forall|i: int| 0 <= i < combo.len() ==> #[trigger] combo[i] == 1,
    ensures
        total(combo) == combo.len(),
    decreases combo.len(),
{
    if combo.len() > 0 {
        lemma_total_of_ones(combo.drop_last());
    }
}

/// Pieces of size at least 1 make at least their number.
pub proof fn lemma_total_at_least_len(combo: Seq<u64>)
    requires
        forall|i: int| 0 <= i < combo.len() ==> #[trigger] combo[i] >= 1,
    ensures
        total(combo) >= combo.len(),
    decreases combo.len(),
{
    if combo.len() > 0 {
        lemma_total_at_least_len(combo.drop_last());
    }
}

/// `n` pieces of size 1 make the amount `n`.
pub proof fn lemma_ones_make(dots: Seq<u64>, n: nat)
    requires
        dots.contains(1),
    ensures
        makes(dots, Seq::new(n, |i: int| 1u64), n),
{
    lemma_total_of_ones(Seq::new(n, |i: int| 1u64));
}

/// Nothing but no piece at all makes the amount 0.
pub proof fn lemma_fewest_for_zero(dots: Seq<u64>)
    ensures
        is_fewest(dots, 0, Some(0)),
{
    assert(makes(dots, Seq::<u64>::empty(), 0));
}

/// The least number of pieces of the sizes `dots` that make the amount
/// `n`, or `None` when the amount cannot be made. Results are kept in
/// `cache`, where `u64::MAX` marks an amount as not known.
pub fn ways(n: u64, dots: &Vec<u64>, cache: &mut Vec<u64>) -> (r: Option<u64>)
    requires
        n < old(cache)@.len(),
        forall|i: int| 0 <= i < dots@.len() ==> (#[trigger] dots@[i]) >= 1,
        cache_ok(dots@, old(cache)@),
    ensures
        is_fewest(dots@, n as nat, r),
        final(cache)@.len() == old(cache)@.len(),
        cache_ok(dots@, final(cache)@),
        r matches Some(k) ==> k != u64::MAX ==> final(cache)@[n as int] == k,
        forall|i: int|
            0 <= i < old(cache)@.len() && #[trigger] old(cache)@[i] != u64::MAX ==> final(cache)@[i]
                == old(cache)@[i],
    decreases n,
{
    assert(cache@.len() == cache.len());
    if n == 0 {
        proof {
            lemma_fewest_for_zero(dots@);
            if cache@[0] != u64::MAX {
                assert(is_fewest(dots@, 0, Some(cache@[0])));
                let none = choose|combo: Seq<u64>| makes(dots@, combo, 0) && combo.len() == 0;
                assert(cache@[0] <= none.len());
            }
        }
        cache[0] = 0;
        return Some(0);
    }
    let slot: usize = n as usize;
    let known: u64 = cache[slot];
    if known != u64::MAX {
        return Some(known);
    }
    let mut best: Option<u64> = None;
    let mut i: usize = 0;
    while i < dots.len()
        invariant
            i <= dots@.len(),
            0 < n < cache@.len(),
            slot == n,
            cache@.len() == old(cache)@.len(),
            forall|j: int| 0 <= j < dots@.len() ==> (#[trigger] dots@[j]) >= 1,
            cache_ok(dots@, cache@),
            old(cache)@[slot as int] == u64::MAX,
            forall|j: int|
                0 <= j < old(cache)@.len() && #[trigger] old(cache)@[j] != u64::MAX ==> cache@[j]
                    == old(cache)@[j],
            best matches Some(k) ==> exists|combo: Seq<u64>|
                makes(dots@, combo, n as nat) && combo.len() == k,
            forall|combo: Seq<u64>, at: int, j: int|
                #![trigger combo[at], dots@[j]]
                makes(dots@, combo, n as nat) && 0 <= at < combo.len() && 0 <= j < i && combo[at]
                    == dots@[j] && dots@[j] != 1 ==> best.is_some() && best.unwrap()
                    <= combo.len(),
            forall|combo: Seq<u64>, j: int|
                #![trigger makes(dots@, combo, n as nat), dots@[j]]
                makes(dots@, combo, n as nat) && 0 <= j < i && dots@[j] == 1 ==> best.is_some()
                    && best.unwrap() <= n,
        decreases dots@.len() - i,
    {
        let d: u64 = dots[i];
        let ghost before = best;
        if d == 1 {
            proof {
                assert(dots@.contains(1)) by {
                    assert(dots@[i as int] == 1);
                }
                lemma_ones_make(dots@, n as nat);
            }
            best = match best {
                Some(k) if k <= n => Some(k),
                _ => Some(n),
            };
        } else if n >= d {
            let sub = ways(n - d, dots, cache);
            proof {
                assert(dots@.contains(d)) by {
                    assert(dots@[i as int] == d);
                }
                match sub {
                    Some(k) => {
                        let part = choose|combo: Seq<u64>|
                            makes(dots@, combo, (n - d) as nat) && combo.len() == k;
                        lemma_total_push(part, d);
                        lemma_total_at_least_len(part);
                        assert(makes(dots@, part.push(d), n as nat));
                    },
                    None => {},
                }
                assert forall|combo: Seq<u64>, at: int|
                    makes(dots@, combo, n as nat) && 0 <= at < combo.len() && #[trigger] combo[at]
                        == d implies sub.is_some() && sub.unwrap() + 1 <= combo.len() by {
                    lemma_total_remove(combo, at);
                    assert(makes(dots@, combo.remove(at), (n - d) as nat));
                }
            }
            match sub {
                Some(k) => {
                    // k pieces of size at least 1 make less than n, so k + 1 fits.
                    let with_d: u64 = k + 1;
                    best = match best {
                        Some(b) if b <= with_d => Some(b),
                        _ => Some(with_d),
                    };
                },
                None => {},
            }
        } else {
            proof {
                assert forall|combo: Seq<u64>, at: int|
                    makes(dots@, combo, n as nat) && 0 <= at < combo.len() && #[trigger] combo[at]
                        == d implies false by {
                    lemma_total_remove(combo, at);
                }
            }
        }
        i += 1;
    }
    proof {
        assert forall|combo: Seq<u64>| makes(dots@, combo, n as nat) implies best.is_some()
            && best.unwrap() <= combo.len() by {
            assert(combo.len() > 0);
            if exists|at: int| 0 <= at < combo.len() && combo[at] != 1 {
                let at = choose|at: int| 0 <= at < combo.len() && combo[at] != 1;
                assert(dots@.contains(combo[at]));
                let j = choose|j: int| 0 <= j < dots@.len() && dots@[j] == combo[at];
                assert(combo[at] == dots@[j]);
            } else {
                lemma_total_of_ones(combo);
                assert(dots@.contains(combo[0]));
                let j = choose|j: int| 0 <= j < dots@.len() && dots@[j] == combo[0];
                assert(dots@[j] == 1);
            }
        }
    }
    match best {
        Some(k) => {
            if k != u64::MAX {
                cache[slot] = k;
            }
        },
        None => {},
    }
    best
}

} // verus!
