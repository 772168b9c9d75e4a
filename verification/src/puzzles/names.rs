//! Names built letter by letter, where rules say which letters may follow
//! which. Letters are numbered; `rules[a]` lists the letters that may
//! follow the letter `a`.

use vstd::prelude::*;
use crate::memo::{clip, MemoCache};

verus! {

/// The length from which a name counts.
pub const SHORTEST: usize = 7;

/// The length beyond which no name goes.
pub const LONGEST: usize = 11;

/// Whether the letter `b` may follow the letter `a`.
pub open spec fn may_follow(rules: Seq<Vec<usize>>, a: usize, b: usize) -> bool {
    a < rules.len() && rules[a as int]@.contains(b)
}

/// Whether every letter of `name` may follow the one before it.
pub open spec fn obeys(rules: Seq<Vec<usize>>, name: Seq<usize>) -> bool {
    forall|i: int| 0 <= i < name.len() - 1 ==> may_follow(rules, #[trigger] name[i], name[i + 1])
}

/// The number of names that begin with a given name of `len` letters whose
/// last letter is `cur`: the name itself where its length counts, and
/// every name that one more permitted letter leads to.
pub open spec fn names_from(rules: Seq<Vec<usize>>, cur: usize, len: usize) -> nat
    decreases 12 - len, 1nat, 0nat,
{
    (if 7 <= len <= 11 {
        1nat
    } else {
        0nat
    }) + (if len < 11 && cur < rules.len() {
        names_by(rules, rules[cur as int]@, len, rules[cur as int]@.len())
    } else {
        0nat
    })
}

/// The names counted by [`names_from`] that go on with one of the first
/// `k` letters of `next`.
pub open spec fn names_by(rules: Seq<Vec<usize>>, next: Seq<usize>, len: usize, k: nat) -> nat
    decreases 12 - len, 0nat, k,
{
    if k == 0 || k > next.len() || len >= 11 {
        0
    } else {
        names_by(rules, next, len, (k - 1) as nat) + names_from(
            rules,
            next[k - 1],
            (len + 1) as usize,
        )
    }
}

/// The partial sums of [`names_by`] never shrink.
pub proof fn lemma_names_by_grows(rules: Seq<Vec<usize>>, next: Seq<usize>, len: usize, i: nat, k: nat)
    requires
        i <= k <= next.len(),
    ensures
        names_by(rules, next, len, i) <= names_by(rules, next, len, k),
    decreases k,
{
    if i < k {
        lemma_names_by_grows(rules, next, len, i, (k - 1) as nat);
    }
}

/// Whether every cached result is the number of names of its pair of
/// letter and length.
pub open spec fn names_cached(rules: Seq<Vec<usize>>, entries: Map<(usize, usize), u64>) -> bool {
    forall|k: (usize, usize)| #[trigger]
        entries.contains_key(k) ==> entries[k] == names_from(rules, k.0, k.1)
}

/// Whether the letter `b` is among `list`.
pub fn contains(list: &Vec<usize>, b: usize) -> (r: bool)
    ensures
        r == list@.contains(b),
{
    let mut i: usize = 0;
    while i < list.len()
        invariant
            i <= list@.len(),
            forall|j: int| 0 <= j < i ==> list@[j] != b,
        decreases list@.len() - i,
    {
        if list[i] == b {
            return true;
        }
        i += 1;
    }
    false
}

/// Whether every letter of `name` may follow the one before it.
pub fn check_name(name: &Vec<usize>, rules: &Vec<Vec<usize>>) -> (r: bool)
    ensures
        r == obeys(rules@, name@),
{
    if name.len() < 2 {
        return true;
    }
    let mut i: usize = 0;
    while i < name.len() - 1
        invariant
            name@.len() >= 2,
            i <= name@.len() - 1,
            forall|j: int| 0 <= j < i ==> may_follow(rules@, #[trigger] name@[j], name@[j + 1]),
        decreases name@.len() - i,
    {
        let a: usize = name[i];
        let b: usize = name[i + 1];
        if a >= rules.len() || !contains(&rules[a], b) {
            assert(!may_follow(rules@, name@[i as int], name@[i + 1]));
            return false;
        }
        i += 1;
    }
    true
}

/// The number of names that begin with a given name of `len` letters whose
/// last letter is `cur`, or `None` when that number does not fit in a
/// `u64`. Results are kept in `cache`.
pub fn dfs(rules: &Vec<Vec<usize>>, cur: usize, len: usize, cache: &mut MemoCache) -> (r: Option<
    u64,
>)
    requires
        old(cache).wf(),
        cur < old(cache).states(),
        len <= 11,
        old(cache).budgets() > 11,
        forall|a: int, i: int|
            0 <= a < rules@.len() && 0 <= i < rules@[a]@.len() ==> (#[trigger] rules@[a]@[i])
                < old(cache).states(),
        names_cached(rules@, old(cache)@.entries),
    ensures
        final(cache).wf(),
        final(cache).states() == old(cache).states(),
        final(cache).budgets() == old(cache).budgets(),
        names_cached(rules@, final(cache)@.entries),
        r == clip(names_from(rules@, cur, len)),
        old(cache)@.entries.submap_of(final(cache)@.entries),
        r matches Some(v) ==> final(cache)@.entries.contains_key((cur, len))
            && final(cache)@.entries[(cur, len)] == v,
    decreases 12 - len,
{
    match cache.get(cur, len) {
        Some(known) => {
            return Some(known);
        },
        None => {},
    }
    let mut result: u64 = if len >= SHORTEST && len <= LONGEST {
        1
    } else {
        0
    };
    if len < LONGEST && cur < rules.len() {
        let next: &Vec<usize> = &rules[cur];
        let mut i: usize = 0;
        while i < next.len()
            invariant
                i <= next@.len(),
                len < 11,
                cur < rules@.len(),
                next@ == rules@[cur as int]@,
                cache.wf(),
                cache.states() == old(cache).states(),
                cache.budgets() == old(cache).budgets(),
                cur < cache.states(),
                cache.budgets() > 11,
                forall|a: int, j: int|
                    0 <= a < rules@.len() && 0 <= j < rules@[a]@.len() ==> (
                    #[trigger] rules@[a]@[j]) < cache.states(),
                names_cached(rules@, cache@.entries),
                old(cache)@.entries.submap_of(cache@.entries),
                result == (if 7 <= len <= 11 {
                    1nat
                } else {
                    0nat
                }) + names_by(rules@, next@, len, i as nat),
            decreases next@.len() - i,
        {
            let ghost mid = cache@;
            let sub = dfs(rules, next[i], len + 1, cache);
            proof {
                crate::memo::lemma_submap_chain(old(cache)@.entries, mid.entries, cache@.entries);
            }
            let sum = match sub {
                None => None,
                Some(c) => result.checked_add(c),
            };
            match sum {
                None => {
                    proof {
                        lemma_names_by_grows(rules@, next@, len, (i + 1) as nat, next@.len());
                    }
                    return None;
                },
                Some(total) => {
                    result = total;
                },
            }
            i += 1;
        }
    }
    cache.put(cur, len, result);
    Some(result)
}

} // verus!
