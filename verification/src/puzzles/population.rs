//! Growth of a population in which every individual is replaced, day by
//! day, by the offspring that a rule lists for its kind.

use vstd::prelude::*;
use crate::memo::{
    clip, count_computes, path_count, solve_path_count, sum_counts, CountModel, MemoCache,
};

verus! {

/// Whether every kind that a rule names has a rule itself.
pub open spec fn rules_closed(rules: Seq<Vec<usize>>) -> bool {
    forall|s: int, i: int|
        0 <= s < rules.len() && 0 <= i < rules[s]@.len() ==> (#[trigger] rules[s]@[i])
            < rules.len()
}

/// The size, after `days` days, of a population that begins with one
/// individual of kind `s`.
pub open spec fn population_after(rules: Seq<Vec<usize>>, s: usize, days: nat) -> nat
    decreases days, 1nat, 0nat,
{
    if days == 0 {
        1
    } else if s >= rules.len() {
        0
    } else {
        offspring_after(rules, rules[s as int]@, days, rules[s as int]@.len())
    }
}

/// The size, after `days` days, of what the first `k` of `kids` grow into,
/// the kids being born on the first of those days.
pub open spec fn offspring_after(rules: Seq<Vec<usize>>, kids: Seq<usize>, days: nat, k: nat) -> nat
    decreases days, 0nat, k,
{
    if k == 0 || k > kids.len() || days == 0 {
        0
    } else {
        offspring_after(rules, kids, days, (k - 1) as nat) + population_after(
            rules,
            kids[k - 1],
            (days - 1) as nat,
        )
    }
}

/// The offspring of a kind as steps that each take one day.
pub open spec fn day_steps(kids: Seq<usize>) -> Seq<(usize, u64)> {
    Seq::new(kids.len(), |i: int| (kids[i], 1u64))
}

/// The rules as a graph for counting: a walk is a line of descent, and it
/// ends when the days are used up.
pub open spec fn descent(rules: Seq<Vec<usize>>) -> CountModel {
    CountModel {
        succ: |s: usize|
            if s < rules.len() {
                day_steps(rules[s as int]@)
            } else {
                Seq::empty()
            },
        terminal: |s: usize, left: usize| left == 0,
    }
}

/// Counting lines of descent counts the population.
pub proof fn lemma_descent_counts_population(rules: Seq<Vec<usize>>, s: usize, days: usize)
    requires
        s < rules.len(),
    ensures
        path_count(descent(rules), s, days) == population_after(rules, s, days as nat),
    decreases days, 1nat, 0nat,
{
    if days > 0 {
        lemma_descent_sums(rules, s, days, rules[s as int]@.len());
    }
}

/// The partial sums of the two counts agree.
proof fn lemma_descent_sums(rules: Seq<Vec<usize>>, s: usize, days: usize, k: nat)
    requires
        s < rules.len(),
        days > 0,
        k <= rules[s as int]@.len(),
    ensures
        sum_counts(descent(rules), day_steps(rules[s as int]@), days, k) == offspring_after(
            rules,
            rules[s as int]@,
            days as nat,
            k,
        ),
    decreases days, 0nat, k,
{
    if k > 0 {
        lemma_descent_sums(rules, s, days, (k - 1) as nat);
        let kid = rules[s as int]@[k - 1];
        if kid < rules.len() {
            lemma_descent_counts_population(rules, kid, (days - 1) as usize);
        } else {
            assert(path_count(descent(rules), kid, (days - 1) as usize) == population_after(
                rules,
                kid,
                (days - 1) as nat,
            )) by {
                if days - 1 > 0 {
                    assert(sum_counts(
                        descent(rules),
                        Seq::<(usize, u64)>::empty(),
                        (days - 1) as usize,
                        0,
                    ) == 0);
                }
            }
        }
    }
}

/// The offspring of kind `s` as steps that each take one day.
pub fn offspring_steps(rules: &Vec<Vec<usize>>, s: usize) -> (r: Vec<(usize, u64)>)
    requires
        s < rules@.len(),
    ensures
        r@ == (descent(rules@).succ)(s),
{
    let kids: &Vec<usize> = &rules[s];
    let mut out: Vec<(usize, u64)> = Vec::new();
    let mut i: usize = 0;
    while i < kids.len()
        invariant
            i <= kids@.len(),
            out@.len() == i,
            forall|j: int| 0 <= j < i ==> out@[j] == (kids@[j], 1u64),
        decreases kids@.len() - i,
    {
        out.push((kids[i], 1));
        i += 1;
    }
    assert(out@ =~= day_steps(kids@));
    out
}

/// The size, after `days` days, of a population that begins with one
/// individual of kind `termite`, or `None` when that size does not fit in
/// a `u64`.
pub fn dfs(termite: usize, days: usize, rules: &Vec<Vec<usize>>) -> (r: Option<u64>)
    requires
        termite < rules@.len(),
        rules_closed(rules@),
        days < usize::MAX,
        rules@.len() * (days + 1) <= usize::MAX,
    ensures
        r == clip(population_after(rules@, termite, days as nat)),
{
    match MemoCache::new(rules.len(), days) {
        None => None,
        Some(cache) => {
            let mut cache = cache;
            let ghost n = rules@.len();
            let transition = |s: usize| -> (list: Vec<(usize, u64)>)
                requires
                    s < rules@.len(),
                ensures
                    list@ == (descent(rules@).succ)(s),
                { offspring_steps(rules, s) };
            let spent = |s: usize, left: usize| -> (b: bool)
                ensures
                    b == (left == 0),
                { left == 0 };
            let r = solve_path_count(termite, days, &transition, &spent, &mut cache);
            proof {
                assert(count_computes(&transition, &spent, n, descent(rules@)));
                lemma_descent_counts_population(rules@, termite, days);
            }
            r
        },
    }
}

/// Whether every entry of the cache is the size of the population of its
/// kind after its number of days.
pub open spec fn sizes_cached(rules: Seq<Vec<usize>>, entries: Map<(usize, usize), u64>) -> bool {
    forall|k: (usize, usize)| #[trigger]
        entries.contains_key(k) ==> entries[k] == population_after(rules, k.0, k.1 as nat)
}

/// What grows out of more kids is no less.
pub proof fn lemma_offspring_grows(rules: Seq<Vec<usize>>, kids: Seq<usize>, days: nat, i: nat, k: nat)
    requires
        i <= k <= kids.len(),
    ensures
        offspring_after(rules, kids, days, i) <= offspring_after(rules, kids, days, k),
    decreases k,
{
    if i < k {
        lemma_offspring_grows(rules, kids, days, i, (k - 1) as nat);
    }
}

/// As [`dfs`], with a cache that is kept from call to call: a size that
/// the cache holds is returned from it without a look at the rules, and
/// one that is worked out is stored in it. The cache counts the looks at
/// the rules.
pub fn dfs_cached(termite: usize, days: usize, rules: &Vec<Vec<usize>>, cache: &mut MemoCache) -> (r:
    Option<u64>)
    requires
        old(cache).wf(),
        termite < rules@.len(),
        rules_closed(rules@),
        old(cache).states() == rules@.len(),
        days < old(cache).budgets(),
        sizes_cached(rules@, old(cache)@.entries),
    ensures
        final(cache).wf(),
        final(cache).states() == old(cache).states(),
        final(cache).budgets() == old(cache).budgets(),
        sizes_cached(rules@, final(cache)@.entries),
        old(cache)@.entries.submap_of(final(cache)@.entries),
        r == clip(population_after(rules@, termite, days as nat)),
        r matches Some(v) ==> days > 0 ==> final(cache)@.entries.contains_key((termite, days))
            && final(cache)@.entries[(termite, days)] == v,
        old(cache)@.entries.contains_key((termite, days)) ==> final(cache)@ == old(cache)@,
        old(cache)@.calls <= final(cache)@.calls,
        days > 0 && !old(cache)@.entries.contains_key((termite, days)) ==> old(cache)@.calls
            < final(cache)@.calls,
    decreases days,
{
    if days == 0 {
        return Some(1);
    }
    match cache.get(termite, days) {
        Some(known) => {
            return Some(known);
        },
        None => {},
    }
    let kids: &Vec<usize> = &rules[termite];
    cache.note_call();
    let mut total: u64 = 0;
    let mut i: usize = 0;
    while i < kids.len()
        invariant
            i <= kids@.len(),
            days > 0,
            old(cache)@.calls < cache@.calls,
            termite < rules@.len(),
            kids@ == rules@[termite as int]@,
            rules_closed(rules@),
            cache.wf(),
            cache.states() == old(cache).states(),
            cache.budgets() == old(cache).budgets(),
            cache.states() == rules@.len(),
            days < cache.budgets(),
            sizes_cached(rules@, cache@.entries),
            old(cache)@.entries.submap_of(cache@.entries),
            !old(cache)@.entries.contains_key((termite, days)),
            total == offspring_after(rules@, kids@, days as nat, i as nat),
        decreases kids@.len() - i,
    {
        let ghost mid = cache@;
        let sub = dfs_cached(kids[i], days - 1, rules, cache);
        proof {
            crate::memo::lemma_submap_chain(old(cache)@.entries, mid.entries, cache@.entries);
        }
        let sum: Option<u64> = match sub {
            Some(v) => total.checked_add(v),
            None => None,
        };
        match sum {
            Some(t) => {
                total = t;
            },
            None => {
                proof {
                    lemma_offspring_grows(rules@, kids@, days as nat, (i + 1) as nat, kids@.len());
                }
                return None;
            },
        }
        i += 1;
    }
    cache.put(termite, days, total);
    Some(total)
}

} // verus!
