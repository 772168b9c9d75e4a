//! Memoized recursive evaluation over a state graph with a shrinking budget.
//!
//! Two evaluators share one cache type. [`solve_path_count`] counts the
//! walks from a state that end in a terminal state before the budget runs
//! out, each step spending its cost. [`solve_extremal`] finds the least or
//! greatest total cost of a walk of at most `budget` steps. Results are
//! cached under the exact `(state, budget)` pair.

use vstd::prelude::*;
use crate::fx::{fx_get, fx_insert, fx_new, FxTable};
use crate::search::{computes_successors, stays_within};
use crate::state_key::KeyLayout;

verus! {

/// What a cache holds: the results by `(state, budget)`, and how often a
/// transition function has been called on its behalf.
pub struct MemoState {
    pub entries: Map<(usize, usize), u64>,
    pub calls: nat,
}

/// A cache of results for the states below `states` and the budgets up to
/// `budgets`.
pub struct MemoCache {
    table: FxTable,
    layout: KeyLayout,
    calls: Ghost<nat>,
}

impl View for MemoCache {
    type V = MemoState;

    closed spec fn view(&self) -> MemoState {
        MemoState {
            entries: Map::new(
                |k: (usize, usize)|
                    self.layout.in_domain(k.0 as nat, 0, k.1 as nat) && self.table@.contains_key(
                        self.layout.key_of(k.0 as nat, 0, k.1 as nat) as u64,
                    ),
                |k: (usize, usize)| self.table@[self.layout.key_of(k.0 as nat, 0, k.1 as nat) as u64],
            ),
            calls: self.calls@,
        }
    }
}

impl MemoCache {
    /// Number of states the cache has room for.
    pub closed spec fn states(&self) -> nat {
        self.layout.width as nat
    }

    /// One more than the highest budget the cache has room for.
    pub closed spec fn budgets(&self) -> nat {
        self.layout.aux_range as nat
    }

    /// Representation invariant.
    pub closed spec fn wf(&self) -> bool {
        &&& self.layout.wf()
        &&& self.layout.height == 1
    }

    /// An empty cache for the states below `states` and the budgets up to
    /// `max_budget`, or `None` when that many pairs cannot be numbered.
    pub fn new(states: usize, max_budget: usize) -> (r: Option<MemoCache>)
        ensures
            r.is_some() <==> max_budget < usize::MAX && (states as nat) * ((max_budget + 1) as nat)
                <= usize::MAX,
            r matches Some(c) ==> c.wf() && c.states() == states && c.budgets() == max_budget + 1
                && c@.entries == Map::<(usize, usize), u64>::empty() && c@.calls == 0,
    {
        if max_budget == usize::MAX {
            return None;
        }
        assert((states as nat) * 1 * ((max_budget + 1) as nat) == (states as nat) * ((max_budget
            + 1) as nat)) by (nonlinear_arith);
        match KeyLayout::new(states, 1, max_budget + 1) {
            None => None,
            Some(layout) => {
                let c = MemoCache { table: fx_new(), layout, calls: Ghost(0) };
                assert(c@.entries =~= Map::<(usize, usize), u64>::empty());
                Some(c)
            },
        }
    }

    /// The result cached for `(s, b)`, if any.
    pub fn get(&self, s: usize, b: usize) -> (r: Option<u64>)
        requires
            self.wf(),
            s < self.states(),
            b < self.budgets(),
        ensures
            r == (if self@.entries.contains_key((s, b)) {
                Some(self@.entries[(s, b)])
            } else {
                None
            }),
    {
        let key: usize = self.layout.encode(s, 0, b);
        fx_get(&self.table, key as u64)
    }

    /// Caches `value` as the result for `(s, b)`.
    pub fn put(&mut self, s: usize, b: usize, value: u64)
        requires
            old(self).wf(),
            s < old(self).states(),
            b < old(self).budgets(),
        ensures
            final(self).wf(),
            final(self).states() == old(self).states(),
            final(self).budgets() == old(self).budgets(),
            final(self)@.entries == old(self)@.entries.insert((s, b), value),
            final(self)@.calls == old(self)@.calls,
    {
        let key: usize = self.layout.encode(s, 0, b);
        fx_insert(&mut self.table, key as u64, value);
        proof {
            assert forall|k: (usize, usize)|
                self.layout.in_domain(k.0 as nat, 0, k.1 as nat) && k != (s, b) implies (
            self.layout.key_of(k.0 as nat, 0, k.1 as nat) as u64) != key as u64 by {
                self.layout.lemma_key_in_range(k.0 as nat, 0, k.1 as nat);
                if self.layout.key_of(k.0 as nat, 0, k.1 as nat) == key {
                    self.layout.lemma_key_injective(
                        k.0 as nat,
                        0,
                        k.1 as nat,
                        s as nat,
                        0,
                        b as nat,
                    );
                }
            }
            assert(self@.entries =~= old(self)@.entries.insert((s, b), value));
        }
    }

    /// Notes one call of a transition function on behalf of the cache.
    pub fn note_call(&mut self)
        ensures
            final(self).wf() == old(self).wf(),
            final(self).states() == old(self).states(),
            final(self).budgets() == old(self).budgets(),
            final(self)@.entries == old(self)@.entries,
            final(self)@.calls == old(self)@.calls + 1,
    {
        self.calls = Ghost(self.calls@ + 1);
    }
}

/// A graph for counting: successor lists whose costs are what a step spends
/// of the budget, and a test that says where a walk ends successfully.
pub struct CountModel {
    pub succ: spec_fn(usize) -> Seq<(usize, u64)>,
    pub terminal: spec_fn(usize, usize) -> bool,
}

/// The number of walks from `s` that reach a terminal state while spending
/// at most `b`. A walk ends at the first terminal state it meets; a step
/// that costs more than what is left of the budget is not taken.
pub open spec fn path_count(m: CountModel, s: usize, b: usize) -> nat
    decreases b, 1nat, 0nat,
{
    if (m.terminal)(s, b) {
        1
    } else if b == 0 {
        0
    } else {
        sum_counts(m, (m.succ)(s), b, (m.succ)(s).len())
    }
}

/// The walks counted by [`path_count`] that start with one of the first `k`
/// steps of `list`.
pub open spec fn sum_counts(m: CountModel, list: Seq<(usize, u64)>, b: usize, k: nat) -> nat
    decreases b, 0nat, k,
{
    if k == 0 || k > list.len() {
        0
    } else {
        sum_counts(m, list, b, (k - 1) as nat) + (if 1 <= list[k - 1].1 <= b {
            path_count(m, list[k - 1].0, (b - list[k - 1].1) as usize)
        } else {
            0
        })
    }
}

/// A count as a `u64`, or `None` when it does not fit.
pub open spec fn clip(value: nat) -> Option<u64> {
    if value <= u64::MAX {
        Some(value as u64)
    } else {
        None
    }
}

/// The partial sums of [`sum_counts`] never shrink.
pub proof fn lemma_sum_counts_grows(m: CountModel, list: Seq<(usize, u64)>, b: usize, i: nat, k: nat)
    requires
        i <= k <= list.len(),
    ensures
        sum_counts(m, list, b, i) <= sum_counts(m, list, b, k),
    decreases k,
{
    if i < k {
        lemma_sum_counts_grows(m, list, b, i, (k - 1) as nat);
    }
}

/// Being a part of is transitive for maps.
pub proof fn lemma_submap_chain<K, V>(a: Map<K, V>, b: Map<K, V>, c: Map<K, V>)
    requires
        a.submap_of(b),
        b.submap_of(c),
    ensures
        a.submap_of(c),
{
    assert forall|k: K| #[trigger] a.dom().contains(k) implies c.dom().contains(k) && a[k]
        == c[k] by {
        assert(b.dom().contains(k));
    }
}

/// Whether `transition` may be called on every state below `n`, only leads
/// to states below `n`, and only lists steps that cost at least 1.
pub open spec fn spends<F: Fn(usize) -> Vec<(usize, u64)>>(transition: &F, n: nat) -> bool {
    &&& forall|s: usize| s < n ==> call_requires(transition, (s,))
    &&& forall|s: usize, r: Vec<(usize, u64)>, i: int|
        #![trigger call_ensures(transition, (s,), r), r@[i]]
        s < n && call_ensures(transition, (s,), r) && 0 <= i < r@.len() ==> r@[i].0 < n && r@[i].1
            >= 1
}

/// Whether the two functions compute `m` on the states below `n`.
pub open spec fn count_computes<F, T>(transition: &F, is_terminal: &T, n: nat, m: CountModel) -> bool where
    F: Fn(usize) -> Vec<(usize, u64)>,
    T: Fn(usize, usize) -> bool,
 {
    &&& forall|s: usize, r: Vec<(usize, u64)>|
        s < n && #[trigger] call_ensures(transition, (s,), r) ==> r@ == (m.succ)(s)
    &&& forall|s: usize, b: usize, flag: bool|
        s < n && #[trigger] call_ensures(is_terminal, (s, b), flag) ==> flag == (m.terminal)(s, b)
}

/// Whether every cached result is the path count of its pair, in every
/// graph that the two functions compute.
pub open spec fn count_cache_ok<F, T>(
    transition: &F,
    is_terminal: &T,
    n: nat,
    entries: Map<(usize, usize), u64>,
) -> bool where F: Fn(usize) -> Vec<(usize, u64)>, T: Fn(usize, usize) -> bool {
    forall|m: CountModel, k: (usize, usize)|
        #![trigger count_computes(transition, is_terminal, n, m), entries.contains_key(k)]
        count_computes(transition, is_terminal, n, m) && entries.contains_key(k) ==> entries[k]
            == path_count(m, k.0, k.1)
}

/// Whether `(s, b)` is a pair whose result takes work: the budget is not
/// spent and the state is not terminal.
pub open spec fn interior<T: Fn(usize, usize) -> bool>(is_terminal: &T, s: usize, b: usize) -> bool {
    b > 0 && forall|flag: bool| call_ensures(is_terminal, (s, b), flag) ==> !flag
}

/// What one call of [`solve_path_count`] for `(s, b)` does: `before` and
/// `after` are the cache around the call and `r` is what it returned.
pub open spec fn count_call<F, T>(
    transition: &F,
    is_terminal: &T,
    n: nat,
    before: MemoState,
    after: MemoState,
    s: usize,
    b: usize,
    r: Option<u64>,
) -> bool where F: Fn(usize) -> Vec<(usize, u64)>, T: Fn(usize, usize) -> bool {
    &&& before.entries.submap_of(after.entries)
    &&& before.calls <= after.calls
    &&& count_cache_ok(transition, is_terminal, n, after.entries)
    &&& forall|m: CountModel| #[trigger]
        count_computes(transition, is_terminal, n, m) ==> r == clip(path_count(m, s, b))
    &&& before.entries.contains_key((s, b)) ==> after == before
    &&& before.entries.contains_key((s, b)) && interior(is_terminal, s, b) ==> r == Some(
        before.entries[(s, b)],
    )
    &&& !before.entries.contains_key((s, b)) && interior(is_terminal, s, b) ==> {
        &&& after.calls > before.calls
        &&& r matches Some(v) ==> after.entries.contains_key((s, b)) && after.entries[(s, b)] == v
    }
}

/// Two evaluations of one pair, each on a fresh cache, return the same.
pub proof fn lemma_fresh_runs_agree<F, T>(
    transition: &F,
    is_terminal: &T,
    n: nat,
    m: CountModel,
    fresh: MemoState,
    after1: MemoState,
    after2: MemoState,
    s: usize,
    b: usize,
    r1: Option<u64>,
    r2: Option<u64>,
) where F: Fn(usize) -> Vec<(usize, u64)>, T: Fn(usize, usize) -> bool
    requires
        count_computes(transition, is_terminal, n, m),
        count_call(transition, is_terminal, n, fresh, after1, s, b, r1),
        count_call(transition, is_terminal, n, fresh, after2, s, b, r2),
    ensures
        r1 == r2,
{
}

/// An evaluation repeated on the cache that the first one left returns the
/// same result and calls the transition function strictly less often than
/// the first did: not at all. This holds when the first evaluation had to
/// work (its pair was interior and not yet cached) and its result fit.
pub proof fn lemma_repeat_is_cheaper<F, T>(
    transition: &F,
    is_terminal: &T,
    n: nat,
    c0: MemoState,
    c1: MemoState,
    c2: MemoState,
    s: usize,
    b: usize,
    r1: Option<u64>,
    r2: Option<u64>,
) where F: Fn(usize) -> Vec<(usize, u64)>, T: Fn(usize, usize) -> bool
    requires
        count_call(transition, is_terminal, n, c0, c1, s, b, r1),
        count_call(transition, is_terminal, n, c1, c2, s, b, r2),
        interior(is_terminal, s, b),
        !c0.entries.contains_key((s, b)),
        r1.is_some(),
    ensures
        r2 == r1,
        c2.calls - c1.calls == 0,
        c2.calls - c1.calls < c1.calls - c0.calls,
{
}

/// Counts the walks from `s` that reach a state accepted by `is_terminal`
/// while spending at most the budget `b`, each step spending its cost.
///
/// Results come from `cache` where it has them and go into it where it has
/// not. Returns `None` when the count does not fit in a `u64`.
pub fn solve_path_count<F, T>(
    s: usize,
    b: usize,
    transition: &F,
    is_terminal: &T,
    cache: &mut MemoCache,
) -> (r: Option<u64>) where F: Fn(usize) -> Vec<(usize, u64)>, T: Fn(usize, usize) -> bool
    requires
        old(cache).wf(),
        s < old(cache).states(),
        b < old(cache).budgets(),
        spends(transition, old(cache).states()),
        forall|x: usize, y: usize| call_requires(is_terminal, (x, y)),
        count_cache_ok(transition, is_terminal, old(cache).states(), old(cache)@.entries),
    ensures
        final(cache).wf(),
        final(cache).states() == old(cache).states(),
        final(cache).budgets() == old(cache).budgets(),
        count_call(
            transition,
            is_terminal,
            old(cache).states(),
            old(cache)@,
            final(cache)@,
            s,
            b,
            r,
        ),
    decreases b,
{
    let ghost n = cache.states();
    let done: bool = is_terminal(s, b);
    if done {
        return Some(1);
    }
    if b == 0 {
        return Some(0);
    }
    match cache.get(s, b) {
        Some(known) => {
            return Some(known);
        },
        None => {},
    }
    let list: Vec<(usize, u64)> = transition(s);
    cache.note_call();
    let mut total: u64 = 0;
    let mut i: usize = 0;
    while i < list.len()
        invariant
            i <= list.len(),
            b > 0,
            s < n,
            n == cache.states(),
            n == old(cache).states(),
            b < cache.budgets(),
            cache.budgets() == old(cache).budgets(),
            cache.wf(),
            spends(transition, n),
            forall|x: usize, y: usize| call_requires(is_terminal, (x, y)),
            call_ensures(transition, (s,), list),
            call_ensures(is_terminal, (s, b), false),
            count_cache_ok(transition, is_terminal, n, cache@.entries),
            old(cache)@.entries.submap_of(cache@.entries),
            !old(cache)@.entries.contains_key((s, b)),
            old(cache)@.calls < cache@.calls,
            forall|m: CountModel| #[trigger]
                count_computes(transition, is_terminal, n, m) ==> total == sum_counts(
                    m,
                    list@,
                    b,
                    i as nat,
                ),
        decreases list.len() - i,
    {
        let t: usize = list[i].0;
        let w: u64 = list[i].1;
        assert(t < n && w >= 1);
        if w <= b as u64 {
            let rest: usize = b - (w as usize);
            let ghost mid = cache@;
            let sub = solve_path_count(t, rest, transition, is_terminal, cache);
            let ghost step = i;
            proof {
                lemma_submap_chain(old(cache)@.entries, mid.entries, cache@.entries);
            }
            match sub {
                None => {
                    proof {
                        assert forall|m: CountModel| #[trigger]
                            count_computes(transition, is_terminal, n, m) implies clip(
                            path_count(m, s, b),
                        ).is_none() by {
                            assert(clip(path_count(m, t, rest)).is_none());
                            assert(list@ == (m.succ)(s));
                            assert(!(m.terminal)(s, b));
                            assert(sum_counts(m, list@, b, (step + 1) as nat) > u64::MAX);
                            lemma_sum_counts_grows(m, list@, b, (step + 1) as nat, list@.len());
                            assert(path_count(m, s, b) == sum_counts(m, list@, b, list@.len()));
                        }
                    }
                    return None;
                },
                Some(c) => {
                    match total.checked_add(c) {
                        None => {
                            proof {
                                assert forall|m: CountModel| #[trigger]
                                    count_computes(transition, is_terminal, n, m) implies clip(
                                    path_count(m, s, b),
                                ).is_none() by {
                                    assert(Some(c) == clip(path_count(m, t, rest)));
                                    assert(list@ == (m.succ)(s));
                                    assert(!(m.terminal)(s, b));
                                    assert(sum_counts(m, list@, b, (step + 1) as nat) > u64::MAX);
                                    lemma_sum_counts_grows(
                                        m,
                                        list@,
                                        b,
                                        (step + 1) as nat,
                                        list@.len(),
                                    );
                                    assert(path_count(m, s, b) == sum_counts(
                                        m,
                                        list@,
                                        b,
                                        list@.len(),
                                    ));
                                }
                            }
                            return None;
                        },
                        Some(sum) => {
                            proof {
                                assert forall|m: CountModel| #[trigger]
                                    count_computes(transition, is_terminal, n, m) implies sum
                                    == sum_counts(m, list@, b, (step + 1) as nat) by {
                                    assert(Some(c) == clip(path_count(m, t, rest)));
                                }
                            }
                            total = sum;
                        },
                    }
                },
            }
        }
        i += 1;
    }
    let ghost filled = cache@;
    cache.put(s, b, total);
    proof {
        assert forall|m: CountModel, k: (usize, usize)|
            #![trigger count_computes(transition, is_terminal, n, m), cache@.entries.contains_key(k)]
            count_computes(transition, is_terminal, n, m) && cache@.entries.contains_key(
                k,
            ) implies cache@.entries[k] == path_count(m, k.0, k.1) by {
            if k != (s, b) {
                assert(filled.entries.contains_key(k));
            }
        }
    }
    Some(total)
}

/// Which of two values an extremal evaluation keeps.
#[derive(Clone, Copy, Debug)]
pub enum Combine {
    /// The lesser.
    Min,
    /// The greater.
    Max,
}

/// The value that `combine` keeps of `a` and `b`.
pub open spec fn pick(combine: Combine, a: nat, b: nat) -> nat {
    match combine {
        Combine::Min => if a <= b {
            a
        } else {
            b
        },
        Combine::Max => if a >= b {
            a
        } else {
            b
        },
    }
}

/// The least (or greatest) total cost of a walk from `s` that goes on for
/// `b` steps or until it reaches a state without successors, plus `base`
/// for the state it ends in.
pub open spec fn extremal_value(
    succ: spec_fn(usize) -> Seq<(usize, u64)>,
    combine: Combine,
    base: u64,
    s: usize,
    b: usize,
) -> nat
    decreases b, 1nat, 0nat,
{
    if b == 0 || succ(s).len() == 0 {
        base as nat
    } else {
        best_of_steps(succ, combine, base, succ(s), b, succ(s).len())
    }
}

/// The value that [`extremal_value`] gives to the walks that start with one
/// of the first `k` steps of `list`.
pub open spec fn best_of_steps(
    succ: spec_fn(usize) -> Seq<(usize, u64)>,
    combine: Combine,
    base: u64,
    list: Seq<(usize, u64)>,
    b: usize,
    k: nat,
) -> nat
    decreases b, 0nat, k,
{
    if k == 0 || k > list.len() || b == 0 {
        base as nat
    } else {
        let here = list[k - 1].1 as nat + extremal_value(
            succ,
            combine,
            base,
            list[k - 1].0,
            (b - 1) as usize,
        );
        if k == 1 {
            here
        } else {
            pick(combine, best_of_steps(succ, combine, base, list, b, (k - 1) as nat), here)
        }
    }
}

/// Whether every cached result is the extremal value of its pair, in every
/// graph that `transition` computes.
pub open spec fn extremal_cache_ok<F: Fn(usize) -> Vec<(usize, u64)>>(
    transition: &F,
    combine: Combine,
    base: u64,
    n: usize,
    entries: Map<(usize, usize), u64>,
) -> bool {
    forall|succ: spec_fn(usize) -> Seq<(usize, u64)>, k: (usize, usize)|
        #![trigger computes_successors(transition, n, succ), entries.contains_key(k)]
        computes_successors(transition, n, succ) && entries.contains_key(k) ==> entries[k]
            == extremal_value(succ, combine, base, k.0, k.1)
}

/// Keeps one of two values, each given as a `u64` or as `None` when it
/// exceeds every `u64`.
pub fn keep(combine: Combine, a: Option<u64>, b: Option<u64>) -> (r: Option<u64>)
    ensures
        forall|x: nat, y: nat|
            #![trigger clip(x), clip(y)]
            a == clip(x) && b == clip(y) ==> r == clip(pick(combine, x, y)),
{
    match (combine, a, b) {
        (Combine::Min, Some(x), Some(y)) => Some(if x <= y {
            x
        } else {
            y
        }),
        (Combine::Min, Some(x), None) => Some(x),
        (Combine::Min, None, Some(y)) => Some(y),
        (Combine::Max, Some(x), Some(y)) => Some(if x >= y {
            x
        } else {
            y
        }),
        _ => None,
    }
}

/// Finds the least (`Combine::Min`) or greatest (`Combine::Max`) total cost
/// of a walk from `s` of `b` steps, or fewer where it reaches a state
/// without successors; `base` is the value of the state a walk ends in.
///
/// Results come from `cache` where it has them and go into it where it has
/// not. Returns `None` when the value does not fit in a `u64`.
pub fn solve_extremal<F: Fn(usize) -> Vec<(usize, u64)>>(
    s: usize,
    b: usize,
    transition: &F,
    combine: Combine,
    base: u64,
    cache: &mut MemoCache,
) -> (r: Option<u64>)
    requires
        old(cache).wf(),
        s < old(cache).states(),
        b < old(cache).budgets(),
        stays_within(transition, old(cache).states() as usize),
        extremal_cache_ok(
            transition,
            combine,
            base,
            old(cache).states() as usize,
            old(cache)@.entries,
        ),
    ensures
        final(cache).wf(),
        final(cache).states() == old(cache).states(),
        final(cache).budgets() == old(cache).budgets(),
        old(cache)@.entries.submap_of(final(cache)@.entries),
        old(cache)@.calls <= final(cache)@.calls,
        extremal_cache_ok(
            transition,
            combine,
            base,
            old(cache).states() as usize,
            final(cache)@.entries,
        ),
        forall|succ: spec_fn(usize) -> Seq<(usize, u64)>| #[trigger]
            computes_successors(transition, old(cache).states() as usize, succ) ==> r == clip(
                extremal_value(succ, combine, base, s, b),
            ),
        b > 0 ==> (r matches Some(v) ==> final(cache)@.entries.contains_key((s, b))
            && final(cache)@.entries[(s, b)] == v),
        old(cache)@.entries.contains_key((s, b)) ==> final(cache)@ == old(cache)@,
    decreases b,
{
    let ghost n = cache.states() as usize;
    if b == 0 {
        return Some(base);
    }
    match cache.get(s, b) {
        Some(known) => {
            return Some(known);
        },
        None => {},
    }
    let list: Vec<(usize, u64)> = transition(s);
    cache.note_call();
    if list.len() == 0 {
        let ghost filled = cache@;
        cache.put(s, b, base);
        proof {
            assert forall|succ: spec_fn(usize) -> Seq<(usize, u64)>, k: (usize, usize)|
                #![trigger computes_successors(transition, n, succ), cache@.entries.contains_key(k)]
                computes_successors(transition, n, succ) && cache@.entries.contains_key(
                    k,
                ) implies cache@.entries[k] == extremal_value(succ, combine, base, k.0, k.1) by {
                if k != (s, b) {
                    assert(filled.entries.contains_key(k));
                }
            }
        }
        return Some(base);
    }
    let mut kept: Option<u64> = None;
    let mut i: usize = 0;
    while i < list.len()
        invariant
            i <= list.len(),
            b > 0,
            s < n,
            n == cache.states(),
            n == old(cache).states(),
            b < cache.budgets(),
            cache.budgets() == old(cache).budgets(),
            cache.wf(),
            stays_within(transition, n),
            call_ensures(transition, (s,), list),
            extremal_cache_ok(transition, combine, base, n, cache@.entries),
            old(cache)@.entries.submap_of(cache@.entries),
            !old(cache)@.entries.contains_key((s, b)),
            old(cache)@.calls < cache@.calls,
            i > 0 ==> forall|succ: spec_fn(usize) -> Seq<(usize, u64)>| #[trigger]
                computes_successors(transition, n, succ) ==> kept == clip(
                    best_of_steps(succ, combine, base, list@, b, i as nat),
                ),
        decreases list.len() - i,
    {
        let t: usize = list[i].0;
        let w: u64 = list[i].1;
        assert(t < n);
        let ghost mid = cache@;
        let sub = solve_extremal(t, b - 1, transition, combine, base, cache);
        let here: Option<u64> = match sub {
            None => None,
            Some(v) => w.checked_add(v),
        };
        let ghost step = i;
        let ghost earlier = kept;
        if i == 0 {
            kept = here;
        } else {
            kept = keep(combine, kept, here);
        }
        proof {
            lemma_submap_chain(old(cache)@.entries, mid.entries, cache@.entries);
            assert forall|succ: spec_fn(usize) -> Seq<(usize, u64)>| #[trigger]
                computes_successors(transition, n, succ) implies kept == clip(
                best_of_steps(succ, combine, base, list@, b, (step + 1) as nat),
            ) by {
                let tail = extremal_value(succ, combine, base, t, (b - 1) as usize);
                assert(sub == clip(tail));
                assert(here == clip(w as nat + tail));
                if step > 0 {
                    let before = best_of_steps(succ, combine, base, list@, b, step as nat);
                    assert(earlier == clip(before));
                    assert(kept == clip(pick(combine, before, w as nat + tail)));
                }
            }
        }
        i += 1;
    }
    match kept {
        None => None,
        Some(value) => {
            let ghost filled = cache@;
            cache.put(s, b, value);
            proof {
                assert forall|succ: spec_fn(usize) -> Seq<(usize, u64)>, k: (usize, usize)|
                    #![trigger computes_successors(transition, n, succ), cache@.entries.contains_key(k)]
                    computes_successors(transition, n, succ) && cache@.entries.contains_key(
                        k,
                    ) implies cache@.entries[k] == extremal_value(
                    succ,
                    combine,
                    base,
                    k.0,
                    k.1,
                ) by {
                    if k != (s, b) {
                        assert(filled.entries.contains_key(k));
                    }
                }
            }
            Some(value)
        },
    }
}

/// The least value over the first `k` steps is at most the value of each
/// of them.
pub proof fn lemma_least_step(
    succ: spec_fn(usize) -> Seq<(usize, u64)>,
    base: u64,
    list: Seq<(usize, u64)>,
    b: usize,
    k: nat,
    j: int,
)
    requires
        0 <= j < k <= list.len(),
        b > 0,
    ensures
        best_of_steps(succ, Combine::Min, base, list, b, k) <= list[j].1 + extremal_value(
            succ,
            Combine::Min,
            base,
            list[j].0,
            (b - 1) as usize,
        ),
    decreases k,
{
    if j < k - 1 {
        lemma_least_step(succ, base, list, b, (k - 1) as nat, j);
    }
}

/// The least value over the first `k` steps is the value of one of them.
pub proof fn lemma_least_step_is_taken(
    succ: spec_fn(usize) -> Seq<(usize, u64)>,
    base: u64,
    list: Seq<(usize, u64)>,
    b: usize,
    k: nat,
) -> (j: int)
    requires
        1 <= k <= list.len(),
        b > 0,
    ensures
        0 <= j < k,
        best_of_steps(succ, Combine::Min, base, list, b, k) == list[j].1 + extremal_value(
            succ,
            Combine::Min,
            base,
            list[j].0,
            (b - 1) as usize,
        ),
    decreases k,
{
    if k == 1 {
        0
    } else {
        let before = lemma_least_step_is_taken(succ, base, list, b, (k - 1) as nat);
        let here = list[k - 1].1 as nat + extremal_value(
            succ,
            Combine::Min,
            base,
            list[k - 1].0,
            (b - 1) as usize,
        );
        if best_of_steps(succ, Combine::Min, base, list, b, (k - 1) as nat) <= here {
            before
        } else {
            k - 1
        }
    }
}

/// The greatest value over the first `k` steps is at least the value of each
/// of them.
pub proof fn lemma_greatest_step(
    succ: spec_fn(usize) -> Seq<(usize, u64)>,
    base: u64,
    list: Seq<(usize, u64)>,
    b: usize,
    k: nat,
    j: int,
)
    requires
        0 <= j < k <= list.len(),
        b > 0,
    ensures
        best_of_steps(succ, Combine::Max, base, list, b, k) >= list[j].1 + extremal_value(
            succ,
            Combine::Max,
            base,
            list[j].0,
            (b - 1) as usize,
        ),
    decreases k,
{
    if j < k - 1 {
        lemma_greatest_step(succ, base, list, b, (k - 1) as nat, j);
    }
}

/// The greatest value over the first `k` steps is the value of one of them.
pub proof fn lemma_greatest_step_is_taken(
    succ: spec_fn(usize) -> Seq<(usize, u64)>,
    base: u64,
    list: Seq<(usize, u64)>,
    b: usize,
    k: nat,
) -> (j: int)
    requires
        1 <= k <= list.len(),
        b > 0,
    ensures
        0 <= j < k,
        best_of_steps(succ, Combine::Max, base, list, b, k) == list[j].1 + extremal_value(
            succ,
            Combine::Max,
            base,
            list[j].0,
            (b - 1) as usize,
        ),
    decreases k,
{
    if k == 1 {
        0
    } else {
        let before = lemma_greatest_step_is_taken(succ, base, list, b, (k - 1) as nat);
        let here = list[k - 1].1 as nat + extremal_value(
            succ,
            Combine::Max,
            base,
            list[k - 1].0,
            (b - 1) as usize,
        );
        if best_of_steps(succ, Combine::Max, base, list, b, (k - 1) as nat) >= here {
            before
        } else {
            k - 1
        }
    }
}

/// Whether every cached result is the extremal value of its pair in the
/// graph `succ`.
pub open spec fn extremal_cached(
    succ: spec_fn(usize) -> Seq<(usize, u64)>,
    combine: Combine,
    base: u64,
    entries: Map<(usize, usize), u64>,
) -> bool {
    forall|k: (usize, usize)| #[trigger]
        entries.contains_key(k) ==> entries[k] == extremal_value(succ, combine, base, k.0, k.1)
}

/// As [`solve_extremal`], for a caller that names the graph which its
/// transition function computes: what the cache holds is then stated over
/// that graph, and a cache can be kept from one call to the next.
pub(crate) fn solve_extremal_in<F: Fn(usize) -> Vec<(usize, u64)>>(
    s: usize,
    b: usize,
    transition: &F,
    combine: Combine,
    base: u64,
    cache: &mut MemoCache,
    Ghost(succ): Ghost<spec_fn(usize) -> Seq<(usize, u64)>>,
) -> (r: Option<u64>)
    requires
        old(cache).wf(),
        s < old(cache).states(),
        b < old(cache).budgets(),
        stays_within(transition, old(cache).states() as usize),
        computes_successors(transition, old(cache).states() as usize, succ),
        extremal_cached(succ, combine, base, old(cache)@.entries),
    ensures
        final(cache).wf(),
        final(cache).states() == old(cache).states(),
        final(cache).budgets() == old(cache).budgets(),
        old(cache)@.entries.submap_of(final(cache)@.entries),
        old(cache)@.calls <= final(cache)@.calls,
        extremal_cached(succ, combine, base, final(cache)@.entries),
        r == clip(extremal_value(succ, combine, base, s, b)),
        b > 0 ==> (r matches Some(v) ==> final(cache)@.entries.contains_key((s, b))
            && final(cache)@.entries[(s, b)] == v),
        old(cache)@.entries.contains_key((s, b)) ==> final(cache)@ == old(cache)@,
        b > 0 && !old(cache)@.entries.contains_key((s, b)) ==> old(cache)@.calls
            < final(cache)@.calls,
    decreases b,
{
    let ghost n = cache.states() as usize;
    if b == 0 {
        return Some(base);
    }
    match cache.get(s, b) {
        Some(known) => {
            return Some(known);
        },
        None => {},
    }
    let list: Vec<(usize, u64)> = transition(s);
    cache.note_call();
    assert(list@ == succ(s));
    if list.len() == 0 {
        cache.put(s, b, base);
        return Some(base);
    }
    let mut kept: Option<u64> = None;
    let mut i: usize = 0;
    while i < list.len()
        invariant
            i <= list.len(),
            b > 0,
            s < n,
            n == cache.states(),
            n == old(cache).states(),
            b < cache.budgets(),
            cache.budgets() == old(cache).budgets(),
            cache.wf(),
            stays_within(transition, n),
            computes_successors(transition, n, succ),
            call_ensures(transition, (s,), list),
            list@ == succ(s),
            extremal_cached(succ, combine, base, cache@.entries),
            old(cache)@.entries.submap_of(cache@.entries),
            !old(cache)@.entries.contains_key((s, b)),
            old(cache)@.calls < cache@.calls,
            i > 0 ==> kept == clip(best_of_steps(succ, combine, base, list@, b, i as nat)),
        decreases list.len() - i,
    {
        let t: usize = list[i].0;
        let w: u64 = list[i].1;
        assert(t < n);
        let ghost mid = cache@;
        let sub = solve_extremal_in(t, b - 1, transition, combine, base, cache, Ghost(succ));
        let here: Option<u64> = match sub {
            None => None,
            Some(v) => w.checked_add(v),
        };
        let ghost step = i;
        let ghost earlier = kept;
        if i == 0 {
            kept = here;
        } else {
            kept = keep(combine, kept, here);
        }
        proof {
            lemma_submap_chain(old(cache)@.entries, mid.entries, cache@.entries);
            let tail = extremal_value(succ, combine, base, t, (b - 1) as usize);
            assert(sub == clip(tail));
            assert(here == clip(w as nat + tail));
            if step > 0 {
                let before = best_of_steps(succ, combine, base, list@, b, step as nat);
                assert(earlier == clip(before));
                assert(kept == clip(pick(combine, before, w as nat + tail)));
            }
        }
        i += 1;
    }
    match kept {
        None => None,
        Some(value) => {
            cache.put(s, b, value);
            Some(value)
        },
    }
}

} // verus!
