//! The search driver: a label-correcting loop over a frontier and a
//! dominance table, for Dijkstra's algorithm and for A* with an estimate
//! that never overestimates.

use vstd::prelude::*;
use vstd::multiset::Multiset;
use crate::bucket_queue::{BucketModel, BucketQueue};
use crate::dominance::{best_in, DenseDominance, Dominance, HashDominance};
use crate::frontier::Frontier;
use crate::graph::{
    admissible_below, edges_of, is_goal_walk, is_shortest_cost, lemma_shortest_cost_unique,
    walk_cost,
};
use crate::min_heap::MinHeap;
use crate::search_model::{
    entry_ok, inv, lemma_begin_expansion, lemma_end_expansion, lemma_exhausted, lemma_goal_taken,
    lemma_inv_initial, lemma_potential_drops, lemma_step_improves, lemma_step_settled,
    lemma_table_is_final, mid_inv, only, potential, settled, Entry, Model, Problem,
};

verus! {

/// How a search orders its frontier.
pub enum Mode<H> {
    /// By the cost of the walk so far.
    Dijkstra,
    /// By the cost so far plus an estimate of the cost still to come.
    AStar(H),
}

/// Whether `transition` returns the successor lists of `succ` on the states
/// below `n`.
pub open spec fn computes_successors<F: Fn(usize) -> Vec<(usize, u64)>>(
    transition: &F,
    n: usize,
    succ: spec_fn(usize) -> Seq<(usize, u64)>,
) -> bool {
    forall|s: usize, r: Vec<(usize, u64)>|
        s < n && #[trigger] call_ensures(transition, (s,), r) ==> r@ == succ(s)
}

/// Whether `goal` decides `is_goal` on the states below `n`.
pub open spec fn decides_goal<G: Fn(usize) -> bool>(
    goal: &G,
    n: usize,
    is_goal: spec_fn(usize) -> bool,
) -> bool {
    forall|s: usize, b: bool| s < n && #[trigger] call_ensures(goal, (s,), b) ==> b == is_goal(s)
}

/// Whether `heuristic` returns the values of `estimate` on the states below
/// `n`.
pub open spec fn computes_estimate<H: Fn(usize) -> u64>(
    heuristic: &H,
    n: usize,
    estimate: spec_fn(usize) -> u64,
) -> bool {
    forall|s: usize, v: u64|
        s < n && #[trigger] call_ensures(heuristic, (s,), v) ==> v == estimate(s)
}

/// Whether `transition` may be called on every state below `n` and only
/// ever leads to states below `n`.
pub open spec fn stays_within<F: Fn(usize) -> Vec<(usize, u64)>>(transition: &F, n: usize) -> bool {
    &&& forall|s: usize| s < n ==> call_requires(transition, (s,))
    &&& forall|s: usize, r: Vec<(usize, u64)>, i: int|
        #![trigger call_ensures(transition, (s,), r), r@[i]]
        s < n && call_ensures(transition, (s,), r) && 0 <= i < r@.len() ==> r@[i].0 < n
}

/// Whether `f` may be called on every state below `n`.
pub open spec fn total_below<R, X: Fn(usize) -> R>(f: &X, n: usize) -> bool {
    forall|s: usize| s < n ==> call_requires(f, (s,))
}

/// What a search from `start` with cost limit `limit` can observe of the
/// caller's functions.
pub open spec fn problem_of<F, G, H>(
    transition: &F,
    goal: &G,
    heuristic: &H,
    n: usize,
    start: usize,
    limit: u64,
) -> Problem where F: Fn(usize) -> Vec<(usize, u64)>, G: Fn(usize) -> bool, H: Fn(usize) -> u64 {
    Problem {
        n,
        start,
        limit,
        out: |s: usize, list: Seq<(usize, u64)>|
            exists|r: Vec<(usize, u64)>| call_ensures(transition, (s,), r) && r@ == list,
        goal: |s: usize, b: bool| call_ensures(goal, (s,), b),
        est: |s: usize, v: u64| s < n && call_ensures(heuristic, (s,), v),
    }
}

/// Whether `best` records, for every state, the cost of a cheapest walk
/// to it from `start` within `limit`, in every graph whose successors
/// `transition` lists.
pub open spec fn settles<F: Fn(usize) -> Vec<(usize, u64)>>(
    transition: &F,
    n: usize,
    start: usize,
    limit: u64,
    best: Map<usize, u64>,
) -> bool {
    forall|succ: spec_fn(usize) -> Seq<(usize, u64)>, t: usize|
        #![trigger computes_successors(transition, n, succ), only(t)]
        computes_successors(transition, n, succ) ==> is_shortest_cost(
            edges_of(succ),
            only(t),
            start,
            limit as nat,
            best_in(best, t),
        )
}

/// Taking something that is held out of a multiset makes it one smaller.
proof fn lemma_remove_len<T>(m: Multiset<T>, x: T)
    requires
        m.count(x) > 0,
    ensures
        m.remove(x).len() + 1 == m.len(),
{
    broadcast use vstd::multiset::group_multiset_axioms;

    assert(m.remove(x).insert(x) =~= m);
}

/// Searches for the cheapest walk from `start` to a state that `goal`
/// accepts, with the frontier `queue` and the dominance table `table`, both
/// handed over empty.
///
/// Entries are prioritised by the cost so far plus `heuristic`; a heuristic
/// that is zero everywhere gives Dijkstra's algorithm. Walks whose priority
/// would exceed the highest priority the frontier can hold are not followed.
/// The answer is exact for every graph that the three functions compute, as
/// long as the heuristic never overestimates: the cost of a cheapest walk
/// to a goal when that cost is within the frontier's limit, and `None` when
/// no goal can be reached within it.
pub fn search<F, G, H, Q, D>(
    start: usize,
    n: usize,
    transition: &F,
    goal: &G,
    heuristic: &H,
    frontier: Q,
    table: &mut D,
) -> (r: Option<u64>) where
    F: Fn(usize) -> Vec<(usize, u64)>,
    G: Fn(usize) -> bool,
    H: Fn(usize) -> u64,
    Q: Frontier<(usize, u64)>,
    D: Dominance,

    requires
        start < n,
        stays_within(transition, n),
        total_below(goal, n),
        total_below(heuristic, n),
        frontier.wf(),
        frontier.entries().len() == 0,
        frontier.is_monotone() ==> frontier.floor() == 0 && computes_estimate(
            heuristic,
            n,
            |s: usize| 0u64,
        ),
        old(table).wf(),
        old(table).table() =~= Map::<usize, u64>::empty(),
        forall|k: usize| k < n ==> old(table).admits(k),
    ensures
        forall|m: Model| #[trigger]
            problem_of(transition, goal, heuristic, n, start, frontier.ceiling()).computes(m)
                ==> is_shortest_cost(
                edges_of(m.succ),
                m.is_goal,
                start,
                frontier.ceiling() as nat,
                r,
            ),
        r.is_some() ==> exists|s: usize| s < n && call_ensures(goal, (s,), true),
        final(table).wf(),
        forall|k: usize| k < n ==> final(table).admits(k),
        r.is_none() && computes_estimate(heuristic, n, |s: usize| 0u64) ==> settles(
            transition,
            n,
            start,
            frontier.ceiling(),
            final(table).table(),
        ),
{
    let mut queue = frontier;
    let limit: u64 = queue.limit();
    let ghost p = problem_of(transition, goal, heuristic, n, start, limit);
    let first: u64 = heuristic(start);
    if first > limit {
        proof {
            assert forall|m: Model| #[trigger] p.computes(m) implies is_shortest_cost(
                edges_of(m.succ),
                m.is_goal,
                start,
                limit as nat,
                None,
            ) by {
                assert((p.est)(start, first));
                assert forall|steps: Seq<(usize, u64)>|
                    is_goal_walk(edges_of(m.succ), m.is_goal, start, steps) implies walk_cost(
                    steps,
                ) > limit by {}
            }
            assert(call_ensures(heuristic, (start,), first));
        }
        return None;
    }
    let _ = table.offer(start, 0);
    queue.push(first, (start, 0));
    proof {
        broadcast use vstd::multiset::group_multiset_axioms;

        assert((p.est)(start, first));
        lemma_inv_initial(p, first);
        assert(queue.entries() =~= Multiset::<Entry>::empty().insert((first, (start, 0))));
    }
    loop
        invariant
            start < n,
            stays_within(transition, n),
            total_below(goal, n),
            total_below(heuristic, n),
            p == problem_of(transition, goal, heuristic, n, start, limit),
            limit == queue.ceiling(),
            limit == frontier.ceiling(),
            queue.wf(),
            table.wf(),
            forall|k: usize| k < n ==> table.admits(k),
            queue.is_monotone() ==> computes_estimate(heuristic, n, |s: usize| 0u64),
            inv(p, table.table(), queue.entries()),
        decreases potential(table.table(), n as nat), queue.entries().len(),
    {
        let ghost before = queue.entries();
        let ghost high = potential(table.table(), n as nat);
        match queue.pop_min() {
            None => {
                proof {
                    assert forall|m: Model| #[trigger] p.computes(m) implies is_shortest_cost(
                        edges_of(m.succ),
                        m.is_goal,
                        start,
                        limit as nat,
                        None,
                    ) by {
                        lemma_exhausted(p, m, table.table(), before);
                    }
                    if computes_estimate(heuristic, n, |s: usize| 0u64) {
                        assert(p.unguided());
                        assert forall|succ: spec_fn(usize) -> Seq<(usize, u64)>, t: usize|
                            #![trigger computes_successors(transition, n, succ), only(t)]
                            computes_successors(
                                transition,
                                n,
                                succ,
                            ) implies is_shortest_cost(
                            edges_of(succ),
                            only(t),
                            start,
                            limit as nat,
                            best_in(table.table(), t),
                        ) by {
                            assert(p.lists(succ));
                            lemma_table_is_final(p, succ, table.table(), before, t);
                        }
                    }
                }
                return None;
            },
            Some(e) => {
                let s: usize = e.1.0;
                let c: u64 = e.1.1;
                proof {
                    assert(entry_ok(p, table.table(), e));
                    lemma_remove_len(before, e);
                    if queue.is_monotone() {
                        let v = choose|v: u64| #[trigger] (p.est)(s, v) && e.0 == c + v;
                        assert(v == 0);
                    }
                }
                let at_goal: bool = goal(s);
                if at_goal {
                    proof {
                        assert((p.goal)(s, true));
                        assert forall|m: Model| #[trigger]
                            p.computes(m) implies is_shortest_cost(
                            edges_of(m.succ),
                            m.is_goal,
                            start,
                            limit as nat,
                            Some(c),
                        ) by {
                            lemma_goal_taken(p, m, table.table(), before, e);
                        }
                    }
                    return Some(c);
                }
                let list: Vec<(usize, u64)> = transition(s);
                proof {
                    assert((p.goal)(s, false));
                    assert((p.out)(s, list@));
                    lemma_begin_expansion(p, table.table(), before, e, list@);
                }
                let mut i: usize = 0;
                while i < list.len()
                    invariant
                        i <= list.len(),
                        s < n,
                        stays_within(transition, n),
                        total_below(heuristic, n),
                        call_ensures(transition, (s,), list),
                        p == problem_of(transition, goal, heuristic, n, start, limit),
                        limit == queue.ceiling(),
                        queue.wf(),
                        table.wf(),
                        forall|k: usize| k < n ==> table.admits(k),
                        queue.is_monotone() ==> computes_estimate(heuristic, n, |s: usize| 0u64),
                        queue.is_monotone() ==> queue.floor() <= c,
                        table.table().contains_key(s),
                        table.table()[s] <= c,
                        crate::graph::reaches(p.edge(), start, s, c as nat),
                        mid_inv(p, table.table(), queue.entries(), s, c, list@, i as int, true),
                        potential(table.table(), n as nat) < high || (potential(
                            table.table(),
                            n as nat,
                        ) == high && queue.entries().len() + 1 == before.len()),
                    decreases list.len() - i,
                {
                    let t: usize = list[i].0;
                    let w: u64 = list[i].1;
                    let ghost best = table.table();
                    let ghost held = queue.entries();
                    assert(t < n);
                    let mut fresh: Option<(u64, u64)> = None;
                    match c.checked_add(w) {
                        None => {},
                        Some(reached) => {
                            if reached <= limit {
                                let v: u64 = heuristic(t);
                                assert((p.est)(t, v));
                                match reached.checked_add(v) {
                                    None => {},
                                    Some(priority) => {
                                        if priority <= limit {
                                            fresh = Some((priority, reached));
                                        }
                                    },
                                }
                            }
                        },
                    }
                    assert(fresh.is_none() ==> settled(p, best, c, list@[i as int]));
                    match fresh {
                        None => {
                            proof {
                                lemma_step_settled(p, best, held, s, c, list@, i as int);
                            }
                        },
                        Some((priority, reached)) => {
                            if table.offer(t, reached) {
                                queue.push(priority, (t, reached));
                                proof {
                                    broadcast use vstd::multiset::group_multiset_axioms;

                                    lemma_step_improves(
                                        p,
                                        best,
                                        held,
                                        s,
                                        c,
                                        list@,
                                        i as int,
                                        (priority - reached) as u64,
                                    );
                                    lemma_potential_drops(best, n as nat, t, reached);
                                }
                            } else {
                                proof {
                                    lemma_step_settled(p, best, held, s, c, list@, i as int);
                                }
                            }
                        },
                    }
                    i += 1;
                }
                proof {
                    lemma_end_expansion(p, table.table(), queue.entries(), s, c, list@);
                }
            },
        }
    }
}

/// Whether `r` is the shortest cost, within `limit`, from `start` to a goal
/// in every graph that `transition` and `goal` compute.
pub open spec fn answers<F, G>(
    transition: &F,
    goal: &G,
    n: usize,
    start: usize,
    limit: nat,
    r: Option<u64>,
) -> bool where F: Fn(usize) -> Vec<(usize, u64)>, G: Fn(usize) -> bool {
    forall|succ: spec_fn(usize) -> Seq<(usize, u64)>, is_goal: spec_fn(usize) -> bool|
        #![trigger computes_successors(transition, n, succ), decides_goal(goal, n, is_goal)]
        computes_successors(transition, n, succ) && decides_goal(goal, n, is_goal)
            ==> is_shortest_cost(edges_of(succ), is_goal, start, limit, r)
}

/// Whether `r` is the shortest cost, within `limit`, from `start` to a goal
/// in every graph that `transition` and `goal` compute and for which
/// `heuristic` computes an estimate that never overestimates.
pub open spec fn answers_with_estimate<F, G, H>(
    transition: &F,
    goal: &G,
    heuristic: &H,
    n: usize,
    start: usize,
    limit: nat,
    r: Option<u64>,
) -> bool where F: Fn(usize) -> Vec<(usize, u64)>, G: Fn(usize) -> bool, H: Fn(usize) -> u64 {
    forall|
        succ: spec_fn(usize) -> Seq<(usize, u64)>,
        is_goal: spec_fn(usize) -> bool,
        estimate: spec_fn(usize) -> u64,
    |
        #![trigger computes_successors(transition, n, succ), decides_goal(goal, n, is_goal), computes_estimate(heuristic, n, estimate)]
        computes_successors(transition, n, succ) && decides_goal(goal, n, is_goal)
            && computes_estimate(heuristic, n, estimate) && admissible_below(
            edges_of(succ),
            is_goal,
            estimate,
            n,
        ) ==> is_shortest_cost(edges_of(succ), is_goal, start, limit, r)
}

/// On one graph, a search ordered by cost and a search ordered by cost plus
/// an estimate that never overestimates give the same answer.
pub proof fn lemma_modes_agree<F, G, H>(
    transition: &F,
    goal: &G,
    heuristic: &H,
    n: usize,
    start: usize,
    limit: nat,
    succ: spec_fn(usize) -> Seq<(usize, u64)>,
    is_goal: spec_fn(usize) -> bool,
    estimate: spec_fn(usize) -> u64,
    plain: Option<u64>,
    guided: Option<u64>,
) where F: Fn(usize) -> Vec<(usize, u64)>, G: Fn(usize) -> bool, H: Fn(usize) -> u64
    requires
        computes_successors(transition, n, succ),
        decides_goal(goal, n, is_goal),
        computes_estimate(heuristic, n, estimate),
        admissible_below(edges_of(succ), is_goal, estimate, n),
        answers(transition, goal, n, start, limit, plain),
        answers_with_estimate(transition, goal, heuristic, n, start, limit, guided),
    ensures
        plain == guided,
{
    lemma_shortest_cost_unique(edges_of(succ), is_goal, start, limit, plain, guided);
}

/// Runs [`search`] with a heuristic that is zero everywhere.
fn search_by_cost<F, G, Q, D>(
    start: usize,
    n: usize,
    transition: &F,
    goal: &G,
    frontier: Q,
    dominance: D,
) -> (r: Option<u64>) where
    F: Fn(usize) -> Vec<(usize, u64)>,
    G: Fn(usize) -> bool,
    Q: Frontier<(usize, u64)>,
    D: Dominance,

    requires
        start < n,
        stays_within(transition, n),
        total_below(goal, n),
        frontier.wf(),
        frontier.entries().len() == 0,
        frontier.is_monotone() ==> frontier.floor() == 0,
        dominance.wf(),
        dominance.table() =~= Map::<usize, u64>::empty(),
        forall|k: usize| k < n ==> dominance.admits(k),
    ensures
        answers(transition, goal, n, start, frontier.ceiling() as nat, r),
{
    let zero = |s: usize| -> (v: u64)
        ensures
            v == 0,
        { 0u64 };
    let mut table = dominance;
    let r = search(start, n, transition, goal, &zero, frontier, &mut table);
    proof {
        let p = problem_of(transition, goal, &zero, n, start, frontier.ceiling());
        assert forall|succ: spec_fn(usize) -> Seq<(usize, u64)>, is_goal: spec_fn(usize) -> bool|
            #![trigger computes_successors(transition, n, succ), decides_goal(goal, n, is_goal)]
            computes_successors(transition, n, succ) && decides_goal(
                goal,
                n,
                is_goal,
            ) implies is_shortest_cost(
            edges_of(succ),
            is_goal,
            start,
            frontier.ceiling() as nat,
            r,
        ) by {
            let m = Model { succ, is_goal, estimate: |s: usize| 0u64 };
            assert(p.computes(m));
        }
    }
    r
}

/// Runs [`search`] with the caller's heuristic.
fn search_by_estimate<F, G, H, Q, D>(
    start: usize,
    n: usize,
    transition: &F,
    goal: &G,
    heuristic: &H,
    frontier: Q,
    dominance: D,
) -> (r: Option<u64>) where
    F: Fn(usize) -> Vec<(usize, u64)>,
    G: Fn(usize) -> bool,
    H: Fn(usize) -> u64,
    Q: Frontier<(usize, u64)>,
    D: Dominance,

    requires
        start < n,
        stays_within(transition, n),
        total_below(goal, n),
        total_below(heuristic, n),
        frontier.wf(),
        frontier.entries().len() == 0,
        !frontier.is_monotone(),
        dominance.wf(),
        dominance.table() =~= Map::<usize, u64>::empty(),
        forall|k: usize| k < n ==> dominance.admits(k),
    ensures
        answers_with_estimate(
            transition,
            goal,
            heuristic,
            n,
            start,
            frontier.ceiling() as nat,
            r,
        ),
{
    let mut table = dominance;
    let r = search(start, n, transition, goal, heuristic, frontier, &mut table);
    proof {
        let p = problem_of(transition, goal, heuristic, n, start, frontier.ceiling());
        assert forall|
            succ: spec_fn(usize) -> Seq<(usize, u64)>,
            is_goal: spec_fn(usize) -> bool,
            estimate: spec_fn(usize) -> u64,
        |
            #![trigger computes_successors(transition, n, succ), decides_goal(goal, n, is_goal), computes_estimate(heuristic, n, estimate)]
            computes_successors(transition, n, succ) && decides_goal(goal, n, is_goal)
                && computes_estimate(heuristic, n, estimate) && admissible_below(
                edges_of(succ),
                is_goal,
                estimate,
                n,
            ) implies is_shortest_cost(
            edges_of(succ),
            is_goal,
            start,
            frontier.ceiling() as nat,
            r,
        ) by {
            let m = Model { succ, is_goal, estimate };
            assert(p.computes(m));
        }
    }
    r
}

/// Whether `costs` holds, for every state below `n`, the cost of a
/// cheapest walk to it from `start` within `limit`, or `None` where there
/// is no such walk, in every graph whose successors `transition` lists.
pub open spec fn all_costs<F: Fn(usize) -> Vec<(usize, u64)>>(
    transition: &F,
    n: usize,
    start: usize,
    limit: nat,
    costs: Seq<Option<u64>>,
) -> bool {
    &&& costs.len() == n
    &&& forall|succ: spec_fn(usize) -> Seq<(usize, u64)>, t: usize|
        #![trigger computes_successors(transition, n, succ), only(t)]
        computes_successors(transition, n, succ) && t < n ==> is_shortest_cost(
            edges_of(succ),
            only(t),
            start,
            limit,
            costs[t as int],
        )
}

/// Runs a search without a goal and without estimates until the frontier
/// is empty, and reads the cost of every state off the table.
fn settle_all<F, Q>(start: usize, n: usize, transition: &F, frontier: Q) -> (costs: Vec<
    Option<u64>,
>) where F: Fn(usize) -> Vec<(usize, u64)>, Q: Frontier<(usize, u64)>
    requires
        start < n,
        stays_within(transition, n),
        frontier.wf(),
        frontier.entries().len() == 0,
        frontier.is_monotone() ==> frontier.floor() == 0,
    ensures
        all_costs(transition, n, start, frontier.ceiling() as nat, costs@),
{
    let never = |s: usize| -> (b: bool)
        ensures
            !b,
        { false };
    let zero = |s: usize| -> (v: u64)
        ensures
            v == 0,
        { 0u64 };
    let mut table = DenseDominance::new(n);
    let found = search(start, n, transition, &never, &zero, frontier, &mut table);
    assert(found.is_none());
    let mut costs: Vec<Option<u64>> = Vec::new();
    let mut k: usize = 0;
    while k < n
        invariant
            k <= n,
            table.wf(),
            forall|j: usize| j < n ==> table.admits(j),
            costs@.len() == k,
            forall|j: int| 0 <= j < k ==> costs@[j] == best_in(table.table(), j as usize),
        decreases n - k,
    {
        costs.push(table.best(k));
        k += 1;
    }
    costs
}

/// The cost of a cheapest walk from `start` to every state below `n`, by
/// Dijkstra's algorithm over a binary heap; `None` for a state that cannot
/// be reached.
pub fn distances<F>(start: usize, n: usize, transition: F) -> (costs: Vec<Option<u64>>) where
    F: Fn(usize) -> Vec<(usize, u64)>,

    requires
        start < n,
        stays_within(&transition, n),
    ensures
        all_costs(&transition, n, start, u64::MAX as nat, costs@),
{
    let queue: MinHeap<(usize, u64)> = MinHeap::new();
    settle_all(start, n, &transition, queue)
}

/// As [`distances`], over a bucket queue: for walks that cost at most
/// `max_cost`. With steps of cost 1 this is a breadth-first search.
pub fn distances_bucketed<F>(start: usize, n: usize, transition: F, max_cost: usize) -> (costs: Vec<
    Option<u64>,
>) where F: Fn(usize) -> Vec<(usize, u64)>
    requires
        start < n,
        max_cost < usize::MAX,
        stays_within(&transition, n),
    ensures
        all_costs(&transition, n, start, max_cost as nat, costs@),
{
    let queue: BucketQueue<(usize, u64)> = BucketQueue::new(max_cost);
    settle_all(start, n, &transition, queue)
}

/// Dijkstra's algorithm over a binary heap: the cost of a cheapest walk
/// from `start` to a state that `goal` accepts, among the states `0..n`
/// with the edges that `transition` lists, or `None` when no such state can
/// be reached.
pub fn dijkstra<F, G>(start: usize, n: usize, transition: F, goal: G) -> (r: Option<u64>) where
    F: Fn(usize) -> Vec<(usize, u64)>,
    G: Fn(usize) -> bool,

    requires
        start < n,
        stays_within(&transition, n),
        total_below(&goal, n),
    ensures
        answers(&transition, &goal, n, start, u64::MAX as nat, r),
{
    let queue: MinHeap<(usize, u64)> = MinHeap::new();
    let table = DenseDominance::new(n);
    search_by_cost(start, n, &transition, &goal, queue, table)
}

/// A* over a binary heap: as [`dijkstra`], with the frontier ordered by
/// cost plus `heuristic`, which must never overestimate the cost still to
/// come.
pub fn a_star<F, G, H>(start: usize, n: usize, transition: F, goal: G, heuristic: H) -> (r: Option<
    u64,
>) where F: Fn(usize) -> Vec<(usize, u64)>, G: Fn(usize) -> bool, H: Fn(usize) -> u64
    requires
        start < n,
        stays_within(&transition, n),
        total_below(&goal, n),
        total_below(&heuristic, n),
    ensures
        answers_with_estimate(&transition, &goal, &heuristic, n, start, u64::MAX as nat, r),
{
    let queue: MinHeap<(usize, u64)> = MinHeap::new();
    let table = DenseDominance::new(n);
    search_by_estimate(start, n, &transition, &goal, &heuristic, queue, table)
}

/// The cost of a cheapest walk from `start` to a state that `goal` accepts,
/// among the states `0..n` with the edges that `transition` lists, or
/// `None` when no such state can be reached.
///
/// In `Dijkstra` mode the frontier is ordered by cost; in `AStar` mode by
/// cost plus the mode's estimate, which must never overestimate the cost
/// still to come. Both give the same answer. Costs are summed in `u64`; a
/// walk whose cost does not fit is not followed.
pub fn solve_shortest_cost<F, G, H>(
    start: usize,
    n: usize,
    transition: F,
    goal: G,
    mode: Mode<H>,
) -> (r: Option<u64>) where
    F: Fn(usize) -> Vec<(usize, u64)>,
    G: Fn(usize) -> bool,
    H: Fn(usize) -> u64,

    requires
        start < n,
        stays_within(&transition, n),
        total_below(&goal, n),
        mode matches Mode::AStar(h) ==> total_below(&h, n),
    ensures
        mode is Dijkstra ==> answers(&transition, &goal, n, start, u64::MAX as nat, r),
        mode matches Mode::AStar(h) ==> answers_with_estimate(
            &transition,
            &goal,
            &h,
            n,
            start,
            u64::MAX as nat,
            r,
        ),
{
    match mode {
        Mode::Dijkstra => dijkstra(start, n, transition, goal),
        Mode::AStar(h) => a_star(start, n, transition, goal, h),
    }
}

/// As [`dijkstra`], with the dominance table kept in a hash map: for key
/// spaces of which a search visits only a small part.
pub fn dijkstra_sparse<F, G>(start: usize, n: usize, transition: F, goal: G) -> (r: Option<
    u64,
>) where F: Fn(usize) -> Vec<(usize, u64)>, G: Fn(usize) -> bool
    requires
        start < n,
        stays_within(&transition, n),
        total_below(&goal, n),
    ensures
        answers(&transition, &goal, n, start, u64::MAX as nat, r),
{
    let queue: MinHeap<(usize, u64)> = MinHeap::new();
    let table = HashDominance::new();
    search_by_cost(start, n, &transition, &goal, queue, table)
}

/// As [`a_star`], with the dominance table kept in a hash map.
pub fn a_star_sparse<F, G, H>(start: usize, n: usize, transition: F, goal: G, heuristic: H) -> (r:
    Option<u64>) where F: Fn(usize) -> Vec<(usize, u64)>, G: Fn(usize) -> bool, H: Fn(usize) -> u64
    requires
        start < n,
        stays_within(&transition, n),
        total_below(&goal, n),
        total_below(&heuristic, n),
    ensures
        answers_with_estimate(&transition, &goal, &heuristic, n, start, u64::MAX as nat, r),
{
    let queue: MinHeap<(usize, u64)> = MinHeap::new();
    let table = HashDominance::new();
    search_by_estimate(start, n, &transition, &goal, &heuristic, queue, table)
}

/// As [`solve_shortest_cost`], with the dominance table kept in a hash map:
/// for key spaces of which a search visits only a small part.
pub fn solve_shortest_cost_sparse<F, G, H>(
    start: usize,
    n: usize,
    transition: F,
    goal: G,
    mode: Mode<H>,
) -> (r: Option<u64>) where
    F: Fn(usize) -> Vec<(usize, u64)>,
    G: Fn(usize) -> bool,
    H: Fn(usize) -> u64,

    requires
        start < n,
        stays_within(&transition, n),
        total_below(&goal, n),
        mode matches Mode::AStar(h) ==> total_below(&h, n),
    ensures
        mode is Dijkstra ==> answers(&transition, &goal, n, start, u64::MAX as nat, r),
        mode matches Mode::AStar(h) ==> answers_with_estimate(
            &transition,
            &goal,
            &h,
            n,
            start,
            u64::MAX as nat,
            r,
        ),
{
    match mode {
        Mode::Dijkstra => dijkstra_sparse(start, n, transition, goal),
        Mode::AStar(h) => a_star_sparse(start, n, transition, goal, h),
    }
}

/// Dijkstra's algorithm over a bucket queue, for walks that cost at most
/// `max_cost`.
///
/// Returns the cost of a cheapest walk from `start` to a state that `goal`
/// accepts when that cost is at most `max_cost`, and `None` when no goal
/// can be reached at such a cost.
pub fn solve_shortest_cost_bucketed<F, G>(
    start: usize,
    n: usize,
    transition: F,
    goal: G,
    max_cost: usize,
) -> (r: Option<u64>) where F: Fn(usize) -> Vec<(usize, u64)>, G: Fn(usize) -> bool
    requires
        start < n,
        max_cost < usize::MAX,
        stays_within(&transition, n),
        total_below(&goal, n),
    ensures
        answers(&transition, &goal, n, start, max_cost as nat, r),
{
    let queue: BucketQueue<(usize, u64)> = BucketQueue::new(max_cost);
    let table = DenseDominance::new(n);
    search_by_cost(start, n, &transition, &goal, queue, table)
}

} // verus!
