//! Weighted state graphs as mathematics: walks, their costs, and what it
//! means for a cost to be the cheapest way to a goal.
//!
//! States are keys (`usize`), an edge carries a non-negative cost (`u64`),
//! and a graph is its edge relation. A walk is written as the sequence of
//! its steps, each the state stepped to and the cost of the edge taken.

use vstd::prelude::*;

verus! {

/// An edge relation: `edge(s, t, w)` holds when the graph has an edge of cost
/// `w` from `s` to `t`.
pub type Edges = spec_fn(usize, usize, u64) -> bool;

/// The edge relation of a graph given by successor lists.
pub open spec fn edges_of(succ: spec_fn(usize) -> Seq<(usize, u64)>) -> Edges {
    |s: usize, t: usize, w: u64| succ(s).contains((t, w))
}

/// The state a walk from `from` along `steps` ends in.
pub open spec fn walk_end(from: usize, steps: Seq<(usize, u64)>) -> usize {
    if steps.len() == 0 {
        from
    } else {
        steps.last().0
    }
}

/// The total cost of the edges of a walk.
pub open spec fn walk_cost(steps: Seq<(usize, u64)>) -> nat
    decreases steps.len(),
{
    if steps.len() == 0 {
        0
    } else {
        walk_cost(steps.drop_last()) + steps.last().1 as nat
    }
}

/// Whether `steps` is a walk of the graph that starts in `from`: every step
/// follows an edge out of the state the walk has reached.
pub open spec fn is_walk(edge: Edges, from: usize, steps: Seq<(usize, u64)>) -> bool
    decreases steps.len(),
{
    steps.len() == 0 || (is_walk(edge, from, steps.drop_last()) && edge(
        walk_end(from, steps.drop_last()),
        steps.last().0,
        steps.last().1,
    ))
}

/// Whether `steps` is a walk from `from` that ends in a goal state.
pub open spec fn is_goal_walk(
    edge: Edges,
    is_goal: spec_fn(usize) -> bool,
    from: usize,
    steps: Seq<(usize, u64)>,
) -> bool {
    is_walk(edge, from, steps) && is_goal(walk_end(from, steps))
}

/// Whether some walk from `from` to `to` costs exactly `cost`.
pub open spec fn reaches(edge: Edges, from: usize, to: usize, cost: nat) -> bool {
    exists|steps: Seq<(usize, u64)>|
        is_walk(edge, from, steps) && walk_end(from, steps) == to && walk_cost(steps) == cost
}

/// Whether `result` is the answer of a shortest-cost query with cost limit
/// `limit`: `Some(c)` when `c` is the cost of a cheapest walk from `start` to
/// a goal and does not exceed the limit, `None` when every walk to a goal
/// costs more than the limit (in particular when there is none).
pub open spec fn is_shortest_cost(
    edge: Edges,
    is_goal: spec_fn(usize) -> bool,
    start: usize,
    limit: nat,
    result: Option<u64>,
) -> bool {
    match result {
        Some(c) => {
            &&& c <= limit
            &&& exists|steps: Seq<(usize, u64)>|
                is_goal_walk(edge, is_goal, start, steps) && walk_cost(steps) == c
            &&& forall|steps: Seq<(usize, u64)>|
                is_goal_walk(edge, is_goal, start, steps) ==> c <= walk_cost(steps)
        },
        None => forall|steps: Seq<(usize, u64)>|
            is_goal_walk(edge, is_goal, start, steps) ==> walk_cost(steps) > limit,
    }
}

/// Whether `estimate` never overestimates on the states below `n`: from
/// each of them it is at most the cost of any walk from there to a goal.
pub open spec fn admissible_below(
    edge: Edges,
    is_goal: spec_fn(usize) -> bool,
    estimate: spec_fn(usize) -> u64,
    n: usize,
) -> bool {
    forall|s: usize, steps: Seq<(usize, u64)>|
        s < n && #[trigger] is_goal_walk(edge, is_goal, s, steps) ==> estimate(s) <= walk_cost(
            steps,
        )
}

/// A query has one answer: two results that both are the shortest cost are
/// equal.
pub proof fn lemma_shortest_cost_unique(
    edge: Edges,
    is_goal: spec_fn(usize) -> bool,
    start: usize,
    limit: nat,
    a: Option<u64>,
    b: Option<u64>,
)
    requires
        is_shortest_cost(edge, is_goal, start, limit, a),
        is_shortest_cost(edge, is_goal, start, limit, b),
    ensures
        a == b,
{
    match (a, b) {
        (Some(x), Some(y)) => {
            let wa = choose|steps: Seq<(usize, u64)>|
                is_goal_walk(edge, is_goal, start, steps) && walk_cost(steps) == x;
            let wb = choose|steps: Seq<(usize, u64)>|
                is_goal_walk(edge, is_goal, start, steps) && walk_cost(steps) == y;
            assert(x <= walk_cost(wb));
            assert(y <= walk_cost(wa));
        },
        (Some(x), None) => {
            let wa = choose|steps: Seq<(usize, u64)>|
                is_goal_walk(edge, is_goal, start, steps) && walk_cost(steps) == x;
            assert(walk_cost(wa) > limit);
        },
        (None, Some(y)) => {
            let wb = choose|steps: Seq<(usize, u64)>|
                is_goal_walk(edge, is_goal, start, steps) && walk_cost(steps) == y;
            assert(walk_cost(wb) > limit);
        },
        (None, None) => {},
    }
}

/// A walk stays a walk when it takes one more edge, and its cost grows by
/// the cost of that edge.
pub proof fn lemma_walk_extend(edge: Edges, from: usize, steps: Seq<(usize, u64)>, t: usize, w: u64)
    requires
        is_walk(edge, from, steps),
        edge(walk_end(from, steps), t, w),
    ensures
        is_walk(edge, from, steps.push((t, w))),
        walk_end(from, steps.push((t, w))) == t,
        walk_cost(steps.push((t, w))) == walk_cost(steps) + w,
{
    assert(steps.push((t, w)).drop_last() =~= steps);
}

/// The first `k` steps of a walk are a walk.
pub proof fn lemma_walk_prefix(edge: Edges, from: usize, steps: Seq<(usize, u64)>, k: int)
    requires
        is_walk(edge, from, steps),
        0 <= k <= steps.len(),
    ensures
        is_walk(edge, from, steps.take(k)),
        k < steps.len() ==> edge(walk_end(from, steps.take(k)), steps[k].0, steps[k].1),
        k < steps.len() ==> steps.take(k + 1) == steps.take(k).push(steps[k]),
    decreases steps.len(),
{
    if k == steps.len() {
        assert(steps.take(k) =~= steps);
    } else {
        assert(steps.take(k + 1) =~= steps.take(k).push(steps[k]));
        if k == steps.len() - 1 {
            assert(steps.take(k) =~= steps.drop_last());
        } else {
            lemma_walk_prefix(edge, from, steps.drop_last(), k);
            assert(steps.drop_last().take(k) =~= steps.take(k));
        }
    }
}

/// What is left of a walk after its first `k` steps is a walk from the
/// state reached by then, to the same end, and the two parts share the cost.
pub proof fn lemma_walk_suffix(edge: Edges, from: usize, steps: Seq<(usize, u64)>, k: int)
    requires
        is_walk(edge, from, steps),
        0 <= k <= steps.len(),
    ensures
        is_walk(edge, walk_end(from, steps.take(k)), steps.skip(k)),
        walk_end(walk_end(from, steps.take(k)), steps.skip(k)) == walk_end(from, steps),
        walk_cost(steps.take(k)) + walk_cost(steps.skip(k)) == walk_cost(steps),
    decreases steps.len(),
{
    if k == steps.len() {
        assert(steps.take(k) =~= steps);
        assert(steps.skip(k) =~= Seq::<(usize, u64)>::empty());
    } else {
        let shorter = steps.drop_last();
        lemma_walk_suffix(edge, from, shorter, k);
        assert(shorter.take(k) =~= steps.take(k));
        assert(steps.skip(k).drop_last() =~= shorter.skip(k));
        if k == steps.len() - 1 {
            assert(shorter.skip(k) =~= Seq::<(usize, u64)>::empty());
        }
    }
}

/// A walk of one graph is a walk of every graph that has all its edges.
pub proof fn lemma_walk_in_larger_graph(
    small: Edges,
    large: Edges,
    from: usize,
    steps: Seq<(usize, u64)>,
)
    requires
        is_walk(small, from, steps),
        forall|s: usize, t: usize, w: u64| #[trigger] small(s, t, w) ==> large(s, t, w),
    ensures
        is_walk(large, from, steps),
    decreases steps.len(),
{
    if steps.len() > 0 {
        lemma_walk_in_larger_graph(small, large, from, steps.drop_last());
    }
}

/// Whether `estimate` is consistent on the states below `n`: it is zero at
/// every goal, it drops along an edge by no more than the edge costs, and
/// no edge leads out of the states below `n`.
pub open spec fn consistent_below(
    edge: Edges,
    is_goal: spec_fn(usize) -> bool,
    estimate: spec_fn(usize) -> u64,
    n: usize,
) -> bool {
    &&& forall|s: usize, t: usize, w: u64|
        s < n && #[trigger] edge(s, t, w) ==> t < n && estimate(s) <= w + estimate(t)
    &&& forall|s: usize| s < n && #[trigger] is_goal(s) ==> estimate(s) == 0
}

/// A walk splits into its first step and the walk that follows.
pub proof fn lemma_walk_first_step(edge: Edges, from: usize, steps: Seq<(usize, u64)>)
    requires
        is_walk(edge, from, steps),
        steps.len() > 0,
    ensures
        edge(from, steps[0].0, steps[0].1),
        is_walk(edge, steps[0].0, steps.skip(1)),
        walk_end(steps[0].0, steps.skip(1)) == walk_end(from, steps),
        walk_cost(steps) == steps[0].1 + walk_cost(steps.skip(1)),
{
    lemma_walk_prefix(edge, from, steps, 0);
    lemma_walk_suffix(edge, from, steps, 1);
    assert(steps.take(0) =~= Seq::<(usize, u64)>::empty());
    assert(steps.take(1) =~= Seq::<(usize, u64)>::empty().push(steps[0]));
    let one = steps.take(1);
    assert(one.len() == 1);
    assert(one.drop_last() =~= Seq::<(usize, u64)>::empty());
    assert(one.last() == steps[0]);
    assert(walk_cost(one.drop_last()) == 0);
    assert(walk_cost(one) == walk_cost(one.drop_last()) + one.last().1 as nat);
}

/// A consistent estimate is at most the cost of any walk to a goal.
pub proof fn lemma_consistent_bounds_walk(
    edge: Edges,
    is_goal: spec_fn(usize) -> bool,
    estimate: spec_fn(usize) -> u64,
    n: usize,
    s: usize,
    steps: Seq<(usize, u64)>,
)
    requires
        consistent_below(edge, is_goal, estimate, n),
        s < n,
        is_goal_walk(edge, is_goal, s, steps),
    ensures
        estimate(s) <= walk_cost(steps),
    decreases steps.len(),
{
    if steps.len() > 0 {
        lemma_walk_first_step(edge, s, steps);
        lemma_consistent_bounds_walk(edge, is_goal, estimate, n, steps[0].0, steps.skip(1));
    }
}

/// A consistent estimate never overestimates.
pub proof fn lemma_consistent_is_admissible(
    edge: Edges,
    is_goal: spec_fn(usize) -> bool,
    estimate: spec_fn(usize) -> u64,
    n: usize,
)
    requires
        consistent_below(edge, is_goal, estimate, n),
    ensures
        admissible_below(edge, is_goal, estimate, n),
{
    assert forall|s: usize, steps: Seq<(usize, u64)>|
        s < n && #[trigger] is_goal_walk(edge, is_goal, s, steps) implies estimate(s)
        <= walk_cost(steps) by {
        lemma_consistent_bounds_walk(edge, is_goal, estimate, n, s, steps);
    }
}

} // verus!
