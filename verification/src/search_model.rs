//! The reasoning behind the search driver.
//!
//! A running search is described by what it has observed of the caller's
//! functions (a [`Problem`]), the dominance table and the frontier. The
//! invariant [`inv`] ties the three together, and
//! [`lemma_frontier_bounds_goal_walks`] is what makes the driver's answer
//! optimal: as long as a goal can be reached within the limit, the frontier
//! holds an entry whose priority is at most the cost of getting there.

use vstd::prelude::*;
use vstd::multiset::Multiset;
use crate::dominance::best_in;
use crate::graph::{
    admissible_below, edges_of, is_goal_walk, is_shortest_cost, is_walk, lemma_walk_extend,
    lemma_walk_in_larger_graph, lemma_walk_prefix, lemma_walk_suffix, reaches, walk_cost,
    walk_end, Edges,
};

verus! {

/// A frontier entry of a search: a priority, and the state it is for with
/// the cost of the walk that led there.
pub type Entry = (u64, (usize, u64));

/// What a search knows of the graph it explores: the bounds it was given
/// and, as relations, what the caller's functions may return.
pub struct Problem {
    /// States are the keys below `n`.
    pub n: usize,
    /// The state the search starts from.
    pub start: usize,
    /// Walks that cost more than this are not followed.
    pub limit: u64,
    /// `out(s, list)`: the transition function may return `list` for `s`.
    pub out: spec_fn(usize, Seq<(usize, u64)>) -> bool,
    /// `goal(s, b)`: the goal predicate may return `b` for `s`.
    pub goal: spec_fn(usize, bool) -> bool,
    /// `est(s, v)`: the estimate of the remaining cost of `s` may be `v`.
    pub est: spec_fn(usize, u64) -> bool,
}

/// A graph with goals and estimates, given by total functions.
pub struct Model {
    pub succ: spec_fn(usize) -> Seq<(usize, u64)>,
    pub is_goal: spec_fn(usize) -> bool,
    pub estimate: spec_fn(usize) -> u64,
}

impl Problem {
    /// The edges that the transition function may produce.
    pub open spec fn edge(self) -> Edges {
        |s: usize, t: usize, w: u64|
            s < self.n && exists|list: Seq<(usize, u64)>|
                (self.out)(s, list) && list.contains((t, w))
    }

    /// Whether the transition function lists the successors of `succ` on
    /// the states below `n`.
    pub open spec fn lists(self, succ: spec_fn(usize) -> Seq<(usize, u64)>) -> bool {
        forall|s: usize, list: Seq<(usize, u64)>|
            s < self.n && #[trigger] (self.out)(s, list) ==> list == succ(s)
    }

    /// Whether every estimate is zero.
    pub open spec fn unguided(self) -> bool {
        forall|s: usize, v: u64| #[trigger] (self.est)(s, v) ==> v == 0
    }

    /// Whether the caller's functions compute `m` on the states below `n`,
    /// and the estimates of `m` never overestimate.
    pub open spec fn computes(self, m: Model) -> bool {
        &&& self.lists(m.succ)
        &&& forall|s: usize, b: bool|
            s < self.n && #[trigger] (self.goal)(s, b) ==> b == (m.is_goal)(s)
        &&& forall|s: usize, v: u64|
            s < self.n && #[trigger] (self.est)(s, v) ==> v == (m.estimate)(s)
        &&& admissible_below(edges_of(m.succ), m.is_goal, m.estimate, self.n)
    }
}

/// Whether the frontier entry `e` is sound: within the limit, for a state
/// whose recorded cost is at most the entry's, reached by a walk of the
/// entry's cost, and prioritised by that cost plus the state's estimate.
pub open spec fn entry_ok(p: Problem, best: Map<usize, u64>, e: Entry) -> bool {
    &&& e.0 <= p.limit
    &&& best.contains_key(e.1.0)
    &&& best[e.1.0] <= e.1.1
    &&& reaches(p.edge(), p.start, e.1.0, e.1.1 as nat)
    &&& exists|v: u64| #[trigger] (p.est)(e.1.0, v) && e.0 == e.1.1 + v
}

/// Whether the frontier holds the entry that carries the recorded cost of
/// `s`.
pub open spec fn pending(p: Problem, best: Map<usize, u64>, frontier: Multiset<Entry>, s: usize) -> bool {
    exists|v: u64|
        #[trigger] (p.est)(s, v) && best[s] + v <= u64::MAX && frontier.count(
            ((best[s] + v) as u64, (s, best[s])),
        ) > 0
}

/// Whether the step `step`, taken from a state of cost `c`, needs no more
/// work: it leads beyond the limit, or to a state recorded at no more than
/// the cost it would give.
pub open spec fn settled(p: Problem, best: Map<usize, u64>, c: u64, step: (usize, u64)) -> bool {
    ||| c + step.1 > p.limit
    ||| step.0 < p.n && exists|v: u64| #[trigger] (p.est)(step.0, v) && c + step.1 + v > p.limit
    ||| best.contains_key(step.0) && best[step.0] <= c + step.1
}

/// Whether the first `upto` steps out of `s`, as listed in `list`, are
/// settled for the cost `c`, and `s` is known not to be a goal.
pub open spec fn expanded(
    p: Problem,
    best: Map<usize, u64>,
    s: usize,
    c: u64,
    list: Seq<(usize, u64)>,
    upto: int,
) -> bool {
    &&& (p.goal)(s, false)
    &&& (p.out)(s, list)
    &&& forall|j: int| 0 <= j < upto && j < list.len() ==> settled(p, best, c, #[trigger] list[j])
}

/// Whether `s` has been expanded at its recorded cost.
pub open spec fn closed(p: Problem, best: Map<usize, u64>, s: usize) -> bool {
    exists|list: Seq<(usize, u64)>| #[trigger]
        expanded(p, best, s, best[s], list, list.len() as int)
}

/// What holds of table and frontier whenever no expansion is under way.
pub open spec fn inv(p: Problem, best: Map<usize, u64>, frontier: Multiset<Entry>) -> bool {
    mid_inv(p, best, frontier, p.start, 0, Seq::empty(), 0, false)
}

/// What holds of table and frontier at any moment. While `busy`, the state
/// `s`, taken from the frontier at cost `c`, is being expanded along `list`
/// and its first `upto` steps are done.
pub open spec fn mid_inv(
    p: Problem,
    best: Map<usize, u64>,
    frontier: Multiset<Entry>,
    s: usize,
    c: u64,
    list: Seq<(usize, u64)>,
    upto: int,
    busy: bool,
) -> bool {
    &&& p.start < p.n
    &&& best.contains_key(p.start)
    &&& best[p.start] == 0
    &&& forall|k: usize| #[trigger]
        best.contains_key(k) ==> k < p.n && best[k] <= p.limit && reaches(
            p.edge(),
            p.start,
            k,
            best[k] as nat,
        )
    &&& forall|e: Entry| #[trigger] frontier.count(e) > 0 ==> entry_ok(p, best, e)
    &&& forall|k: usize| #[trigger]
        best.contains_key(k) ==> {
            ||| pending(p, best, frontier, k)
            ||| closed(p, best, k)
            ||| busy && k == s && best[k] == c && expanded(p, best, k, c, list, upto)
        }
}

/// The sum, over the keys below `n`, of the recorded cost, or of one more
/// than any cost where nothing is recorded. Every improvement of the table
/// lowers it.
pub open spec fn potential(best: Map<usize, u64>, n: nat) -> nat
    decreases n,
{
    if n == 0 {
        0
    } else {
        potential(best, (n - 1) as nat) + (if best.contains_key((n - 1) as usize) {
            best[(n - 1) as usize] as nat
        } else {
            u64::MAX as nat + 1
        })
    }
}

/// Recording a strictly better cost for a key below `n` lowers the
/// potential.
pub proof fn lemma_potential_drops(best: Map<usize, u64>, n: nat, key: usize, cost: u64)
    requires
        n <= usize::MAX + 1,
        !best.contains_key(key) || cost < best[key],
    ensures
        key < n ==> potential(best.insert(key, cost), n) < potential(best, n),
        key >= n ==> potential(best.insert(key, cost), n) == potential(best, n),
    decreases n,
{
    if n > 0 {
        lemma_potential_drops(best, (n - 1) as nat, key, cost);
    }
}

/// One more edge taken from a reached state reaches the edge's target.
pub proof fn lemma_reaches_step(edge: Edges, from: usize, s: usize, c: nat, t: usize, w: u64)
    requires
        reaches(edge, from, s, c),
        edge(s, t, w),
    ensures
        reaches(edge, from, t, c + w as nat),
{
    let steps = choose|steps: Seq<(usize, u64)>|
        is_walk(edge, from, steps) && walk_end(from, steps) == s && walk_cost(steps) == c;
    lemma_walk_extend(edge, from, steps, t, w);
}

/// A settled step stays settled when recorded costs only improve.
pub proof fn lemma_settled_monotone(
    p: Problem,
    best: Map<usize, u64>,
    better: Map<usize, u64>,
    c: u64,
    step: (usize, u64),
)
    requires
        settled(p, best, c, step),
        forall|k: usize| #[trigger]
            best.contains_key(k) ==> better.contains_key(k) && better[k] <= best[k],
    ensures
        settled(p, better, c, step),
{
    if best.contains_key(step.0) && best[step.0] <= c + step.1 {
        assert(better.contains_key(step.0));
    }
}

/// An expansion stays valid when recorded costs only improve.
pub proof fn lemma_expanded_monotone(
    p: Problem,
    best: Map<usize, u64>,
    better: Map<usize, u64>,
    s: usize,
    c: u64,
    list: Seq<(usize, u64)>,
    upto: int,
)
    requires
        expanded(p, best, s, c, list, upto),
        forall|k: usize| #[trigger]
            best.contains_key(k) ==> better.contains_key(k) && better[k] <= best[k],
    ensures
        expanded(p, better, s, c, list, upto),
{
    assert forall|j: int| 0 <= j < upto && j < list.len() implies settled(
        p,
        better,
        c,
        #[trigger] list[j],
    ) by {
        lemma_settled_monotone(p, best, better, c, list[j]);
    }
}

/// A search that has only its start state, at cost zero and on the
/// frontier, satisfies the invariant.
pub proof fn lemma_inv_initial(p: Problem, v: u64)
    requires
        p.start < p.n,
        (p.est)(p.start, v),
        v <= p.limit,
    ensures
        inv(
            p,
            Map::<usize, u64>::empty().insert(p.start, 0),
            Multiset::<Entry>::empty().insert((v, (p.start, 0))),
        ),
{
    broadcast use vstd::multiset::group_multiset_axioms;

    let best = Map::<usize, u64>::empty().insert(p.start, 0);
    let frontier = Multiset::<Entry>::empty().insert((v, (p.start, 0)));
    let none = Seq::<(usize, u64)>::empty();
    assert(is_walk(p.edge(), p.start, none));
    assert(walk_cost(none) == 0);
    assert(reaches(p.edge(), p.start, p.start, 0));
    assert(pending(p, best, frontier, p.start)) by {
        assert((p.est)(p.start, v) && frontier.count(((best[p.start] + v) as u64, (p.start, best[p.start]))) > 0);
    }
    assert forall|e: Entry| #[trigger] frontier.count(e) > 0 implies entry_ok(p, best, e) by {
        assert(e == (v, (p.start, 0u64)));
        assert((p.est)(e.1.0, v) && e.0 == e.1.1 + v);
    }
}

/// Taking the entry `e` off the frontier starts the expansion of its state:
/// once the state is known not to be a goal and its successor list is in
/// hand, the invariant holds with no step done yet.
pub proof fn lemma_begin_expansion(
    p: Problem,
    best: Map<usize, u64>,
    frontier: Multiset<Entry>,
    e: Entry,
    list: Seq<(usize, u64)>,
)
    requires
        inv(p, best, frontier),
        frontier.count(e) > 0,
        (p.goal)(e.1.0, false),
        (p.out)(e.1.0, list),
    ensures
        mid_inv(p, best, frontier.remove(e), e.1.0, e.1.1, list, 0, true),
{
    broadcast use vstd::multiset::group_multiset_axioms;

    let rest = frontier.remove(e);
    assert forall|x: Entry| #[trigger] rest.count(x) > 0 implies entry_ok(p, best, x) by {
        assert(frontier.count(x) > 0);
    }
    assert forall|k: usize| #[trigger] best.contains_key(k) implies {
        ||| pending(p, best, rest, k)
        ||| closed(p, best, k)
        ||| k == e.1.0 && best[k] == e.1.1 && expanded(p, best, k, e.1.1, list, 0)
    } by {
        if pending(p, best, frontier, k) {
            let v = choose|v: u64|
                #[trigger] (p.est)(k, v) && best[k] + v <= u64::MAX && frontier.count(
                    ((best[k] + v) as u64, (k, best[k])),
                ) > 0;
            let held: Entry = ((best[k] + v) as u64, (k, best[k]));
            if held != e {
                assert(rest.count(held) > 0);
                assert(pending(p, best, rest, k));
            } else if rest.count(held) > 0 {
                assert(pending(p, best, rest, k));
            }
        }
    }
}

/// A step that is settled as things stand counts as done.
pub proof fn lemma_step_settled(
    p: Problem,
    best: Map<usize, u64>,
    frontier: Multiset<Entry>,
    s: usize,
    c: u64,
    list: Seq<(usize, u64)>,
    upto: int,
)
    requires
        mid_inv(p, best, frontier, s, c, list, upto, true),
        0 <= upto < list.len(),
        settled(p, best, c, list[upto]),
    ensures
        mid_inv(p, best, frontier, s, c, list, upto + 1, true),
{
    assert forall|k: usize| #[trigger] best.contains_key(k) implies {
        ||| pending(p, best, frontier, k)
        ||| closed(p, best, k)
        ||| k == s && best[k] == c && expanded(p, best, k, c, list, upto + 1)
    } by {
        if k == s && best[k] == c && expanded(p, best, k, c, list, upto) {
            assert forall|j: int| 0 <= j < upto + 1 && j < list.len() implies settled(
                p,
                best,
                c,
                #[trigger] list[j],
            ) by {}
        }
    }
}

/// A step that improves on the table is done once the table records the new
/// cost and the frontier holds the entry for it.
pub proof fn lemma_step_improves(
    p: Problem,
    best: Map<usize, u64>,
    frontier: Multiset<Entry>,
    s: usize,
    c: u64,
    list: Seq<(usize, u64)>,
    upto: int,
    v: u64,
)
    requires
        mid_inv(p, best, frontier, s, c, list, upto, true),
        0 <= upto < list.len(),
        s < p.n,
        (p.out)(s, list),
        best.contains_key(s),
        best[s] <= c,
        reaches(p.edge(), p.start, s, c as nat),
        list[upto].0 < p.n,
        (p.est)(list[upto].0, v),
        c + list[upto].1 + v <= p.limit,
        !best.contains_key(list[upto].0) || c + list[upto].1 < best[list[upto].0],
    ensures
        mid_inv(
            p,
            best.insert(list[upto].0, (c + list[upto].1) as u64),
            frontier.insert(
                ((c + list[upto].1 + v) as u64, (list[upto].0, (c + list[upto].1) as u64)),
            ),
            s,
            c,
            list,
            upto + 1,
            true,
        ),
{
    broadcast use vstd::multiset::group_multiset_axioms;

    let t = list[upto].0;
    let w = list[upto].1;
    let nc = (c + w) as u64;
    let fresh: Entry = ((nc + v) as u64, (t, nc));
    let better = best.insert(t, nc);
    let wider = frontier.insert(fresh);
    assert(t != s);
    assert(t != p.start);
    assert(p.edge()(s, t, w)) by {
        assert((p.out)(s, list) && list.contains((t, w)));
    }
    lemma_reaches_step(p.edge(), p.start, s, c as nat, t, w);
    assert forall|k: usize| #[trigger] best.contains_key(k) implies better.contains_key(k)
        && better[k] <= best[k] by {}
    assert forall|e: Entry| #[trigger] wider.count(e) > 0 implies entry_ok(p, better, e) by {
        if e == fresh {
            assert((p.est)(e.1.0, v) && e.0 == e.1.1 + v);
        } else {
            assert(frontier.count(e) > 0);
            assert(entry_ok(p, best, e));
            let ev = choose|ev: u64| #[trigger] (p.est)(e.1.0, ev) && e.0 == e.1.1 + ev;
            assert((p.est)(e.1.0, ev) && e.0 == e.1.1 + ev);
        }
    }
    assert forall|k: usize| #[trigger] better.contains_key(k) implies {
        ||| pending(p, better, wider, k)
        ||| closed(p, better, k)
        ||| k == s && better[k] == c && expanded(p, better, k, c, list, upto + 1)
    } by {
        if k == t {
            assert((p.est)(t, v) && better[t] + v <= u64::MAX && wider.count(
                ((better[t] + v) as u64, (t, better[t])),
            ) > 0);
        } else if pending(p, best, frontier, k) {
            let kv = choose|kv: u64|
                #[trigger] (p.est)(k, kv) && best[k] + kv <= u64::MAX && frontier.count(
                    ((best[k] + kv) as u64, (k, best[k])),
                ) > 0;
            assert((p.est)(k, kv) && better[k] + kv <= u64::MAX && wider.count(
                ((better[k] + kv) as u64, (k, better[k])),
            ) > 0);
        } else if closed(p, best, k) {
            let kl = choose|kl: Seq<(usize, u64)>| #[trigger]
                expanded(p, best, k, best[k], kl, kl.len() as int);
            lemma_expanded_monotone(p, best, better, k, best[k], kl, kl.len() as int);
            assert(expanded(p, better, k, better[k], kl, kl.len() as int));
        } else {
            lemma_expanded_monotone(p, best, better, k, c, list, upto);
            assert forall|j: int| 0 <= j < upto + 1 && j < list.len() implies settled(
                p,
                better,
                c,
                #[trigger] list[j],
            ) by {}
        }
    }
}

/// When every step of the expansion is done, the invariant holds again.
pub proof fn lemma_end_expansion(
    p: Problem,
    best: Map<usize, u64>,
    frontier: Multiset<Entry>,
    s: usize,
    c: u64,
    list: Seq<(usize, u64)>,
)
    requires
        mid_inv(p, best, frontier, s, c, list, list.len() as int, true),
    ensures
        inv(p, best, frontier),
{
    assert forall|k: usize| #[trigger] best.contains_key(k) implies {
        ||| pending(p, best, frontier, k)
        ||| closed(p, best, k)
    } by {
        if k == s && best[k] == c && expanded(p, best, k, c, list, list.len() as int) {
            assert(expanded(p, best, k, best[k], list, list.len() as int));
        }
    }
}

/// Whether, along the walk `steps` from the start, no estimate exceeds what
/// the rest of the walk costs: at every state the walk passes, the cost so
/// far plus any estimate for the state is at most the cost of the walk.
pub open spec fn within_slack(p: Problem, steps: Seq<(usize, u64)>) -> bool {
    forall|k: int, v: u64|
        0 <= k <= steps.len() && walk_end(p.start, steps.take(k)) < p.n && #[trigger] (p.est)(
            walk_end(p.start, steps.take(k)),
            v,
        ) ==> walk_cost(steps.take(k)) + v <= walk_cost(steps)
}

/// A walk to a goal is within the slack of estimates that never
/// overestimate.
pub proof fn lemma_goal_walk_within_slack(p: Problem, m: Model, steps: Seq<(usize, u64)>)
    requires
        p.computes(m),
        is_goal_walk(edges_of(m.succ), m.is_goal, p.start, steps),
    ensures
        within_slack(p, steps),
{
    let edge = edges_of(m.succ);
    assert forall|k: int, v: u64|
        0 <= k <= steps.len() && walk_end(p.start, steps.take(k)) < p.n && #[trigger] (p.est)(
            walk_end(p.start, steps.take(k)),
            v,
        ) implies walk_cost(steps.take(k)) + v <= walk_cost(steps) by {
        lemma_walk_suffix(edge, p.start, steps, k);
        let at = walk_end(p.start, steps.take(k));
        assert(is_goal_walk(edge, m.is_goal, at, steps.skip(k)));
        assert(v == (m.estimate)(at));
    }
}

/// Every walk is within the slack of estimates that are all zero.
pub proof fn lemma_unguided_within_slack(p: Problem, edge: Edges, steps: Seq<(usize, u64)>)
    requires
        p.unguided(),
        is_walk(edge, p.start, steps),
    ensures
        within_slack(p, steps),
{
    assert forall|k: int, v: u64|
        0 <= k <= steps.len() && walk_end(p.start, steps.take(k)) < p.n && #[trigger] (p.est)(
            walk_end(p.start, steps.take(k)),
            v,
        ) implies walk_cost(steps.take(k)) + v <= walk_cost(steps) by {
        lemma_walk_suffix(edge, p.start, steps, k);
    }
}

/// Along any walk of the graph from the start that costs no more than the
/// limit and is within the slack of the estimates, either the frontier
/// holds an entry with a priority of at most the walk's cost, or the state
/// after `k` steps is recorded at no more than the cost of those steps.
pub proof fn lemma_walk_is_covered(
    p: Problem,
    succ: spec_fn(usize) -> Seq<(usize, u64)>,
    best: Map<usize, u64>,
    frontier: Multiset<Entry>,
    steps: Seq<(usize, u64)>,
    k: int,
)
    requires
        inv(p, best, frontier),
        p.lists(succ),
        is_walk(edges_of(succ), p.start, steps),
        walk_cost(steps) <= p.limit,
        within_slack(p, steps),
        0 <= k <= steps.len(),
    ensures
        (exists|e: Entry| frontier.count(e) > 0 && e.0 <= walk_cost(steps)) || (best.contains_key(
            walk_end(p.start, steps.take(k)),
        ) && best[walk_end(p.start, steps.take(k))] <= walk_cost(steps.take(k))),
    decreases k,
{
    let edge = edges_of(succ);
    if k == 0 {
        assert(steps.take(0) =~= Seq::<(usize, u64)>::empty());
    } else {
        lemma_walk_is_covered(p, succ, best, frontier, steps, k - 1);
        if !(exists|e: Entry| frontier.count(e) > 0 && e.0 <= walk_cost(steps)) {
            let at = walk_end(p.start, steps.take(k - 1));
            let t = steps[k - 1].0;
            let w = steps[k - 1].1;
            lemma_walk_prefix(edge, p.start, steps, k - 1);
            lemma_walk_suffix(edge, p.start, steps, k);
            assert(steps.take(k).drop_last() =~= steps.take(k - 1));
            assert(walk_cost(steps.take(k)) == walk_cost(steps.take(k - 1)) + w);
            assert(walk_end(p.start, steps.take(k)) == t);
            assert(best.contains_key(at));
            assert(at < p.n);
            if pending(p, best, frontier, at) {
                let v = choose|v: u64|
                    #[trigger] (p.est)(at, v) && best[at] + v <= u64::MAX && frontier.count(
                        ((best[at] + v) as u64, (at, best[at])),
                    ) > 0;
                let held: Entry = ((best[at] + v) as u64, (at, best[at]));
                assert((p.est)(walk_end(p.start, steps.take(k - 1)), v));
                assert(frontier.count(held) > 0 && held.0 <= walk_cost(steps));
            } else {
                let list = choose|list: Seq<(usize, u64)>| #[trigger]
                    expanded(p, best, at, best[at], list, list.len() as int);
                assert(list == succ(at));
                assert(edge(at, t, w));
                let j = choose|j: int| 0 <= j < list.len() && list[j] == (t, w);
                assert(settled(p, best, best[at], list[j]));
                if t < p.n && exists|v: u64|
                    #[trigger] (p.est)(t, v) && best[at] + w + v > p.limit {
                    let v = choose|v: u64| #[trigger] (p.est)(t, v) && best[at] + w + v > p.limit;
                    assert((p.est)(walk_end(p.start, steps.take(k)), v));
                }
                assert(best.contains_key(t));
            }
        }
    }
}

/// While a goal can be reached from the start at a cost within the limit,
/// the frontier holds an entry whose priority is at most that cost.
pub proof fn lemma_frontier_bounds_goal_walks(
    p: Problem,
    m: Model,
    best: Map<usize, u64>,
    frontier: Multiset<Entry>,
    steps: Seq<(usize, u64)>,
)
    requires
        inv(p, best, frontier),
        p.computes(m),
        is_goal_walk(edges_of(m.succ), m.is_goal, p.start, steps),
        walk_cost(steps) <= p.limit,
    ensures
        exists|e: Entry| frontier.count(e) > 0 && e.0 <= walk_cost(steps),
{
    lemma_goal_walk_within_slack(p, m, steps);
    lemma_walk_is_covered(p, m.succ, best, frontier, steps, steps.len() as int);
    if !(exists|e: Entry| frontier.count(e) > 0 && e.0 <= walk_cost(steps)) {
        assert(steps.take(steps.len() as int) =~= steps);
        let at = walk_end(p.start, steps);
        assert(best.contains_key(at));
        assert(at < p.n);
        if pending(p, best, frontier, at) {
            let v = choose|v: u64|
                #[trigger] (p.est)(at, v) && best[at] + v <= u64::MAX && frontier.count(
                    ((best[at] + v) as u64, (at, best[at])),
                ) > 0;
            let held: Entry = ((best[at] + v) as u64, (at, best[at]));
            assert((p.est)(walk_end(p.start, steps.take(steps.len() as int)), v));
            assert(frontier.count(held) > 0 && held.0 <= walk_cost(steps));
        } else {
            let list = choose|list: Seq<(usize, u64)>| #[trigger]
                expanded(p, best, at, best[at], list, list.len() as int);
            assert((p.goal)(at, false));
        }
    }
}

/// The goal test that accepts the state `t` and no other.
pub open spec fn only(t: usize) -> spec_fn(usize) -> bool {
    |s: usize| s == t
}

/// When a search without estimates has emptied its frontier, the table
/// records for every state the cost of a cheapest walk to it, and nothing
/// for a state that no walk reaches within the limit.
pub proof fn lemma_table_is_final(
    p: Problem,
    succ: spec_fn(usize) -> Seq<(usize, u64)>,
    best: Map<usize, u64>,
    frontier: Multiset<Entry>,
    t: usize,
)
    requires
        inv(p, best, frontier),
        p.lists(succ),
        p.unguided(),
        frontier.len() == 0,
    ensures
        is_shortest_cost(edges_of(succ), only(t), p.start, p.limit as nat, best_in(best, t)),
{
    broadcast use vstd::multiset::group_multiset_axioms;

    let edge = edges_of(succ);
    assert forall|steps: Seq<(usize, u64)>|
        is_goal_walk(edge, only(t), p.start, steps) && walk_cost(steps)
            <= p.limit implies best.contains_key(t) && best[t] <= walk_cost(steps) by {
        lemma_unguided_within_slack(p, edge, steps);
        lemma_walk_is_covered(p, succ, best, frontier, steps, steps.len() as int);
        assert(steps.take(steps.len() as int) =~= steps);
        if exists|e: Entry| frontier.count(e) > 0 && e.0 <= walk_cost(steps) {
            let e = choose|e: Entry| frontier.count(e) > 0 && e.0 <= walk_cost(steps);
            vstd::multiset::axiom_count_le_len(frontier, e);
        }
    }
    if best.contains_key(t) {
        let walk = choose|steps: Seq<(usize, u64)>|
            is_walk(p.edge(), p.start, steps) && walk_end(p.start, steps) == t && walk_cost(steps)
                == best[t] as nat;
        assert forall|a: usize, b: usize, w: u64| #[trigger] p.edge()(a, b, w) implies edge(
            a,
            b,
            w,
        ) by {
            let list = choose|list: Seq<(usize, u64)>| (p.out)(a, list) && list.contains((b, w));
            assert(list == succ(a));
        }
        lemma_walk_in_larger_graph(p.edge(), edge, p.start, walk);
        assert(is_goal_walk(edge, only(t), p.start, walk) && walk_cost(walk) == best[t]);
    }
}

/// When the frontier is empty, no goal can be reached within the limit.
pub proof fn lemma_exhausted(p: Problem, m: Model, best: Map<usize, u64>, frontier: Multiset<Entry>)
    requires
        inv(p, best, frontier),
        p.computes(m),
        frontier.len() == 0,
    ensures
        is_shortest_cost(edges_of(m.succ), m.is_goal, p.start, p.limit as nat, None),
{
    broadcast use vstd::multiset::group_multiset_axioms;

    assert forall|steps: Seq<(usize, u64)>|
        is_goal_walk(edges_of(m.succ), m.is_goal, p.start, steps) implies walk_cost(steps)
        > p.limit by {
        if walk_cost(steps) <= p.limit {
            lemma_frontier_bounds_goal_walks(p, m, best, frontier, steps);
            let e = choose|e: Entry| frontier.count(e) > 0 && e.0 <= walk_cost(steps);
            vstd::multiset::axiom_count_le_len(frontier, e);
        }
    }
}

/// When an entry of lowest priority is for a goal, its cost is the
/// cheapest at which any goal can be reached.
pub proof fn lemma_goal_taken(
    p: Problem,
    m: Model,
    best: Map<usize, u64>,
    frontier: Multiset<Entry>,
    e: Entry,
)
    requires
        inv(p, best, frontier),
        p.computes(m),
        frontier.count(e) > 0,
        forall|o: Entry| #[trigger] frontier.count(o) > 0 ==> e.0 <= o.0,
        (p.goal)(e.1.0, true),
    ensures
        is_shortest_cost(edges_of(m.succ), m.is_goal, p.start, p.limit as nat, Some(e.1.1)),
{
    let edge = edges_of(m.succ);
    assert(entry_ok(p, best, e));
    let walk = choose|steps: Seq<(usize, u64)>|
        is_walk(p.edge(), p.start, steps) && walk_end(p.start, steps) == e.1.0 && walk_cost(steps)
            == e.1.1 as nat;
    assert forall|s: usize, t: usize, w: u64| #[trigger] p.edge()(s, t, w) implies edge(
        s,
        t,
        w,
    ) by {
        let list = choose|list: Seq<(usize, u64)>| (p.out)(s, list) && list.contains((t, w));
        assert(list == (m.succ)(s));
    }
    lemma_walk_in_larger_graph(p.edge(), edge, p.start, walk);
    assert(is_goal_walk(edge, m.is_goal, p.start, walk) && walk_cost(walk) == e.1.1);
    assert forall|steps: Seq<(usize, u64)>|
        is_goal_walk(edge, m.is_goal, p.start, steps) implies e.1.1 <= walk_cost(steps) by {
        if walk_cost(steps) <= p.limit {
            lemma_frontier_bounds_goal_walks(p, m, best, frontier, steps);
        }
    }
}

} // verus!
