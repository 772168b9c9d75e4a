//! Constellations: stars are joined one by one, always the one that the
//! shortest link leaving the constellation reaches, until no link leaves
//! it. Two stars are linked when they are nearer than the reach.

use crate::frontier::Frontier;
use crate::min_heap::MinHeap;
use crate::puzzles::measures::{apart, Star};
use vstd::multiset::Multiset;
use vstd::prelude::*;

verus! {

/// The distance between two stars, counted in steps along the axes.
pub open spec fn span(a: Star, b: Star) -> int {
    (apart(a.x as int, b.x as int) + apart(a.y as int, b.y as int)) as int
}

/// Whether every distance between two of the stars fits in a `usize`.
pub open spec fn spans_fit(stars: Seq<Star>) -> bool {
    forall|a: int, b: int|
        0 <= a < stars.len() && 0 <= b < stars.len() ==> #[trigger] span(stars[a], stars[b])
            <= usize::MAX
}

/// Whether the stars `a` and `b` are linked: they are two stars, nearer
/// than the reach where there is one.
pub open spec fn linked(stars: Seq<Star>, a: int, b: int, reach: Option<u64>) -> bool {
    a != b && match reach {
        Some(r) => span(stars[a], stars[b]) < r,
        None => true,
    }
}

/// Whether the star `t` is among the first `k` of `joins`.
pub open spec fn joined_in(joins: Seq<(usize, u64)>, k: int, t: int) -> bool {
    exists|j: int| 0 <= j < k && (#[trigger] joins[j]).0 == t
}

/// Whether the star `t` is still free when `k` stars have joined: it was
/// not taken before and is none of them.
pub open spec fn free_at(taken: Seq<bool>, joins: Seq<(usize, u64)>, k: int, t: int) -> bool {
    0 <= t < taken.len() && !taken[t] && !joined_in(joins, k, t)
}

/// Whether a link leads from the `j`-th star of `joins` to the star `t`,
/// and its length is `d`.
pub open spec fn leads(
    stars: Seq<Star>,
    reach: Option<u64>,
    joins: Seq<(usize, u64)>,
    j: int,
    t: int,
    d: int,
) -> bool {
    linked(stars, joins[j].0 as int, t, reach) && span(stars[joins[j].0 as int], stars[t]) == d
}

/// Whether the `k`-th of `joins` is a free star at the end of a shortest
/// link that leaves the stars joined before it, with the length of that
/// link.
pub open spec fn is_nearest_join(
    stars: Seq<Star>,
    taken: Seq<bool>,
    reach: Option<u64>,
    joins: Seq<(usize, u64)>,
    k: int,
) -> bool {
    &&& free_at(taken, joins, k, joins[k].0 as int)
    &&& exists|j: int|
        0 <= j < k && #[trigger] leads(stars, reach, joins, j, joins[k].0 as int, joins[k].1 as int)
    &&& forall|j: int, t: int, d: int|
        0 <= j < k && free_at(taken, joins, k, t) && #[trigger] leads(stars, reach, joins, j, t, d)
            ==> joins[k].1 <= d
}

/// Whether `joins` grows a constellation from `start`: it begins with
/// `start`, and every later star is joined by a shortest link that leaves
/// the constellation.
pub open spec fn is_run(
    stars: Seq<Star>,
    taken: Seq<bool>,
    reach: Option<u64>,
    start: usize,
    joins: Seq<(usize, u64)>,
) -> bool {
    &&& joins.len() >= 1
    &&& joins[0] == (start, 0u64)
    &&& forall|k: int| 1 <= k < joins.len() ==> is_nearest_join(stars, taken, reach, joins, k)
}

/// Whether no link leaves the constellation `joins` for a free star.
pub open spec fn is_closed(
    stars: Seq<Star>,
    taken: Seq<bool>,
    reach: Option<u64>,
    joins: Seq<(usize, u64)>,
) -> bool {
    forall|j: int, t: int, d: int|
        0 <= j < joins.len() && free_at(taken, joins, joins.len() as int, t) ==> !#[trigger] leads(
            stars,
            reach,
            joins,
            j,
            t,
            d,
        )
}

/// The number of stars not taken.
pub open spec fn frees(taken: Seq<bool>) -> nat
    decreases taken.len(),
{
    if taken.len() == 0 {
        0
    } else {
        frees(taken.drop_last()) + if taken.last() {
            0nat
        } else {
            1nat
        }
    }
}

/// Taking a star leaves one free star less.
pub proof fn lemma_frees_taken(taken: Seq<bool>, s: int)
    requires
        0 <= s < taken.len(),
        !taken[s],
    ensures
        frees(taken.update(s, true)) + 1 == frees(taken),
    decreases taken.len(),
{
    if s == taken.len() - 1 {
        assert(taken.update(s, true).drop_last() =~= taken.drop_last());
    } else {
        lemma_frees_taken(taken.drop_last(), s);
        assert(taken.update(s, true).drop_last() =~= taken.drop_last().update(s, true));
    }
}

/// The total length of the links of `joins`, and one for each star.
pub open spec fn size(joins: Seq<(usize, u64)>) -> nat
    decreases joins.len(),
{
    if joins.len() == 0 {
        0
    } else {
        size(joins.drop_last()) + joins.last().1 as nat + 1
    }
}

/// The size of a constellation, or `None` where it does not fit.
pub fn size_of(joins: &Vec<(usize, u64)>) -> (r: Option<u64>)
    ensures
        r.is_some() <==> size(joins@) <= u64::MAX,
        r matches Some(v) ==> v == size(joins@),
{
    let mut total: u128 = 0;
    let mut i: usize = 0;
    assert(joins@.take(0) =~= Seq::<(usize, u64)>::empty());
    while i < joins.len()
        invariant
            i <= joins@.len(),
            total == size(joins@.take(i as int)),
            total <= i * 0x1_0000_0000_0000_0000,
        decreases joins@.len() - i,
    {
        assert(joins@.take(i + 1).drop_last() =~= joins@.take(i as int));
        assert((i + 1) * 0x1_0000_0000_0000_0000 == i * 0x1_0000_0000_0000_0000
            + 0x1_0000_0000_0000_0000) by (nonlinear_arith);
        assert(i * 0x1_0000_0000_0000_0000 <= 0xffff_ffff_ffff_ffff * 0x1_0000_0000_0000_0000)
            by (nonlinear_arith)
            requires
                i <= 0xffff_ffff_ffff_ffff,
        ;
        total = total + joins[i].1 as u128 + 1;
        i += 1;
    }
    assert(joins@.take(i as int) =~= joins@);
    if total <= 0xffff_ffff_ffff_ffff {
        Some(total as u64)
    } else {
        None
    }
}

/// Whether every entry of the frontier names a star at the end of a link
/// from a joined star, with the length of that link; before any star has
/// joined, the frontier holds the start alone.
pub open spec fn entries_lead(
    stars: Seq<Star>,
    reach: Option<u64>,
    start: usize,
    joins: Seq<(usize, u64)>,
    entries: Multiset<(u64, usize)>,
) -> bool {
    if joins.len() == 0 {
        entries == Multiset::singleton((0u64, start))
    } else {
        forall|e: (u64, usize)| #[trigger]
            entries.count(e) > 0 ==> e.1 < stars.len() && exists|j: int|
                0 <= j < joins.len() && #[trigger] leads(stars, reach, joins, j, e.1 as int, e.0 as int)
    }
}

/// Whether the frontier holds every link to a star outside that leaves one
/// of the first `whole` joined stars, or the next of them for a star
/// before `part`.
pub open spec fn links_held(
    stars: Seq<Star>,
    inside: Seq<bool>,
    reach: Option<u64>,
    joins: Seq<(usize, u64)>,
    entries: Multiset<(u64, usize)>,
    whole: int,
    part: int,
) -> bool {
    forall|j: int, t: usize, d: u64|
        0 <= j < joins.len() && t < stars.len() && !inside[t as int] && (j < whole || (j == whole
            && t < part)) && #[trigger] leads(stars, reach, joins, j, t as int, d as int)
            ==> entries.count((d, t)) > 0
}

/// A join that was a nearest one stays one when more stars join.
pub proof fn lemma_join_kept(
    stars: Seq<Star>,
    taken: Seq<bool>,
    reach: Option<u64>,
    joins: Seq<(usize, u64)>,
    more: (usize, u64),
    k: int,
)
    requires
        1 <= k < joins.len(),
        is_nearest_join(stars, taken, reach, joins, k),
    ensures
        is_nearest_join(stars, taken, reach, joins.push(more), k),
{
    let longer = joins.push(more);
    assert forall|t: int| free_at(taken, longer, k, t) == free_at(taken, joins, k, t) by {
        if joined_in(longer, k, t) {
            let j = choose|j: int| 0 <= j < k && (#[trigger] longer[j]).0 == t;
            assert(joins[j].0 == t);
        }
        if joined_in(joins, k, t) {
            let j = choose|j: int| 0 <= j < k && (#[trigger] joins[j]).0 == t;
            assert(longer[j].0 == t);
        }
    }
    let j0 = choose|j: int|
        0 <= j < k && #[trigger] leads(stars, reach, joins, j, joins[k].0 as int, joins[k].1 as int);
    assert(leads(stars, reach, longer, j0, longer[k].0 as int, longer[k].1 as int));
    assert forall|j: int, t: int, d: int|
        0 <= j < k && free_at(taken, longer, k, t) && #[trigger] leads(
            stars,
            reach,
            longer,
            j,
            t,
            d,
        ) implies longer[k].1 <= d by {
        assert(leads(stars, reach, joins, j, t, d));
    }
}

/// Every star of a run is one of the stars.
pub proof fn lemma_run_names_stars(
    stars: Seq<Star>,
    taken: Seq<bool>,
    reach: Option<u64>,
    start: usize,
    joins: Seq<(usize, u64)>,
    j: int,
)
    requires
        taken.len() == stars.len(),
        start < stars.len(),
        is_run(stars, taken, reach, start, joins),
        0 <= j < joins.len(),
    ensures
        joins[j].0 < stars.len(),
{
    if j > 0 {
        assert(is_nearest_join(stars, taken, reach, joins, j));
    }
}

/// Whether `inside` marks the stars taken before and those joined since.
pub open spec fn marks_joined(taken: Seq<bool>, joins: Seq<(usize, u64)>, inside: Seq<bool>) -> bool {
    &&& inside.len() == taken.len()
    &&& forall|t: int|
        0 <= t < taken.len() ==> inside[t] == (taken[t] || joined_in(joins, joins.len() as int, t))
}

/// What holds while a constellation grows: the stars joined so far are
/// marked and were joined nearest first, and the frontier holds the links
/// that leave them, and nothing else.
#[verifier::opaque]
pub open spec fn growing(
    stars: Seq<Star>,
    taken: Seq<bool>,
    reach: Option<u64>,
    start: usize,
    joins: Seq<(usize, u64)>,
    inside: Seq<bool>,
    entries: Multiset<(u64, usize)>,
    whole: int,
    part: int,
) -> bool {
    &&& taken.len() == stars.len()
    &&& stars.len() <= usize::MAX
    &&& start < stars.len()
    &&& spans_fit(stars)
    &&& marks_joined(taken, joins, inside)
    &&& entries_lead(stars, reach, start, joins, entries)
    &&& links_held(stars, inside, reach, joins, entries, whole, part)
    &&& joins.len() == 0 ==> !inside[start as int]
    &&& joins.len() > 0 ==> is_run(stars, taken, reach, start, joins)
}

/// A constellation begins to grow with its start alone in the frontier.
pub proof fn lemma_begun(
    stars: Seq<Star>,
    taken: Seq<bool>,
    reach: Option<u64>,
    start: usize,
    entries: Multiset<(u64, usize)>,
)
    requires
        taken.len() == stars.len(),
        stars.len() <= usize::MAX,
        start < stars.len(),
        spans_fit(stars),
        !taken[start as int],
        entries == Multiset::<(u64, usize)>::empty().insert((0u64, start)),
    ensures
        growing(stars, taken, reach, start, Seq::empty(), taken, entries, 0, 0),
{
    broadcast use vstd::multiset::group_multiset_axioms;

    reveal(growing);
    let joins = Seq::<(usize, u64)>::empty();
    assert(entries =~= Multiset::singleton((0u64, start)));
    assert forall|t: int| 0 <= t < taken.len() implies !joined_in(joins, 0, t) by {}
}

/// Every entry of the frontier names a star.
pub proof fn lemma_entry_names_star(
    stars: Seq<Star>,
    taken: Seq<bool>,
    reach: Option<u64>,
    start: usize,
    joins: Seq<(usize, u64)>,
    inside: Seq<bool>,
    entries: Multiset<(u64, usize)>,
    e: (u64, usize),
)
    requires
        growing(stars, taken, reach, start, joins, inside, entries, joins.len() as int, 0),
        entries.count(e) > 0,
    ensures
        e.1 < stars.len(),
        inside.len() == stars.len(),
{
    broadcast use vstd::multiset::group_multiset_axioms;

    reveal(growing);
}

/// An entry for a star that is inside already may be dropped.
pub proof fn lemma_entry_dropped(
    stars: Seq<Star>,
    taken: Seq<bool>,
    reach: Option<u64>,
    start: usize,
    joins: Seq<(usize, u64)>,
    inside: Seq<bool>,
    entries: Multiset<(u64, usize)>,
    e: (u64, usize),
)
    requires
        growing(stars, taken, reach, start, joins, inside, entries, joins.len() as int, 0),
        entries.count(e) > 0,
        inside[e.1 as int],
    ensures
        growing(stars, taken, reach, start, joins, inside, entries.remove(e), joins.len() as int, 0),
{
    broadcast use vstd::multiset::group_multiset_axioms;

    reveal(growing);
    let rest = entries.remove(e);
    assert forall|o: (u64, usize)| #[trigger] rest.count(o) > 0 implies entries.count(o) > 0 by {}
    if joins.len() == 0 {
        assert(e == (0u64, start));
    }
    assert forall|j: int, t: usize, d: u64|
        0 <= j < joins.len() && t < stars.len() && !inside[t as int] && #[trigger] leads(
            stars,
            reach,
            joins,
            j,
            t as int,
            d as int,
        ) implies rest.count((d, t)) > 0 by {
        assert(entries.count((d, t)) > 0);
        assert((d, t) != e);
    }
}

/// The star of a least entry, if it is not inside yet, joins nearest
/// first; its own links are still to be added to the frontier.
pub proof fn lemma_star_joins(
    stars: Seq<Star>,
    taken: Seq<bool>,
    reach: Option<u64>,
    start: usize,
    joins: Seq<(usize, u64)>,
    inside: Seq<bool>,
    entries: Multiset<(u64, usize)>,
    e: (u64, usize),
)
    requires
        growing(stars, taken, reach, start, joins, inside, entries, joins.len() as int, 0),
        entries.count(e) > 0,
        forall|o: (u64, usize)| #[trigger] entries.count(o) > 0 ==> e.0 <= o.0,
        !inside[e.1 as int],
    ensures
        growing(
            stars,
            taken,
            reach,
            start,
            joins.push((e.1, e.0)),
            inside.update(e.1 as int, true),
            entries.remove(e),
            joins.len() as int,
            0,
        ),
{
    broadcast use vstd::multiset::group_multiset_axioms;

    reveal(growing);
    let s = e.1;
    let d = e.0;
    let k = joins.len() as int;
    let longer = joins.push((s, d));
    let marked = inside.update(s as int, true);
    let rest = entries.remove(e);
    assert(longer[k] == (s, d));
    assert(s < stars.len()) by {
        if k == 0 {
            assert(e == (0u64, start));
        }
    }
    assert forall|t: int, upto: int| 0 <= upto <= k implies joined_in(longer, upto, t) == joined_in(
        joins,
        upto,
        t,
    ) by {
        if joined_in(longer, upto, t) {
            let j = choose|j: int| 0 <= j < upto && (#[trigger] longer[j]).0 == t;
            assert(joins[j].0 == t);
        }
        if joined_in(joins, upto, t) {
            let j = choose|j: int| 0 <= j < upto && (#[trigger] joins[j]).0 == t;
            assert(longer[j].0 == t);
        }
    }
    assert forall|t: int| 0 <= t < taken.len() implies marked[t] == (taken[t] || joined_in(
        longer,
        k + 1,
        t,
    )) by {
        if t == s {
            assert(longer[k].0 == t);
        } else {
            if joined_in(joins, k, t) {
                let j = choose|j: int| 0 <= j < k && (#[trigger] joins[j]).0 == t;
                assert(longer[j].0 == t);
            }
            if joined_in(longer, k + 1, t) {
                let j = choose|j: int| 0 <= j < k + 1 && (#[trigger] longer[j]).0 == t;
                assert(j < k);
                assert(joins[j].0 == t);
            }
        }
    }
    assert forall|j: int, t: int, c: int| 0 <= j < k implies leads(stars, reach, longer, j, t, c)
        == leads(stars, reach, joins, j, t, c) by {
        assert(longer[j] == joins[j]);
    }
    if k == 0 {
        assert(e == (0u64, start));
        assert(is_run(stars, taken, reach, start, longer));
    } else {
        assert forall|i: int| 1 <= i < longer.len() implies is_nearest_join(
            stars,
            taken,
            reach,
            longer,
            i,
        ) by {
            if i < k {
                lemma_join_kept(stars, taken, reach, joins, (s, d), i);
            } else {
                lemma_nearest(stars, taken, reach, start, joins, inside, entries, e);
            }
        }
        assert(longer[0] == joins[0]);
        assert(is_run(stars, taken, reach, start, longer));
    }
    assert(entries_lead(stars, reach, start, longer, rest)) by {
        assert forall|o: (u64, usize)| #[trigger] rest.count(o) > 0 implies o.1 < stars.len()
            && exists|j: int|
            0 <= j < longer.len() && #[trigger] leads(
                stars,
                reach,
                longer,
                j,
                o.1 as int,
                o.0 as int,
            ) by {
            assert(entries.count(o) > 0);
            if k == 0 {
                assert(rest.count(o) == 0);
            } else {
                let j = choose|j: int|
                    0 <= j < joins.len() && #[trigger] leads(
                        stars,
                        reach,
                        joins,
                        j,
                        o.1 as int,
                        o.0 as int,
                    );
                assert(leads(stars, reach, longer, j, o.1 as int, o.0 as int));
            }
        }
    }
    assert(links_held(stars, marked, reach, longer, rest, k, 0)) by {
        assert forall|j: int, t: usize, c: u64|
            0 <= j < longer.len() && t < stars.len() && !marked[t as int] && (j < k || (j == k && t
                < 0)) && #[trigger] leads(
                stars,
                reach,
                longer,
                j,
                t as int,
                c as int,
            ) implies rest.count((c, t)) > 0 by {
            assert(leads(stars, reach, joins, j, t as int, c as int));
            assert(!inside[t as int]);
            assert(entries.count((c, t)) > 0);
            assert((c, t) != e);
        }
    }
}

/// The star of a least entry is at the end of a shortest link that leaves
/// the constellation.
pub proof fn lemma_nearest(
    stars: Seq<Star>,
    taken: Seq<bool>,
    reach: Option<u64>,
    start: usize,
    joins: Seq<(usize, u64)>,
    inside: Seq<bool>,
    entries: Multiset<(u64, usize)>,
    e: (u64, usize),
)
    requires
        joins.len() >= 1,
        growing(stars, taken, reach, start, joins, inside, entries, joins.len() as int, 0),
        entries.count(e) > 0,
        forall|o: (u64, usize)| #[trigger] entries.count(o) > 0 ==> e.0 <= o.0,
        !inside[e.1 as int],
    ensures
        is_nearest_join(stars, taken, reach, joins.push((e.1, e.0)), joins.len() as int),
{
    reveal(growing);
    let s = e.1;
    let d = e.0;
    let k = joins.len() as int;
    let longer = joins.push((s, d));
    assert(longer[k] == (s, d));
    assert forall|t: int| joined_in(longer, k, t) == joined_in(joins, k, t) by {
        if joined_in(longer, k, t) {
            let j = choose|j: int| 0 <= j < k && (#[trigger] longer[j]).0 == t;
            assert(joins[j].0 == t);
        }
        if joined_in(joins, k, t) {
            let j = choose|j: int| 0 <= j < k && (#[trigger] joins[j]).0 == t;
            assert(longer[j].0 == t);
        }
    }
    assert(free_at(taken, longer, k, s as int));
    let j0 = choose|j: int|
        0 <= j < joins.len() && #[trigger] leads(stars, reach, joins, j, s as int, d as int);
    assert(longer[j0] == joins[j0]);
    assert(0 <= j0 < k);
    assert(leads(stars, reach, longer, j0, longer[k].0 as int, longer[k].1 as int));
    assert forall|j: int, t: int, c: int|
        0 <= j < k && free_at(taken, longer, k, t) && #[trigger] leads(
            stars,
            reach,
            longer,
            j,
            t,
            c,
        ) implies d <= c by {
        assert(longer[j] == joins[j]);
        lemma_run_names_stars(stars, taken, reach, start, joins, j);
        assert(span(stars[joins[j].0 as int], stars[t]) <= usize::MAX);
        assert(usize::MAX <= u64::MAX);
        assert(leads(stars, reach, joins, j, t as usize as int, c as u64 as int));
        assert(!inside[t]);
        assert(entries.count((c as u64, t as usize)) > 0);
    }
}

/// The link from the star joined last to the star `t` is added to the
/// frontier, where there is one and `t` is outside.
pub proof fn lemma_link_added(
    stars: Seq<Star>,
    taken: Seq<bool>,
    reach: Option<u64>,
    start: usize,
    joins: Seq<(usize, u64)>,
    inside: Seq<bool>,
    entries: Multiset<(u64, usize)>,
    t: usize,
    after: Multiset<(u64, usize)>,
)
    requires
        joins.len() >= 1,
        t < stars.len(),
        joins.last().0 < stars.len(),
        span(stars[joins.last().0 as int], stars[t as int]) <= u64::MAX,
        growing(stars, taken, reach, start, joins, inside, entries, joins.len() - 1, t as int),
        after == if !inside[t as int] && linked(stars, joins.last().0 as int, t as int, reach) {
            entries.insert((span(stars[joins.last().0 as int], stars[t as int]) as u64, t))
        } else {
            entries
        },
    ensures
        growing(stars, taken, reach, start, joins, inside, after, joins.len() - 1, t + 1),
{
    broadcast use vstd::multiset::group_multiset_axioms;

    reveal(growing);
    let k = joins.len() - 1;
    let s = joins.last().0;
    let far = span(stars[s as int], stars[t as int]);
    assert forall|o: (u64, usize)| #[trigger] after.count(o) > 0 implies o.1 < stars.len()
        && exists|j: int|
        0 <= j < joins.len() && #[trigger] leads(stars, reach, joins, j, o.1 as int, o.0 as int) by {
        if entries.count(o) > 0 {
            assert(entries_lead(stars, reach, start, joins, entries));
        } else {
            assert(o == (far as u64, t));
            assert(o.0 as int == far);
            assert(joins[k] == joins.last());
            assert(leads(stars, reach, joins, k, o.1 as int, o.0 as int));
        }
    }
    assert forall|j: int, u: usize, c: u64|
        0 <= j < joins.len() && u < stars.len() && !inside[u as int] && (j < k || (j == k && u < t
            + 1)) && #[trigger] leads(stars, reach, joins, j, u as int, c as int) implies after.count(
        (c, u),
    ) > 0 by {
        if j == k && u == t {
            assert(c == far);
        } else {
            assert(entries.count((c, u)) > 0);
        }
    }
}

/// When the frontier is empty the constellation has grown: no link leaves
/// it.
pub proof fn lemma_grown(
    stars: Seq<Star>,
    taken: Seq<bool>,
    reach: Option<u64>,
    start: usize,
    joins: Seq<(usize, u64)>,
    inside: Seq<bool>,
    entries: Multiset<(u64, usize)>,
)
    requires
        growing(stars, taken, reach, start, joins, inside, entries, joins.len() as int, 0),
        entries.len() == 0,
    ensures
        is_run(stars, taken, reach, start, joins),
        is_closed(stars, taken, reach, joins),
        marks_joined(taken, joins, inside),
{
    broadcast use vstd::multiset::group_multiset_axioms;

    reveal(growing);
    if joins.len() == 0 {
        assert(entries.count((0u64, start)) > 0);
    }
    assert forall|j: int, t: int, c: int|
        0 <= j < joins.len() && free_at(taken, joins, joins.len() as int, t) implies !#[trigger] leads(
        stars,
        reach,
        joins,
        j,
        t,
        c,
    ) by {
        if leads(stars, reach, joins, j, t, c) {
            lemma_run_names_stars(stars, taken, reach, start, joins, j);
            assert(span(stars[joins[j].0 as int], stars[t]) <= usize::MAX);
            assert(usize::MAX <= u64::MAX);
            assert(leads(stars, reach, joins, j, t as usize as int, c as u64 as int));
            assert(!inside[t]);
            assert(entries.count((c as u64, t as usize)) > 0);
        }
    }
}

/// Adds to the frontier the links from the star `s`, which joined last,
/// to the stars outside.
fn push_links(
    stars: &Vec<Star>,
    s: usize,
    reach: Option<u64>,
    inside: &Vec<bool>,
    heap: &mut MinHeap<usize>,
    Ghost(taken): Ghost<Seq<bool>>,
    Ghost(start): Ghost<usize>,
    Ghost(joins): Ghost<Seq<(usize, u64)>>,
)
    requires
        inside@.len() == stars@.len(),
        s < stars@.len(),
        joins.len() >= 1,
        joins.last().0 == s,
        spans_fit(stars@),
        old(heap).wf(),
        growing(stars@, taken, reach, start, joins, inside@, old(heap).entries(), joins.len() - 1, 0),
    ensures
        final(heap).wf(),
        growing(
            stars@,
            taken,
            reach,
            start,
            joins,
            inside@,
            final(heap).entries(),
            joins.len() as int,
            0,
        ),
{
    let n: usize = stars.len();
    let mut t: usize = 0;
    while t < n
        invariant
            t <= n,
            n == stars@.len(),
            inside@.len() == n,
            s < n,
            joins.len() >= 1,
            joins.last().0 == s,
            spans_fit(stars@),
            heap.wf(),
            growing(stars@, taken, reach, start, joins, inside@, heap.entries(), joins.len() - 1, t as int),
        decreases n - t,
    {
        let ghost earlier = heap.entries();
        assert(span(stars@[s as int], stars@[t as int]) <= usize::MAX);
        let length: usize = stars[s].dist(&stars[t]);
        let near: bool = match reach {
            Some(r) => (length as u64) < r,
            None => true,
        };
        if !inside[t] && t != s && near {
            heap.push(length as u64, t);
        }
        proof {
            lemma_link_added(stars@, taken, reach, start, joins, inside@, earlier, t, heap.entries());
        }
        t += 1;
    }
    proof {
        lemma_pushed(stars@, taken, reach, start, joins, inside@, heap.entries());
    }
}

/// Grows the constellation of `start`: joins, one by one, the free star
/// that the shortest link leaving the constellation reaches, until no link
/// leaves it. Returns the stars in the order in which they joined, each
/// with the length of its link, and marks them in `inside`.
pub fn constellation(
    stars: &Vec<Star>,
    start: usize,
    reach: Option<u64>,
    inside: &mut Vec<bool>,
) -> (joins: Vec<(usize, u64)>)
    requires
        old(inside)@.len() == stars@.len(),
        start < stars@.len(),
        !old(inside)@[start as int],
        spans_fit(stars@),
    ensures
        is_run(stars@, old(inside)@, reach, start, joins@),
        is_closed(stars@, old(inside)@, reach, joins@),
        marks_joined(old(inside)@, joins@, final(inside)@),
{
    let n: usize = stars.len();
    let ghost taken = inside@;
    let mut heap: MinHeap<usize> = MinHeap::new();
    heap.push(0, start);
    let mut joins: Vec<(usize, u64)> = Vec::new();
    let mut going: bool = true;
    proof {
        vstd::seq_lib::to_multiset_len(heap@);
        lemma_begun(stars@, taken, reach, start, heap.entries());
    }
    while going
        invariant
            n == stars@.len(),
            inside@.len() == n,
            taken == old(inside)@,
            spans_fit(stars@),
            heap.wf(),
            growing(
                stars@,
                taken,
                reach,
                start,
                joins@,
                inside@,
                heap.entries(),
                joins@.len() as int,
                0,
            ),
            !going ==> heap.entries().len() == 0,
            heap@.len() == heap.entries().len(),
        decreases frees(inside@), heap@.len(), going as int,
    {
        let ghost held = heap.entries();
        let ghost marked = inside@;
        let ghost length = heap@.len();
        match heap.pop_min() {
            None => {
                going = false;
            },
            Some((d, s)) => {
                assert(heap@.len() + 1 == length);
                proof {
                    lemma_entry_names_star(stars@, taken, reach, start, joins@, marked, held, (d, s));
                }
                if inside[s] {
                    proof {
                        lemma_entry_dropped(stars@, taken, reach, start, joins@, marked, held, (d, s));
                    }
                } else {
                    proof {
                        lemma_star_joins(stars@, taken, reach, start, joins@, marked, held, (d, s));
                        lemma_frees_taken(marked, s as int);
                    }
                    inside.set(s, true);
                    joins.push((s, d));
                    push_links(
                        stars,
                        s,
                        reach,
                        inside,
                        &mut heap,
                        Ghost(taken),
                        Ghost(start),
                        Ghost(joins@),
                    );
                }
            },
        }
        proof {
            vstd::seq_lib::to_multiset_len(heap@);
        }
    }
    proof {
        lemma_grown(stars@, taken, reach, start, joins@, inside@, heap.entries());
    }
    joins
}

/// When the links of the star joined last to all stars are added, all
/// links that leave the constellation are held.
pub proof fn lemma_pushed(
    stars: Seq<Star>,
    taken: Seq<bool>,
    reach: Option<u64>,
    start: usize,
    joins: Seq<(usize, u64)>,
    inside: Seq<bool>,
    entries: Multiset<(u64, usize)>,
)
    requires
        joins.len() >= 1,
        growing(stars, taken, reach, start, joins, inside, entries, joins.len() - 1, stars.len() as int),
    ensures
        growing(stars, taken, reach, start, joins, inside, entries, joins.len() as int, 0),
{
    reveal(growing);
}

/// The runs that the vectors of `all` hold.
pub open spec fn runs(all: Seq<Vec<(usize, u64)>>) -> Seq<Seq<(usize, u64)>> {
    Seq::new(all.len(), |c: int| all[c]@)
}

/// Whether the star `t` is in one of the first `k` of the runs `all`.
pub open spec fn in_some(all: Seq<Seq<(usize, u64)>>, k: int, t: int) -> bool {
    exists|c: int| 0 <= c < k && #[trigger] joined_in(all[c], all[c].len() as int, t)
}

/// The marks of the stars that are in one of the first `k` of the runs
/// `all`.
pub open spec fn taken_by(n: nat, all: Seq<Seq<(usize, u64)>>, k: int) -> Seq<bool> {
    Seq::new(n, |t: int| in_some(all, k, t))
}

/// Whether the `k`-th of the runs `all` is the constellation of the first
/// star that is in none of the runs before it.
pub open spec fn is_next_constellation(
    stars: Seq<Star>,
    reach: Option<u64>,
    all: Seq<Seq<(usize, u64)>>,
    k: int,
) -> bool {
    let taken = taken_by(stars.len(), all, k);
    &&& all[k].len() >= 1
    &&& all[k][0].0 < stars.len()
    &&& forall|t: int| 0 <= t < all[k][0].0 ==> #[trigger] taken[t]
    &&& is_run(stars, taken, reach, all[k][0].0, all[k])
    &&& is_closed(stars, taken, reach, all[k])
}

/// Whether `all` parts the stars into constellations, each grown from
/// the first star that the ones before it left.
pub open spec fn parts_stars(stars: Seq<Star>, reach: Option<u64>, all: Seq<Seq<(usize, u64)>>) -> bool {
    &&& forall|k: int| 0 <= k < all.len() ==> is_next_constellation(stars, reach, all, k)
    &&& forall|t: int| 0 <= t < stars.len() ==> in_some(all, all.len() as int, t)
}

/// What is in one of the first runs does not depend on the later ones.
pub proof fn lemma_taken_kept(
    n: nat,
    all: Seq<Seq<(usize, u64)>>,
    more: Seq<(usize, u64)>,
    k: int,
)
    requires
        0 <= k <= all.len(),
    ensures
        taken_by(n, all.push(more), k) == taken_by(n, all, k),
{
    let longer = all.push(more);
    assert forall|t: int| in_some(longer, k, t) == in_some(all, k, t) by {
        if in_some(longer, k, t) {
            let c = choose|c: int|
                0 <= c < k && #[trigger] joined_in(longer[c], longer[c].len() as int, t);
            assert(joined_in(all[c], all[c].len() as int, t));
        }
        if in_some(all, k, t) {
            let c = choose|c: int| 0 <= c < k && #[trigger] joined_in(all[c], all[c].len() as int, t);
            assert(joined_in(longer[c], longer[c].len() as int, t));
        }
    }
    assert(taken_by(n, longer, k) =~= taken_by(n, all, k));
}

/// The marks after one more constellation are those of all runs so far.
pub proof fn lemma_taken_grows(
    taken: Seq<bool>,
    inside: Seq<bool>,
    all: Seq<Seq<(usize, u64)>>,
    more: Seq<(usize, u64)>,
)
    requires
        taken == taken_by(taken.len(), all, all.len() as int),
        marks_joined(taken, more, inside),
    ensures
        inside == taken_by(taken.len(), all.push(more), all.len() as int + 1),
{
    let n = taken.len();
    let k = all.len() as int;
    let longer = all.push(more);
    lemma_taken_kept(n, all, more, k);
    assert forall|t: int| 0 <= t < n implies inside[t] == in_some(longer, k + 1, t) by {
        assert(taken[t] == in_some(all, k, t));
        assert(taken_by(n, longer, k)[t] == in_some(longer, k, t));
        if in_some(longer, k, t) {
            let c = choose|c: int|
                0 <= c < k && #[trigger] joined_in(longer[c], longer[c].len() as int, t);
            assert(in_some(longer, k + 1, t));
        }
        if joined_in(more, more.len() as int, t) {
            assert(joined_in(longer[k], longer[k].len() as int, t));
        }
        if in_some(longer, k + 1, t) {
            let c = choose|c: int|
                0 <= c < k + 1 && #[trigger] joined_in(longer[c], longer[c].len() as int, t);
            if c < k {
                assert(in_some(longer, k, t));
            }
        }
    }
    assert(inside =~= taken_by(n, longer, k + 1));
}

/// Parts the stars into constellations: each grows from the first star
/// that is in none yet.
pub fn constellations(stars: &Vec<Star>, reach: Option<u64>) -> (all: Vec<Vec<(usize, u64)>>)
    requires
        spans_fit(stars@),
    ensures
        parts_stars(stars@, reach, runs(all@)),
{
    let n: usize = stars.len();
    let mut inside: Vec<bool> = Vec::new();
    let mut i: usize = 0;
    while i < n
        invariant
            i <= n,
            inside@.len() == i,
            forall|t: int| 0 <= t < i ==> !inside@[t],
        decreases n - i,
    {
        inside.push(false);
        i += 1;
    }
    let mut all: Vec<Vec<(usize, u64)>> = Vec::new();
    let mut start: usize = 0;
    proof {
        assert forall|t: int| 0 <= t < n implies !in_some(runs(all@), 0, t) by {}
        assert(inside@ =~= taken_by(n as nat, runs(all@), 0));
    }
    while start < n
        invariant
            start <= n,
            n == stars@.len(),
            spans_fit(stars@),
            inside@ == taken_by(n as nat, runs(all@), all@.len() as int),
            forall|t: int| 0 <= t < start ==> inside@[t],
            forall|k: int|
                0 <= k < all@.len() ==> is_next_constellation(stars@, reach, runs(all@), k),
        decreases n - start,
    {
        if !inside[start] {
            let ghost taken = inside@;
            let ghost before = runs(all@);
            let joins: Vec<(usize, u64)> = constellation(stars, start, reach, &mut inside);
            proof {
                let longer = before.push(joins@);
                lemma_taken_grows(taken, inside@, before, joins@);
                assert(joined_in(joins@, joins@.len() as int, start as int)) by {
                    assert(joins@[0].0 == start);
                }
                assert forall|k: int| 0 <= k < longer.len() implies is_next_constellation(
                    stars@,
                    reach,
                    longer,
                    k,
                ) by {
                    lemma_taken_kept(n as nat, before, joins@, k);
                    if k < before.len() {
                        assert(longer[k] == before[k]);
                        assert(is_next_constellation(stars@, reach, before, k));
                    }
                }
            }
            all.push(joins);
            assert(runs(all@) =~= before.push(joins@));
        }
        start += 1;
    }
    proof {
        assert forall|t: int| 0 <= t < stars@.len() implies in_some(
            runs(all@),
            all@.len() as int,
            t,
        ) by {
            assert(inside@[t]);
        }
    }
    all
}

} // verus!
