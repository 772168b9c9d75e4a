//! The permutations of a list of numbers in lexicographic order, each
//! distinct arrangement once.

use vstd::prelude::*;
use vstd::seq_lib::to_multiset_update;

verus! {

/// Whether `s` is in ascending order.
pub open spec fn is_ascending(s: Seq<u64>) -> bool {
    forall|i: int, j: int| 0 <= i <= j < s.len() ==> s[i] <= s[j]
}

/// Whether `s` is in descending order: the last of its arrangements.
pub open spec fn is_descending(s: Seq<u64>) -> bool {
    forall|i: int, j: int| 0 <= i <= j < s.len() ==> s[i] >= s[j]
}

/// Whether `a` comes before `b` in lexicographic order, for sequences of
/// one length.
pub open spec fn lex_lt(a: Seq<u64>, b: Seq<u64>) -> bool {
    exists|i: int|
        0 <= i < a.len() && i < b.len() && a.subrange(0, i) == b.subrange(0, i) && a[i] < b[i]
}

/// Whether `k` is the pivot of `s`: the last place where `s` ascends.
pub open spec fn is_pivot(s: Seq<u64>, k: int) -> bool {
    &&& 0 <= k < s.len() - 1
    &&& s[k] < s[k + 1]
    &&& forall|j: int| k < j < s.len() - 1 ==> (#[trigger] s[j]) >= s[j + 1]
}

/// Whether `l` is the partner of the pivot `k`: the last place behind the
/// pivot that holds more than the pivot does.
pub open spec fn is_partner(s: Seq<u64>, k: int, l: int) -> bool {
    &&& k < l < s.len()
    &&& s[k] < s[l]
    &&& forall|j: int| l < j < s.len() ==> s[j] <= s[k]
}

/// The arrangement that follows `s`: pivot and partner change places, then
/// what stands behind the pivot's place is reversed.
pub open spec fn successor(s: Seq<u64>, k: int, l: int) -> Seq<u64> {
    let t = s.update(k, s[l]).update(l, s[k]);
    t.subrange(0, k + 1) + t.subrange(k + 1, s.len() as int).reverse()
}

/// Whether `nxt` is what comes after the arrangement `cur`: nothing when
/// `cur` is in descending order, the successor by pivot and partner
/// otherwise.
pub open spec fn follows(cur: Seq<u64>, nxt: Option<Seq<u64>>) -> bool {
    match nxt {
        None => is_descending(cur),
        Some(n) => exists|k: int, l: int|
            is_pivot(cur, k) && is_partner(cur, k, l) && n == successor(cur, k, l),
    }
}

/// The arrangement that follows is an arrangement of the same numbers.
pub proof fn lemma_successor_same_numbers(s: Seq<u64>, k: int, l: int)
    requires
        is_pivot(s, k),
        is_partner(s, k, l),
    ensures
        successor(s, k, l).len() == s.len(),
        successor(s, k, l).to_multiset() =~= s.to_multiset(),
{
    broadcast use vstd::multiset::group_multiset_axioms;

    let t = s.update(k, s[l]).update(l, s[k]);
    to_multiset_update(s, k, s[l]);
    to_multiset_update(s.update(k, s[l]), l, s[k]);
    vstd::seq_lib::to_multiset_contains(s, s[k]);
    vstd::seq_lib::to_multiset_contains(s, s[l]);
    assert(s.contains(s[k]));
    assert(s.contains(s[l]));
    assert(t.to_multiset() =~= s.to_multiset());
    let head = t.subrange(0, k + 1);
    let tail = t.subrange(k + 1, s.len() as int);
    assert(t =~= head + tail);
    vstd::seq_lib::lemma_multiset_commutative(head, tail);
    vstd::seq_lib::lemma_multiset_commutative(head, tail.reverse());
    tail.lemma_reverse_to_multiset();
}

/// The arrangement that follows comes later in lexicographic order.
pub proof fn lemma_successor_is_later(s: Seq<u64>, k: int, l: int)
    requires
        is_pivot(s, k),
        is_partner(s, k, l),
    ensures
        lex_lt(s, successor(s, k, l)),
{
    let n = successor(s, k, l);
    assert(s.subrange(0, k) =~= n.subrange(0, k));
    assert(n[k] == s[l]);
}

/// Two arrangements of the same numbers that begin alike end in
/// arrangements of the same numbers.
pub proof fn lemma_same_numbers_behind(a: Seq<u64>, b: Seq<u64>, i: int)
    requires
        a.to_multiset() == b.to_multiset(),
        0 <= i <= a.len(),
        i <= b.len(),
        a.subrange(0, i) == b.subrange(0, i),
    ensures
        a.len() == b.len(),
        a.subrange(i, a.len() as int).to_multiset() =~= b.subrange(i, b.len() as int).to_multiset(),
{
    broadcast use vstd::multiset::group_multiset_axioms;

    vstd::seq_lib::to_multiset_len(a);
    vstd::seq_lib::to_multiset_len(b);
    let head = a.subrange(0, i);
    let ta = a.subrange(i, a.len() as int);
    let tb = b.subrange(i, b.len() as int);
    assert(a =~= head + ta);
    assert(b =~= head + tb);
    vstd::seq_lib::lemma_multiset_commutative(head, ta);
    vstd::seq_lib::lemma_multiset_commutative(head, tb);
    assert forall|v: u64| ta.to_multiset().count(v) == tb.to_multiset().count(v) by {
        assert(a.to_multiset().count(v) == head.to_multiset().count(v) + ta.to_multiset().count(
            v,
        ));
        assert(b.to_multiset().count(v) == head.to_multiset().count(v) + tb.to_multiset().count(
            v,
        ));
    }
}

/// The first number of an arrangement occurs in every arrangement of the
/// same numbers.
pub proof fn lemma_first_occurs(a: Seq<u64>, b: Seq<u64>) -> (m: int)
    requires
        a.to_multiset() == b.to_multiset(),
        a.len() > 0,
    ensures
        0 <= m < b.len(),
        b[m] == a[0],
{
    vstd::seq_lib::to_multiset_contains(a, a[0]);
    vstd::seq_lib::to_multiset_contains(b, a[0]);
    assert(a.contains(a[0]));
    choose|m: int| 0 <= m < b.len() && b[m] == a[0]
}

/// Arrangements that begin alike compare as what stands behind compares.
pub proof fn lemma_lex_behind(a: Seq<u64>, b: Seq<u64>, i: int)
    requires
        a.len() == b.len(),
        0 <= i <= a.len(),
        a.subrange(0, i) == b.subrange(0, i),
        lex_lt(a.subrange(i, a.len() as int), b.subrange(i, b.len() as int)),
    ensures
        lex_lt(a, b),
{
    let ta = a.subrange(i, a.len() as int);
    let tb = b.subrange(i, b.len() as int);
    let j = choose|j: int|
        0 <= j < ta.len() && j < tb.len() && ta.subrange(0, j) == tb.subrange(0, j) && ta[j]
            < tb[j];
    assert(a.subrange(0, i + j) =~= b.subrange(0, i + j)) by {
        assert forall|x: int| 0 <= x < i + j implies a[x] == b[x] by {
            if x < i {
                assert(a.subrange(0, i)[x] == a[x]);
                assert(b.subrange(0, i)[x] == b[x]);
            } else {
                assert(ta.subrange(0, j)[x - i] == ta[x - i]);
                assert(tb.subrange(0, j)[x - i] == tb[x - i]);
                assert(ta[x - i] == a[x] && tb[x - i] == b[x]);
            }
        }
    }
    assert(a[i + j] == ta[j] && b[i + j] == tb[j]);
}

/// The ascending arrangement comes first: every other arrangement of the
/// same numbers is later in lexicographic order.
pub proof fn lemma_ascending_is_first(a: Seq<u64>, p: Seq<u64>)
    requires
        is_ascending(a),
        a.to_multiset() == p.to_multiset(),
    ensures
        a == p || lex_lt(a, p),
    decreases a.len(),
{
    vstd::seq_lib::to_multiset_len(a);
    vstd::seq_lib::to_multiset_len(p);
    if a.len() == 0 {
        assert(a =~= p);
    } else {
        let m = lemma_first_occurs(p, a);
        assert(a[0] <= a[m]);
        if a[0] < p[0] {
            assert(a.subrange(0, 0) =~= p.subrange(0, 0));
        } else {
            assert(a.subrange(0, 1) =~= p.subrange(0, 1));
            lemma_same_numbers_behind(a, p, 1);
            let ta = a.subrange(1, a.len() as int);
            let tp = p.subrange(1, p.len() as int);
            assert(is_ascending(ta)) by {
                assert forall|i: int, j: int| 0 <= i <= j < ta.len() implies ta[i] <= ta[j] by {
                    assert(a[i + 1] <= a[j + 1]);
                }
            }
            lemma_ascending_is_first(ta, tp);
            if ta == tp {
                assert(a =~= p) by {
                    assert forall|x: int| 0 <= x < a.len() implies a[x] == p[x] by {
                        if x > 0 {
                            assert(ta[x - 1] == tp[x - 1]);
                        }
                    }
                }
            } else {
                lemma_lex_behind(a, p, 1);
            }
        }
    }
}

/// The descending arrangement comes last: no arrangement of the same
/// numbers is later in lexicographic order.
pub proof fn lemma_descending_is_last(d: Seq<u64>, p: Seq<u64>)
    requires
        is_descending(d),
        d.to_multiset() == p.to_multiset(),
    ensures
        !lex_lt(d, p),
{
    if lex_lt(d, p) {
        let i = choose|i: int|
            0 <= i < d.len() && i < p.len() && d.subrange(0, i) == p.subrange(0, i) && d[i] < p[i];
        lemma_same_numbers_behind(d, p, i);
        let td = d.subrange(i, d.len() as int);
        let tp = p.subrange(i, p.len() as int);
        let m = lemma_first_occurs(tp, td);
        assert(td[m] == d[i + m]);
        assert(tp[0] == p[i]);
        assert(d[i] >= d[i + m]);
    }
}

/// The successor by pivot and partner is the very next arrangement: every
/// arrangement of the same numbers that is later than `s` is the successor
/// or later than it.
pub proof fn lemma_successor_is_next(s: Seq<u64>, k: int, l: int, q: Seq<u64>)
    requires
        is_pivot(s, k),
        is_partner(s, k, l),
        q.to_multiset() == s.to_multiset(),
        lex_lt(s, q),
    ensures
        q == successor(s, k, l) || lex_lt(successor(s, k, l), q),
{
    let n = successor(s, k, l);
    let len = s.len() as int;
    lemma_successor_same_numbers(s, k, l);
    vstd::seq_lib::to_multiset_len(s);
    vstd::seq_lib::to_multiset_len(q);
    let j = choose|j: int|
        0 <= j < s.len() && j < q.len() && s.subrange(0, j) == q.subrange(0, j) && s[j] < q[j];
    lemma_steps_down_is_descending(s, k + 1);
    let tail = s.subrange(k + 1, len);
    if j < k {
        assert(n.subrange(0, j) =~= q.subrange(0, j)) by {
            assert forall|x: int| 0 <= x < j implies n[x] == q[x] by {
                assert(s.subrange(0, j)[x] == q.subrange(0, j)[x]);
            }
        }
        assert(n[j] == s[j]);
    } else if j > k {
        lemma_same_numbers_behind(s, q, j);
        let ts = s.subrange(j, len);
        let tq = q.subrange(j, len);
        assert(is_descending(ts)) by {
            assert forall|x: int, y: int| 0 <= x <= y < ts.len() implies ts[x] >= ts[y] by {
                assert(tail[x + j - k - 1] >= tail[y + j - k - 1]);
            }
        }
        assert(ts.subrange(0, 0) =~= tq.subrange(0, 0));
        assert(ts[0] < tq[0]);
        assert(lex_lt(ts, tq));
        lemma_descending_is_last(ts, tq);
    } else {
        lemma_same_numbers_behind(s, q, k);
        let ts = s.subrange(k, len);
        let tq = q.subrange(k, len);
        let m = lemma_first_occurs(tq, ts);
        assert(ts[m] == s[k + m] && tq[0] == q[k]);
        assert(m > 0);
        assert(k + m <= l);
        assert(s[k + m] >= s[l]) by {
            assert(tail[m - 1] >= tail[l - k - 1]);
        }
        assert(n[k] == s[l]);
        assert(n.subrange(0, k) =~= q.subrange(0, k)) by {
            assert forall|x: int| 0 <= x < k implies n[x] == q[x] by {
                assert(s.subrange(0, k)[x] == q.subrange(0, k)[x]);
            }
        }
        if q[k] > n[k] {
        } else {
            assert(n.subrange(0, k + 1) =~= q.subrange(0, k + 1));
            lemma_same_numbers_behind(n, q, k + 1);
            let t = s.update(k, s[l]).update(l, s[k]);
            let back = t.subrange(k + 1, len);
            let tn = n.subrange(k + 1, len);
            let tq2 = q.subrange(k + 1, len);
            assert(tn =~= back.reverse());
            assert(is_descending(back)) by {
                assert forall|x: int, y: int| 0 <= x <= y < back.len() implies back[x]
                    >= back[y] by {
                    let gx = x + k + 1;
                    let gy = y + k + 1;
                    assert(tail[x] >= tail[y]);
                    if gx == l && gy > l {
                        assert(s[gy] <= s[k]);
                    }
                    if gy == l && gx < l {
                        assert(tail[x] >= tail[l - k - 1]);
                    }
                }
            }
            assert(is_ascending(tn)) by {
                assert forall|x: int, y: int| 0 <= x <= y < tn.len() implies tn[x] <= tn[y] by {
                    assert(back[back.len() - 1 - y] >= back[back.len() - 1 - x]);
                }
            }
            lemma_ascending_is_first(tn, tq2);
            if tn == tq2 {
                assert(n =~= q) by {
                    assert forall|x: int| 0 <= x < len implies n[x] == q[x] by {
                        if x <= k {
                            assert(n.subrange(0, k + 1)[x] == q.subrange(0, k + 1)[x]);
                        } else {
                            assert(tn[x - k - 1] == tq2[x - k - 1]);
                        }
                    }
                }
            } else {
                lemma_lex_behind(n, q, k + 1);
            }
        }
    }
}

/// The place of the pivot of `r`, or `None` when `r` is in descending
/// order and has no pivot.
fn find_pivot(r: &Vec<u64>) -> (found: Option<usize>)
    ensures
        match found {
            Some(k) => is_pivot(r@, k as int),
            None => is_descending(r@),
        },
{
    if r.len() < 2 {
        return None;
    }
    let mut k: usize = r.len() - 2;
    while r[k] >= r[k + 1]
        invariant
            k < r.len() - 1,
            forall|j: int| k < j < r.len() - 1 ==> (#[trigger] r@[j]) >= r@[j + 1],
        decreases k,
    {
        if k == 0 {
            proof {
                lemma_steps_down_is_descending(r@, 0);
                assert(r@.subrange(0, r@.len() as int) =~= r@);
            }
            return None;
        }
        k -= 1;
    }
    Some(k)
}

/// The place of the partner of the pivot at `k`.
fn find_partner(r: &Vec<u64>, k: usize) -> (l: usize)
    requires
        is_pivot(r@, k as int),
    ensures
        is_partner(r@, k as int, l as int),
{
    assert(k + 1 < r.len());
    let mut l: usize = k + 1;
    while l + 1 < r.len() && r[k] < r[l + 1]
        invariant
            k < l < r.len(),
            r@[k as int] < r@[l as int],
        decreases r.len() - l,
    {
        l += 1;
    }
    proof {
        assert forall|j: int| l < j < r@.len() implies r@[j] <= r@[k as int] by {
            lemma_steps_down_is_descending(r@, k as int + 1);
            let tail = r@.subrange(k as int + 1, r@.len() as int);
            assert(tail[l - k] >= tail[j - k - 1]);
        }
    }
    l
}

/// Reverses what stands in `v` from the place `from` on.
fn reverse_from(v: &mut Vec<u64>, from: usize)
    requires
        from <= old(v)@.len(),
    ensures
        final(v)@ == old(v)@.subrange(0, from as int) + old(v)@.subrange(
            from as int,
            old(v)@.len() as int,
        ).reverse(),
{
    let ghost t = v@;
    if from >= v.len() {
        assert(v@ =~= t.subrange(0, from as int) + t.subrange(from as int, t.len() as int).reverse());
        return ;
    }
    let mut i: usize = from;
    let mut j: usize = v.len() - 1;
    while i < j
        invariant
            from <= i <= v.len(),
            j < v.len(),
            v@.len() == t.len(),
            i + j + 1 == from + t.len(),
            forall|x: int| 0 <= x < from ==> v@[x] == t[x],
            forall|x: int| i <= x <= j ==> v@[x] == t[x],
            forall|x: int| from <= x < i ==> v@[x] == t[t.len() + from - 1 - x],
            forall|x: int| j < x < t.len() ==> v@[x] == t[t.len() + from - 1 - x],
        decreases t.len() - i,
    {
        let low: u64 = v[i];
        let high: u64 = v[j];
        v[i] = high;
        v[j] = low;
        i += 1;
        j -= 1;
    }
    assert(v@ =~= t.subrange(0, from as int) + t.subrange(from as int, t.len() as int).reverse());
}

/// The numbers of a list, ready to be arranged.
pub struct PermutationsIterator {
    next_item: Option<Vec<u64>>,
}

impl PermutationsIterator {
    /// The arrangement that the next call of [`Self::next`] returns.
    pub closed spec fn pending(&self) -> Option<Seq<u64>> {
        match self.next_item {
            Some(v) => Some(v@),
            None => None,
        }
    }

    /// Returns the pending arrangement and moves on to the one that follows
    /// it in lexicographic order; returns `None` once the last arrangement,
    /// the descending one, has been returned.
    pub fn next(&mut self) -> (r: Option<Vec<u64>>)
        ensures
            old(self).pending().is_none() ==> r.is_none() && final(self).pending().is_none(),
            old(self).pending() matches Some(cur) ==> r.is_some() && r.unwrap()@ == cur
                && follows(cur, final(self).pending()),
    {
        let r: Vec<u64> = match self.next_item.take() {
            None => {
                return None;
            },
            Some(r) => r,
        };
        match find_pivot(&r) {
            None => {},
            Some(k) => {
                let l: usize = find_partner(&r, k);
                let mut nr: Vec<u64> = r.clone();
                assert(nr@ == r@);
                let a: u64 = nr[k];
                let b: u64 = nr[l];
                nr[k] = b;
                nr[l] = a;
                reverse_from(&mut nr, k + 1);
                proof {
                    assert(nr@ =~= successor(r@, k as int, l as int));
                    assert(!is_descending(r@)) by {
                        assert(r@[k as int] < r@[k as int + 1]);
                    }
                    assert(is_pivot(r@, k as int) && is_partner(r@, k as int, l as int) && nr@
                        == successor(r@, k as int, l as int));
                }
                self.next_item = Some(nr);
            },
        }
        Some(r)
    }
}

/// A sequence that never steps up from `from` on is in descending order
/// from there.
pub proof fn lemma_steps_down_is_descending(s: Seq<u64>, from: int)
    requires
        0 <= from <= s.len(),
        forall|j: int| from <= j < s.len() - 1 ==> (#[trigger] s[j]) >= s[j + 1],
    ensures
        is_descending(s.subrange(from, s.len() as int)),
{
    let tail = s.subrange(from, s.len() as int);
    assert forall|i: int, j: int| 0 <= i <= j < tail.len() implies tail[i] >= tail[j] by {
        lemma_steps_down_between(s, from + i, from + j);
    }
}

/// A sequence that never steps up between two places holds at the first
/// at least what it holds at the second.
proof fn lemma_steps_down_between(s: Seq<u64>, i: int, j: int)
    requires
        0 <= i <= j < s.len(),
        forall|x: int| i <= x < j ==> (#[trigger] s[x]) >= s[x + 1],
    ensures
        s[i] >= s[j],
    decreases j - i,
{
    if i < j {
        lemma_steps_down_between(s, i, j - 1);
    }
}

/// Whether `out` holds the numbers of `given`, as often as `given` holds
/// them, in ascending order.
pub open spec fn is_sorted_copy(given: Seq<u64>, out: Seq<u64>) -> bool {
    out.to_multiset() == given.to_multiset() && is_ascending(out)
}

/// Calls `slice::sort_unstable` on the vector. Trusted, as std documents
/// it: afterwards the vector holds the same numbers in ascending order.
#[verifier::external_body]
fn sort_ascending(v: &mut Vec<u64>)
    ensures
        is_sorted_copy(old(v)@, final(v)@),
{
    v.sort_unstable();
}

/// Arranges the numbers of `a` in every distinct way, in lexicographic
/// order: the arrangements start with the ascending one.
pub fn permutations_lexicographic(a: &Vec<u64>) -> (it: PermutationsIterator)
    ensures
        it.pending() matches Some(first) && is_sorted_copy(a@, first),
{
    let mut v: Vec<u64> = a.clone();
    sort_ascending(&mut v);
    PermutationsIterator { next_item: Some(v) }
}

} // verus!
