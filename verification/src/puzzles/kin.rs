//! Families by descent: a member is the child of the first two others,
//! in the order of the list, with whom it agrees at every place of its
//! sequence; a child and its parents are of one family.

use crate::families::{joined_heads, joined_sizes, Families};
use crate::puzzles::measures::{descends, similarity};
use vstd::prelude::*;

verus! {

/// The sequences that the vectors of `dnas` hold.
pub open spec fn sequences(dnas: Seq<Vec<u8>>) -> Seq<Seq<u8>> {
    Seq::new(dnas.len(), |i: int| dnas[i]@)
}

/// Whether `c` may be the child of `p1` and `p2`: they are two others,
/// the first before the second, and `c` agrees at every place with one
/// of them.
pub open spec fn may_descend(dnas: Seq<Seq<u8>>, c: int, p1: int, p2: int) -> bool {
    0 <= p1 < p2 < dnas.len() && p1 != c && p2 != c && descends(dnas[c], dnas[p1], dnas[p2])
}

/// Whether `(p1, p2)` comes before `(q1, q2)`, or is the same pair.
pub open spec fn pair_le(p1: int, p2: int, q1: int, q2: int) -> bool {
    p1 < q1 || (p1 == q1 && p2 <= q2)
}

/// Whether `p1` and `p2` are the parents of `c`: the first pair of which
/// `c` may descend.
pub open spec fn is_parents(dnas: Seq<Seq<u8>>, c: int, p1: int, p2: int) -> bool {
    may_descend(dnas, c, p1, p2) && forall|q1: int, q2: int| #[trigger]
        may_descend(dnas, c, q1, q2) ==> pair_le(p1, p2, q1, q2)
}

/// Whether `c` has parents.
pub open spec fn has_parents(dnas: Seq<Seq<u8>>, c: int) -> bool {
    exists|p1: int, p2: int| is_parents(dnas, c, p1, p2)
}

/// The parents of `c`.
pub open spec fn parents_of(dnas: Seq<Seq<u8>>, c: int) -> (int, int) {
    choose|p: (int, int)| is_parents(dnas, c, p.0, p.1)
}

/// A member has at most one pair of parents.
pub proof fn lemma_parents(dnas: Seq<Seq<u8>>, c: int, p1: int, p2: int)
    requires
        is_parents(dnas, c, p1, p2),
    ensures
        has_parents(dnas, c),
        parents_of(dnas, c) == (p1, p2),
{
    let p = (p1, p2);
    assert(is_parents(dnas, c, p.0, p.1));
    let q = parents_of(dnas, c);
    assert(is_parents(dnas, c, q.0, q.1));
    assert(may_descend(dnas, c, q.0, q.1));
    assert(may_descend(dnas, c, p1, p2));
}

/// The similarity of `c` to its parents, or zero where it has none.
pub open spec fn similarity_of(dnas: Seq<Seq<u8>>, c: int) -> nat {
    if has_parents(dnas, c) {
        let p = parents_of(dnas, c);
        crate::puzzles::measures::matches(dnas[c], dnas[p.0], dnas[c].len())
            * crate::puzzles::measures::matches(dnas[c], dnas[p.1], dnas[c].len())
    } else {
        0
    }
}

/// Whether all sequences are as long as the first, and short enough for
/// the similarity to fit.
pub open spec fn comparable(dnas: Seq<Seq<u8>>) -> bool {
    forall|i: int| 0 <= i < dnas.len() ==> (#[trigger] dnas[i]).len() == dnas[0].len()
        && dnas[i].len() <= 0xffff_ffff
}

/// Finds the parents of `child`, with its similarity to them; `None`
/// where it has no parents.
pub fn find_parents(dnas: &Vec<Vec<u8>>, child: usize) -> (r: Option<(usize, usize, u64)>)
    requires
        child < dnas@.len(),
        comparable(sequences(dnas@)),
    ensures
        r.is_some() == has_parents(sequences(dnas@), child as int),
        r matches Some(found) ==> is_parents(
            sequences(dnas@),
            child as int,
            found.0 as int,
            found.1 as int,
        ) && found.2 == similarity_of(sequences(dnas@), child as int),
{
    let ghost all = sequences(dnas@);
    let n: usize = dnas.len();
    let mut p1: usize = 0;
    while p1 < n
        invariant
            p1 <= n,
            n == dnas@.len(),
            child < n,
            all == sequences(dnas@),
            comparable(all),
            forall|q1: int, q2: int| q1 < p1 ==> !#[trigger] may_descend(all, child as int, q1, q2),
        decreases n - p1,
    {
        if p1 != child {
            let mut p2: usize = p1 + 1;
            while p2 < n
                invariant
                    p1 < p2 <= n,
                    p1 != child,
                    n == dnas@.len(),
                    child < n,
                    all == sequences(dnas@),
                    comparable(all),
                    forall|q1: int, q2: int|
                        q1 < p1 ==> !#[trigger] may_descend(all, child as int, q1, q2),
                    forall|q2: int| q2 < p2 ==> !#[trigger] may_descend(all, child as int, p1 as int, q2),
                decreases n - p2,
            {
                if p2 != child {
                    assert(all[child as int] == dnas@[child as int]@ && all[p1 as int]
                        == dnas@[p1 as int]@ && all[p2 as int] == dnas@[p2 as int]@);
                    assert(all[p1 as int].len() == all[0].len() && all[p2 as int].len()
                        == all[0].len() && all[child as int].len() == all[0].len());
                    match similarity(&dnas[child], &dnas[p1], &dnas[p2]) {
                        Some(s) => {
                            proof {
                                assert(may_descend(all, child as int, p1 as int, p2 as int));
                                assert forall|q1: int, q2: int| #[trigger]
                                    may_descend(all, child as int, q1, q2) implies pair_le(
                                    p1 as int,
                                    p2 as int,
                                    q1,
                                    q2,
                                ) by {
                                    if q1 < p1 {
                                        assert(!may_descend(all, child as int, q1, q2));
                                    } else if q1 == p1 && q2 < p2 {
                                        assert(!may_descend(all, child as int, p1 as int, q2));
                                    }
                                }
                                lemma_parents(all, child as int, p1 as int, p2 as int);
                            }
                            return Some((p1, p2, s));
                        },
                        None => {},
                    }
                }
                p2 += 1;
            }
        }
        p1 += 1;
    }
    proof {
        if has_parents(all, child as int) {
            let p = parents_of(all, child as int);
            assert(is_parents(all, child as int, p.0, p.1));
            assert(may_descend(all, child as int, p.0, p.1));
            assert(false);
        }
    }
    None
}

/// The heads and sizes of the families.
pub type Kin = (Seq<int>, Seq<nat>);

/// The families when the sets of `x` and `y` are joined.
pub open spec fn joined(kin: Kin, x: int, y: int) -> Kin {
    (joined_heads(kin.0, kin.1, x, y), joined_sizes(kin.0, kin.1, x, y))
}

/// The families when the first `k` members have joined their parents:
/// the child the first parent, the child the second, and the parents
/// each other.
pub open spec fn kin_after(dnas: Seq<Seq<u8>>, kin: Kin, k: nat) -> Kin
    decreases k,
{
    if k == 0 {
        kin
    } else {
        let before = kin_after(dnas, kin, (k - 1) as nat);
        let c = k - 1;
        if has_parents(dnas, c) {
            let p = parents_of(dnas, c);
            joined(joined(joined(before, c, p.0), c, p.1), p.0, p.1)
        } else {
            before
        }
    }
}

/// Lets every member that has parents join their family. Returns the
/// similarity of every member to its parents, zero where it has none.
pub fn find_families(dnas: &Vec<Vec<u8>>, families: &mut Families) -> (similarities: Vec<u64>)
    requires
        old(families).wf(),
        old(families).count() == dnas@.len(),
        comparable(sequences(dnas@)),
    ensures
        final(families).wf(),
        final(families).count() == dnas@.len(),
        (final(families).heads(), final(families).sizes()) == kin_after(
            sequences(dnas@),
            (old(families).heads(), old(families).sizes()),
            dnas@.len(),
        ),
        similarities@.len() == dnas@.len(),
        forall|c: int|
            0 <= c < dnas@.len() ==> #[trigger] similarities@[c] == similarity_of(
                sequences(dnas@),
                c,
            ),
{
    let ghost all = sequences(dnas@);
    let ghost start: Kin = (families.heads(), families.sizes());
    let mut similarities: Vec<u64> = Vec::new();
    let mut child: usize = 0;
    while child < dnas.len()
        invariant
            child <= dnas@.len(),
            all == sequences(dnas@),
            comparable(all),
            families.wf(),
            families.count() == dnas@.len(),
            (families.heads(), families.sizes()) == kin_after(all, start, child as nat),
            similarities@.len() == child,
            forall|c: int| 0 <= c < child ==> #[trigger] similarities@[c] == similarity_of(all, c),
        decreases dnas@.len() - child,
    {
        match find_parents(dnas, child) {
            Some((p1, p2, s)) => {
                proof {
                    lemma_parents(all, child as int, p1 as int, p2 as int);
                }
                families.union(child, p1);
                families.union(child, p2);
                families.union(p1, p2);
                similarities.push(s);
            },
            None => {
                similarities.push(0);
            },
        }
        child += 1;
    }
    similarities
}

} // verus!
