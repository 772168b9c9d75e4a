//! Swords with a fishbone: the numbers of a sword are laid, one by one,
//! beside the first segment of the spine that has room on the right side,
//! or they lengthen the spine. The quality of the sword is the number that
//! the spine writes.

use crate::puzzles::dancers::{appended, written_behind};
use crate::text::{parse_u64, pieces, split, unsigned_of, views};
use vstd::prelude::*;

verus! {

/// A segment of the spine, with the numbers to its left and right.
#[derive(Clone, Copy, Debug, PartialEq, Eq, Structural)]
pub struct Segment {
    pub center: u64,
    pub left: Option<u64>,
    pub right: Option<u64>,
}

/// A sword: its quality, the numbers that its segments write, and its
/// identifier.
#[derive(Clone, Debug, PartialEq, Eq)]
pub struct Sword {
    pub quality: u64,
    pub segments: Vec<u64>,
    pub id: u64,
}

/// Whether the segment has room for `n`: on the left for a smaller
/// number, on the right for a greater.
pub open spec fn takes(seg: Segment, n: u64) -> bool {
    (n < seg.center && seg.left.is_none()) || (n > seg.center && seg.right.is_none())
}

/// The segment with `n` laid beside it.
pub open spec fn laid(seg: Segment, n: u64) -> Segment {
    if n < seg.center && seg.left.is_none() {
        Segment { center: seg.center, left: Some(n), right: seg.right }
    } else {
        Segment { center: seg.center, left: seg.left, right: Some(n) }
    }
}

/// Whether `i` is the first segment of the spine with room for `n`, or
/// the length of the spine where none has room.
pub open spec fn is_first_taker(spine: Seq<Segment>, n: u64, i: int) -> bool {
    &&& 0 <= i <= spine.len()
    &&& forall|j: int| 0 <= j < i ==> !takes(#[trigger] spine[j], n)
    &&& i < spine.len() ==> takes(spine[i], n)
}

/// The first segment of the spine with room for `n`, or the length of the
/// spine.
pub open spec fn first_taker(spine: Seq<Segment>, n: u64) -> int {
    choose|i: int| is_first_taker(spine, n, i)
}

/// There is exactly one first taker.
pub proof fn lemma_first_taker(spine: Seq<Segment>, n: u64, i: int)
    requires
        is_first_taker(spine, n, i),
    ensures
        first_taker(spine, n) == i,
{
    let f = first_taker(spine, n);
    assert(is_first_taker(spine, n, f));
    if f < i {
        assert(!takes(spine[f], n));
    }
    if i < f {
        assert(!takes(spine[i], n));
    }
}

/// The spine with `n` laid beside its first segment that has room, or
/// with a new segment for `n` at its end.
pub open spec fn placed(spine: Seq<Segment>, n: u64) -> Seq<Segment> {
    let i = first_taker(spine, n);
    if i < spine.len() {
        spine.update(i, laid(spine[i], n))
    } else {
        spine.push(Segment { center: n, left: None, right: None })
    }
}

/// The spine that the numbers build, laid one by one.
pub open spec fn fishbone_of(numbers: Seq<u64>) -> Seq<Segment>
    decreases numbers.len(),
{
    if numbers.len() == 0 {
        Seq::empty()
    } else {
        placed(fishbone_of(numbers.drop_last()), numbers.last())
    }
}

/// Lays `n` to the spine.
pub fn place(spine: &mut Vec<Segment>, n: u64)
    ensures
        final(spine)@ == placed(old(spine)@, n),
{
    let mut i: usize = 0;
    while i < spine.len()
        invariant
            i <= spine@.len(),
            spine@ == old(spine)@,
            forall|j: int| 0 <= j < i ==> !takes(#[trigger] spine@[j], n),
        decreases spine@.len() - i,
    {
        let seg: Segment = spine[i];
        if n < seg.center && seg.left.is_none() {
            proof {
                lemma_first_taker(spine@, n, i as int);
            }
            spine.set(i, Segment { center: seg.center, left: Some(n), right: seg.right });
            return ;
        } else if n > seg.center && seg.right.is_none() {
            proof {
                lemma_first_taker(spine@, n, i as int);
            }
            spine.set(i, Segment { center: seg.center, left: seg.left, right: Some(n) });
            return ;
        }
        i += 1;
    }
    proof {
        lemma_first_taker(spine@, n, i as int);
    }
    spine.push(Segment { center: n, left: None, right: None });
}

/// Builds the spine of the numbers.
pub fn fishbone(numbers: &Vec<u64>) -> (spine: Vec<Segment>)
    ensures
        spine@ == fishbone_of(numbers@),
{
    let mut spine: Vec<Segment> = Vec::new();
    let mut k: usize = 0;
    assert(numbers@.take(0) =~= Seq::<u64>::empty());
    while k < numbers.len()
        invariant
            k <= numbers@.len(),
            spine@ == fishbone_of(numbers@.take(k as int)),
        decreases numbers@.len() - k,
    {
        assert(numbers@.take(k + 1).drop_last() =~= numbers@.take(k as int));
        place(&mut spine, numbers[k]);
        k += 1;
    }
    assert(numbers@.take(k as int) =~= numbers@);
    spine
}

/// The number that the centers of the first `k` segments write, one
/// behind the other.
pub open spec fn spine_number(spine: Seq<Segment>, k: nat) -> nat
    decreases k,
{
    if k == 0 || k > spine.len() {
        0
    } else {
        written_behind(spine_number(spine, (k - 1) as nat), spine[k - 1].center as nat)
    }
}

/// The number that a segment writes: its left number, its center and its
/// right number, one behind the other.
pub open spec fn segment_number(seg: Segment) -> nat {
    let first = match seg.left {
        Some(l) => written_behind(l as nat, seg.center as nat),
        None => seg.center as nat,
    };
    match seg.right {
        Some(r) => written_behind(first, r as nat),
        None => first,
    }
}

/// Whether the numbers that the spine and its segments write all fit in
/// a `u64`.
pub open spec fn writes_fit(spine: Seq<Segment>) -> bool {
    &&& forall|k: nat| k <= spine.len() ==> #[trigger] spine_number(spine, k) <= u64::MAX
    &&& forall|i: int| 0 <= i < spine.len() ==> segment_number(#[trigger] spine[i]) <= u64::MAX
    &&& forall|i: int|
        0 <= i < spine.len() ==> ((#[trigger] spine[i]).left matches Some(l) ==> written_behind(
            l as nat,
            spine[i].center as nat,
        ) <= u64::MAX)
}

/// The number that a segment writes, or `None` where it does not fit.
pub fn segment_value(seg: Segment) -> (r: Option<u64>)
    ensures
        r.is_some() <==> segment_number(seg) <= u64::MAX && (seg.left matches Some(l)
            ==> written_behind(l as nat, seg.center as nat) <= u64::MAX),
        r matches Some(v) ==> v == segment_number(seg),
{
    let first: Option<u64> = match seg.left {
        Some(l) => appended(l, seg.center),
        None => Some(seg.center),
    };
    match first {
        None => None,
        Some(f) => match seg.right {
            Some(r) => appended(f, r),
            None => Some(f),
        },
    }
}

/// Forges the sword `id` of the numbers, or returns `None` where one of
/// the numbers it writes does not fit.
pub fn forge(id: u64, numbers: &Vec<u64>) -> (r: Option<Sword>)
    ensures
        r.is_some() <==> writes_fit(fishbone_of(numbers@)),
        r matches Some(sword) ==> {
            let spine = fishbone_of(numbers@);
            &&& sword.id == id
            &&& sword.quality == spine_number(spine, spine.len())
            &&& sword.segments@.len() == spine.len()
            &&& forall|i: int|
                0 <= i < spine.len() ==> sword.segments@[i] == segment_number(#[trigger] spine[i])
        },
{
    let spine: Vec<Segment> = fishbone(numbers);
    let mut quality: u64 = 0;
    let mut segments: Vec<u64> = Vec::new();
    let mut i: usize = 0;
    while i < spine.len()
        invariant
            i <= spine@.len(),
            spine@ == fishbone_of(numbers@),
            quality == spine_number(spine@, i as nat),
            segments@.len() == i,
            forall|k: nat| k <= i ==> #[trigger] spine_number(spine@, k) <= u64::MAX,
            forall|j: int|
                0 <= j < i ==> segments@[j] == segment_number(#[trigger] spine@[j]) && (
                spine@[j].left matches Some(l) ==> written_behind(
                    l as nat,
                    spine@[j].center as nat,
                ) <= u64::MAX),
        decreases spine@.len() - i,
    {
        let seg: Segment = spine[i];
        assert(spine_number(spine@, (i + 1) as nat) == written_behind(
            quality as nat,
            seg.center as nat,
        ));
        match appended(quality, seg.center) {
            None => {
                return None;
            },
            Some(q) => {
                quality = q;
            },
        }
        match segment_value(seg) {
            None => {
                assert(spine@[i as int] == seg);
                return None;
            },
            Some(v) => {
                segments.push(v);
            },
        }
        i += 1;
    }
    Some(Sword { quality, segments, id })
}

/// The sword that a line of the form `id:number,number,...` describes, or
/// `None` where the line has another form or a number does not fit.
pub open spec fn sword_text(line: Seq<u8>) -> Option<(u64, Seq<u64>)> {
    let halves = pieces(line, 58);
    if halves.len() != 2 {
        None
    } else {
        let fields = pieces(halves[1], 44);
        if unsigned_of(halves[0]).is_some() && forall|k: int|
            0 <= k < fields.len() ==> unsigned_of(#[trigger] fields[k]).is_some() {
            Some(
                (
                    unsigned_of(halves[0]).unwrap(),
                    Seq::new(fields.len(), |k: int| unsigned_of(fields[k]).unwrap()),
                ),
            )
        } else {
            None
        }
    }
}

/// Reads the identifier and the numbers of a sword.
pub fn read_sword(line: &Vec<u8>) -> (r: Option<(u64, Vec<u64>)>)
    ensures
        r.is_some() == sword_text(line@).is_some(),
        r matches Some(read) ==> read.0 == sword_text(line@).unwrap().0 && read.1@ == sword_text(
            line@,
        ).unwrap().1,
{
    let halves: Vec<Vec<u8>> = split(line, 58);
    assert(views(halves@).len() == halves@.len());
    if halves.len() != 2 {
        return None;
    }
    assert(views(halves@)[0] == halves@[0]@);
    assert(views(halves@)[1] == halves@[1]@);
    let id: u64 = match parse_u64(&halves[0]) {
        Some(v) => v,
        None => {
            return None;
        },
    };
    let fields: Vec<Vec<u8>> = split(&halves[1], 44);
    let ghost given = pieces(pieces(line@, 58)[1], 44);
    assert(views(fields@).len() == fields@.len());
    let mut numbers: Vec<u64> = Vec::new();
    let mut k: usize = 0;
    while k < fields.len()
        invariant
            k <= fields@.len(),
            views(fields@) == given,
            given == pieces(pieces(line@, 58)[1], 44),
            pieces(line@, 58).len() == 2,
            unsigned_of(pieces(line@, 58)[0]) == Some(id),
            numbers@.len() == k,
            forall|j: int|
                0 <= j < k ==> unsigned_of(#[trigger] given[j]) == Some(numbers@[j]),
        decreases fields@.len() - k,
    {
        assert(views(fields@)[k as int] == fields@[k as int]@);
        match parse_u64(&fields[k]) {
            Some(v) => {
                numbers.push(v);
            },
            None => {
                assert(unsigned_of(given[k as int]).is_none());
                return None;
            },
        }
        k += 1;
    }
    assert(numbers@ =~= sword_text(line@).unwrap().1);
    Some((id, numbers))
}

/// Reads and forges the sword of a line `id:number,number,...`.
pub fn parse_sword(line: &Vec<u8>) -> (r: Option<Sword>)
    ensures
        r.is_some() <==> sword_text(line@).is_some() && writes_fit(
            fishbone_of(sword_text(line@).unwrap().1),
        ),
        r matches Some(sword) ==> {
            let spine = fishbone_of(sword_text(line@).unwrap().1);
            &&& sword.id == sword_text(line@).unwrap().0
            &&& sword.quality == spine_number(spine, spine.len())
            &&& sword.segments@.len() == spine.len()
            &&& forall|i: int|
                0 <= i < spine.len() ==> sword.segments@[i] == segment_number(#[trigger] spine[i])
        },
{
    match read_sword(line) {
        None => None,
        Some(read) => forge(read.0, &read.1),
    }
}

} // verus!
