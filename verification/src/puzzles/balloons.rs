//! A circle of balloons, shot at with bolts of three colours in turn: a
//! bolt bursts the balloon in front, and the one across the circle too
//! where its colour is that of the first and the circle is even.

use vstd::prelude::*;

verus! {

/// The colour of the bolt of the round `k`: red, green and blue in
/// turn.
pub open spec fn bolt(k: int) -> u8 {
    if k % 3 == 0 {
        82
    } else if k % 3 == 1 {
        71
    } else {
        66
    }
}

/// The two halves of the circle after one round with a bolt of colour
/// `f`: the first balloon of the near half bursts; where it has the
/// colour of the bolt and an odd number of balloons is left, the first
/// of the far half bursts too; where it has another colour and the far
/// half is the longer one, its first balloon moves to the end of the
/// near half.
pub open spec fn shot(left: Seq<u8>, right: Seq<u8>, f: u8) -> (Seq<u8>, Seq<u8>) {
    let rest = left.skip(1);
    if left[0] == f {
        if (rest.len() + right.len()) % 2 != 0 && right.len() > 0 {
            (rest, right.skip(1))
        } else {
            (rest, right)
        }
    } else if right.len() > rest.len() {
        (rest.push(right[0]), right.skip(1))
    } else {
        (rest, right)
    }
}

/// The number of rounds until the near half is empty, from the round
/// `k` on.
pub open spec fn rounds(left: Seq<u8>, right: Seq<u8>, k: int) -> nat
    decreases left.len() + right.len(),
{
    if left.len() == 0 {
        0
    } else {
        let next = shot(left, right, bolt(k));
        if next.0.len() == 0 {
            1
        } else {
            1 + rounds(next.0, next.1, k + 1)
        }
    }
}

/// The circle: `line`, `repeats` times over.
pub open spec fn repeated(line: Seq<u8>, repeats: nat) -> Seq<u8>
    decreases repeats,
{
    if repeats == 0 {
        Seq::empty()
    } else {
        repeated(line, (repeats - 1) as nat) + line
    }
}

/// The colour of the bolt of the round `k`.
pub fn bolt_of(k: usize) -> (f: u8)
    ensures
        f == bolt(k as int),
{
    if k % 3 == 0 {
        82
    } else if k % 3 == 1 {
        71
    } else {
        66
    }
}

/// Plays on the two halves of a circle until the near half is empty, and
/// returns the number of rounds.
pub fn play(left: Vec<u8>, right: &Vec<u8>) -> (count: usize)
    requires
        left@.len() >= 1,
        left@.len() + right@.len() <= usize::MAX,
    ensures
        count == rounds(left@, right@, 0),
{
    let mut near: Vec<u8> = left;
    let mut from: usize = 0;
    let mut far: usize = 0;
    let mut count: usize = 0;
    let ghost whole = rounds(near@, right@, 0);
    assert(near@.skip(0) =~= near@ && right@.skip(0) =~= right@);
    loop
        invariant_except_break
            from < near@.len(),
        invariant
            far <= right@.len(),
            count + (near@.len() - from) + (right@.len() - far) <= left@.len() + right@.len(),
            left@.len() + right@.len() <= usize::MAX,
            whole == count + rounds(near@.skip(from as int), right@.skip(far as int), count as int),
        ensures
            count == whole,
        decreases (near@.len() - from) + (right@.len() - far),
    {
        let ghost l = near@.skip(from as int);
        let ghost r = right@.skip(far as int);
        let held: usize = near.len();
        let f: u8 = bolt_of(count);
        let first: u8 = near[from];
        assert(l[0] == first);
        from += 1;
        assert(l.skip(1) =~= near@.skip(from as int));
        count += 1;
        if first == f {
            if ((near.len() - from) + (right.len() - far)) % 2 != 0 && far < right.len() {
                far += 1;
                assert(r.skip(1) =~= right@.skip(far as int));
            }
        } else if right.len() - far > near.len() - from {
            let moved: u8 = right[far];
            assert(r[0] == moved);
            let ghost before = near@;
            near.push(moved);
            far += 1;
            assert(r.skip(1) =~= right@.skip(far as int));
            assert(near@.skip(from as int) =~= before.skip(from as int).push(moved));
        }
        assert((near@.skip(from as int), right@.skip(far as int)) == shot(l, r, f));
        if from == near.len() {
            break ;
        }
    }
    count
}

/// The number of rounds it takes to burst the near half of the circle
/// that `line` makes when it is repeated `repeats` times.
pub fn process_circle(line: &Vec<u8>, repeats: usize) -> (count: usize)
    requires
        line@.len() * repeats >= 2,
        line@.len() * repeats <= usize::MAX,
    ensures
        count == rounds(
            repeated(line@, repeats as nat).take((line@.len() * repeats / 2) as int),
            repeated(line@, repeats as nat).skip((line@.len() * repeats / 2) as int),
            0,
        ),
{
    let mut circle: Vec<u8> = Vec::new();
    let mut i: usize = 0;
    while i < repeats
        invariant
            i <= repeats,
            line@.len() * repeats <= usize::MAX,
            circle@ == repeated(line@, i as nat),
            circle@.len() == line@.len() * i,
        decreases repeats - i,
    {
        let ghost before = circle@;
        let mut j: usize = 0;
        assert(line@.len() * (i + 1) == line@.len() * i + line@.len()) by (nonlinear_arith);
        assert(line@.len() * (i + 1) <= line@.len() * repeats) by (nonlinear_arith)
            requires
                i + 1 <= repeats,
        ;
        while j < line.len()
            invariant
                j <= line@.len(),
                circle@ == before + line@.take(j as int),
            decreases line@.len() - j,
        {
            circle.push(line[j]);
            assert(circle@ =~= before + line@.take(j + 1));
            j += 1;
        }
        assert(line@.take(line@.len() as int) =~= line@);
        i += 1;
    }
    let half: usize = circle.len() / 2;
    let mut left: Vec<u8> = Vec::new();
    let mut right: Vec<u8> = Vec::new();
    let mut k: usize = 0;
    while k < circle.len()
        invariant
            k <= circle@.len(),
            half == circle@.len() / 2,
            left@ == circle@.take(if k < half {
                k as int
            } else {
                half as int
            }),
            right@ == circle@.subrange(half as int, if k < half {
                half as int
            } else {
                k as int
            }),
        decreases circle@.len() - k,
    {
        if k < half {
            left.push(circle[k]);
            assert(left@ =~= circle@.take(k + 1));
        } else {
            right.push(circle[k]);
            assert(right@ =~= circle@.subrange(half as int, k + 1));
        }
        k += 1;
    }
    assert(right@ =~= circle@.skip(half as int));
    play(left, &right)
}

} // verus!
