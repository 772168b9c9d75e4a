//! Keys for states that are tuples of any length: every component is a
//! digit below its own radix, and the key is the number the digits spell,
//! least significant digit first.

use vstd::prelude::*;
use vstd::arithmetic::div_mod::{lemma_fundamental_div_mod, lemma_fundamental_div_mod_converse};

verus! {

/// Whether every digit is below its radix.
pub open spec fn digits_fit(digits: Seq<usize>, radices: Seq<usize>) -> bool {
    &&& digits.len() == radices.len()
    &&& forall|i: int| 0 <= i < digits.len() ==> (#[trigger] digits[i]) < radices[i]
}

/// The number of tuples: the product of the radices.
pub open spec fn span(radices: Seq<usize>) -> nat
    decreases radices.len(),
{
    if radices.len() == 0 {
        1
    } else {
        (radices[0] as nat) * span(radices.drop_first())
    }
}

/// The key of a tuple of digits.
pub open spec fn packed(digits: Seq<usize>, radices: Seq<usize>) -> nat
    decreases radices.len(),
{
    if radices.len() == 0 || digits.len() != radices.len() {
        0
    } else {
        (digits[0] as nat) + (radices[0] as nat) * packed(
            digits.drop_first(),
            radices.drop_first(),
        )
    }
}

/// The tuple of digits of a key.
pub open spec fn unpacked(key: nat, radices: Seq<usize>) -> Seq<usize>
    decreases radices.len(),
{
    if radices.len() == 0 {
        Seq::empty()
    } else {
        seq![(key % (radices[0] as nat)) as usize] + unpacked(
            key / (radices[0] as nat),
            radices.drop_first(),
        )
    }
}

/// The key of a tuple whose digits fit is below the span.
pub proof fn lemma_packed_in_span(digits: Seq<usize>, radices: Seq<usize>)
    requires
        digits_fit(digits, radices),
    ensures
        packed(digits, radices) < span(radices),
    decreases radices.len(),
{
    if radices.len() > 0 {
        let rest = packed(digits.drop_first(), radices.drop_first());
        let room = span(radices.drop_first());
        assert(digits_fit(digits.drop_first(), radices.drop_first())) by {
            assert forall|i: int| 0 <= i < digits.drop_first().len() implies (
            #[trigger] digits.drop_first()[i]) < radices.drop_first()[i] by {
                assert(digits[i + 1] < radices[i + 1]);
            }
        }
        lemma_packed_in_span(digits.drop_first(), radices.drop_first());
        let d = digits[0] as nat;
        let r = radices[0] as nat;
        assert(d + r * rest < r * room) by (nonlinear_arith)
            requires
                d < r,
                rest < room,
        ;
    }
}

/// Unpacking the key of a tuple gives the tuple back.
pub proof fn lemma_unpack_packed(digits: Seq<usize>, radices: Seq<usize>)
    requires
        digits_fit(digits, radices),
    ensures
        unpacked(packed(digits, radices), radices) == digits,
    decreases radices.len(),
{
    if radices.len() == 0 {
        assert(digits =~= Seq::<usize>::empty());
    } else {
        let rest = packed(digits.drop_first(), radices.drop_first());
        assert(digits_fit(digits.drop_first(), radices.drop_first())) by {
            assert forall|i: int| 0 <= i < digits.drop_first().len() implies (
            #[trigger] digits.drop_first()[i]) < radices.drop_first()[i] by {
                assert(digits[i + 1] < radices[i + 1]);
            }
        }
        lemma_unpack_packed(digits.drop_first(), radices.drop_first());
        let d = digits[0] as int;
        let r = radices[0] as int;
        assert(rest * r == r * rest) by (nonlinear_arith);
        lemma_fundamental_div_mod_converse(d + r * rest, r, rest as int, d);
        assert(unpacked(packed(digits, radices), radices) =~= digits);
    }
}

/// A key below the span unpacks to a tuple whose digits fit, and packing
/// that tuple gives the key back.
pub proof fn lemma_pack_unpacked(key: nat, radices: Seq<usize>)
    requires
        key < span(radices),
    ensures
        digits_fit(unpacked(key, radices), radices),
        packed(unpacked(key, radices), radices) == key,
    decreases radices.len(),
{
    if radices.len() == 0 {
    } else {
        let r = radices[0] as int;
        let room = span(radices.drop_first()) as int;
        assert(r > 0) by (nonlinear_arith)
            requires
                0 <= key < r * room,
                0 <= r,
                0 <= room,
        ;
        lemma_fundamental_div_mod(key as int, r);
        let q = (key as int) / r;
        let d = (key as int) % r;
        assert(q < room) by (nonlinear_arith)
            requires
                key == r * q + d,
                0 <= d < r,
                key < r * room,
        ;
        assert(0 <= q) by (nonlinear_arith)
            requires
                key == r * q + d,
                0 <= d < r,
                0 <= key,
        ;
        lemma_pack_unpacked(q as nat, radices.drop_first());
        let tail = unpacked(q as nat, radices.drop_first());
        let all = unpacked(key, radices);
        assert(all.drop_first() =~= tail);
        assert(all.len() == radices.len());
        assert forall|i: int| 0 <= i < all.len() implies (#[trigger] all[i]) < radices[i] by {
            if i > 0 {
                assert(tail[i - 1] < radices.drop_first()[i - 1]);
            }
        }
    }
}

/// The span of the radices from a place on takes the radix at the place as
/// a factor.
pub proof fn lemma_span_unfold(radices: Seq<usize>, from: int)
    requires
        0 <= from < radices.len(),
    ensures
        span(radices.subrange(from, radices.len() as int)) == (radices[from] as nat) * span(
            radices.subrange(from + 1, radices.len() as int),
        ),
{
    let here = radices.subrange(from, radices.len() as int);
    assert(here.drop_first() =~= radices.subrange(from + 1, radices.len() as int));
}

/// Whether every radix is at least 1.
pub open spec fn radices_ok(radices: Seq<usize>) -> bool {
    forall|i: int| 0 <= i < radices.len() ==> (#[trigger] radices[i]) >= 1
}

/// With radices of at least 1, the span from a place on is at least 1 and
/// at most the span from any earlier place on.
pub proof fn lemma_span_grows(radices: Seq<usize>, i: int, k: int)
    requires
        radices_ok(radices),
        0 <= i <= k <= radices.len(),
    ensures
        1 <= span(radices.subrange(k, radices.len() as int)) <= span(
            radices.subrange(i, radices.len() as int),
        ),
    decreases radices.len() - i,
{
    let len = radices.len() as int;
    if k == len {
        assert(radices.subrange(k, len) =~= Seq::<usize>::empty());
    }
    if i < k {
        lemma_span_grows(radices, i + 1, k);
        lemma_span_unfold(radices, i);
        let r = radices[i] as nat;
        let tail = span(radices.subrange(i + 1, len));
        assert(r * tail >= tail) by (nonlinear_arith)
            requires
                r >= 1,
        ;
    } else if k < len {
        lemma_span_grows(radices, k + 1, k + 1);
        lemma_span_unfold(radices, k);
        let r = radices[k] as nat;
        let tail = span(radices.subrange(k + 1, len));
        assert(r * tail >= 1) by (nonlinear_arith)
            requires
                r >= 1,
                tail >= 1,
        ;
    }
}

/// The number of tuples, or `None` when it does not fit in a `usize`.
pub fn span_of(radices: &Vec<usize>) -> (r: Option<usize>)
    requires
        radices_ok(radices@),
    ensures
        r.is_some() <==> span(radices@) <= usize::MAX,
        r matches Some(n) ==> n == span(radices@),
{
    let len: usize = radices.len();
    let mut acc: usize = 1;
    let mut i: usize = len;
    proof {
        assert(radices@.subrange(len as int, len as int) =~= Seq::<usize>::empty());
    }
    while i > 0
        invariant
            i <= len,
            len == radices@.len(),
            radices_ok(radices@),
            acc == span(radices@.subrange(i as int, len as int)),
        decreases i,
    {
        i -= 1;
        proof {
            lemma_span_unfold(radices@, i as int);
            assert((radices@[i as int] as nat) * (acc as nat) == acc * radices@[i as int])
                by (nonlinear_arith);
        }
        match acc.checked_mul(radices[i]) {
            Some(next) => {
                acc = next;
            },
            None => {
                proof {
                    lemma_span_grows(radices@, 0, i as int);
                    assert(radices@.subrange(0, len as int) =~= radices@);
                }
                return None;
            },
        }
    }
    proof {
        assert(radices@.subrange(0, len as int) =~= radices@);
    }
    Some(acc)
}

/// Packs a tuple of digits into its key.
pub fn pack(digits: &Vec<usize>, radices: &Vec<usize>) -> (key: usize)
    requires
        digits_fit(digits@, radices@),
        span(radices@) <= usize::MAX,
    ensures
        key == packed(digits@, radices@),
        key < span(radices@),
{
    let len: usize = radices.len();
    let mut acc: usize = 0;
    let mut i: usize = len;
    proof {
        assert(radices@.subrange(len as int, len as int) =~= Seq::<usize>::empty());
        assert(radices@.subrange(0, len as int) =~= radices@);
        assert(digits@.subrange(0, len as int) =~= digits@);
    }
    while i > 0
        invariant
            i <= len,
            len == radices@.len(),
            digits_fit(digits@, radices@),
            span(radices@) <= usize::MAX,
            acc == packed(
                digits@.subrange(i as int, len as int),
                radices@.subrange(i as int, len as int),
            ),
        decreases i,
    {
        i -= 1;
        proof {
            let ds = digits@.subrange(i as int, len as int);
            let rs = radices@.subrange(i as int, len as int);
            assert(ds.drop_first() =~= digits@.subrange(i as int + 1, len as int));
            assert(rs.drop_first() =~= radices@.subrange(i as int + 1, len as int));
            assert(digits_fit(ds, rs));
            lemma_packed_in_span(ds, rs);
            lemma_span_within(radices@, i as int);
            let r = radices@[i as int] as nat;
            let a = acc as nat;
            assert(rs[0] == radices@[i as int]);
            assert(r * a == a * r) by (nonlinear_arith);
        }
        acc = acc * radices[i] + digits[i];
    }
    proof {
        lemma_packed_in_span(digits@, radices@);
    }
    acc
}

/// Unpacks a key into its tuple of digits.
pub fn unpack(key: usize, radices: &Vec<usize>) -> (digits: Vec<usize>)
    requires
        key < span(radices@),
    ensures
        digits@ == unpacked(key as nat, radices@),
        digits_fit(digits@, radices@),
        packed(digits@, radices@) == key,
{
    let len: usize = radices.len();
    let mut out: Vec<usize> = Vec::new();
    let mut rest: usize = key;
    let mut i: usize = 0;
    proof {
        assert(radices@.subrange(0, len as int) =~= radices@);
    }
    while i < len
        invariant
            i <= len,
            len == radices@.len(),
            rest < span(radices@.subrange(i as int, len as int)),
            out@ + unpacked(rest as nat, radices@.subrange(i as int, len as int)) == unpacked(
                key as nat,
                radices@,
            ),
        decreases len - i,
    {
        let ghost rs = radices@.subrange(i as int, len as int);
        proof {
            lemma_span_unfold(radices@, i as int);
            assert(rs.drop_first() =~= radices@.subrange(i as int + 1, len as int));
            let r = radices@[i as int] as int;
            let room = span(rs.drop_first()) as int;
            assert(r > 0) by (nonlinear_arith)
                requires
                    0 <= rest < r * room,
                    0 <= r,
                    0 <= room,
            ;
            lemma_fundamental_div_mod(rest as int, r);
            assert((rest as int) / r < room) by (nonlinear_arith)
                requires
                    rest == r * ((rest as int) / r) + (rest as int) % r,
                    0 <= (rest as int) % r < r,
                    rest < r * room,
            ;
        }
        let r: usize = radices[i];
        let ghost before = out@;
        out.push(rest % r);
        proof {
            assert(out@ + unpacked((rest / r) as nat, rs.drop_first()) =~= before + unpacked(
                rest as nat,
                rs,
            ));
        }
        rest = rest / r;
        i += 1;
    }
    proof {
        assert(radices@.subrange(len as int, len as int) =~= Seq::<usize>::empty());
        assert(out@ =~= out@ + Seq::<usize>::empty());
        lemma_pack_unpacked(key as nat, radices@);
    }
    out
}

/// Where some tuple has digits that fit, no radix is zero, and so the span
/// of the radices from a place on is at most the span of all.
pub proof fn lemma_span_within(radices: Seq<usize>, from: int)
    requires
        0 <= from < radices.len(),
        exists|digits: Seq<usize>| digits_fit(digits, radices),
    ensures
        span(radices.subrange(from, radices.len() as int)) <= span(radices),
{
    let digits = choose|digits: Seq<usize>| digits_fit(digits, radices);
    assert(radices_ok(radices)) by {
        assert forall|i: int| 0 <= i < radices.len() implies (#[trigger] radices[i]) >= 1 by {
            assert(digits[i] < radices[i]);
        }
    }
    lemma_span_grows(radices, 0, from);
    assert(radices.subrange(0, radices.len() as int) =~= radices);
}

} // verus!
