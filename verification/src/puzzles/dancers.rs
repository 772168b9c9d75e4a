//! Columns of dancers: in every round the first dancer of one column
//! walks along the next column, down one side and up the other, for as
//! many places as the number it carries, and joins the column there.

use vstd::prelude::*;

verus! {

/// Where a dancer stands after `steps` steps along a column of `len`
/// dancers, and whether it is walking down: it begins before the first
/// dancer walking down and turns at either end.
pub open spec fn walked(len: int, steps: nat) -> (int, bool)
    decreases steps,
{
    if steps == 0 {
        (0, true)
    } else {
        let before = walked(len, (steps - 1) as nat);
        let at = if before.1 {
            before.0 + 1
        } else {
            before.0 - 1
        };
        if at == 0 || at == len {
            (at, !before.1)
        } else {
            (at, before.1)
        }
    }
}

/// A dancer stays between the ends of a column that is not empty.
pub proof fn lemma_walked_in_range(len: int, steps: nat)
    requires
        len >= 1,
    ensures
        0 <= walked(len, steps).0 <= len,
        walked(len, steps).0 == 0 ==> walked(len, steps).1,
        walked(len, steps).0 == len ==> !walked(len, steps).1,
    decreases steps,
{
    if steps > 0 {
        lemma_walked_in_range(len, (steps - 1) as nat);
    }
}

/// The columns after the round `round`: the first dancer of the column
/// `round % n` leaves it and joins the next column where its number of
/// steps, less one, takes it.
pub open spec fn danced(cols: Seq<Seq<u64>>, round: int) -> Seq<Seq<u64>> {
    let n = cols.len() as int;
    let from = round % n;
    let to = (round + 1) % n;
    let clapper = cols[from][0];
    let left = cols.update(from, cols[from].remove(0));
    let at = walked(left[to].len() as int, (clapper - 1) as nat).0;
    left.update(to, left[to].insert(at, clapper))
}

/// The columns as sequences.
pub open spec fn columns(cols: Seq<Vec<u64>>) -> Seq<Seq<u64>> {
    Seq::new(cols.len(), |i: int| cols[i]@)
}

/// Lets the dancers dance the round `round`.
pub fn dance(cols: &mut Vec<Vec<u64>>, round: usize)
    requires
        old(cols)@.len() >= 1,
        round < usize::MAX,
        old(cols)@[round as int % old(cols)@.len() as int]@.len() >= 1,
        old(cols)@[round as int % old(cols)@.len() as int]@[0] >= 1,
        old(cols)@[round as int % old(cols)@.len() as int]@[0] == 1 || danced_from(
            columns(old(cols)@),
            round as int,
        ).len() >= 1,
    ensures
        columns(final(cols)@) == danced(columns(old(cols)@), round as int),
{
    let n: usize = cols.len();
    let from: usize = round % n;
    let to: usize = (round + 1) % n;
    let clapper: u64 = cols[from].remove(0);
    let ghost left = columns(cols@);
    assert(left =~= columns(old(cols)@).update(from as int, columns(old(cols)@)[from as int].remove(0)));
    let len: usize = cols[to].len();
    let mut i: usize = 0;
    let mut down: bool = true;
    let mut k: u64 = 0;
    while k < clapper - 1
        invariant
            k <= clapper - 1,
            clapper >= 1,
            len >= 1 || clapper == 1,
            i == walked(len as int, k as nat).0,
            down == walked(len as int, k as nat).1,
            0 <= i <= len,
        decreases clapper - 1 - k,
    {
        proof {
            lemma_walked_in_range(len as int, k as nat);
            lemma_walked_in_range(len as int, (k + 1) as nat);
        }
        if down {
            i += 1;
        } else {
            i -= 1;
        }
        if i == 0 || i == len {
            down = !down;
        }
        k += 1;
    }
    cols[to].insert(i, clapper);
    assert(columns(cols@) =~= danced(columns(old(cols)@), round as int));
}

/// The column that the dancer of the round `round` joins, as it is when
/// the dancer has left its own.
pub open spec fn danced_from(cols: Seq<Seq<u64>>, round: int) -> Seq<u64> {
    let n = cols.len() as int;
    let from = round % n;
    let to = (round + 1) % n;
    cols.update(from, cols[from].remove(0))[to]
}

/// The number of decimal digits of `v`.
pub open spec fn digits(v: nat) -> nat
    decreases v,
{
    if v < 10 {
        1
    } else {
        1 + digits(v / 10)
    }
}

/// Ten to the power `k`.
pub open spec fn ten_to(k: nat) -> nat
    decreases k,
{
    if k == 0 {
        1
    } else {
        10 * ten_to((k - 1) as nat)
    }
}

/// The number that is written by the numbers of the first dancers of the
/// first `k` columns, one behind the other.
pub open spec fn shouted(cols: Seq<Seq<u64>>, k: nat) -> nat
    decreases k,
{
    if k == 0 || k > cols.len() {
        0
    } else {
        shouted(cols, (k - 1) as nat) * ten_to(digits(cols[k - 1][0] as nat)) + cols[k - 1][0] as nat
    }
}

/// Ten to the number of digits of `v`, or `None` when it does not fit.
pub fn shift_for(v: u64) -> (r: Option<u64>)
    ensures
        r.is_some() <==> ten_to(digits(v as nat)) <= u64::MAX,
        r matches Some(p) ==> p == ten_to(digits(v as nat)),
{
    let mut rest: u64 = v;
    let mut power: u64 = 10;
    while rest >= 10
        invariant
            power * ten_to(digits(rest as nat)) == 10 * ten_to(digits(v as nat)),
            power >= 10,
        decreases rest,
    {
        assert(ten_to(digits(rest as nat)) == 10 * ten_to(digits((rest / 10) as nat)));
        match power.checked_mul(10) {
            Some(p) => {
                assert(p * ten_to(digits((rest / 10) as nat)) == power * (10 * ten_to(
                    digits((rest / 10) as nat),
                ))) by (nonlinear_arith)
                    requires
                        p == power * 10,
                ;
                power = p;
            },
            None => {
                proof {
                    let t = ten_to(digits((rest / 10) as nat));
                    let whole = ten_to(digits(v as nat));
                    lemma_ten_to_positive((digits((rest / 10) as nat) - 1) as nat);
                    assert(whole >= power * 10) by (nonlinear_arith)
                        requires
                            t >= 10,
                            power >= 0,
                            power * (10 * t) == 10 * whole,
                    ;
                }
                return None;
            },
        }
        rest = rest / 10;
    }
    assert(ten_to(digits(rest as nat)) == 10) by {
        reveal_with_fuel(ten_to, 2);
    }
    Some(power)
}

/// Powers of ten are positive.
pub proof fn lemma_ten_to_positive(k: nat)
    ensures
        ten_to(k) >= 1,
    decreases k,
{
    if k > 0 {
        lemma_ten_to_positive((k - 1) as nat);
    }
}

/// The number written by `total` with `v` behind it.
pub open spec fn written_behind(total: nat, v: nat) -> nat {
    total * ten_to(digits(v)) + v
}

/// Writes `v` behind `total`, or returns `None` when the number does not
/// fit in a `u64`.
pub fn appended(total: u64, v: u64) -> (r: Option<u64>)
    ensures
        r.is_some() <==> written_behind(total as nat, v as nat) <= u64::MAX,
        r matches Some(w) ==> w == written_behind(total as nat, v as nat),
{
    let ghost shift = ten_to(digits(v as nat));
    proof {
        lemma_ten_to_positive(digits(v as nat));
    }
    if total == 0 {
        assert(total * shift == 0) by (nonlinear_arith)
            requires
                total == 0,
        ;
        Some(v)
    } else {
        match shift_for(v) {
            Some(p) => match total.checked_mul(p) {
                Some(moved) => moved.checked_add(v),
                None => None,
            },
            None => {
                assert(total * shift >= shift) by (nonlinear_arith)
                    requires
                        total >= 1,
                        shift >= 0,
                ;
                None
            },
        }
    }
}

/// Writing one more number behind never makes the number smaller.
pub proof fn lemma_shouted_grows(cols: Seq<Seq<u64>>, k: nat, n: nat)
    requires
        k <= n <= cols.len(),
    ensures
        shouted(cols, k) <= shouted(cols, n),
    decreases n,
{
    if k < n {
        lemma_shouted_grows(cols, k, (n - 1) as nat);
        let before = shouted(cols, (n - 1) as nat);
        let shift = ten_to(digits(cols[n - 1][0] as nat));
        lemma_ten_to_positive(digits(cols[n - 1][0] as nat));
        assert(before * shift >= before) by (nonlinear_arith)
            requires
                shift >= 1,
                before >= 0,
        ;
    }
}

/// The number that is written by the numbers of the first dancers of all
/// columns, one behind the other, or `None` when it does not fit in a
/// `u64`.
pub fn call(cols: &Vec<Vec<u64>>) -> (r: Option<u64>)
    requires
        cols@.len() >= 1,
        forall|i: int| 0 <= i < cols@.len() ==> (#[trigger] cols@[i])@.len() >= 1,
    ensures
        r.is_some() <==> shouted(columns(cols@), cols@.len()) <= u64::MAX,
        r matches Some(v) ==> v == shouted(columns(cols@), cols@.len()),
{
    let mut total: u64 = 0;
    let mut i: usize = 0;
    while i < cols.len()
        invariant
            i <= cols@.len(),
            forall|j: int| 0 <= j < cols@.len() ==> (#[trigger] cols@[j])@.len() >= 1,
            total == shouted(columns(cols@), i as nat),
        decreases cols@.len() - i,
    {
        let first: u64 = cols[i][0];
        proof {
            assert(columns(cols@)[i as int][0] == first);
            assert(shouted(columns(cols@), (i + 1) as nat) == written_behind(
                total as nat,
                first as nat,
            ));
            lemma_shouted_grows(columns(cols@), (i + 1) as nat, cols@.len());
        }
        let next: Option<u64> = appended(total, first);
        match next {
            Some(v) => {
                total = v;
            },
            None => {
                return None;
            },
        }
        i += 1;
    }
    Some(total)
}

} // verus!
