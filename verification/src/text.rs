//! Reading a text as bytes: its pieces between separators, its lines, the
//! numbers written in it, and the grid that its lines draw.

use crate::grid::Grid;
use vstd::prelude::*;

verus! {

/// The place of the first `sep` in `s`, or the length of `s` where it
/// holds none.
pub open spec fn first_at(s: Seq<u8>, sep: u8) -> int
    decreases s.len(),
{
    if s.len() == 0 || s[0] == sep {
        0
    } else {
        1 + first_at(s.skip(1), sep)
    }
}

/// `first_at` is a place in `s` or its length, no `sep` stands before it,
/// and one stands at it unless it is the length.
pub proof fn lemma_first_at(s: Seq<u8>, sep: u8)
    ensures
        0 <= first_at(s, sep) <= s.len(),
        forall|i: int| 0 <= i < first_at(s, sep) ==> s[i] != sep,
        first_at(s, sep) < s.len() ==> s[first_at(s, sep)] == sep,
    decreases s.len(),
{
    if s.len() == 0 || s[0] == sep {
    } else {
        lemma_first_at(s.skip(1), sep);
        assert forall|i: int| 0 <= i < first_at(s, sep) implies s[i] != sep by {
            if i > 0 {
                assert(s[i] == s.skip(1)[i - 1]);
            }
        }
        if first_at(s, sep) < s.len() {
            assert(s[first_at(s, sep)] == s.skip(1)[first_at(s, sep) - 1]);
        }
    }
}

/// The place `i` is `first_at` where no `sep` stands before it and one
/// stands at it, or the text ends there.
pub proof fn lemma_first_at_is(s: Seq<u8>, sep: u8, i: int)
    requires
        0 <= i <= s.len(),
        forall|j: int| 0 <= j < i ==> s[j] != sep,
        i == s.len() || s[i] == sep,
    ensures
        first_at(s, sep) == i,
{
    lemma_first_at(s, sep);
}

/// The pieces of `s` between its separators `sep`, in order. A text
/// without a separator is one piece; two separators side by side have an
/// empty piece between them.
pub open spec fn pieces(s: Seq<u8>, sep: u8) -> Seq<Seq<u8>>
    decreases s.len(),
{
    let i = first_at(s, sep);
    if i < 0 || i >= s.len() {
        seq![s]
    } else {
        seq![s.take(i)] + pieces(s.skip(i + 1), sep)
    }
}

/// The pieces joined again, with `sep` between them.
pub open spec fn joined(parts: Seq<Seq<u8>>, sep: u8) -> Seq<u8>
    decreases parts.len(),
{
    if parts.len() == 0 {
        Seq::empty()
    } else if parts.len() == 1 {
        parts[0]
    } else {
        parts[0] + seq![sep] + joined(parts.skip(1), sep)
    }
}

/// Splitting loses nothing: there is at least one piece, no piece holds
/// the separator, and the pieces joined by it give the text back.
pub proof fn lemma_pieces(s: Seq<u8>, sep: u8)
    ensures
        pieces(s, sep).len() >= 1,
        forall|k: int, j: int|
            0 <= k < pieces(s, sep).len() && 0 <= j < pieces(s, sep)[k].len() ==> pieces(
                s,
                sep,
            )[k][j] != sep,
        joined(pieces(s, sep), sep) == s,
    decreases s.len(),
{
    lemma_first_at(s, sep);
    let i = first_at(s, sep);
    if i >= s.len() {
        assert(pieces(s, sep) =~= seq![s]);
    } else {
        let rest = pieces(s.skip(i + 1), sep);
        let all = pieces(s, sep);
        lemma_pieces(s.skip(i + 1), sep);
        assert(all =~= seq![s.take(i)] + rest);
        assert(all.skip(1) =~= rest);
        assert(joined(all, sep) == all[0] + seq![sep] + joined(all.skip(1), sep));
        assert(s.take(i) + seq![sep] + s.skip(i + 1) =~= s);
        assert forall|k: int, j: int| 0 <= k < all.len() && 0 <= j < all[k].len() implies all[k][j]
            != sep by {
            if k > 0 {
                assert(all[k] == rest[k - 1]);
            }
        }
    }
}

/// The byte sequences that the vectors of `v` hold.
pub open spec fn views(v: Seq<Vec<u8>>) -> Seq<Seq<u8>> {
    Seq::new(v.len(), |i: int| v[i]@)
}

/// Splits `s` at every `sep`.
pub fn split(s: &Vec<u8>, sep: u8) -> (r: Vec<Vec<u8>>)
    ensures
        views(r@) == pieces(s@, sep),
{
    let mut out: Vec<Vec<u8>> = Vec::new();
    let mut cur: Vec<u8> = Vec::new();
    let mut i: usize = 0;
    let ghost mut start: int = 0;
    proof {
        assert(s@.skip(0) =~= s@);
        assert(views(out@) + pieces(s@.skip(0), sep) =~= pieces(s@, sep));
    }
    while i < s.len()
        invariant
            0 <= start <= i <= s@.len(),
            cur@ == s@.subrange(start, i as int),
            forall|j: int| start <= j < i ==> s@[j] != sep,
            views(out@) + pieces(s@.skip(start), sep) == pieces(s@, sep),
        decreases s@.len() - i,
    {
        if s[i] == sep {
            proof {
                let tail = s@.skip(start);
                lemma_first_at_is(tail, sep, i - start);
                assert(tail.take(i - start) =~= cur@);
                assert(tail.skip(i - start + 1) =~= s@.skip(i + 1));
                assert(pieces(tail, sep) == seq![cur@] + pieces(s@.skip(i + 1), sep));
                assert(views(out@.push(cur)) =~= views(out@) + seq![cur@]);
                assert((views(out@) + seq![cur@]) + pieces(s@.skip(i + 1), sep) =~= views(out@) + (
                seq![cur@] + pieces(s@.skip(i + 1), sep)));
            }
            out.push(cur);
            cur = Vec::new();
            proof {
                start = i + 1;
                assert(cur@ =~= s@.subrange(start, i + 1));
            }
        } else {
            cur.push(s[i]);
            assert(cur@ =~= s@.subrange(start, i + 1));
        }
        i += 1;
    }
    proof {
        let tail = s@.skip(start);
        lemma_first_at_is(tail, sep, tail.len() as int);
        assert(tail =~= cur@);
        assert(pieces(tail, sep) == seq![cur@]);
        assert(views(out@.push(cur)) =~= views(out@) + seq![cur@]);
    }
    out.push(cur);
    out
}

/// The bytes of `s` from `from` up to `to`.
pub fn copy_range(s: &Vec<u8>, from: usize, to: usize) -> (r: Vec<u8>)
    requires
        from <= to <= s@.len(),
    ensures
        r@ == s@.subrange(from as int, to as int),
{
    let mut out: Vec<u8> = Vec::new();
    let mut i: usize = from;
    while i < to
        invariant
            from <= i <= to <= s@.len(),
            out@ == s@.subrange(from as int, i as int),
        decreases to - i,
    {
        out.push(s[i]);
        assert(out@ =~= s@.subrange(from as int, i + 1));
        i += 1;
    }
    out
}

/// `s` without one carriage return at its end.
pub open spec fn without_return(s: Seq<u8>) -> Seq<u8> {
    if s.len() > 0 && s.last() == 13 {
        s.drop_last()
    } else {
        s
    }
}

/// The lines of `s`: its pieces between line feeds, each without the
/// carriage return before its line feed. What follows the last line feed
/// is a line only if it is not empty.
pub open spec fn lines_of(s: Seq<u8>) -> Seq<Seq<u8>> {
    let p = pieces(s, 10);
    let n = if p.last().len() == 0 {
        p.len() - 1
    } else {
        p.len() as int
    };
    Seq::new(
        n as nat,
        |i: int|
            if i < p.len() - 1 {
                without_return(p[i])
            } else {
                p[i]
            },
    )
}

/// The lines of `s`.
pub fn lines(s: &Vec<u8>) -> (r: Vec<Vec<u8>>)
    ensures
        views(r@) == lines_of(s@),
{
    let parts: Vec<Vec<u8>> = split(s, 10);
    proof {
        lemma_pieces(s@, 10);
        assert(views(parts@).len() == parts@.len());
    }
    let ghost p = pieces(s@, 10);
    let last: usize = parts.len() - 1;
    assert(views(parts@)[last as int] == parts@[last as int]@);
    let n: usize = if parts[last].len() == 0 {
        last
    } else {
        parts.len()
    };
    let mut out: Vec<Vec<u8>> = Vec::new();
    let mut i: usize = 0;
    while i < n
        invariant
            i <= n <= parts@.len(),
            last + 1 == parts@.len(),
            views(parts@) == p,
            out@.len() == i,
            forall|k: int|
                0 <= k < i ==> (#[trigger] out@[k])@ == if k < p.len() - 1 {
                    without_return(p[k])
                } else {
                    p[k]
                },
        decreases n - i,
    {
        let piece: &Vec<u8> = &parts[i];
        assert(views(parts@)[i as int] == piece@);
        let len: usize = piece.len();
        let line: Vec<u8> = if i < last && len > 0 && piece[len - 1] == 13 {
            copy_range(piece, 0, len - 1)
        } else {
            copy_range(piece, 0, len)
        };
        assert(piece@.subrange(0, len as int) =~= piece@);
        assert(piece@.subrange(0, len - 1) =~= piece@.drop_last());
        out.push(line);
        i += 1;
    }
    assert(views(out@) =~= lines_of(s@));
    out
}

/// Whether `b` is a blank: a space, a tab, a line feed, a vertical tab, a
/// form feed or a carriage return.
pub open spec fn is_blank(b: u8) -> bool {
    b == 32 || (9 <= b && b <= 13)
}

/// Decides `is_blank`.
pub fn blank(b: u8) -> (r: bool)
    ensures
        r == is_blank(b),
{
    b == 32 || (9 <= b && b <= 13)
}

/// The number of blanks at the start of `s`.
pub open spec fn lead(s: Seq<u8>) -> int
    decreases s.len(),
{
    if s.len() == 0 || !is_blank(s[0]) {
        0
    } else {
        1 + lead(s.skip(1))
    }
}

/// The number of blanks at the end of `s`.
pub open spec fn trail(s: Seq<u8>) -> int
    decreases s.len(),
{
    if s.len() == 0 || !is_blank(s.last()) {
        0
    } else {
        1 + trail(s.drop_last())
    }
}

/// `s` without the blanks at its start and at its end.
pub open spec fn trimmed(s: Seq<u8>) -> Seq<u8> {
    if lead(s) >= s.len() {
        Seq::empty()
    } else {
        s.subrange(lead(s), s.len() - trail(s))
    }
}

/// The first `i` bytes are blanks and the next is none, or the text ends:
/// then `i` is `lead`.
pub proof fn lemma_lead_is(s: Seq<u8>, i: int)
    requires
        0 <= i <= s.len(),
        forall|j: int| 0 <= j < i ==> is_blank(s[j]),
        i == s.len() || !is_blank(s[i]),
    ensures
        lead(s) == i,
    decreases s.len(),
{
    if i > 0 {
        let rest = s.skip(1);
        assert forall|j: int| 0 <= j < i - 1 implies is_blank(rest[j]) by {
            assert(rest[j] == s[j + 1]);
        }
        lemma_lead_is(rest, i - 1);
    }
}

/// The last `i` bytes are blanks and the one before them is none, or the
/// text begins there: then `i` is `trail`.
pub proof fn lemma_trail_is(s: Seq<u8>, i: int)
    requires
        0 <= i <= s.len(),
        forall|j: int| s.len() - i <= j < s.len() ==> is_blank(s[j]),
        i == s.len() || !is_blank(s[s.len() - i - 1]),
    ensures
        trail(s) == i,
    decreases s.len(),
{
    if i > 0 {
        let rest = s.drop_last();
        assert forall|j: int| rest.len() - (i - 1) <= j < rest.len() implies is_blank(rest[j]) by {
            assert(rest[j] == s[j]);
        }
        lemma_trail_is(rest, i - 1);
    }
}

/// `s` without the blanks at its start and at its end.
pub fn trim(s: &Vec<u8>) -> (r: Vec<u8>)
    ensures
        r@ == trimmed(s@),
{
    let mut from: usize = 0;
    while from < s.len() && blank(s[from])
        invariant
            from <= s@.len(),
            forall|j: int| 0 <= j < from ==> is_blank(s@[j]),
        decreases s@.len() - from,
    {
        from += 1;
    }
    proof {
        lemma_lead_is(s@, from as int);
    }
    if from == s.len() {
        let none: Vec<u8> = Vec::new();
        assert(none@ =~= Seq::<u8>::empty());
        return none;
    }
    let mut to: usize = s.len();
    while to > from + 1 && blank(s[to - 1])
        invariant
            from < to <= s@.len(),
            !is_blank(s@[from as int]),
            forall|j: int| to <= j < s@.len() ==> is_blank(s@[j]),
        decreases to,
    {
        to -= 1;
    }
    proof {
        lemma_trail_is(s@, s@.len() - to);
    }
    copy_range(s, from, to)
}

/// Whether `b` is a decimal digit.
pub open spec fn is_digit(b: u8) -> bool {
    48 <= b && b <= 57
}

/// Whether `s` holds decimal digits only, and at least one.
pub open spec fn all_digits(s: Seq<u8>) -> bool {
    s.len() >= 1 && forall|i: int| 0 <= i < s.len() ==> is_digit(#[trigger] s[i])
}

/// The number that the digits `s` write in base ten.
pub open spec fn decimal(s: Seq<u8>) -> nat
    decreases s.len(),
{
    if s.len() == 0 {
        0
    } else {
        decimal(s.drop_last()) * 10 + (s.last() - 48) as nat
    }
}

/// A longer row of digits writes no smaller number than its start.
pub proof fn lemma_decimal_grows(s: Seq<u8>, k: int)
    requires
        0 <= k <= s.len(),
        forall|i: int| 0 <= i < s.len() ==> is_digit(#[trigger] s[i]),
    ensures
        decimal(s.take(k)) <= decimal(s),
    decreases s.len() - k,
{
    if k == s.len() {
        assert(s.take(k) =~= s);
    } else {
        lemma_decimal_grows(s, k + 1);
        assert(s.take(k + 1).drop_last() =~= s.take(k));
    }
}

/// The number that the digits of `s` from `from` on write, or `None`
/// where there is no digit, another byte, or the number does not fit.
pub fn digits_value(s: &Vec<u8>, from: usize) -> (r: Option<u64>)
    requires
        from <= s@.len(),
    ensures
        r.is_some() <==> all_digits(s@.skip(from as int)) && decimal(s@.skip(from as int))
            <= u64::MAX,
        r matches Some(v) ==> v == decimal(s@.skip(from as int)),
{
    let ghost d = s@.skip(from as int);
    if from == s.len() {
        return None;
    }
    let mut total: u64 = 0;
    let mut i: usize = from;
    assert(d.take(0) =~= Seq::<u8>::empty());
    while i < s.len()
        invariant
            from <= i <= s@.len(),
            d == s@.skip(from as int),
            forall|j: int| 0 <= j < i - from ==> is_digit(#[trigger] d[j]),
            total == decimal(d.take(i - from)),
        decreases s@.len() - i,
    {
        let b: u8 = s[i];
        assert(d[i - from] == b);
        if b < 48 || b > 57 {
            return None;
        }
        assert(d.take(i - from + 1).drop_last() =~= d.take(i - from));
        let next: Option<u64> = match total.checked_mul(10) {
            Some(t) => t.checked_add((b - 48) as u64),
            None => None,
        };
        match next {
            Some(t) => {
                total = t;
            },
            None => {
                proof {
                    let upto = i - from + 1;
                    assert(decimal(d.take(upto)) > u64::MAX);
                    if all_digits(d) {
                        lemma_decimal_grows(d, upto);
                    }
                }
                return None;
            },
        }
        i += 1;
    }
    assert(d.take(i - from) =~= d);
    Some(total)
}

/// The digits of an unsigned number: `s` without a plus sign at its start.
pub open spec fn unsigned_digits(s: Seq<u8>) -> Seq<u8> {
    if s.len() > 0 && s[0] == 43 {
        s.skip(1)
    } else {
        s
    }
}

/// The number that `s` writes, with or without a plus sign before its
/// digits, or `None` where `s` is no such text or the number does not fit.
pub open spec fn unsigned_of(s: Seq<u8>) -> Option<u64> {
    let d = unsigned_digits(s);
    if all_digits(d) && decimal(d) <= u64::MAX {
        Some(decimal(d) as u64)
    } else {
        None
    }
}

/// Reads an unsigned number.
pub fn parse_u64(s: &Vec<u8>) -> (r: Option<u64>)
    ensures
        r == unsigned_of(s@),
{
    let from: usize = if s.len() > 0 && s[0] == 43 {
        1
    } else {
        0
    };
    assert(s@.skip(0) =~= s@);
    digits_value(s, from)
}

/// The digits of a signed number: `s` without a sign at its start.
pub open spec fn signed_digits(s: Seq<u8>) -> Seq<u8> {
    if s.len() > 0 && (s[0] == 43 || s[0] == 45) {
        s.skip(1)
    } else {
        s
    }
}

/// The number that `s` writes, with or without a sign before its digits,
/// or `None` where `s` is no such text or the number does not fit.
pub open spec fn signed_of(s: Seq<u8>) -> Option<i64> {
    let d = signed_digits(s);
    let value = if s.len() > 0 && s[0] == 45 {
        -decimal(d)
    } else {
        decimal(d) as int
    };
    if all_digits(d) && i64::MIN <= value <= i64::MAX {
        Some(value as i64)
    } else {
        None
    }
}

/// Reads a signed number.
pub fn parse_i64(s: &Vec<u8>) -> (r: Option<i64>)
    ensures
        r == signed_of(s@),
{
    let minus: bool = s.len() > 0 && s[0] == 45;
    let from: usize = if s.len() > 0 && (s[0] == 43 || s[0] == 45) {
        1
    } else {
        0
    };
    assert(s@.skip(0) =~= s@);
    match digits_value(s, from) {
        None => None,
        Some(size) => {
            if minus {
                if size <= 9223372036854775807 {
                    Some(-(size as i64))
                } else if size == 9223372036854775808 {
                    Some(i64::MIN)
                } else {
                    None
                }
            } else if size <= 9223372036854775807 {
                Some(size as i64)
            } else {
                None
            }
        },
    }
}

/// The numbers that the pieces of `s` between the separators `sep` write,
/// blanks round the text and round each piece aside.
pub open spec fn numbers_of(s: Seq<u8>, sep: u8) -> Seq<Option<u64>> {
    let p = pieces(trimmed(s), sep);
    Seq::new(p.len(), |k: int| unsigned_of(trimmed(p[k])))
}

/// Reads the numbers of a list, or `None` where a piece writes none.
pub fn numbers(s: &Vec<u8>, sep: u8) -> (r: Option<Vec<u64>>)
    ensures
        r.is_some() <==> forall|k: int|
            0 <= k < numbers_of(s@, sep).len() ==> (#[trigger] numbers_of(s@, sep)[k]).is_some(),
        r matches Some(v) ==> v@.len() == numbers_of(s@, sep).len() && forall|k: int|
            0 <= k < v@.len() ==> Some(#[trigger] v@[k]) == numbers_of(s@, sep)[k],
{
    let inner: Vec<u8> = trim(s);
    let parts: Vec<Vec<u8>> = split(&inner, sep);
    let ghost p = pieces(trimmed(s@), sep);
    assert(views(parts@).len() == parts@.len());
    let mut out: Vec<u64> = Vec::new();
    let mut i: usize = 0;
    while i < parts.len()
        invariant
            i <= parts@.len(),
            views(parts@) == p,
            p == pieces(trimmed(s@), sep),
            numbers_of(s@, sep).len() == parts@.len(),
            out@.len() == i,
            forall|k: int| 0 <= k < i ==> Some(#[trigger] out@[k]) == numbers_of(s@, sep)[k],
        decreases parts@.len() - i,
    {
        assert(views(parts@)[i as int] == parts@[i as int]@);
        let piece: Vec<u8> = trim(&parts[i]);
        match parse_u64(&piece) {
            Some(v) => {
                out.push(v);
            },
            None => {
                assert(numbers_of(s@, sep)[i as int].is_none());
                return None;
            },
        }
        i += 1;
    }
    assert forall|k: int| 0 <= k < numbers_of(s@, sep).len() implies (#[trigger] numbers_of(
        s@,
        sep,
    )[k]).is_some() by {
        assert(Some(out@[k]) == numbers_of(s@, sep)[k]);
    }
    Some(out)
}

/// The signed numbers that the pieces of `s` between the separators
/// `sep` write, blanks round the text and round each piece aside.
pub open spec fn signed_numbers_of(s: Seq<u8>, sep: u8) -> Seq<Option<i64>> {
    let p = pieces(trimmed(s), sep);
    Seq::new(p.len(), |k: int| signed_of(trimmed(p[k])))
}

/// Reads the signed numbers of a list, or `None` where a piece writes
/// none.
pub fn signed_numbers(s: &Vec<u8>, sep: u8) -> (r: Option<Vec<i64>>)
    ensures
        r.is_some() <==> forall|k: int|
            0 <= k < signed_numbers_of(s@, sep).len() ==> (#[trigger] signed_numbers_of(
                s@,
                sep,
            )[k]).is_some(),
        r matches Some(v) ==> v@.len() == signed_numbers_of(s@, sep).len() && forall|k: int|
            0 <= k < v@.len() ==> Some(#[trigger] v@[k]) == signed_numbers_of(s@, sep)[k],
{
    let inner: Vec<u8> = trim(s);
    let parts: Vec<Vec<u8>> = split(&inner, sep);
    let ghost p = pieces(trimmed(s@), sep);
    assert(views(parts@).len() == parts@.len());
    let mut out: Vec<i64> = Vec::new();
    let mut i: usize = 0;
    while i < parts.len()
        invariant
            i <= parts@.len(),
            views(parts@) == p,
            p == pieces(trimmed(s@), sep),
            signed_numbers_of(s@, sep).len() == parts@.len(),
            out@.len() == i,
            forall|k: int|
                0 <= k < i ==> Some(#[trigger] out@[k]) == signed_numbers_of(s@, sep)[k],
        decreases parts@.len() - i,
    {
        assert(views(parts@)[i as int] == parts@[i as int]@);
        let piece: Vec<u8> = trim(&parts[i]);
        match parse_i64(&piece) {
            Some(v) => {
                out.push(v);
            },
            None => {
                assert(signed_numbers_of(s@, sep)[i as int].is_none());
                return None;
            },
        }
        i += 1;
    }
    assert forall|k: int| 0 <= k < signed_numbers_of(s@, sep).len() implies (
    #[trigger] signed_numbers_of(s@, sep)[k]).is_some() by {
        assert(Some(out@[k]) == signed_numbers_of(s@, sep)[k]);
    }
    Some(out)
}

/// Whether the lines `rows` draw a grid: there is one, and all are as
/// long as the first.
pub open spec fn is_grid(rows: Seq<Seq<u8>>) -> bool {
    rows.len() >= 1 && forall|y: int| 0 <= y < rows.len() ==> (#[trigger] rows[y]).len()
        == rows[0].len()
}

/// Whether `g` is the grid that the lines `rows` draw.
pub open spec fn draws(rows: Seq<Seq<u8>>, g: Grid) -> bool {
    g.wf() && g.height == rows.len() && g.width == rows[0].len() && forall|y: int, x: int|
        0 <= y < g.height && 0 <= x < g.width ==> g.cells@[y * g.width + x] == #[trigger] rows[y][x]
}

/// The grid that the lines of `s` draw, or `None` where they draw none.
pub fn grid_of(s: &Vec<u8>) -> (r: Option<Grid>)
    ensures
        r.is_some() <==> is_grid(lines_of(s@)),
        r matches Some(g) ==> draws(lines_of(s@), g),
{
    let rows: Vec<Vec<u8>> = lines(s);
    let ghost given = lines_of(s@);
    assert(views(rows@).len() == rows@.len());
    if rows.len() == 0 {
        return None;
    }
    assert(views(rows@)[0] == rows@[0]@);
    let width: usize = rows[0].len();
    let mut cells: Vec<u8> = Vec::new();
    let mut y: usize = 0;
    while y < rows.len()
        invariant
            y <= rows@.len(),
            views(rows@) == given,
            given == lines_of(s@),
            given.len() == rows@.len(),
            width == given[0].len(),
            cells@.len() == y * width,
            forall|k: int| 0 <= k < y ==> (#[trigger] given[k]).len() == width,
            forall|k: int, x: int|
                0 <= k < y && 0 <= x < width ==> cells@[k * width + x] == #[trigger] given[k][x],
        decreases rows@.len() - y,
    {
        assert(views(rows@)[y as int] == rows@[y as int]@);
        let row: &Vec<u8> = &rows[y];
        if row.len() != width {
            assert(given[y as int].len() != given[0].len());
            return None;
        }
        let ghost before = cells@;
        let mut x: usize = 0;
        while x < width
            invariant
                x <= width,
                row@ == given[y as int],
                row@.len() == width,
                cells@.len() == y * width + x,
                cells@.take(before.len() as int) == before,
                before.len() == y * width,
                forall|j: int| 0 <= j < x ==> cells@[y * width + j] == row@[j],
            decreases width - x,
        {
            cells.push(row[x]);
            assert(cells@.take(before.len() as int) =~= before);
            x += 1;
        }
        assert((y + 1) * width == y * width + width) by (nonlinear_arith);
        assert forall|k: int, x: int| 0 <= k < y + 1 && 0 <= x < width implies cells@[k * width + x]
            == #[trigger] given[k][x] by {
            if k < y {
                assert(k * width + x < y * width) by (nonlinear_arith)
                    requires
                        0 <= k < y,
                        0 <= x < width,
                ;
                assert(cells@[k * width + x] == cells@.take(before.len() as int)[k * width + x]);
            }
        }
        y += 1;
    }
    let height: usize = rows.len();
    assert(height * width == width * height) by (nonlinear_arith);
    Grid::new(cells, width, height)
}

} // verus!
