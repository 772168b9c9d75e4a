//! Pairs of whole numbers that are multiplied like complex numbers and
//! divided part by part, and the points of a plane that stay in bounds
//! when such a pair is squared, scaled down and shifted again and again.

use vstd::prelude::*;

verus! {

/// A pair of whole numbers.
#[derive(Clone, Copy, Debug, PartialEq, Eq)]
pub struct Complex {
    pub x: i64,
    pub y: i64,
}

/// A pair of whole numbers without bounds.
pub struct Pair {
    pub x: int,
    pub y: int,
}

/// The quotient of `a` by `b`, rounded towards zero.
pub open spec fn quotient(a: int, b: int) -> int {
    if a >= 0 {
        a / b
    } else {
        -((-a) / b)
    }
}

/// The square of a pair by the rule for complex numbers.
pub open spec fn squared(r: Pair) -> Pair {
    Pair { x: r.x * r.x - r.y * r.y, y: r.x * r.y + r.y * r.x }
}

/// One round of engraving: the pair is squared, both parts are divided by
/// `scale`, and `p` is added.
pub open spec fn round(r: Pair, p: Pair, scale: int) -> Pair {
    Pair { x: quotient(squared(r).x, scale) + p.x, y: quotient(squared(r).y, scale) + p.y }
}

/// Whether both parts of a pair are at most a million in size.
pub open spec fn in_bounds(r: Pair) -> bool {
    -1000000 <= r.x <= 1000000 && -1000000 <= r.y <= 1000000
}

/// The pair after `k` rounds from zero with the shift `p`.
pub open spec fn after_rounds(p: Pair, k: nat) -> Pair
    decreases k,
{
    if k == 0 {
        Pair { x: 0, y: 0 }
    } else {
        round(after_rounds(p, (k - 1) as nat), p, 100000)
    }
}

/// Whether the point `p` is engraved: the pair stays in bounds through a
/// hundred rounds.
pub open spec fn engraved(p: Pair) -> bool {
    forall|k: nat| 1 <= k <= 100 ==> in_bounds(#[trigger] after_rounds(p, k))
}

impl Complex {
    /// The pair as numbers without bounds.
    pub open spec fn pair(self) -> Pair {
        Pair { x: self.x as int, y: self.y as int }
    }

    /// The pair of `x` and `y`.
    pub fn new(x: i64, y: i64) -> (c: Complex)
        ensures
            c.x == x,
            c.y == y,
    {
        Complex { x, y }
    }

    /// The sum, part by part, or `None` when a part does not fit.
    pub fn add(self, rhs: Complex) -> (r: Option<Complex>)
        ensures
            r.is_some() <==> i64::MIN <= self.x + rhs.x <= i64::MAX && i64::MIN <= self.y + rhs.y
                <= i64::MAX,
            r matches Some(c) ==> c.x == self.x + rhs.x && c.y == self.y + rhs.y,
    {
        match (self.x.checked_add(rhs.x), self.y.checked_add(rhs.y)) {
            (Some(x), Some(y)) => Some(Complex { x, y }),
            _ => None,
        }
    }

    /// The product by the rule for complex numbers, for parts of at most
    /// `2^30` in size.
    pub fn mul(self, rhs: Complex) -> (c: Complex)
        requires
            -0x4000_0000 <= self.x <= 0x4000_0000,
            -0x4000_0000 <= self.y <= 0x4000_0000,
            -0x4000_0000 <= rhs.x <= 0x4000_0000,
            -0x4000_0000 <= rhs.y <= 0x4000_0000,
        ensures
            c.x == self.x * rhs.x - self.y * rhs.y,
            c.y == self.x * rhs.y + self.y * rhs.x,
    {
        proof {
            lemma_product_bounded(self.x as int, rhs.x as int);
            lemma_product_bounded(self.y as int, rhs.y as int);
            lemma_product_bounded(self.x as int, rhs.y as int);
            lemma_product_bounded(self.y as int, rhs.x as int);
        }
        Complex { x: self.x * rhs.x - self.y * rhs.y, y: self.x * rhs.y + self.y * rhs.x }
    }

    /// The quotient, part by part and rounded towards zero, by a pair of
    /// positive numbers.
    pub fn div(self, rhs: Complex) -> (c: Complex)
        requires
            rhs.x > 0,
            rhs.y > 0,
        ensures
            c.x == quotient(self.x as int, rhs.x as int),
            c.y == quotient(self.y as int, rhs.y as int),
    {
        Complex { x: self.x / rhs.x, y: self.y / rhs.y }
    }
}

/// The product of two numbers of at most `2^30` in size is at most `2^60`
/// in size.
pub proof fn lemma_product_bounded(a: int, b: int)
    requires
        -0x4000_0000 <= a <= 0x4000_0000,
        -0x4000_0000 <= b <= 0x4000_0000,
    ensures
        -0x1000_0000_0000_0000 <= a * b <= 0x1000_0000_0000_0000,
{
    assert(-0x1000_0000_0000_0000 <= a * b <= 0x1000_0000_0000_0000) by (nonlinear_arith)
        requires
            -0x4000_0000 <= a <= 0x4000_0000,
            -0x4000_0000 <= b <= 0x4000_0000,
    ;
}

/// Squares `r`, divides both parts by ten and adds `a`.
pub fn part1(r: Complex, a: Complex) -> (c: Option<Complex>)
    requires
        -0x4000_0000 <= r.x <= 0x4000_0000,
        -0x4000_0000 <= r.y <= 0x4000_0000,
    ensures
        c.is_some() <==> i64::MIN <= round(r.pair(), a.pair(), 10).x <= i64::MAX && i64::MIN
            <= round(r.pair(), a.pair(), 10).y <= i64::MAX,
        c matches Some(v) ==> v.pair() == round(r.pair(), a.pair(), 10),
{
    let square = r.mul(r);
    let scaled = square.div(Complex { x: 10, y: 10 });
    scaled.add(a)
}

/// Whether the point `p` is engraved.
pub fn is_engraved(p: Complex) -> (b: bool)
    requires
        -0x4000_0000_0000_0000 <= p.x <= 0x4000_0000_0000_0000,
        -0x4000_0000_0000_0000 <= p.y <= 0x4000_0000_0000_0000,
    ensures
        b == engraved(p.pair()),
{
    let mut r = Complex { x: 0, y: 0 };
    let mut k: u32 = 0;
    while k < 100
        invariant
            k <= 100,
            -0x4000_0000_0000_0000 <= p.x <= 0x4000_0000_0000_0000,
            -0x4000_0000_0000_0000 <= p.y <= 0x4000_0000_0000_0000,
            r.pair() == after_rounds(p.pair(), k as nat),
            -1000000 <= r.x <= 1000000,
            -1000000 <= r.y <= 1000000,
            forall|j: nat| 1 <= j <= k ==> in_bounds(#[trigger] after_rounds(p.pair(), j)),
        decreases 100 - k,
    {
        let square = r.mul(r);
        let scaled = square.div(Complex { x: 100000, y: 100000 });
        proof {
            lemma_scaled_square_small(r.x as int, r.y as int);
        }
        let next = Complex { x: scaled.x + p.x, y: scaled.y + p.y };
        assert(next.pair() == after_rounds(p.pair(), (k + 1) as nat));
        if next.x < -1000000 || next.x > 1000000 || next.y < -1000000 || next.y > 1000000 {
            assert(!in_bounds(after_rounds(p.pair(), (k + 1) as nat)));
            return false;
        }
        r = next;
        k += 1;
    }
    true
}

/// The square of a pair in bounds, scaled down, is small.
pub proof fn lemma_scaled_square_small(x: int, y: int)
    requires
        -1000000 <= x <= 1000000,
        -1000000 <= y <= 1000000,
    ensures
        -0x1_0000_0000 <= quotient(x * x - y * y, 100000) <= 0x1_0000_0000,
        -0x1_0000_0000 <= quotient(x * y + y * x, 100000) <= 0x1_0000_0000,
{
    assert(-1000000000000 <= x * x - y * y <= 1000000000000 && -2000000000000 <= x * y + y * x
        <= 2000000000000) by (nonlinear_arith)
        requires
            -1000000 <= x <= 1000000,
            -1000000 <= y <= 1000000,
    ;
}

/// The number of the first `k` points, counted column by column, that are
/// engraved: the points are `a` shifted by `step` times `(x, y)` for `x`
/// and `y` from 0 to `size`.
pub open spec fn engraved_among(a: Pair, size: int, step: int, k: nat) -> nat
    decreases k,
{
    if k == 0 || size < 0 {
        0
    } else {
        let x = (k - 1) / (size + 1);
        let y = (k - 1) % (size + 1);
        engraved_among(a, size, step, (k - 1) as nat) + if engraved(
            Pair { x: a.x + x * step, y: a.y + y * step },
        ) {
            1nat
        } else {
            0nat
        }
    }
}

/// The number of engraved points on the grid of `size + 1` by `size + 1`
/// points that begins at `a` and has its points `step` apart.
pub fn count_engraved(a: Complex, size: i64, step: i64) -> (total: i64)
    requires
        0 <= size <= 100000,
        0 <= step <= 100000,
        -0x1000_0000_0000_0000 <= a.x <= 0x1000_0000_0000_0000,
        -0x1000_0000_0000_0000 <= a.y <= 0x1000_0000_0000_0000,
    ensures
        total == engraved_among(a.pair(), size as int, step as int, ((size + 1) * (size + 1)) as nat),
{
    let mut total: i64 = 0;
    let mut x: i64 = 0;
    while x <= size
        invariant
            0 <= x <= size + 1,
            0 <= size <= 100000,
            0 <= step <= 100000,
            -0x1000_0000_0000_0000 <= a.x <= 0x1000_0000_0000_0000,
            -0x1000_0000_0000_0000 <= a.y <= 0x1000_0000_0000_0000,
            0 <= total <= x * (size + 1),
            total == engraved_among(a.pair(), size as int, step as int, (x * (size + 1)) as nat),
        decreases size + 1 - x,
    {
        let mut y: i64 = 0;
        assert(x * (size + 1) <= 100001 * 100001) by (nonlinear_arith)
            requires
                0 <= x <= size + 1,
                size <= 100000,
        ;
        while y <= size
            invariant
                0 <= y <= size + 1,
                0 <= x <= size,
                0 <= size <= 100000,
                0 <= step <= 100000,
                -0x1000_0000_0000_0000 <= a.x <= 0x1000_0000_0000_0000,
                -0x1000_0000_0000_0000 <= a.y <= 0x1000_0000_0000_0000,
                x * (size + 1) <= 100001 * 100001,
                0 <= total <= x * (size + 1) + y,
                total == engraved_among(
                    a.pair(),
                    size as int,
                    step as int,
                    (x * (size + 1) + y) as nat,
                ),
            decreases size + 1 - y,
        {
            assert(x * step <= 100000 * 100000 && y * step <= 100000 * 100000 && 0 <= x * step && 0
                <= y * step) by (nonlinear_arith)
                requires
                    0 <= x <= 100000,
                    0 <= y <= 100000,
                    0 <= step <= 100000,
            ;
            let p = Complex { x: a.x + x * step, y: a.y + y * step };
            proof {
                let k = x * (size + 1) + y + 1;
                assert((k - 1) / (size + 1) == x && (k - 1) % (size + 1) == y) by {
                    vstd::arithmetic::div_mod::lemma_fundamental_div_mod_converse(
                        x * (size + 1) + y,
                        (size + 1) as int,
                        x as int,
                        y as int,
                    );
                }
            }
            if is_engraved(p) {
                total += 1;
            }
            y += 1;
        }
        assert((x + 1) * (size + 1) == x * (size + 1) + (size + 1)) by (nonlinear_arith);
        x += 1;
    }
    total
}

} // verus!
