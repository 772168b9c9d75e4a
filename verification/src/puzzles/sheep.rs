//! The sheep of a board in one number: four bits for every column hold the
//! row of the column's sheep, and fifteen stands for "no sheep".

use vstd::prelude::*;

verus! {

/// The rows of the sheep in up to eight columns.
#[derive(Clone, Copy, Debug)]
pub struct SheepMask(pub u32);

/// The four bits of column `x` in `bits`.
pub open spec fn nibble(bits: u32, x: u32) -> u32 {
    (bits >> (x * 4)) & 0xf
}

/// `bits` with the four bits of column `x` replaced by the low four bits
/// of `y`.
pub open spec fn with_nibble(bits: u32, x: u32, y: u32) -> u32 {
    (bits & !(0xfu32 << (x * 4))) | ((y & 0xf) << (x * 4))
}

/// What was set in a column is what is read from it.
pub proof fn lemma_get_after_set(bits: u32, x: u32, y: u32)
    requires
        x < 8,
    ensures
        nibble(with_nibble(bits, x, y), x) == y & 0xf,
{
    assert((((bits & !(0xfu32 << (x * 4))) | ((y & 0xf) << (x * 4))) >> (x * 4)) & 0xf == y & 0xf)
        by (bit_vector)
        requires
            x < 8,
    ;
}

/// Setting one column leaves the others as they were.
pub proof fn lemma_get_after_set_other(bits: u32, x: u32, y: u32, other: u32)
    requires
        x < 8,
        other < 8,
        other != x,
    ensures
        nibble(with_nibble(bits, x, y), other) == nibble(bits, other),
{
    assert((((bits & !(0xfu32 << (x * 4))) | ((y & 0xf) << (x * 4))) >> (other * 4)) & 0xf == (bits
        >> (other * 4)) & 0xf) by (bit_vector)
        requires
            x < 8,
            other < 8,
            other != x,
    ;
}

/// A mask is empty exactly when every column holds fifteen.
pub proof fn lemma_empty_means_all_fifteen(bits: u32)
    ensures
        bits == !0u32 <==> forall|x: u32| x < 8 ==> #[trigger] nibble(bits, x) == 0xf,
{
    if bits == !0u32 {
        assert forall|x: u32| x < 8 implies #[trigger] nibble(bits, x) == 0xf by {
            assert(((!0u32) >> (x * 4)) & 0xf == 0xf) by (bit_vector)
                requires
                    x < 8,
            ;
        }
    }
    if forall|x: u32| x < 8 ==> #[trigger] nibble(bits, x) == 0xf {
        assert(nibble(bits, 0) == 0xf && nibble(bits, 1) == 0xf && nibble(bits, 2) == 0xf
            && nibble(bits, 3) == 0xf && nibble(bits, 4) == 0xf && nibble(bits, 5) == 0xf
            && nibble(bits, 6) == 0xf && nibble(bits, 7) == 0xf);
        assert(((bits >> (0u32 * 4)) & 0xf == 0xf && (bits >> (1u32 * 4)) & 0xf == 0xf && (bits >> (
        2u32 * 4)) & 0xf == 0xf && (bits >> (3u32 * 4)) & 0xf == 0xf && (bits >> (4u32 * 4)) & 0xf
            == 0xf && (bits >> (5u32 * 4)) & 0xf == 0xf && (bits >> (6u32 * 4)) & 0xf == 0xf && (
        bits >> (7u32 * 4)) & 0xf == 0xf) ==> bits == !0u32) by (bit_vector);
    }
}

impl SheepMask {
    /// A mask without sheep.
    pub fn new() -> (m: SheepMask)
        ensures
            m.0 == !0u32,
    {
        SheepMask(!0u32)
    }

    /// The row of the sheep in column `x`, or fifteen if there is none.
    pub fn get(&self, x: i64) -> (y: i64)
        requires
            0 <= x < 8,
        ensures
            y == nibble(self.0, x as u32),
            0 <= y <= 15,
    {
        let shift: u32 = (x as u32) * 4;
        let bits: u32 = self.0;
        assert((bits >> shift) & 0xf <= 15) by (bit_vector);
        ((bits >> shift) & 0xf) as i64
    }

    /// The mask with the sheep of column `x` in row `y`.
    pub fn set(&self, x: i64, y: i64) -> (m: SheepMask)
        requires
            0 <= x < 8,
            0 <= y <= 15,
        ensures
            m.0 == with_nibble(self.0, x as u32, y as u32),
    {
        let shift: u32 = (x as u32) * 4;
        let r: u32 = self.0 & !(0xfu32 << shift);
        SheepMask(r | (((y as u32) & 0xf) << shift))
    }

    /// The mask without the sheep of column `x`.
    pub fn clear(&self, x: i64) -> (m: SheepMask)
        requires
            0 <= x < 8,
        ensures
            m.0 == with_nibble(self.0, x as u32, 0xf),
    {
        self.set(x, 0xf)
    }

    /// Whether no column has a sheep.
    pub fn is_empty(&self) -> (r: bool)
        ensures
            r == (self.0 == !0u32),
    {
        self.0 == !0u32
    }
}

} // verus!
