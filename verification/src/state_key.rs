//! Dense integer keys for augmented search states.
//!
//! A state is a grid position `(x, y)` together with a small auxiliary value
//! (a bitmask, a direction, a remaining budget). A [`KeyLayout`] packs the
//! three into one `usize` below [`KeyLayout::capacity`], so that tables indexed
//! by state can be flat arrays.

use vstd::prelude::*;
use vstd::arithmetic::div_mod::{lemma_fundamental_div_mod, lemma_fundamental_div_mod_converse};

verus! {

/// The shape of a key space: `width * height` positions, each combined with
/// an auxiliary value below `aux_range`.
#[derive(Clone, Copy, Debug)]
pub struct KeyLayout {
    pub width: usize,
    pub height: usize,
    pub aux_range: usize,
}

impl KeyLayout {
    /// Number of distinct keys of the layout.
    pub open spec fn capacity(self) -> nat {
        (self.width as nat) * (self.height as nat) * (self.aux_range as nat)
    }

    /// A layout is well formed when every key fits in a `usize`.
    pub open spec fn wf(self) -> bool {
        self.capacity() <= usize::MAX
    }

    /// Whether `(x, y, aux)` is a state of the layout.
    pub open spec fn in_domain(self, x: nat, y: nat, aux: nat) -> bool {
        x < self.width && y < self.height && aux < self.aux_range
    }

    /// The key of state `(x, y, aux)`: row-major position, then the auxiliary
    /// value in the lowest place.
    pub open spec fn key_of(self, x: nat, y: nat, aux: nat) -> nat {
        (y * (self.width as nat) + x) * (self.aux_range as nat) + aux
    }

    /// Column of the state with key `key`.
    pub open spec fn x_of(self, key: nat) -> nat {
        (key / (self.aux_range as nat)) % (self.width as nat)
    }

    /// Row of the state with key `key`.
    pub open spec fn y_of(self, key: nat) -> nat {
        (key / (self.aux_range as nat)) / (self.width as nat)
    }

    /// Auxiliary value of the state with key `key`.
    pub open spec fn aux_of(self, key: nat) -> nat {
        key % (self.aux_range as nat)
    }

    /// Builds the layout, or returns `None` when its keys would not all fit
    /// in a `usize`.
    pub fn new(width: usize, height: usize, aux_range: usize) -> (r: Option<KeyLayout>)
        ensures
            r.is_some() <==> (width as nat) * (height as nat) * (aux_range as nat) <= usize::MAX,
            r.is_some() ==> r.unwrap() == (KeyLayout { width, height, aux_range }),
            r.is_some() ==> r.unwrap().wf(),
    {
        let layout = KeyLayout { width, height, aux_range };
        if width == 0 || height == 0 || aux_range == 0 {
            assert(layout.capacity() == 0) by (nonlinear_arith)
                requires
                    layout.width == 0 || layout.height == 0 || layout.aux_range == 0,
                    layout.capacity() == (layout.width as nat) * (layout.height as nat) * (
                    layout.aux_range as nat),
            ;
            return Some(layout);
        }
        match width.checked_mul(height) {
            None => {
                assert((width as nat) * (height as nat) * (aux_range as nat) > usize::MAX)
                    by (nonlinear_arith)
                    requires
                        (width as nat) * (height as nat) > usize::MAX,
                        aux_range >= 1,
                ;
                None
            },
            Some(cells) => match cells.checked_mul(aux_range) {
                None => None,
                Some(_) => Some(layout),
            },
        }
    }

    /// Number of distinct keys; tables indexed by key have this length.
    pub fn capacity_of(&self) -> (r: usize)
        requires
            self.wf(),
        ensures
            r == self.capacity(),
    {
        if self.width == 0 || self.height == 0 || self.aux_range == 0 {
            assert(self.capacity() == 0) by (nonlinear_arith)
                requires
                    self.width == 0 || self.height == 0 || self.aux_range == 0,
                    self.capacity() == (self.width as nat) * (self.height as nat) * (
                    self.aux_range as nat),
            ;
            return 0;
        }
        assert((self.width as nat) * (self.height as nat) <= self.capacity()) by (nonlinear_arith)
            requires
                self.aux_range >= 1,
                self.capacity() == (self.width as nat) * (self.height as nat) * (
                self.aux_range as nat),
        ;
        self.width * self.height * self.aux_range
    }

    /// Packs the state `(x, y, aux)` into its key.
    pub fn encode(&self, x: usize, y: usize, aux: usize) -> (key: usize)
        requires
            self.wf(),
            self.in_domain(x as nat, y as nat, aux as nat),
        ensures
            key == self.key_of(x as nat, y as nat, aux as nat),
            key < self.capacity(),
    {
        proof {
            self.lemma_key_in_range(x as nat, y as nat, aux as nat);
            assert((y as nat) * (self.width as nat) + (x as nat) <= self.key_of(
                x as nat,
                y as nat,
                aux as nat,
            )) by (nonlinear_arith)
                requires
                    self.aux_range >= 1,
                    self.key_of(x as nat, y as nat, aux as nat) == ((y as nat) * (
                    self.width as nat) + (x as nat)) * (self.aux_range as nat) + (aux as nat),
            ;
            assert((y as nat) * (self.width as nat) <= (y as nat) * (self.width as nat) + (
            x as nat));
        }
        (y * self.width + x) * self.aux_range + aux
    }

    /// Unpacks a key into its state `(x, y, aux)`.
    pub fn decode(&self, key: usize) -> (state: (usize, usize, usize))
        requires
            self.wf(),
            key < self.capacity(),
        ensures
            state.0 == self.x_of(key as nat),
            state.1 == self.y_of(key as nat),
            state.2 == self.aux_of(key as nat),
            self.in_domain(state.0 as nat, state.1 as nat, state.2 as nat),
            self.key_of(state.0 as nat, state.1 as nat, state.2 as nat) == key,
    {
        proof {
            self.lemma_decode_in_domain(key as nat);
        }
        let cell: usize = key / self.aux_range;
        (cell % self.width, cell / self.width, key % self.aux_range)
    }

    /// Every state of the layout has a key below the capacity.
    pub proof fn lemma_key_in_range(self, x: nat, y: nat, aux: nat)
        requires
            self.in_domain(x, y, aux),
        ensures
            self.key_of(x, y, aux) < self.capacity(),
    {
        let w = self.width as nat;
        let h = self.height as nat;
        let a = self.aux_range as nat;
        assert(y * w + x + 1 <= w * h) by (nonlinear_arith)
            requires
                x < w,
                y < h,
        ;
        assert((y * w + x) * a + aux < w * h * a) by (nonlinear_arith)
            requires
                y * w + x + 1 <= w * h,
                aux < a,
        ;
    }

    /// Unpacking the key of a state gives the state back.
    pub proof fn lemma_decode_encode(self, x: nat, y: nat, aux: nat)
        requires
            self.in_domain(x, y, aux),
        ensures
            self.x_of(self.key_of(x, y, aux)) == x,
            self.y_of(self.key_of(x, y, aux)) == y,
            self.aux_of(self.key_of(x, y, aux)) == aux,
    {
        let w = self.width as int;
        let a = self.aux_range as int;
        let cell = y * w + x;
        let key = cell * a + aux;
        lemma_fundamental_div_mod_converse(key, a, cell, aux as int);
        lemma_fundamental_div_mod_converse(cell, w, y as int, x as int);
    }

    /// A key below the capacity unpacks to a state of the layout, and packing
    /// that state gives the key back.
    pub proof fn lemma_decode_in_domain(self, key: nat)
        requires
            key < self.capacity(),
        ensures
            self.aux_range > 0,
            self.width > 0,
            self.in_domain(self.x_of(key), self.y_of(key), self.aux_of(key)),
            self.key_of(self.x_of(key), self.y_of(key), self.aux_of(key)) == key,
    {
        let w = self.width as int;
        let h = self.height as int;
        let a = self.aux_range as int;
        assert(a > 0 && w > 0 && h > 0) by (nonlinear_arith)
            requires
                0 <= key < w * h * a,
                0 <= w,
                0 <= h,
                0 <= a,
        ;
        let cell = (key as int) / a;
        lemma_fundamental_div_mod(key as int, a);
        lemma_fundamental_div_mod(cell, w);
        assert(0 <= cell < w * h) by (nonlinear_arith)
            requires
                key == a * cell + (key as int) % a,
                0 <= (key as int) % a < a,
                0 <= key < w * h * a,
                0 < w,
                0 < h,
        ;
        assert(0 <= cell / w < h) by (nonlinear_arith)
            requires
                cell == w * (cell / w) + cell % w,
                0 <= cell % w < w,
                0 <= cell < w * h,
        ;
        assert((cell / w) * w + cell % w == cell) by (nonlinear_arith)
            requires
                cell == w * (cell / w) + cell % w,
        ;
        assert(cell * a + (key as int) % a == key) by (nonlinear_arith)
            requires
                key == a * cell + (key as int) % a,
        ;
    }

    /// Distinct states have distinct keys.
    pub proof fn lemma_key_injective(self, x1: nat, y1: nat, aux1: nat, x2: nat, y2: nat, aux2: nat)
        requires
            self.in_domain(x1, y1, aux1),
            self.in_domain(x2, y2, aux2),
            self.key_of(x1, y1, aux1) == self.key_of(x2, y2, aux2),
        ensures
            x1 == x2,
            y1 == y2,
            aux1 == aux2,
    {
        self.lemma_decode_encode(x1, y1, aux1);
        self.lemma_decode_encode(x2, y2, aux2);
    }
}

/// Edge length of the cube of positions that [`idx`] numbers.
pub const SIZE: usize = 128;

/// The layout behind [`idx`]: `SIZE` layers of `SIZE` rows of `SIZE`
/// columns.
pub open spec fn cube_layout() -> KeyLayout {
    KeyLayout { width: 128, height: 128, aux_range: 128 }
}

/// The key of the position `(x, y, z)` in a cube that is centred on the
/// origin in `x` and `z` and rests on it in `y`: the layer `z`, then the
/// row `y`, then the column `x`.
pub fn idx(x: i32, y: i32, z: i32) -> (key: usize)
    requires
        -64 <= x < 64,
        0 <= y < 128,
        -64 <= z < 64,
    ensures
        key == cube_layout().key_of(y as nat, (z + 64) as nat, (x + 64) as nat),
        key < cube_layout().capacity(),
{
    proof {
        cube_layout().lemma_key_in_range(y as nat, (z + 64) as nat, (x + 64) as nat);
    }
    ((z + 64) * 16384 + y * 128 + x + 64) as usize
}

/// The key of a state that is a grid position `(x, y)`, a time limit in
/// units of 30 and one of two sides, in a grid of width `width` where time
/// limits stay below `30 * max_radius`: the position in row order, then the
/// limit, then the side.
pub fn seen_idx(
    x: usize,
    y: usize,
    max_time: u64,
    is_left: bool,
    width: usize,
    max_radius: usize,
) -> (key: usize)
    requires
        x < width,
        max_time / 30 < max_radius,
        ((y + 1) * width) * (max_radius * 2) <= usize::MAX,
    ensures
        key == (KeyLayout { width, height: (y + 1) as usize, aux_range: (max_radius * 2) as usize })
            .key_of(
            x as nat,
            y as nat,
            ((max_time / 30) * 2 + if is_left {
                0nat
            } else {
                1nat
            }) as nat,
        ),
        key < ((y + 1) * width) * (max_radius * 2),
{
    let ghost w = width as int;
    let ghost r = max_radius as int;
    let ghost yy = y as int;
    let ghost xx = x as int;
    let ghost t = (max_time / 30) as int;
    proof {
        assert(0 < w && 0 < r);
        assert((yy + 1) * w >= yy * w + xx + 1) by (nonlinear_arith)
            requires
                0 <= xx < w,
                0 <= yy,
        ;
        assert(((yy + 1) * w) * (r * 2) >= (yy * w + xx + 1) * (r * 2)) by (nonlinear_arith)
            requires
                (yy + 1) * w >= yy * w + xx + 1,
                r > 0,
        ;
        assert((yy * w + xx + 1) * (r * 2) == yy * (w * r * 2) + xx * (r * 2) + r * 2)
            by (nonlinear_arith);
        assert((yy * w + xx) * (r * 2) == yy * (w * r * 2) + xx * (r * 2)) by (nonlinear_arith);
        assert(0 <= yy * (w * r * 2) && 0 <= xx * (r * 2) && 0 <= w * r * 2 && 0 <= w * r
            && w * r * 2 <= ((yy + 1) * w) * (r * 2) && w * r <= w * r * 2 && r * 2 <= (yy * w + xx
            + 1) * (r * 2)) by (nonlinear_arith)
            requires
                0 <= xx < w,
                0 <= yy,
                0 < r,
        ;
        assert(t * 2 + 1 < r * 2);
    }
    let side: usize = if is_left {
        0
    } else {
        1
    };
    y * (width * max_radius * 2) + x * (max_radius * 2) + (max_time / 30) as usize * 2 + side
}

} // verus!
