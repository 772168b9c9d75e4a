//! Rectangular grids of bytes, stored row by row, and the four-neighbour
//! moves on them. A cell is named by the key `y * width + x`.

use vstd::prelude::*;

verus! {

/// A grid of `width` by `height` bytes.
pub struct Grid {
    pub cells: Vec<u8>,
    pub width: usize,
    pub height: usize,
}

/// The four directions in the order right, down, left, up, as steps in `x`
/// and `y`.
pub open spec fn direction(d: int) -> (int, int) {
    if d == 0 {
        (1, 0)
    } else if d == 1 {
        (0, 1)
    } else if d == 2 {
        (-1, 0)
    } else {
        (0, -1)
    }
}

impl Grid {
    /// A grid holds exactly one byte for each of its cells.
    pub open spec fn wf(&self) -> bool {
        self.cells@.len() == self.width * self.height
    }

    /// Number of cells.
    pub open spec fn area(&self) -> nat {
        self.cells@.len()
    }

    /// The column of cell `s`.
    pub open spec fn x_of(&self, s: usize) -> int {
        (s as int) % (self.width as int)
    }

    /// The row of cell `s`.
    pub open spec fn y_of(&self, s: usize) -> int {
        (s as int) / (self.width as int)
    }

    /// The cell reached from cell `s` by one step in direction `d`, or
    /// `None` where the step would leave the grid.
    pub open spec fn neighbor_of(&self, s: usize, d: int) -> Option<usize> {
        let x = self.x_of(s) + direction(d).0;
        let y = self.y_of(s) + direction(d).1;
        if 0 <= x < self.width && 0 <= y < self.height {
            Some((y * self.width + x) as usize)
        } else {
            None
        }
    }

    /// Wraps the cells of a grid, or returns `None` when their number is not
    /// `width * height`.
    pub fn new(cells: Vec<u8>, width: usize, height: usize) -> (r: Option<Grid>)
        ensures
            r.is_some() <==> cells@.len() == width * height,
            r matches Some(g) ==> g.wf() && g.cells == cells && g.width == width && g.height
                == height,
    {
        let held: usize = cells.len();
        match width.checked_mul(height) {
            None => None,
            Some(area) => if held == area {
                Some(Grid { cells, width, height })
            } else {
                None
            },
        }
    }

    /// Number of cells.
    pub fn len(&self) -> (n: usize)
        ensures
            n == self.area(),
    {
        self.cells.len()
    }

    /// The key of the first cell, in row order, that holds `byte`.
    pub fn find(&self, byte: u8) -> (r: Option<usize>)
        ensures
            match r {
                Some(s) => s < self.area() && self.cells@[s as int] == byte && forall|k: int|
                    0 <= k < s ==> self.cells@[k] != byte,
                None => forall|k: int| 0 <= k < self.area() ==> self.cells@[k] != byte,
            },
    {
        let mut i: usize = 0;
        while i < self.cells.len()
            invariant
                i <= self.cells@.len(),
                forall|k: int| 0 <= k < i ==> self.cells@[k] != byte,
            decreases self.cells@.len() - i,
        {
            if self.cells[i] == byte {
                return Some(i);
            }
            i += 1;
        }
        None
    }

    /// The cell reached from cell `s` by one step in direction `d`.
    pub fn neighbor(&self, s: usize, d: usize) -> (r: Option<usize>)
        requires
            self.wf(),
            s < self.area(),
            d < 4,
        ensures
            r == self.neighbor_of(s, d as int),
            r matches Some(t) ==> t < self.area(),
    {
        proof {
            self.lemma_cell_in_grid(s);
        }
        let area: usize = self.cells.len();
        let x: usize = s % self.width;
        let y: usize = s / self.width;
        let ghost w = self.width as int;
        if d == 0 {
            if x + 1 < self.width {
                proof {
                    self.lemma_key_in_grid(x as int + 1, y as int);
                }
                Some(s + 1)
            } else {
                None
            }
        } else if d == 1 {
            if y + 1 < self.height {
                proof {
                    self.lemma_key_in_grid(x as int, y as int + 1);
                    assert((y as int + 1) * w == y as int * w + w) by (nonlinear_arith);
                }
                Some(s + self.width)
            } else {
                None
            }
        } else if d == 2 {
            if x > 0 {
                proof {
                    self.lemma_key_in_grid(x as int - 1, y as int);
                }
                Some(s - 1)
            } else {
                None
            }
        } else {
            if y > 0 {
                proof {
                    self.lemma_key_in_grid(x as int, y as int - 1);
                    assert((y as int - 1) * w == y as int * w - w) by (nonlinear_arith);
                }
                Some(s - self.width)
            } else {
                None
            }
        }
    }

    /// A key below the area names a cell of the grid.
    pub proof fn lemma_cell_in_grid(&self, s: usize)
        requires
            self.wf(),
            s < self.area(),
        ensures
            self.width > 0,
            0 <= self.x_of(s) < self.width,
            0 <= self.y_of(s) < self.height,
            self.y_of(s) * self.width + self.x_of(s) == s,
    {
        let w = self.width as int;
        let h = self.height as int;
        assert(w > 0) by (nonlinear_arith)
            requires
                0 <= s < w * h,
                0 <= w,
        ;
        vstd::arithmetic::div_mod::lemma_fundamental_div_mod(s as int, w);
        let q = (s as int) / w;
        let r = (s as int) % w;
        assert(0 <= q < h) by (nonlinear_arith)
            requires
                s == w * q + r,
                0 <= r < w,
                0 <= s < w * h,
        ;
        assert(q * w == w * q) by (nonlinear_arith);
    }

    /// The key of a cell of the grid is below the area.
    pub proof fn lemma_key_in_grid(&self, x: int, y: int)
        requires
            self.wf(),
            0 <= x < self.width,
            0 <= y < self.height,
        ensures
            0 <= y * self.width + x < self.area(),
            0 <= y * self.width,
            (y * self.width + x) % (self.width as int) == x,
            (y * self.width + x) / (self.width as int) == y,
    {
        let w = self.width as int;
        let h = self.height as int;
        assert(0 <= y * w && y * w + x < w * h) by (nonlinear_arith)
            requires
                0 <= x < w,
                0 <= y < h,
        ;
        vstd::arithmetic::div_mod::lemma_fundamental_div_mod_converse(y * w + x, w, y, x);
    }
}

} // verus!
