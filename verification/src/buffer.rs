//! The screen buffer: a width-by-height grid of styled cells, stored row by
//! row, that widgets paint into and the terminal backend flushes.

use vstd::prelude::*;
use crate::style::{Cell, blank_cell};

verus! {

/// A rectangular grid of cells; cell `(x, y)` lives at index `y * width + x`.
pub struct Buffer {
    pub width: u16,
    pub height: u16,
    pub cells: Vec<Cell>,
}

impl Buffer {
    /// The cell storage covers the grid exactly.
    pub open spec fn wf(self) -> bool {
        self.cells@.len() == self.width as int * self.height as int
    }

    /// The storage index of cell `(x, y)`.
    pub open spec fn spec_idx(self, x: int, y: int) -> int {
        y * (self.width as int) + x
    }

    /// The cell at `(x, y)`.
    pub open spec fn cell_at(self, x: int, y: int) -> Cell {
        self.cells@[self.spec_idx(x, y)]
    }

    /// The storage index of every in-range cell is itself in range, and two
    /// distinct in-range cells never share a storage index.
    pub proof fn lemma_idx(self, x: int, y: int)
        requires
            0 <= x < self.width,
            0 <= y < self.height,
        ensures
            0 <= self.spec_idx(x, y) < self.width as int * self.height as int,
            forall|x2: int, y2: int|
                0 <= x2 < self.width && 0 <= y2 < self.height && (x2 != x || y2 != y)
                    ==> #[trigger] self.spec_idx(x2, y2) != self.spec_idx(x, y),
    {
        let w = self.width as int;
        let h = self.height as int;
        assert(y * w + x < w * h) by (nonlinear_arith)
            requires
                0 <= x < w,
                0 <= y < h,
        ;
        assert(y * w + x >= 0) by (nonlinear_arith)
            requires
                0 <= x,
                0 <= y,
                w >= 0,
        ;
        assert forall|x2: int, y2: int|
            0 <= x2 < w && 0 <= y2 < h && (x2 != x || y2 != y) implies #[trigger] self.spec_idx(
            x2,
            y2,
        ) != self.spec_idx(x, y) by {
            assert(y2 * w + x2 != y * w + x) by (nonlinear_arith)
                requires
                    0 <= x2 < w,
                    0 <= x < w,
                    x2 != x || y2 != y,
            ;
        }
    }

    /// A fresh buffer of blank cells.
    pub fn new(width: u16, height: u16) -> (b: Buffer)
        ensures
            b.wf(),
            b.width == width,
            b.height == height,
            forall|x: int, y: int|
                0 <= x < width && 0 <= y < height ==> #[trigger] b.cell_at(x, y) == blank_cell(),
    {
        proof {
            vstd::arithmetic::mul::lemma_mul_upper_bound(width as int, 0xffff, height as int, 0xffff);
            vstd::arithmetic::mul::lemma_mul_nonnegative(width as int, height as int);
        }
        let total: usize = (width as usize) * (height as usize);
        let mut cells: Vec<Cell> = Vec::new();
        let mut i: usize = 0;
        while i < total
            invariant
                i <= total,
                total == width as int * height as int,
                cells@.len() == i,
                forall|t: int| 0 <= t < i ==> cells@[t] == blank_cell(),
            decreases total - i,
        {
            cells.push(Cell::blank());
            i = i + 1;
        }
        let b = Buffer { width, height, cells };
        proof {
            assert forall|x: int, y: int|
                0 <= x < width && 0 <= y < height implies #[trigger] b.cell_at(x, y)
                == blank_cell() by {
                b.lemma_idx(x, y);
            }
        }
        b
    }

    /// Read the cell at `(x, y)`.
    pub fn get(&self, x: u16, y: u16) -> (c: Cell)
        requires
            self.wf(),
            x < self.width,
            y < self.height,
        ensures
            c == self.cell_at(x as int, y as int),
    {
        proof {
            self.lemma_idx(x as int, y as int);
            vstd::arithmetic::mul::lemma_mul_upper_bound(y as int, 0xffff, self.width as int, 0xffff);
        }
        let idx: usize = (y as usize) * (self.width as usize) + (x as usize);
        self.cells[idx]
    }

    /// Write the cell at `(x, y)`; no other cell changes.
    pub fn set(&mut self, x: u16, y: u16, c: Cell)
        requires
            old(self).wf(),
            x < old(self).width,
            y < old(self).height,
        ensures
            final(self).wf(),
            final(self).width == old(self).width,
            final(self).height == old(self).height,
            final(self).cell_at(x as int, y as int) == c,
            forall|x2: int, y2: int|
                0 <= x2 < old(self).width && 0 <= y2 < old(self).height && (x2 != x as int || y2
                    != y as int) ==> #[trigger] final(self).cell_at(x2, y2) == old(self).cell_at(
                    x2,
                    y2,
                ),
    {
        proof {
            old(self).lemma_idx(x as int, y as int);
            vstd::arithmetic::mul::lemma_mul_upper_bound(y as int, 0xffff, self.width as int, 0xffff);
        }
        let idx: usize = (y as usize) * (self.width as usize) + (x as usize);
        self.cells.set(idx, c);
        proof {
            self.lemma_idx(x as int, y as int);
            assert forall|x2: int, y2: int|
                0 <= x2 < self.width && 0 <= y2 < self.height && (x2 != x as int || y2
                    != y as int) implies #[trigger] self.cell_at(x2, y2) == old(self).cell_at(
                x2,
                y2,
            ) by {
                old(self).lemma_idx(x2, y2);
                assert(old(self).spec_idx(x as int, y as int) != old(self).spec_idx(x2, y2));
                assert(self.cells@ == old(self).cells@.update(idx as int, c));
                assert(old(self).cells@.update(idx as int, c)[old(self).spec_idx(x2, y2)] == old(
                    self,
                ).cells@[old(self).spec_idx(x2, y2)]);
            }
        }
    }
}

} // verus!
