//! Grid cells and the grid skeleton: black pattern, per-cell letter domains
//! and fixed letters.

use vstd::prelude::*;
use crate::domain::Domain;

verus! {

/// One grid position: a wall flag, the set of letters still admissible, and
/// the pre-fixed letter, if any.
#[derive(Clone, Copy, Debug)]
pub struct Cell {
    pub domain: Domain,
    pub is_black: bool,
    pub fixed_char: Option<char>,
}

impl Cell {
    /// The domain mask is well-formed.
    pub open spec fn wf(self) -> bool {
        self.domain.wf()
    }

    /// A fresh cell: a black cell starts with the empty domain, a white cell
    /// with the full one; no fixed letter.
    pub fn new(is_black: bool) -> (r: Cell)
        ensures
            r.wf(),
            r.is_black == is_black,
            r.fixed_char is None,
            forall|i: int| r.domain.spec_has(i) <==> (!is_black && 0 <= i < 26),
    {
        Cell {
            domain: if is_black {
                Domain::empty()
            } else {
                Domain::full()
            },
            is_black,
            fixed_char: None,
        }
    }
}

/// The grid: dimensions and a row-major cell vector.
#[derive(Clone, Debug)]
pub struct Grid {
    pub width: usize,
    pub height: usize,
    pub cells: Vec<Cell>,
}

impl Grid {
    /// The cell vector matches the dimensions and every mask is well-formed.
    pub open spec fn wf(self) -> bool {
        &&& self.cells@.len() == self.width * self.height
        &&& forall|i: int| 0 <= i < self.cells@.len() ==> (#[trigger] self.cells@[i]).wf()
    }

    /// Row-major index of position (r, c).
    pub open spec fn spec_index(self, r: int, c: int) -> int {
        r * self.width + c
    }

    /// An all-white grid with full domains.
    pub fn new(width: usize, height: usize) -> (g: Grid)
        requires
            width * height <= usize::MAX,
        ensures
            g.wf(),
            g.width == width,
            g.height == height,
            forall|i: int|
                0 <= i < g.cells@.len() ==> !(#[trigger] g.cells@[i]).is_black
                    && g.cells@[i].fixed_char is None && (forall|l: int|
                    g.cells@[i].domain.spec_has(l) <==> 0 <= l < 26),
    {
        let total = width * height;
        let mut cells: Vec<Cell> = Vec::new();
        let mut i: usize = 0;
        while i < total
            invariant
                i <= total,
                cells@.len() == i,
                forall|k: int|
                    0 <= k < i ==> !(#[trigger] cells@[k]).is_black && cells@[k].fixed_char is None
                        && cells@[k].wf() && (forall|l: int|
                        cells@[k].domain.spec_has(l) <==> 0 <= l < 26),
            decreases total - i,
        {
            cells.push(Cell::new(false));
            i = i + 1;
        }
        Grid { width, height, cells }
    }

    /// Row-major index of (r, c), in range for the cell vector.
    pub fn get_index(&self, r: usize, c: usize) -> (idx: usize)
        requires
            self.wf(),
            r < self.height,
            c < self.width,
        ensures
            idx == self.spec_index(r as int, c as int),
            idx < self.cells@.len(),
    {
        let len = self.cells.len();
        proof {
            let rr = r as int;
            let cc = c as int;
            let w = self.width as int;
            let h = self.height as int;
            assert(rr * w + cc < w * h) by (nonlinear_arith)
                requires
                    rr < h && cc < w && 0 <= rr && 0 <= cc && 0 < w,
            ;
            assert(w * h == len as int);
        }
        r * self.width + c
    }

    /// The cell at (r, c).
    pub fn get_cell(&self, r: usize, c: usize) -> (cell: &Cell)
        requires
            self.wf(),
            r < self.height,
            c < self.width,
        ensures
            *cell == self.cells@[self.spec_index(r as int, c as int)],
    {
        let idx = self.get_index(r, c);
        &self.cells[idx]
    }

    /// Replaces the domain of the cell at (r, c), leaving everything else
    /// unchanged.
    pub fn set_domain(&mut self, r: usize, c: usize, d: Domain)
        requires
            old(self).wf(),
            r < old(self).height,
            c < old(self).width,
            d.wf(),
        ensures
            final(self).wf(),
            final(self).width == old(self).width,
            final(self).height == old(self).height,
            final(self).cells@ == old(self).cells@.update(
                old(self).spec_index(r as int, c as int),
                (Cell {
                    domain: d,
                    ..old(self).cells@[old(self).spec_index(r as int, c as int)]
                }),
            ),
    {
        let idx = self.get_index(r, c);
        let mut cell = self.cells[idx];
        cell.domain = d;
        self.cells.set(idx, cell);
    }

    /// Replaces the domain of the cell at a row-major index, leaving
    /// everything else unchanged.
    pub fn set_domain_at(&mut self, idx: usize, d: Domain)
        requires
            old(self).wf(),
            idx < old(self).cells@.len(),
            d.wf(),
        ensures
            final(self).wf(),
            final(self).width == old(self).width,
            final(self).height == old(self).height,
            final(self).cells@ == old(self).cells@.update(
                idx as int,
                (Cell { domain: d, ..old(self).cells@[idx as int] }),
            ),
    {
        let mut cell = self.cells[idx];
        cell.domain = d;
        self.cells.set(idx, cell);
    }

    /// Records a fixed letter on the cell at (r, c), leaving everything else
    /// unchanged.
    pub fn set_fixed(&mut self, r: usize, c: usize, ch: Option<char>)
        requires
            old(self).wf(),
            r < old(self).height,
            c < old(self).width,
        ensures
            final(self).wf(),
            final(self).width == old(self).width,
            final(self).height == old(self).height,
            final(self).cells@ == old(self).cells@.update(
                old(self).spec_index(r as int, c as int),
                (Cell {
                    fixed_char: ch,
                    ..old(self).cells@[old(self).spec_index(r as int, c as int)]
                }),
            ),
    {
        let idx = self.get_index(r, c);
        let mut cell = self.cells[idx];
        cell.fixed_char = ch;
        self.cells.set(idx, cell);
    }

    /// Marks (r, c) black or white, resetting its domain to empty or full
    /// accordingly.
    pub fn set_black(&mut self, r: usize, c: usize, is_black: bool)
        requires
            old(self).wf(),
            r < old(self).height,
            c < old(self).width,
        ensures
            final(self).wf(),
            final(self).width == old(self).width,
            final(self).height == old(self).height,
            final(self).cells@.len() == old(self).cells@.len(),
            forall|i: int|
                0 <= i < final(self).cells@.len() && i != old(self).spec_index(r as int, c as int)
                    ==> final(self).cells@[i] == old(self).cells@[i],
            ({
                let cell = final(self).cells@[old(self).spec_index(r as int, c as int)];
                &&& cell.is_black == is_black
                &&& cell.fixed_char == old(self).cells@[old(self).spec_index(
                    r as int,
                    c as int,
                )].fixed_char
                &&& forall|l: int| cell.domain.spec_has(l) <==> (!is_black && 0 <= l < 26)
            }),
    {
        let idx = self.get_index(r, c);
        let mut cell = self.cells[idx];
        cell.is_black = is_black;
        cell.domain = if is_black {
            Domain::empty()
        } else {
            Domain::full()
        };
        self.cells.set(idx, cell);
    }
}

/// Input record describing a grid: dimensions, wall positions, and fixed
/// letters.
#[derive(Clone, Debug)]
pub struct GridConfig {
    pub width: usize,
    pub height: usize,
    pub black_cells: Vec<(usize, usize)>,
    pub fixed_cells: Vec<(usize, usize, char)>,
}

} // verus!
