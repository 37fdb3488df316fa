//! The maze grid: a rectangular field of open and walled cells, stored
//! row-major, with coordinate-to-linear-index conversion.

use vstd::prelude::*;

verus! {

/// A rectangular maze. `tiles[row * cols + col]` is `true` for a wall and
/// `false` for an open, walkable cell.
#[derive(Debug, Clone, PartialEq)]
pub struct Maze {
    pub cols: usize,
    pub rows: usize,
    pub tiles: Vec<bool>,
}

impl Maze {
    /// The grid invariant: one tile per cell.
    pub open spec fn wf(&self) -> bool {
        self.tiles@.len() == self.cols * self.rows
    }

    /// Row-major linear index of a cell.
    pub open spec fn spec_index_of(&self, col: int, row: int) -> int {
        row * self.cols + col
    }

    pub open spec fn in_bounds(&self, col: int, row: int) -> bool {
        0 <= col < self.cols && 0 <= row < self.rows
    }

    /// The tile at a cell: `true` means wall.
    pub open spec fn tile_at(&self, col: int, row: int) -> bool {
        self.tiles@[self.spec_index_of(col, row)]
    }

    /// An in-bounds cell's linear index stays below the tile count.
    pub proof fn lemma_index_in_range(&self, col: int, row: int)
        requires
            self.wf(),
            self.in_bounds(col, row),
        ensures
            0 <= self.spec_index_of(col, row) < self.tiles@.len(),
    {
        assert(0 <= row * self.cols + col && row * self.cols + col < self.cols * self.rows)
            by (nonlinear_arith)
            requires
                0 <= col < self.cols,
                0 <= row < self.rows,
        ;
    }

    /// Distinct in-bounds cells have distinct linear indices.
    pub proof fn lemma_index_injective(&self, c1: int, r1: int, c2: int, r2: int)
        requires
            self.in_bounds(c1, r1),
            self.in_bounds(c2, r2),
            self.spec_index_of(c1, r1) == self.spec_index_of(c2, r2),
        ensures
            c1 == c2 && r1 == r2,
    {
        assert(c1 == c2 && r1 == r2) by (nonlinear_arith)
            requires
                0 <= c1 < self.cols,
                0 <= r1 < self.rows,
                0 <= c2 < self.cols,
                0 <= r2 < self.rows,
                r1 * self.cols + c1 == r2 * self.cols + c2,
        ;
    }

    /// Linear index of the cell at `(col, row)`, or `None` when either
    /// coordinate is out of bounds.
    pub fn get_index(&self, col: usize, row: usize) -> (r: Option<usize>)
        requires
            self.wf(),
        ensures
            r is Some <==> self.in_bounds(col as int, row as int),
            r is Some ==> r->Some_0 == self.spec_index_of(col as int, row as int),
    {
        if col >= self.cols || row >= self.rows {
            None
        } else {
            let _n: usize = self.tiles.len();
            proof {
                self.lemma_index_in_range(col as int, row as int);
            }
            Some(row * self.cols + col)
        }
    }

    /// Linear index and tile value of the cell at `(col, row)`, or `None`
    /// when either coordinate is out of bounds.
    pub fn get_index_with_tile(&self, col: usize, row: usize) -> (r: Option<(usize, bool)>)
        requires
            self.wf(),
        ensures
            r is Some <==> self.in_bounds(col as int, row as int),
            r is Some ==> r->Some_0.0 == self.spec_index_of(col as int, row as int)
                && r->Some_0.1 == self.tile_at(col as int, row as int),
    {
        if let Some(index) = self.get_index(col, row) {
            proof {
                self.lemma_index_in_range(col as int, row as int);
            }
            Some((index, self.tiles[index]))
        } else {
            None
        }
    }
}

} // verus!
