//! The puzzle grid: a fixed-size rectangle of cells in one flat,
//! row-major store, with row and column views over the same cells.

use vstd::prelude::*;

use crate::cell::Cell;
use crate::line::Line;
use crate::line::LineSize;
use crate::line::MAX_LINE_LEN;

verus! {

/// The flat index of cell (r, c) is within the store, for any cell of
/// an `nr` by `nc` grid.
proof fn lemma_flat_index(r: int, c: int, nr: int, nc: int)
    by (nonlinear_arith)
    requires
        0 <= r < nr,
        0 <= c < nc,
    ensures
        0 <= r * nc + c < nr * nc,
{
}

/// Distinct cells of the grid have distinct flat indices.
proof fn lemma_flat_index_injective(r1: int, c1: int, r2: int, c2: int, nc: int)
    by (nonlinear_arith)
    requires
        0 <= c1 < nc,
        0 <= c2 < nc,
        0 <= r1,
        0 <= r2,
        r1 * nc + c1 == r2 * nc + c2,
    ensures
        r1 == r2 && c1 == c2,
{
}

/// A rectangular grid of cells with fixed dimensions, stored row-major.
pub struct Grid {
    cells: Vec<Cell>,
    num_rows: LineSize,
    num_cols: LineSize,
}

impl Grid {
    /// The backing store, row-major.
    pub closed spec fn flat(&self) -> Seq<Cell> {
        self.cells@
    }

    /// The number of rows.
    pub closed spec fn rows_spec(&self) -> int {
        self.num_rows as int
    }

    /// The number of columns.
    pub closed spec fn cols_spec(&self) -> int {
        self.num_cols as int
    }

    /// The cell in row `r`, column `c`.
    pub open spec fn cell_at(&self, r: int, c: int) -> Cell {
        self.flat()[r * self.cols_spec() + c]
    }

    /// Row `r` as a sequence of cells.
    pub open spec fn row_view(&self, r: int) -> Seq<Cell> {
        Seq::new(self.cols_spec() as nat, |c: int| self.cell_at(r, c))
    }

    /// Column `c` as a sequence of cells.
    pub open spec fn col_view(&self, c: int) -> Seq<Cell> {
        Seq::new(self.rows_spec() as nat, |r: int| self.cell_at(r, c))
    }

    /// The store has exactly one cell per (row, column) pair, and both
    /// dimensions fit in a `LineSize`.
    pub open spec fn wf(&self) -> bool {
        &&& self.flat().len() == self.rows_spec() * self.cols_spec()
        &&& 0 <= self.rows_spec() <= MAX_LINE_LEN
        &&& 0 <= self.cols_spec() <= MAX_LINE_LEN
    }

    /// Every cell of the grid is decided.
    pub open spec fn solved(&self) -> bool {
        forall|j: int| 0 <= j < self.flat().len() ==> (#[trigger] self.flat()[j]).spec_is_solved()
    }

    /// A grid of the given dimensions, all cells unknown.
    pub fn new(num_rows: LineSize, num_cols: LineSize) -> (r: Grid)
        ensures
            r.wf(),
            r.rows_spec() == num_rows,
            r.cols_spec() == num_cols,
            forall|j: int| 0 <= j < r.flat().len() ==> (#[trigger] r.flat()[j]) is Unknown,
    {
        proof {
            assert(num_rows * num_cols <= MAX_LINE_LEN * MAX_LINE_LEN) by (nonlinear_arith)
                requires
                    0 <= num_rows <= MAX_LINE_LEN,
                    0 <= num_cols <= MAX_LINE_LEN,
            ;
        }
        let total = num_rows as usize * num_cols as usize;
        let mut cells: Vec<Cell> = Vec::new();
        let mut i: usize = 0;
        while i < total
            invariant
                i <= total,
                cells@.len() == i,
                forall|j: int| 0 <= j < i ==> (#[trigger] cells@[j]) is Unknown,
            decreases total - i,
        {
            cells.push(Cell::Unknown);
            i = i + 1;
        }
        Grid { cells, num_rows, num_cols }
    }

    /// The number of rows.
    pub fn num_rows(&self) -> (r: LineSize)
        ensures
            r == self.rows_spec(),
    {
        self.num_rows
    }

    /// The number of columns.
    pub fn num_cols(&self) -> (r: LineSize)
        ensures
            r == self.cols_spec(),
    {
        self.num_cols
    }

    /// One cell of the grid.
    pub fn get(&self, row: LineSize, col: LineSize) -> (r: Cell)
        requires
            self.wf(),
            row < self.rows_spec(),
            col < self.cols_spec(),
        ensures
            r == self.cell_at(row as int, col as int),
    {
        proof {
            lemma_flat_index(row as int, col as int, self.rows_spec(), self.cols_spec());
            assert((row as int) * self.cols_spec() + (col as int) < 0x1_0000_0000) by (nonlinear_arith)
                requires
                    0 <= (row as int) < self.rows_spec() <= MAX_LINE_LEN,
                    0 <= (col as int) < self.cols_spec() <= MAX_LINE_LEN,
            ;
        }
        self.cells[row as usize * self.num_cols as usize + col as usize]
    }

    /// Replaces one cell of the grid, leaving every other cell as it was.
    pub fn set(&mut self, row: LineSize, col: LineSize, cell: Cell)
        requires
            old(self).wf(),
            row < old(self).rows_spec(),
            col < old(self).cols_spec(),
        ensures
            final(self).wf(),
            final(self).rows_spec() == old(self).rows_spec(),
            final(self).cols_spec() == old(self).cols_spec(),
            final(self).cell_at(row as int, col as int) == cell,
            forall|r: int, c: int|
                0 <= r < old(self).rows_spec() && 0 <= c < old(self).cols_spec() && !(r == row
                    && c == col) ==> final(self).cell_at(r, c) == old(self).cell_at(r, c),
            final(self).flat() == old(self).flat().update(
                (row as int) * old(self).cols_spec() + (col as int),
                cell,
            ),
    {
        proof {
            lemma_flat_index(row as int, col as int, self.rows_spec(), self.cols_spec());
            assert((row as int) * self.cols_spec() + (col as int) < 0x1_0000_0000) by (nonlinear_arith)
                requires
                    0 <= (row as int) < self.rows_spec() <= MAX_LINE_LEN,
                    0 <= (col as int) < self.cols_spec() <= MAX_LINE_LEN,
            ;
        }
        let index = row as usize * self.num_cols as usize + col as usize;
        self.cells.set(index, cell);
        proof {
            assert forall|r: int, c: int|
                0 <= r < old(self).rows_spec() && 0 <= c < old(self).cols_spec() && !(r == row
                    && c == col) implies final(self).cell_at(r, c) == old(self).cell_at(r, c) by {
                lemma_flat_index(r, c, self.rows_spec(), self.cols_spec());
                if r * self.cols_spec() + c == index {
                    lemma_flat_index_injective(r, c, row as int, col as int, self.cols_spec());
                }
            }
        }
    }

    /// Whether every cell of the grid is decided.
    pub fn is_solved(&self) -> (r: bool)
        ensures
            r == self.solved(),
    {
        let n = self.cells.len();
        let mut i: usize = 0;
        while i < n
            invariant
                i <= n,
                n == self.flat().len(),
                forall|j: int| 0 <= j < i ==> (#[trigger] self.flat()[j]).spec_is_solved(),
            decreases n - i,
        {
            if !self.cells[i].is_solved() {
                return false;
            }
            i = i + 1;
        }
        true
    }

    /// A copy of row `row` as a line.
    pub fn row(&self, row: LineSize) -> (r: Line)
        requires
            self.wf(),
            row < self.rows_spec(),
        ensures
            r.wf(),
            r@ == self.row_view(row as int),
    {
        let nc = self.num_cols;
        let mut cells: Vec<Cell> = Vec::new();
        let mut c: usize = 0;
        while c < nc as usize
            invariant
                c <= nc,
                nc == self.cols_spec(),
                self.wf(),
                row < self.rows_spec(),
                cells@.len() == c,
                forall|t: int| 0 <= t < c ==> #[trigger] cells@[t] == self.cell_at(row as int, t),
            decreases nc - c,
        {
            cells.push(self.get(row, c as LineSize));
            c = c + 1;
        }
        let r = Line::new(cells);
        proof {
            assert(r@ =~= self.row_view(row as int));
        }
        r
    }

    /// A copy of column `col` as a line.
    pub fn col(&self, col: LineSize) -> (r: Line)
        requires
            self.wf(),
            col < self.cols_spec(),
        ensures
            r.wf(),
            r@ == self.col_view(col as int),
    {
        let nr = self.num_rows;
        let mut cells: Vec<Cell> = Vec::new();
        let mut row: usize = 0;
        while row < nr as usize
            invariant
                row <= nr,
                nr == self.rows_spec(),
                self.wf(),
                col < self.cols_spec(),
                cells@.len() == row,
                forall|t: int| 0 <= t < row ==> #[trigger] cells@[t] == self.cell_at(t, col as int),
            decreases nr - row,
        {
            cells.push(self.get(row as LineSize, col));
            row = row + 1;
        }
        let r = Line::new(cells);
        proof {
            assert(r@ =~= self.col_view(col as int));
        }
        r
    }

    /// Writes a whole row back into the grid, cell by cell.
    pub fn set_row(&mut self, row: LineSize, line: &Line)
        requires
            old(self).wf(),
            row < old(self).rows_spec(),
            line@.len() == old(self).cols_spec(),
        ensures
            final(self).wf(),
            final(self).rows_spec() == old(self).rows_spec(),
            final(self).cols_spec() == old(self).cols_spec(),
            final(self).row_view(row as int) == line@,
            forall|r: int, c: int|
                0 <= r < old(self).rows_spec() && 0 <= c < old(self).cols_spec() && r != row
                    ==> final(self).cell_at(r, c) == old(self).cell_at(r, c),
    {
        let nc = self.num_cols;
        let mut c: usize = 0;
        while c < nc as usize
            invariant
                c <= nc,
                nc == self.cols_spec(),
                self.wf(),
                self.rows_spec() == old(self).rows_spec(),
                self.cols_spec() == old(self).cols_spec(),
                row < self.rows_spec(),
                line@.len() == self.cols_spec(),
                forall|t: int| 0 <= t < c ==> self.cell_at(row as int, t) == line@[t],
                forall|r: int, t: int|
                    0 <= r < self.rows_spec() && 0 <= t < self.cols_spec() && r != row
                        ==> self.cell_at(r, t) == old(self).cell_at(r, t),
                forall|t: int|
                    c <= t < self.cols_spec() ==> self.cell_at(row as int, t) == old(
                        self,
                    ).cell_at(row as int, t),
            decreases nc - c,
        {
            self.set(row, c as LineSize, line.get(c as LineSize));
            c = c + 1;
        }
        proof {
            assert(final(self).row_view(row as int) =~= line@);
        }
    }

    /// Writes a whole column back into the grid, cell by cell.
    pub fn set_col(&mut self, col: LineSize, line: &Line)
        requires
            old(self).wf(),
            col < old(self).cols_spec(),
            line@.len() == old(self).rows_spec(),
        ensures
            final(self).wf(),
            final(self).rows_spec() == old(self).rows_spec(),
            final(self).cols_spec() == old(self).cols_spec(),
            final(self).col_view(col as int) == line@,
            forall|r: int, c: int|
                0 <= r < old(self).rows_spec() && 0 <= c < old(self).cols_spec() && c != col
                    ==> final(self).cell_at(r, c) == old(self).cell_at(r, c),
    {
        let nr = self.num_rows;
        let mut row: usize = 0;
        while row < nr as usize
            invariant
                row <= nr,
                nr == self.rows_spec(),
                self.wf(),
                self.rows_spec() == old(self).rows_spec(),
                self.cols_spec() == old(self).cols_spec(),
                col < self.cols_spec(),
                line@.len() == self.rows_spec(),
                forall|t: int| 0 <= t < row ==> self.cell_at(t, col as int) == line@[t],
                forall|t: int, c: int|
                    0 <= t < self.rows_spec() && 0 <= c < self.cols_spec() && c != col
                        ==> self.cell_at(t, c) == old(self).cell_at(t, c),
                forall|t: int|
                    row <= t < self.rows_spec() ==> self.cell_at(t, col as int) == old(
                        self,
                    ).cell_at(t, col as int),
            decreases nr - row,
        {
            self.set(row as LineSize, col, line.get(row as LineSize));
            row = row + 1;
        }
        proof {
            assert(final(self).col_view(col as int) =~= line@);
        }
    }
}

} // verus!
