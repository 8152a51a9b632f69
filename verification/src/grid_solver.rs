//! The grid-level scheduler: repeatedly re-solves dirty rows and
//! columns, writes forced cells back, and reports progress as a pull
//! stream of events.

use vstd::prelude::*;

use crate::cell::Cell;
use crate::clues::Clues;
use crate::clues::CluesLine;
use crate::grid::Grid;
use crate::line::Line;
use crate::line::LineSize;
use crate::line_solver::lemma_line_fixed_unfold;
use crate::line_solver::lemma_line_solution_idempotent;
use crate::line_solver::line_fixed;
use crate::line_solver::line_solution;
use crate::line_solver::lemma_line_solution_monotone;
use crate::line_solver::LineSolver;
use crate::placement::admits;
use crate::placement::cell_refines;
use crate::placement::covered;
use crate::placement::forced_empty;
use crate::placement::forced_filled;
use crate::placement::lemma_admits_weaken;
use crate::placement::lemma_solved_line_exact;
use crate::placement::lemma_suffix_pointwise;
use crate::placement::satisfiable;

verus! {

/// Column `c` of a grid given as its rows.
pub open spec fn col_of(f: Seq<Seq<Cell>>, c: int) -> Seq<Cell> {
    Seq::new(f.len(), |r: int| f[r][c])
}

/// `f`, given as its rows, is a complete solution: every cell decided,
/// every row and every column consistent with its clue sequence.
pub open spec fn solution_ok(f: Seq<Seq<Cell>>, rows_cl: Seq<Seq<u16>>, cols_cl: Seq<Seq<u16>>) -> bool {
    &&& f.len() == rows_cl.len()
    &&& forall|r: int| 0 <= r < f.len() ==> (#[trigger] f[r]).len() == cols_cl.len()
    &&& forall|r: int, c: int|
        0 <= r < f.len() && 0 <= c < cols_cl.len() ==> (#[trigger] f[r][c]).spec_is_solved()
    &&& forall|r: int|
        0 <= r < f.len() ==> exists|starts: Seq<u16>|
            admits(#[trigger] f[r], rows_cl[r], starts)
    &&& forall|c: int|
        0 <= c < cols_cl.len() ==> exists|starts: Seq<u16>|
            admits(#[trigger] col_of(f, c), cols_cl[c], starts)
}

/// Scan position `p` of a grid with the given dirty flags needs no
/// work: its line is clean or solved (rows come first, then columns).
spec fn pos_ok_at(grid: Grid, rows_ch: Seq<bool>, cols_ch: Seq<bool>, p: int) -> bool {
    if p < grid.rows_spec() {
        !rows_ch[p] || crate::line::line_solved(grid.row_view(p))
    } else {
        !cols_ch[p - grid.rows_spec()] || crate::line::line_solved(
            grid.col_view(p - grid.rows_spec()),
        )
    }
}

/// `f` agrees with every cell of the grid that is already decided.
pub open spec fn extends_grid(f: Seq<Seq<Cell>>, g: Grid) -> bool {
    forall|r: int, c: int|
        0 <= r < g.rows_spec() && 0 <= c < g.cols_spec() && (#[trigger] g.cell_at(
            r,
            c,
        )).spec_is_solved() ==> f[r][c] == g.cell_at(r, c)
}

/// Counters of how much work the solver has done so far.
#[derive(Clone, Copy, Debug)]
pub struct GridSolverStats {
    /// Completed sweeps over all rows and columns.
    pub grid_iterations: u64,
    /// Completed single-line solving passes.
    pub line_iterations: u64,
}

impl GridSolverStats {
    /// Counters at zero.
    pub fn new() -> (r: GridSolverStats)
        ensures
            r.grid_iterations == 0,
            r.line_iterations == 0,
    {
        GridSolverStats { grid_iterations: 0, line_iterations: 0 }
    }
}

/// Adds one, stopping at the counter's ceiling.
fn bump(counter: u64) -> (r: u64)
    ensures
        counter < u64::MAX ==> r == counter + 1,
        counter == u64::MAX ==> r == counter,
{
    if counter < u64::MAX {
        counter + 1
    } else {
        counter
    }
}

/// One step of progress reported by the solver.
#[derive(Clone, Copy, Debug, PartialEq, Eq, Structural)]
pub enum GridSolverEvent {
    /// Deduction on a row begins.
    StartRow(LineSize),
    /// Deduction on a column begins.
    StartCol(LineSize),
    /// The cell at (row, column) was forced and written with the value.
    SolvedCell(LineSize, LineSize, Cell),
    /// Every cell of the grid is decided.
    SolvedGrid,
    /// A line contradicts its clues: the puzzle as given has no
    /// solution, and the session ends.
    Failed,
}

enum State {
    Scanning,
    Solving(LineSize),
    Complete,
}

/// Owns a grid and its clues and drives single-line deduction to a
/// fixpoint, one event per call to `next`.
pub struct GridSolver {
    grid: Grid,
    clues: Clues,
    stats: GridSolverStats,
    changed_rows: Vec<bool>,
    changed_cols: Vec<bool>,
    line_solver: Option<LineSolver>,
    state: State,
    vertical: bool,
    index: LineSize,
    index_changed: bool,
    failed: bool,
}

impl GridSolver {
    /// The grid in its current state.
    pub closed spec fn grid_spec(&self) -> Grid {
        self.grid
    }

    /// The row clue sequences.
    pub closed spec fn rows_cl(&self) -> Seq<Seq<u16>> {
        self.clues.rows_view()
    }

    /// The column clue sequences.
    pub closed spec fn cols_cl(&self) -> Seq<Seq<u16>> {
        self.clues.cols_view()
    }

    /// Whether the solver has hit a contradiction.
    pub closed spec fn has_failed(&self) -> bool {
        self.failed
    }

    /// Whether the solver is done (solved, stalled, or failed).
    pub closed spec fn is_complete(&self) -> bool {
        self.state is Complete
    }

    /// Whether the line currently selected is a column.
    pub closed spec fn on_column(&self) -> bool {
        self.vertical
    }

    /// The index of the line currently selected.
    pub closed spec fn line_index(&self) -> int {
        self.index as int
    }

    /// How many cells of the line being solved have been dealt with;
    /// zero while no line is being solved.
    pub closed spec fn cell_cursor(&self) -> int {
        if self.state is Solving {
            self.state->Solving_0 as int
        } else {
            0
        }
    }

    /// The dirty flag of row `r`.
    pub closed spec fn row_changed(&self, r: int) -> bool {
        self.changed_rows@[r]
    }

    /// The dirty flag of column `c`.
    pub closed spec fn col_changed(&self, c: int) -> bool {
        self.changed_cols@[c]
    }

    /// The clue sequence of the line currently selected.
    spec fn cur_clues(&self) -> Seq<u16> {
        if self.vertical {
            self.cols_cl()[self.index as int]
        } else {
            self.rows_cl()[self.index as int]
        }
    }

    /// The current contents of the line currently selected.
    spec fn cur_line(&self) -> Seq<Cell> {
        if self.vertical {
            self.grid.col_view(self.index as int)
        } else {
            self.grid.row_view(self.index as int)
        }
    }

    /// The linear scan position: rows first, then columns.
    spec fn lin(&self) -> int {
        if self.vertical {
            self.grid.rows_spec() + self.index as int
        } else {
            self.index as int
        }
    }

    /// The scan position points at an existing line.
    spec fn at_line(&self) -> bool {
        if self.vertical {
            (self.index as int) < self.grid.cols_spec()
        } else {
            (self.index as int) < self.grid.rows_spec()
        }
    }

    /// Scan position `p` needs no work: its line is clean or solved.
    spec fn pos_ok(&self, p: int) -> bool {
        pos_ok_at(self.grid, self.changed_rows@, self.changed_cols@, p)
    }

    /// The solver's invariant apart from the line solver's state.
    spec fn wf_base(&self) -> bool {
        &&& self.grid.wf()
        &&& self.clues.wf()
        &&& self.rows_cl().len() == self.grid.rows_spec()
        &&& self.cols_cl().len() == self.grid.cols_spec()
        &&& self.changed_rows@.len() == self.grid.rows_spec()
        &&& self.changed_cols@.len() == self.grid.cols_spec()
        &&& (self.vertical ==> self.index as int <= self.grid.cols_spec() && (self.grid.cols_spec()
            > 0 ==> (self.index as int) < self.grid.cols_spec()))
        &&& (!self.vertical ==> self.index as int <= self.grid.rows_spec() && (
        self.grid.rows_spec() > 0 ==> (self.index as int) < self.grid.rows_spec()))
        // normal operation never stores a contradiction cell
        &&& forall|j: int|
            0 <= j < self.grid.flat().len() ==> !((#[trigger] self.grid.flat()[j]) is Error)
        // a clean line really is done: deduction would change nothing
        &&& forall|p: int|
            0 <= p < self.grid.rows_spec() && !self.row_changed(p) ==> line_fixed(
                #[trigger] self.grid.row_view(p),
                self.rows_cl()[p],
            )
        &&& forall|p: int|
            0 <= p < self.grid.cols_spec() && !self.col_changed(p) ==> line_fixed(
                #[trigger] self.grid.col_view(p),
                self.cols_cl()[p],
            )
    }

    /// The solver's invariant.
    pub closed spec fn wf(&self) -> bool {
        &&& self.wf_base()
        &&& (self.state matches State::Solving(cursor) ==> {
            &&& self.line_solver is Some
            &&& self.pos_ok_flag()
            &&& {
                let ls = self.line_solver->Some_0;
                &&& ls.wf()
                &&& ls.clue_list() == self.cur_clues()
                &&& ls.cursor() == cursor
                &&& ls.committed() == self.cur_line()
                &&& (self.vertical ==> (self.index as int) < self.grid.cols_spec())
                &&& (!self.vertical ==> (self.index as int) < self.grid.rows_spec())
            }
        })
    }

    /// Builds a solver that owns the grid and the clues.  The clue
    /// counts must match the grid's dimensions, the grid must hold no
    /// contradiction cell, and every line starts dirty.
    pub fn new(grid: Grid, clues: Clues) -> (r: GridSolver)
        requires
            grid.wf(),
            clues.wf(),
            clues.rows_view().len() == grid.rows_spec(),
            clues.cols_view().len() == grid.cols_spec(),
            forall|j: int| 0 <= j < grid.flat().len() ==> !((#[trigger] grid.flat()[j]) is Error),
        ensures
            r.wf(),
            r.grid_spec() == grid,
            r.clues_spec() == clues,
            r.rows_cl() == clues.rows_view(),
            r.cols_cl() == clues.cols_view(),
            !r.is_complete(),
            !r.has_failed(),
            forall|p: int| 0 <= p < grid.rows_spec() ==> r.row_changed(p),
            forall|p: int| 0 <= p < grid.cols_spec() ==> r.col_changed(p),
            r.stats_spec().grid_iterations == 0,
            r.stats_spec().line_iterations == 0,
    {
        let nr = grid.num_rows();
        let nc = grid.num_cols();
        let mut changed_rows: Vec<bool> = Vec::new();
        let mut i: usize = 0;
        while i < nr as usize
            invariant
                i <= nr,
                changed_rows@.len() == i,
                forall|p: int| 0 <= p < i ==> changed_rows@[p],
            decreases nr - i,
        {
            changed_rows.push(true);
            i = i + 1;
        }
        let mut changed_cols: Vec<bool> = Vec::new();
        let mut j: usize = 0;
        while j < nc as usize
            invariant
                j <= nc,
                changed_cols@.len() == j,
                forall|p: int| 0 <= p < j ==> changed_cols@[p],
            decreases nc - j,
        {
            changed_cols.push(true);
            j = j + 1;
        }
        GridSolver {
            grid,
            clues,
            stats: GridSolverStats::new(),
            changed_rows,
            changed_cols,
            line_solver: None,
            state: State::Scanning,
            vertical: false,
            index: 0,
            index_changed: true,
            failed: false,
        }
    }

    /// Tears the solver down, handing the clues and the grid back.
    pub fn release(self) -> (r: (Clues, Grid))
        ensures
            r.0 == self.clues_spec(),
            r.1 == self.grid_spec(),
    {
        (self.clues, self.grid)
    }

    /// The clue set.
    pub closed spec fn clues_spec(&self) -> Clues {
        self.clues
    }

    /// The clue set, read-only.
    pub fn clues(&self) -> (r: &Clues)
        ensures
            r == self.clues_spec(),
    {
        &self.clues
    }

    /// The grid in its current state, read-only.
    pub fn grid(&self) -> (r: &Grid)
        ensures
            r == self.grid_spec(),
    {
        &self.grid
    }

    /// The work counters so far.
    pub closed spec fn stats_spec(&self) -> GridSolverStats {
        self.stats
    }

    /// The work counters so far, read-only.
    pub fn stats(&self) -> (r: &GridSolverStats)
        ensures
            r == self.stats_spec(),
    {
        &self.stats
    }

    /// Tears the solver down, handing back the grid and the counters.
    pub fn end(self) -> (r: (Grid, GridSolverStats))
        ensures
            r.0 == self.grid_spec(),
            r.1 == self.stats_spec(),
    {
        (self.grid, self.stats)
    }

    /// The dirty flag of the line currently selected.
    fn get_line_changed(&self) -> (r: bool)
        requires
            self.wf(),
            self.at_line(),
        ensures
            r == self.pos_ok_flag(),
    {
        if !self.vertical {
            self.changed_rows[self.index as usize]
        } else {
            self.changed_cols[self.index as usize]
        }
    }

    /// The dirty flag at the current scan position.
    spec fn pos_ok_flag(&self) -> bool {
        if self.vertical {
            self.col_changed(self.index as int)
        } else {
            self.row_changed(self.index as int)
        }
    }

    /// Clears the dirty flag of the line currently selected, which must
    /// already be at its deduction fixpoint.
    fn unset_line_changed(&mut self)
        requires
            old(self).wf(),
            old(self).at_line(),
            !(old(self).state is Solving),
            line_fixed(old(self).cur_line(), old(self).cur_clues()),
        ensures
            final(self).wf(),
            !final(self).pos_ok_flag(),
            final(self).grid == old(self).grid,
            final(self).clues == old(self).clues,
            final(self).state == old(self).state,
            final(self).line_solver == old(self).line_solver,
            final(self).vertical == old(self).vertical,
            final(self).index == old(self).index,
            final(self).index_changed == old(self).index_changed,
            final(self).failed == old(self).failed,
            final(self).stats == old(self).stats,
            final(self).vertical ==> final(self).changed_rows == old(self).changed_rows
                && final(self).changed_cols@ == old(self).changed_cols@.update(
                old(self).index as int,
                false,
            ),
            !final(self).vertical ==> final(self).changed_cols == old(self).changed_cols
                && final(self).changed_rows@ == old(self).changed_rows@.update(
                old(self).index as int,
                false,
            ),
    {
        let ghost pre = *self;
        if !self.vertical {
            self.changed_rows.set(self.index as usize, false);
        } else {
            self.changed_cols.set(self.index as usize, false);
        }
        proof {
            assert forall|p: int|
                0 <= p < self.grid.rows_spec() && !self.row_changed(p) implies line_fixed(
                #[trigger] self.grid.row_view(p),
                self.rows_cl()[p],
            ) by {
                if pre.vertical || p != pre.index {
                    assert(pre.row_changed(p) == self.row_changed(p));
                }
            }
            assert forall|p: int|
                0 <= p < self.grid.cols_spec() && !self.col_changed(p) implies line_fixed(
                #[trigger] self.grid.col_view(p),
                self.cols_cl()[p],
            ) by {
                if !pre.vertical || p != pre.index {
                    assert(pre.col_changed(p) == self.col_changed(p));
                }
            }
        }
    }

    /// The clue sequence of the line currently selected.
    fn get_clues(&self) -> (r: &CluesLine)
        requires
            self.wf(),
            self.at_line(),
        ensures
            r@ == self.cur_clues(),
    {
        if !self.vertical {
            self.clues.row(self.index)
        } else {
            self.clues.col(self.index)
        }
    }

    /// A copy of the line currently selected.
    fn get_line(&self) -> (r: Line)
        requires
            self.wf(),
            self.at_line(),
        ensures
            r.wf(),
            r@ == self.cur_line(),
    {
        if !self.vertical {
            self.grid.row(self.index)
        } else {
            self.grid.col(self.index)
        }
    }

    /// Steps the scan to the next line, wrapping from the last row to
    /// the first column and from the last column back to the first row;
    /// a completed pair of sweeps bumps the sweep counter.
    fn advance(&mut self)
        requires
            old(self).wf(),
            old(self).state is Scanning,
            old(self).grid.rows_spec() > 0,
            old(self).grid.cols_spec() > 0,
            old(self).at_line(),
        ensures
            final(self).wf(),
            final(self).grid == old(self).grid,
            final(self).clues == old(self).clues,
            final(self).changed_rows == old(self).changed_rows,
            final(self).changed_cols == old(self).changed_cols,
            final(self).state == old(self).state,
            final(self).line_solver == old(self).line_solver,
            final(self).failed == old(self).failed,
            final(self).index_changed,
            final(self).stats.grid_iterations >= old(self).stats.grid_iterations,
            final(self).stats.line_iterations == old(self).stats.line_iterations,
            final(self).lin() == (if old(self).lin() + 1 < old(self).grid.rows_spec() + old(
                self,
            ).grid.cols_spec() {
                old(self).lin() + 1
            } else {
                0
            }),
    {
        let max_index = if !self.vertical {
            self.grid.num_rows()
        } else {
            self.grid.num_cols()
        };
        self.index = self.index + 1;
        if self.index == max_index {
            if self.vertical {
                self.stats.grid_iterations = bump(self.stats.grid_iterations);
            }
            self.vertical = !self.vertical;
            self.index = 0;
        }
        self.index_changed = true;
    }

    /// One cell of the line currently selected.
    fn get_cell(&self, cell_index: LineSize) -> (r: Cell)
        requires
            self.wf_base(),
            self.at_line(),
            cell_index < self.cur_line().len(),
        ensures
            r == self.cur_line()[cell_index as int],
    {
        if !self.vertical {
            self.grid.get(self.index, cell_index)
        } else {
            self.grid.get(cell_index, self.index)
        }
    }

    /// Writes one decided cell of the line currently selected (itself
    /// still dirty) and marks the crossing line dirty.
    fn set_cell(&mut self, cell_index: LineSize, cell: Cell)
        requires
            old(self).wf_base(),
            old(self).at_line(),
            old(self).pos_ok_flag(),
            cell_index < old(self).cur_line().len(),
            cell.spec_is_solved(),
        ensures
            final(self).wf_base(),
            final(self).clues == old(self).clues,
            final(self).state == old(self).state,
            final(self).line_solver == old(self).line_solver,
            final(self).vertical == old(self).vertical,
            final(self).index == old(self).index,
            final(self).index_changed == old(self).index_changed,
            final(self).failed == old(self).failed,
            final(self).stats == old(self).stats,
            final(self).grid.rows_spec() == old(self).grid.rows_spec(),
            final(self).grid.cols_spec() == old(self).grid.cols_spec(),
            final(self).cur_line() == old(self).cur_line().update(cell_index as int, cell),
            final(self).grid.cell_at(final(self).write_row(cell_index) as int, final(self).write_col(cell_index) as int) == cell,
            forall|r: int, c: int|
                0 <= r < old(self).grid.rows_spec() && 0 <= c < old(self).grid.cols_spec() && !(r
                    == final(self).write_row(cell_index) && c == final(self).write_col(cell_index))
                    ==> final(self).grid.cell_at(r, c) == old(self).grid.cell_at(r, c),
            !old(self).vertical ==> final(self).changed_rows == old(self).changed_rows
                && final(self).changed_cols@ == old(self).changed_cols@.update(
                cell_index as int,
                true,
            ),
            old(self).vertical ==> final(self).changed_cols == old(self).changed_cols
                && final(self).changed_rows@ == old(self).changed_rows@.update(
                cell_index as int,
                true,
            ),
    {
        let ghost pre = *self;
        if !self.vertical {
            self.grid.set(self.index, cell_index, cell);
            self.changed_cols.set(cell_index as usize, true);
            proof {
                assert forall|j: int|
                    0 <= j < self.grid.flat().len() implies !((#[trigger] self.grid.flat()[j])
                    is Error) by {
                    let idx = (pre.index as int) * pre.grid.cols_spec() + (cell_index as int);
                    assert(0 <= idx < pre.grid.flat().len()) by (nonlinear_arith)
                        requires
                            0 <= (pre.index as int) < pre.grid.rows_spec(),
                            0 <= (cell_index as int) < pre.grid.cols_spec(),
                            pre.grid.flat().len() == pre.grid.rows_spec() * pre.grid.cols_spec(),
                            idx == (pre.index as int) * pre.grid.cols_spec() + (cell_index as int),
                    ;
                    assert(self.grid.flat() == pre.grid.flat().update(idx, cell));
                    if j != idx {
                        assert(pre.grid.flat()[j] == self.grid.flat()[j]);
                    }
                }
            }
        } else {
            self.grid.set(cell_index, self.index, cell);
            self.changed_rows.set(cell_index as usize, true);
            proof {
                assert forall|j: int|
                    0 <= j < self.grid.flat().len() implies !((#[trigger] self.grid.flat()[j])
                    is Error) by {
                    let idx = (cell_index as int) * pre.grid.cols_spec() + (pre.index as int);
                    assert(0 <= idx < pre.grid.flat().len()) by (nonlinear_arith)
                        requires
                            0 <= (cell_index as int) < pre.grid.rows_spec(),
                            0 <= (pre.index as int) < pre.grid.cols_spec(),
                            pre.grid.flat().len() == pre.grid.rows_spec() * pre.grid.cols_spec(),
                            idx == (cell_index as int) * pre.grid.cols_spec() + (pre.index as int),
                    ;
                    assert(self.grid.flat() == pre.grid.flat().update(idx, cell));
                    if j != idx {
                        assert(pre.grid.flat()[j] == self.grid.flat()[j]);
                    }
                }
            }
        }
        proof {
            assert(self.cur_line() =~= pre.cur_line().update(cell_index as int, cell));
            let wr = self.write_row(cell_index) as int;
            let wc = self.write_col(cell_index) as int;
            assert forall|p: int|
                0 <= p < self.grid.rows_spec() && !self.row_changed(p) implies line_fixed(
                #[trigger] self.grid.row_view(p),
                self.rows_cl()[p],
            ) by {
                assert(p != wr);
                assert(self.grid.row_view(p) =~= pre.grid.row_view(p));
                assert(pre.row_changed(p) == self.row_changed(p));
            }
            assert forall|p: int|
                0 <= p < self.grid.cols_spec() && !self.col_changed(p) implies line_fixed(
                #[trigger] self.grid.col_view(p),
                self.cols_cl()[p],
            ) by {
                assert(p != wc);
                assert(self.grid.col_view(p) =~= pre.grid.col_view(p));
                assert(pre.col_changed(p) == self.col_changed(p));
            }
        }
    }

    /// The grid row a write into the current line at `cell_index` lands in.
    spec fn write_row(&self, cell_index: LineSize) -> LineSize {
        if self.vertical {
            cell_index
        } else {
            self.index
        }
    }

    /// The grid column a write into the current line at `cell_index` lands in.
    spec fn write_col(&self, cell_index: LineSize) -> LineSize {
        if self.vertical {
            self.index
        } else {
            cell_index
        }
    }
    /// A cell forced by a line's current knowledge agrees with any
    /// complete solution of that line that extends the knowledge.
    proof fn lemma_solution_respects_forced(
        lf: Seq<Cell>,
        committed: Seq<Cell>,
        cl: Seq<u16>,
        origin: Seq<Cell>,
        j: int,
    )
        requires
            crate::line::line_solved(lf),
            exists|starts: Seq<u16>| admits(lf, cl, starts),
            lf.len() == committed.len(),
            forall|t: int|
                0 <= t < committed.len() && (#[trigger] committed[t]).spec_is_solved() ==> lf[t]
                    == committed[t],
            forall|starts: Seq<u16>|
                admits(committed, cl, starts) <==> #[trigger] admits(origin, cl, starts),
            satisfiable(origin, cl),
            0 <= j < lf.len(),
        ensures
            forced_filled(origin, cl, j) ==> lf[j] is Filled,
            forced_empty(origin, cl, j) ==> lf[j] is Empty,
    {
        let s = choose|starts: Seq<u16>| admits(lf, cl, starts);
        let w = choose|starts: Seq<u16>| admits(origin, cl, starts);
        assert(admits(committed, cl, w));
        lemma_suffix_pointwise(committed, cl, 0, w);
        assert forall|t: int| 0 <= t < lf.len() implies cell_refines(
            #[trigger] lf[t],
            committed[t],
        ) by {
            if !committed[t].spec_is_solved() && committed[t] is Error {
                if covered(cl, w, t) {
                    assert(committed[t].spec_can_fill());
                } else {
                    assert(committed[t].spec_can_empty());
                }
            }
        }
        lemma_admits_weaken(lf, committed, cl, s);
        assert(admits(origin, cl, s));
        lemma_solved_line_exact(lf, cl, s);
        if forced_filled(origin, cl, j) {
            assert(covered(cl, s, j));
        }
        if forced_empty(origin, cl, j) {
            assert(!covered(cl, s, j));
        }
    }

    /// A complete solution line extending the grid's knowledge of a
    /// line keeps that line satisfiable.
    proof fn lemma_solution_line_satisfiable(lf: Seq<Cell>, gline: Seq<Cell>, cl: Seq<u16>)
        requires
            crate::line::line_solved(lf),
            exists|starts: Seq<u16>| admits(lf, cl, starts),
            lf.len() == gline.len(),
            forall|t: int|
                0 <= t < gline.len() && (#[trigger] gline[t]).spec_is_solved() ==> lf[t]
                    == gline[t],
            forall|t: int| 0 <= t < gline.len() ==> !((#[trigger] gline[t]) is Error),
        ensures
            satisfiable(gline, cl),
    {
        let s = choose|starts: Seq<u16>| admits(lf, cl, starts);
        assert forall|t: int| 0 <= t < lf.len() implies cell_refines(
            #[trigger] lf[t],
            gline[t],
        ) by {}
        lemma_admits_weaken(lf, gline, cl, s);
        assert(admits(gline, cl, s));
    }

    /// When the line currently selected contradicts its clues, no
    /// complete solution extends the grid at all.
    proof fn lemma_no_solution_at_contradiction(s: GridSolver)
        requires
            s.wf_base(),
            s.at_line(),
            !satisfiable(s.cur_line(), s.cur_clues()),
        ensures
            forall|f: Seq<Seq<Cell>>|
                !(#[trigger] solution_ok(f, s.rows_cl(), s.cols_cl()) && extends_grid(
                    f,
                    s.grid_spec(),
                )),
    {
        let rows = s.grid.rows_spec();
        let cols = s.grid.cols_spec();
        assert forall|f: Seq<Seq<Cell>>|
            !(#[trigger] solution_ok(f, s.rows_cl(), s.cols_cl()) && extends_grid(
                f,
                s.grid_spec(),
            )) by {
            if solution_ok(f, s.rows_cl(), s.cols_cl()) && extends_grid(f, s.grid_spec()) {
                let idx = s.index as int;
                let lf = if s.vertical {
                    col_of(f, idx)
                } else {
                    f[idx]
                };
                let gline = s.cur_line();
                let cl = s.cur_clues();
                assert(crate::line::line_solved(lf)) by {
                    if s.vertical {
                        assert forall|t: int| 0 <= t < lf.len() implies (
                        #[trigger] lf[t]).spec_is_solved() by {
                            assert(f[t][idx].spec_is_solved());
                        }
                    }
                }
                assert(exists|starts: Seq<u16>| admits(lf, cl, starts));
                assert(lf.len() == gline.len());
                assert forall|t: int|
                    0 <= t < gline.len() && (#[trigger] gline[t]).spec_is_solved() implies lf[t]
                    == gline[t] by {
                    if s.vertical {
                        assert(s.grid.cell_at(t, idx) == gline[t]);
                    } else {
                        assert(s.grid.cell_at(idx, t) == gline[t]);
                    }
                }
                assert forall|t: int|
                    0 <= t < gline.len() implies !((#[trigger] gline[t]) is Error) by {
                    if s.vertical {
                        assert(0 <= t * cols + idx < s.grid.flat().len()) by (nonlinear_arith)
                            requires
                                0 <= t < rows,
                                0 <= idx < cols,
                                s.grid.flat().len() == rows * cols,
                        ;
                        assert(!(s.grid.flat()[t * cols + idx] is Error));
                    } else {
                        assert(0 <= idx * cols + t < s.grid.flat().len()) by (nonlinear_arith)
                            requires
                                0 <= idx < rows,
                                0 <= t < cols,
                                s.grid.flat().len() == rows * cols,
                        ;
                        assert(!(s.grid.flat()[idx * cols + t] is Error));
                    }
                }
                Self::lemma_solution_line_satisfiable(lf, gline, cl);
            }
        }
    }

    /// Pulls deduced cells from the current line solver and applies the
    /// first one that changes the grid, marking the crossing line dirty;
    /// yields the written cell's grid position, or `None` once the line
    /// is exhausted without a further change.
    #[verifier::rlimit(100)]
    #[verifier::spinoff_prover]
    fn drain(&mut self) -> (r: Option<(LineSize, LineSize, Cell)>)
        requires
            old(self).wf(),
            old(self).state is Solving,
        ensures
            final(self).wf(),
            final(self).clues == old(self).clues,
            final(self).grid.rows_spec() == old(self).grid.rows_spec(),
            final(self).grid.cols_spec() == old(self).grid.cols_spec(),
            final(self).vertical == old(self).vertical,
            final(self).index == old(self).index,
            final(self).index_changed == old(self).index_changed,
            final(self).failed == old(self).failed,
            final(self).stats == old(self).stats,
            final(self).state is Solving,
            final(self).at_line(),
            forall|rr: int, cc: int|
                0 <= rr < old(self).grid.rows_spec() && 0 <= cc < old(self).grid.cols_spec()
                    && old(self).grid.cell_at(rr, cc).spec_is_solved()
                    ==> final(self).grid.cell_at(rr, cc) == old(self).grid.cell_at(rr, cc),
            forall|f: Seq<Seq<Cell>>|
                #[trigger] solution_ok(f, old(self).rows_cl(), old(self).cols_cl())
                    && extends_grid(f, old(self).grid_spec())
                    ==> extends_grid(f, final(self).grid_spec()),
            r matches Some((rr, cc, v)) ==> {
                &&& rr < final(self).grid.rows_spec()
                &&& cc < final(self).grid.cols_spec()
                &&& final(self).grid.cell_at(rr as int, cc as int) == v
                &&& v.spec_is_solved()
                &&& old(self).grid.cell_at(rr as int, cc as int) is Unknown
                &&& (old(self).vertical ==> cc == old(self).index && final(self).cell_cursor()
                    == rr + 1 && rr >= old(self).cell_cursor())
                &&& (!old(self).vertical ==> rr == old(self).index && final(self).cell_cursor()
                    == cc + 1 && cc >= old(self).cell_cursor())
                &&& forall|r2: int, c2: int|
                    0 <= r2 < old(self).grid.rows_spec() && 0 <= c2 < old(self).grid.cols_spec()
                        && !(r2 == rr && c2 == cc) ==> final(self).grid.cell_at(r2, c2) == old(
                        self,
                    ).grid.cell_at(r2, c2)
            },
            r is None ==> {
                &&& final(self).grid == old(self).grid
                &&& final(self).changed_rows == old(self).changed_rows
                &&& final(self).changed_cols == old(self).changed_cols
                &&& line_fixed(final(self).cur_line(), final(self).cur_clues())
            },
    {
        let ghost rcl = self.clues.rows_view();
        let ghost ccl = self.clues.cols_view();
        let mut i: LineSize = match self.state {
            State::Solving(cursor) => cursor,
            _ => 0,
        };
        let mut ls = self.line_solver.take().unwrap();
        proof {
            ls.lemma_committed_same_placements();
        }
        let n = if !self.vertical {
            self.grid.num_cols()
        } else {
            self.grid.num_rows()
        };
        while i < n
            invariant
                self.wf_base(),
                self.at_line(),
                self.state is Solving,
                self.state == old(self).state,
                self.line_solver is None,
                self.grid == old(self).grid,
                self.clues == old(self).clues,
                self.changed_rows == old(self).changed_rows,
                self.changed_cols == old(self).changed_cols,
                self.stats == old(self).stats,
                self.vertical == old(self).vertical,
                self.index == old(self).index,
                self.index_changed == old(self).index_changed,
                self.failed == old(self).failed,
                n == self.cur_line().len(),
                rcl == self.rows_cl(),
                ccl == self.cols_cl(),
                ls.wf(),
                ls.clue_list() == self.cur_clues(),
                ls.cursor() == i,
                ls.committed() == self.cur_line(),
                self.pos_ok_flag(),
                old(self).cell_cursor() <= i,
                i <= n,
            decreases n - i,
        {
            let ghost pre_ls = ls;
            proof {
                pre_ls.lemma_committed_same_placements();
            }
            let cell = match ls.next() {
                Some(c) => c,
                None => {
                    proof {
                        assert(false);
                    }
                    Cell::Unknown
                },
            };
            let ghost sol = line_solution(pre_ls.origin(), pre_ls.clue_list());
            let cur = self.get_cell(i);
            proof {
                assert(cur == pre_ls.committed()[i as int]);
                assert(cur == pre_ls.origin()[i as int]);
            }
            if cell != cur {
                proof {
                    // the current value was unknown, else nothing new
                    // could have been deduced here
                    lemma_line_solution_monotone(pre_ls.origin(), pre_ls.clue_list());
                    assert(cur is Unknown);
                    assert(cell.spec_is_solved());
                }
                let ghost grid_old = self.grid;
                let ghost before_write = *self;
                let ghost lcl = pre_ls.clue_list();
                self.set_cell(i, cell);
                self.state = State::Solving(i + 1);
                self.line_solver = Some(ls);
                let rr = if !self.vertical {
                    self.index
                } else {
                    i
                };
                let cc = if !self.vertical {
                    i
                } else {
                    self.index
                };
                proof {
                    assert(self.cur_line() == ls.committed());
                    assert forall|f: Seq<Seq<Cell>>|
                        #[trigger] solution_ok(f, rcl, ccl) && extends_grid(f, grid_old)
                            implies extends_grid(f, self.grid_spec()) by {
                        let committed = pre_ls.committed();
                        let origin = pre_ls.origin();
                        let iv = i as int;
                        let lf = if old(self).vertical {
                            col_of(f, old(self).index as int)
                        } else {
                            f[old(self).index as int]
                        };
                        assert(crate::line::line_solved(lf)) by {
                            if old(self).vertical {
                                assert forall|t: int| 0 <= t < lf.len() implies (
                                #[trigger] lf[t]).spec_is_solved() by {
                                    assert(f[t][old(self).index as int].spec_is_solved());
                                }
                            }
                        }
                        assert(lf.len() == committed.len());
                        assert forall|t: int|
                            0 <= t < committed.len() && (
                        #[trigger] committed[t]).spec_is_solved() implies lf[t] == committed[t] by {
                            if old(self).vertical {
                                assert(grid_old.cell_at(t, old(self).index as int)
                                    == committed[t]);
                            } else {
                                assert(grid_old.cell_at(old(self).index as int, t)
                                    == committed[t]);
                            }
                        }
                        assert(exists|starts: Seq<u16>| admits(lf, lcl, starts));
                        Self::lemma_solution_respects_forced(lf, committed, lcl, origin, iv);
                        assert(cell == sol[iv]);
                        if cell is Filled {
                            assert(forced_filled(origin, lcl, iv)) by {
                                if !forced_filled(origin, lcl, iv) {
                                    assert(sol[iv] == origin[iv] || sol[iv] is Empty);
                                }
                            }
                            assert(lf[iv] is Filled);
                        } else {
                            assert(cell is Empty);
                            assert(forced_empty(origin, lcl, iv)) by {
                                if !forced_empty(origin, lcl, iv) {
                                    if forced_filled(origin, lcl, iv) {
                                        assert(sol[iv] is Filled);
                                    } else {
                                        assert(sol[iv] == origin[iv]);
                                    }
                                }
                            }
                            assert(lf[iv] is Empty);
                        }
                        assert(f[rr as int][cc as int] == cell);
                        assert forall|r2: int, c2: int|
                            0 <= r2 < self.grid.rows_spec() && 0 <= c2 < self.grid.cols_spec()
                                && (#[trigger] self.grid.cell_at(r2, c2)).spec_is_solved()
                                implies f[r2][c2] == self.grid.cell_at(r2, c2) by {
                            if !(r2 == rr as int && c2 == cc as int) {
                                assert(self.grid.cell_at(r2, c2) == grid_old.cell_at(r2, c2));
                            }
                        }
                    }
                }
                proof {
                    assert(self.pos_ok_flag()) by {
                        assert(before_write.pos_ok_flag());
                        assert(self.vertical == before_write.vertical);
                        assert(self.index == before_write.index);
                        if !self.vertical {
                            assert(self.changed_rows@ == before_write.changed_rows@);
                        } else {
                            assert(self.changed_cols@ == before_write.changed_cols@);
                        }
                    }
                }
                return Some((rr, cc, cell));
            }
            proof {
                assert(ls.committed() =~= pre_ls.committed());
            }
            i = i + 1;
        }
        proof {
            // the whole line has been processed: it now carries the
            // deduced line, which deduction cannot improve further
            ls.lemma_committed_same_placements();
            let origin = ls.origin();
            let cl = ls.clue_list();
            assert(ls.committed() =~= line_solution(origin, cl));
            lemma_line_solution_idempotent(origin, cl);
            lemma_line_fixed_unfold(ls.committed(), cl);
            assert(line_fixed(self.cur_line(), self.cur_clues()));
        }
        self.line_solver = Some(ls);
        self.state = State::Solving(i);
        None
    }
    /// Advances the scan until it points at a dirty, unsolved line,
    /// wrapping around at most once; tells whether one was found.
    fn scan(&mut self) -> (found: bool)
        requires
            old(self).wf(),
            old(self).state is Scanning,
            old(self).grid.rows_spec() > 0,
            old(self).grid.cols_spec() > 0,
            old(self).at_line(),
        ensures
            final(self).wf(),
            final(self).grid == old(self).grid,
            final(self).clues == old(self).clues,
            final(self).changed_rows == old(self).changed_rows,
            final(self).changed_cols == old(self).changed_cols,
            final(self).state == old(self).state,
            final(self).line_solver == old(self).line_solver,
            final(self).failed == old(self).failed,
            final(self).stats.grid_iterations >= old(self).stats.grid_iterations,
            final(self).stats.line_iterations == old(self).stats.line_iterations,
            final(self).at_line(),
            found ==> final(self).pos_ok_flag() && !crate::line::line_solved(
                final(self).cur_line(),
            ),
            found && !final(self).index_changed ==> final(self).vertical == old(self).vertical
                && final(self).index == old(self).index && final(self).index_changed == old(
                self,
            ).index_changed,
            !found ==> forall|p: int|
                0 <= p < final(self).grid.rows_spec() + final(self).grid.cols_spec()
                    ==> final(self).pos_ok(p),
    {
        let m: usize = self.grid.num_rows() as usize + self.grid.num_cols() as usize;
        let ghost start = self.lin();
        let ghost g0 = self.grid;
        let ghost r0 = self.changed_rows@;
        let ghost c0 = self.changed_cols@;
        let mut tries: usize = 0;
        while tries < m
            invariant
                self.wf(),
                self.state is Scanning,
                self.state == old(self).state,
                self.grid == old(self).grid,
                self.clues == old(self).clues,
                self.changed_rows == old(self).changed_rows,
                self.changed_cols == old(self).changed_cols,
                self.line_solver == old(self).line_solver,
                self.failed == old(self).failed,
                self.stats.grid_iterations >= old(self).stats.grid_iterations,
                self.stats.line_iterations == old(self).stats.line_iterations,
                self.grid.rows_spec() > 0,
                self.grid.cols_spec() > 0,
                self.at_line(),
                m == self.grid.rows_spec() + self.grid.cols_spec(),
                start == old(self).lin(),
                0 <= start < m,
                tries <= m,
                self.lin() == (if start + tries < m {
                    start + tries
                } else {
                    start + tries - m
                }),
                tries > 0 ==> self.index_changed,
                tries == 0 ==> self.index_changed == old(self).index_changed && self.vertical
                    == old(self).vertical && self.index == old(self).index,
                g0 == self.grid,
                r0 == self.changed_rows@,
                c0 == self.changed_cols@,
                forall|p: int| start <= p < start + tries && p < m ==> pos_ok_at(g0, r0, c0, p),
                start + tries >= m ==> forall|p: int|
                    0 <= p < start + tries - m ==> pos_ok_at(g0, r0, c0, p),
            decreases m - tries,
        {
            if self.get_line_changed() {
                let line = self.get_line();
                if !line.is_solved() {
                    return true;
                }
            }
            let ghost here = self.lin();
            proof {
                assert(pos_ok_at(g0, r0, c0, here));
            }
            self.advance();
            tries = tries + 1;
            proof {
                assert forall|p: int|
                    start <= p < start + tries && p < m implies pos_ok_at(g0, r0, c0, p) by {
                    if p == start + (tries - 1) {
                        assert(here == p);
                    }
                }
                if start + tries >= m {
                    assert forall|p: int|
                        0 <= p < start + tries - m implies pos_ok_at(g0, r0, c0, p) by {
                        if p == start + (tries - 1) - m {
                            assert(here == p);
                        }
                    }
                }
            }
        }
        proof {
            assert forall|p: int|
                0 <= p < self.grid.rows_spec() + self.grid.cols_spec() implies self.pos_ok(p) by {
                if p >= start {
                    assert(start <= p < start + tries && p < m);
                } else {
                    assert(0 <= p < start + tries - m);
                }
                assert(pos_ok_at(g0, r0, c0, p));
            }
        }
        false
    }

    /// Produces the next event of the solving session, or `None` when
    /// nothing is left to do: the grid was solved, a contradiction was
    /// hit, or no dirty unsolved line remains within reach of single-line
    /// deduction.  The grid only ever gains knowledge, and no write ever
    /// excludes a complete solution the grid was still compatible with.
    pub fn next(&mut self) -> (r: Option<GridSolverEvent>)
        requires
            old(self).wf(),
        ensures
            final(self).wf(),
            final(self).clues_spec() == old(self).clues_spec(),
            final(self).rows_cl() == old(self).rows_cl(),
            final(self).cols_cl() == old(self).cols_cl(),
            final(self).grid_spec().rows_spec() == old(self).grid_spec().rows_spec(),
            final(self).grid_spec().cols_spec() == old(self).grid_spec().cols_spec(),
            forall|rr: int, cc: int|
                0 <= rr < old(self).grid_spec().rows_spec() && 0 <= cc < old(
                    self,
                ).grid_spec().cols_spec() && old(self).grid_spec().cell_at(rr, cc).spec_is_solved()
                    ==> final(self).grid_spec().cell_at(rr, cc) == old(self).grid_spec().cell_at(
                    rr,
                    cc,
                ),
            forall|f: Seq<Seq<Cell>>|
                #[trigger] solution_ok(f, old(self).rows_cl(), old(self).cols_cl())
                    && extends_grid(f, old(self).grid_spec())
                    ==> extends_grid(f, final(self).grid_spec()),
            r matches Some(GridSolverEvent::SolvedCell(rr, cc, v)) ==> {
                &&& rr < final(self).grid_spec().rows_spec()
                &&& cc < final(self).grid_spec().cols_spec()
                &&& final(self).grid_spec().cell_at(rr as int, cc as int) == v
                &&& v.spec_is_solved()
                &&& old(self).grid_spec().cell_at(rr as int, cc as int) is Unknown
                &&& forall|r2: int, c2: int|
                    0 <= r2 < old(self).grid_spec().rows_spec()
                        && 0 <= c2 < old(self).grid_spec().cols_spec() && !(r2 == rr && c2 == cc)
                        ==> final(self).grid_spec().cell_at(r2, c2)
                        == old(self).grid_spec().cell_at(r2, c2)
            },
            r matches Some(GridSolverEvent::StartRow(i)) ==> {
                &&& i < final(self).grid_spec().rows_spec()
                &&& !final(self).on_column()
                &&& final(self).line_index() == i
                &&& final(self).row_changed(i as int)
                &&& !crate::line::line_solved(final(self).grid_spec().row_view(i as int))
            },
            r matches Some(GridSolverEvent::StartCol(i)) ==> {
                &&& i < final(self).grid_spec().cols_spec()
                &&& final(self).on_column()
                &&& final(self).line_index() == i
                &&& final(self).col_changed(i as int)
                &&& !crate::line::line_solved(final(self).grid_spec().col_view(i as int))
            },
            r matches Some(GridSolverEvent::SolvedCell(rr, cc, v)) ==> {
                &&& final(self).on_column() == old(self).on_column()
                &&& final(self).line_index() == old(self).line_index()
                &&& (final(self).on_column() ==> cc == final(self).line_index()
                    && final(self).cell_cursor() == rr + 1 && rr >= old(self).cell_cursor())
                &&& (!final(self).on_column() ==> rr == final(self).line_index()
                    && final(self).cell_cursor() == cc + 1 && cc >= old(self).cell_cursor())
            },
            !(r matches Some(GridSolverEvent::SolvedCell(_, _, _))) ==> final(self).grid_spec()
                == old(self).grid_spec(),
            r == Some(GridSolverEvent::SolvedGrid) ==> final(self).grid_spec().solved()
                && final(self).is_complete(),
            r == Some(GridSolverEvent::Failed) ==> final(self).has_failed()
                && final(self).is_complete(),
            r == Some(GridSolverEvent::Failed) ==> forall|f: Seq<Seq<Cell>>|
                !(#[trigger] solution_ok(f, old(self).rows_cl(), old(self).cols_cl())
                    && extends_grid(f, old(self).grid_spec())),
            final(self).has_failed() ==> old(self).has_failed() || r == Some(
                GridSolverEvent::Failed,
            ),
            final(self).stats_spec().grid_iterations >= old(self).stats_spec().grid_iterations,
            final(self).stats_spec().line_iterations >= old(self).stats_spec().line_iterations,
            forall|p: int|
                0 <= p < final(self).grid_spec().rows_spec() && !final(self).row_changed(p)
                    ==> line_fixed(
                    #[trigger] final(self).grid_spec().row_view(p),
                    final(self).rows_cl()[p],
                ),
            forall|p: int|
                0 <= p < final(self).grid_spec().cols_spec() && !final(self).col_changed(p)
                    ==> line_fixed(
                    #[trigger] final(self).grid_spec().col_view(p),
                    final(self).cols_cl()[p],
                ),
            r is None ==> final(self).is_complete(),
            old(self).is_complete() ==> r is None
                && final(self).grid_spec() == old(self).grid_spec(),
            r is None && !final(self).has_failed() && !old(self).is_complete() ==> {
                ||| final(self).grid_spec().solved()
                ||| {
                    &&& forall|p: int|
                        0 <= p < final(self).grid_spec().rows_spec() ==> !final(self).row_changed(
                            p,
                        ) || crate::line::line_solved(final(self).grid_spec().row_view(p))
                    &&& forall|p: int|
                        0 <= p < final(self).grid_spec().cols_spec() ==> !final(self).col_changed(
                            p,
                        ) || crate::line::line_solved(final(self).grid_spec().col_view(p))
                }
            },
    {
        let ghost rcl = self.clues.rows_view();
        let ghost ccl = self.clues.cols_view();
        if matches!(self.state, State::Complete) {
            return None;
        }
        if matches!(self.state, State::Solving(_)) {
            match self.drain() {
                Some((rr, cc, v)) => {
                    return Some(GridSolverEvent::SolvedCell(rr, cc, v));
                },
                None => {
                    self.state = State::Scanning;
                    self.unset_line_changed();
                    self.stats.line_iterations = bump(self.stats.line_iterations);
                },
            }
        }
        if self.grid.is_solved() {
            self.stats.grid_iterations = bump(self.stats.grid_iterations);
            self.state = State::Complete;
            return Some(GridSolverEvent::SolvedGrid);
        }
        proof {
            // an unsolved grid has at least one cell, hence rows and columns
            assert(!self.grid.solved());
            assert(self.grid.flat().len() > 0) by {
                assert(!self.grid.solved());
                if self.grid.flat().len() == 0 {
                    assert forall|j: int|
                        0 <= j < self.grid.flat().len() implies (
                    #[trigger] self.grid.flat()[j]).spec_is_solved() by {}
                    assert(self.grid.solved());
                }
            }
            assert(self.grid.wf());
            assert(self.grid.flat().len() == self.grid.rows_spec() * self.grid.cols_spec());
            assert(self.grid.rows_spec() > 0 && self.grid.cols_spec() > 0) by (nonlinear_arith)
                requires
                    self.grid.flat().len() == self.grid.rows_spec() * self.grid.cols_spec(),
                    self.grid.flat().len() > 0,
                    self.grid.rows_spec() >= 0,
                    self.grid.cols_spec() >= 0,
            ;
        }
        if !self.scan() {
            let ghost stall = *self;
            self.state = State::Complete;
            proof {
                assert forall|p: int|
                    0 <= p < self.grid.rows_spec() implies !self.row_changed(p)
                    || crate::line::line_solved(self.grid.row_view(p)) by {
                    assert(stall.pos_ok(p));
                    assert(!stall.row_changed(p) || crate::line::line_solved(
                        stall.grid.row_view(p),
                    ));
                    assert(self.changed_rows@ == stall.changed_rows@);
                    assert(self.grid == stall.grid);
                }
                assert forall|p: int|
                    0 <= p < self.grid.cols_spec() implies !self.col_changed(p)
                    || crate::line::line_solved(self.grid.col_view(p)) by {
                    assert(stall.pos_ok(stall.grid.rows_spec() + p));
                    assert(!stall.col_changed(p) || crate::line::line_solved(
                        stall.grid.col_view(p),
                    ));
                    assert(self.changed_cols@ == stall.changed_cols@);
                    assert(self.grid == stall.grid);
                }
            }
            return None;
        }
        if self.index_changed {
            self.index_changed = false;
            let event = if !self.vertical {
                GridSolverEvent::StartRow(self.index)
            } else {
                GridSolverEvent::StartCol(self.index)
            };
            return Some(event);
        }
        let clues_line = self.get_clues().clone();
        let line = self.get_line();
        match LineSolver::new(&line, &clues_line) {
            None => {
                proof {
                    Self::lemma_no_solution_at_contradiction(*self);
                }
                self.failed = true;
                self.state = State::Complete;
                return Some(GridSolverEvent::Failed);
            },
            Some(ls) => {
                self.line_solver = Some(ls);
                self.state = State::Solving(0);
            },
        }
        let ghost before_drain = *self;
        match self.drain() {
            Some((rr, cc, v)) => {
                proof {
                    assert(before_drain.grid_spec() == old(self).grid_spec());
                    assert forall|f: Seq<Seq<Cell>>|
                        #[trigger] solution_ok(f, old(self).rows_cl(), old(self).cols_cl())
                            && extends_grid(f, old(self).grid_spec()) implies extends_grid(
                        f,
                        self.grid_spec(),
                    ) by {
                        assert(solution_ok(f, before_drain.rows_cl(), before_drain.cols_cl()));
                        assert(extends_grid(f, before_drain.grid_spec()));
                    }
                }
                return Some(GridSolverEvent::SolvedCell(rr, cc, v));
            },
            None => {
                self.state = State::Scanning;
                self.unset_line_changed();
                self.stats.line_iterations = bump(self.stats.line_iterations);
            },
        }
        if !self.scan() {
            let ghost stall = *self;
            self.state = State::Complete;
            proof {
                assert forall|p: int|
                    0 <= p < self.grid.rows_spec() implies !self.row_changed(p)
                    || crate::line::line_solved(self.grid.row_view(p)) by {
                    assert(stall.pos_ok(p));
                    assert(!stall.row_changed(p) || crate::line::line_solved(
                        stall.grid.row_view(p),
                    ));
                    assert(self.changed_rows@ == stall.changed_rows@);
                    assert(self.grid == stall.grid);
                }
                assert forall|p: int|
                    0 <= p < self.grid.cols_spec() implies !self.col_changed(p)
                    || crate::line::line_solved(self.grid.col_view(p)) by {
                    assert(stall.pos_ok(stall.grid.rows_spec() + p));
                    assert(!stall.col_changed(p) || crate::line::line_solved(
                        stall.grid.col_view(p),
                    ));
                    assert(self.changed_cols@ == stall.changed_cols@);
                    assert(self.grid == stall.grid);
                }
            }
            return None;
        }
        proof {
            assert(self.index_changed);
        }
        self.index_changed = false;
        if !self.vertical {
            Some(GridSolverEvent::StartRow(self.index))
        } else {
            Some(GridSolverEvent::StartCol(self.index))
        }
    }
}

/// A grid still entirely unknown excludes no complete solution, so the
/// preservation guarantee of `GridSolver::next` chains from the start.
pub proof fn lemma_extends_fresh(f: Seq<Seq<Cell>>, g: Grid)
    requires
        g.wf(),
        forall|j: int| 0 <= j < g.flat().len() ==> (#[trigger] g.flat()[j]) is Unknown,
    ensures
        extends_grid(f, g),
{
    assert forall|r: int, c: int|
        0 <= r < g.rows_spec() && 0 <= c < g.cols_spec() && (#[trigger] g.cell_at(
        r,
        c,
    )).spec_is_solved() implies f[r][c] == g.cell_at(r, c) by {
        assert(0 <= r * g.cols_spec() + c < g.flat().len()) by (nonlinear_arith)
            requires
                0 <= r < g.rows_spec(),
                0 <= c < g.cols_spec(),
                g.flat().len() == g.rows_spec() * g.cols_spec(),
        ;
        assert(g.flat()[r * g.cols_spec() + c] is Unknown);
    }
}

/// Grid convergence, solved side: a fully solved grid that some complete
/// solution still extends is that solution itself, so every row and
/// every column of it carries a placement of its clue sequence exactly.
pub proof fn lemma_solved_grid_exact(
    g: Grid,
    f: Seq<Seq<Cell>>,
    rows_cl: Seq<Seq<u16>>,
    cols_cl: Seq<Seq<u16>>,
)
    requires
        g.wf(),
        g.solved(),
        solution_ok(f, rows_cl, cols_cl),
        extends_grid(f, g),
        rows_cl.len() == g.rows_spec(),
        cols_cl.len() == g.cols_spec(),
    ensures
        forall|r: int|
            0 <= r < g.rows_spec() ==> #[trigger] satisfiable(g.row_view(r), rows_cl[r]),
        forall|c: int|
            0 <= c < g.cols_spec() ==> #[trigger] satisfiable(g.col_view(c), cols_cl[c]),
{
    assert forall|r: int, c: int|
        0 <= r < g.rows_spec() && 0 <= c < g.cols_spec() implies (#[trigger] g.cell_at(
        r,
        c,
    )).spec_is_solved() by {
        assert(0 <= r * g.cols_spec() + c < g.flat().len()) by (nonlinear_arith)
            requires
                0 <= r < g.rows_spec(),
                0 <= c < g.cols_spec(),
                g.flat().len() == g.rows_spec() * g.cols_spec(),
        ;
        assert(g.flat()[r * g.cols_spec() + c].spec_is_solved());
    }
    assert forall|r: int|
        0 <= r < g.rows_spec() implies #[trigger] satisfiable(g.row_view(r), rows_cl[r]) by {
        assert(g.row_view(r) =~= f[r]);
        let starts = choose|starts: Seq<u16>| admits(f[r], rows_cl[r], starts);
        assert(admits(g.row_view(r), rows_cl[r], starts));
    }
    assert forall|c: int|
        0 <= c < g.cols_spec() implies #[trigger] satisfiable(g.col_view(c), cols_cl[c]) by {
        assert(g.col_view(c) =~= col_of(f, c));
        let starts = choose|starts: Seq<u16>| admits(col_of(f, c), cols_cl[c], starts);
        assert(admits(g.col_view(c), cols_cl[c], starts));
    }
}

/// Re-solves one row of the grid in place: its forced cells are written
/// back and the answer tells whether anything changed.  A row already
/// fully decided is left alone.
pub fn solve_row(grid: &mut Grid, clues: &Clues, row_index: LineSize) -> (progress: bool)
    requires
        old(grid).wf(),
        clues.wf(),
        clues.rows_view().len() == old(grid).rows_spec(),
        row_index < old(grid).rows_spec(),
        satisfiable(old(grid).row_view(row_index as int), clues.rows_view()[row_index as int]),
    ensures
        final(grid).wf(),
        final(grid).rows_spec() == old(grid).rows_spec(),
        final(grid).cols_spec() == old(grid).cols_spec(),
        final(grid).row_view(row_index as int) == line_solution(
            old(grid).row_view(row_index as int),
            clues.rows_view()[row_index as int],
        ),
        forall|r: int, c: int|
            0 <= r < old(grid).rows_spec() && 0 <= c < old(grid).cols_spec() && r != row_index
                ==> final(grid).cell_at(r, c) == old(grid).cell_at(r, c),
        progress == (final(grid).row_view(row_index as int) != old(grid).row_view(
            row_index as int,
        )),
{
    let line = grid.row(row_index);
    let clues_line = clues.row(row_index);
    let ghost cl = clues.rows_view()[row_index as int];
    let solved_line = match crate::line_solver::solve_line(&line, clues_line) {
        Some(l) => l,
        None => {
            proof {
                assert(false);
            }
            Line::with_size(0)
        },
    };
    proof {
        assert(line@.take(0) =~= solved_line@.take(0));
    }
    let mut progress = false;
    let n = line.len();
    let mut c: usize = 0;
    while c < n as usize
        invariant
            c <= n,
            n == line@.len(),
            line.wf(),
            grid == old(grid),
            grid.wf(),
            row_index < grid.rows_spec(),
            line@ == grid.row_view(row_index as int),
            solved_line@ == line_solution(
                grid.row_view(row_index as int),
                clues.rows_view()[row_index as int],
            ),
            solved_line@.len() == line@.len(),
            progress == (line@.take(c as int) != solved_line@.take(c as int)),
        decreases n - c,
    {
        let ghost cv = c as int;
        if line.get(c as LineSize) != solved_line.get(c as LineSize) {
            progress = true;
        }
        proof {
            assert(line@.take(cv + 1) == line@.take(cv).push(line@[cv]));
            assert(solved_line@.take(cv + 1) == solved_line@.take(cv).push(solved_line@[cv]));
            if line@[cv] == solved_line@[cv] && line@.take(cv) == solved_line@.take(cv) {
                assert(line@.take(cv + 1) == solved_line@.take(cv + 1));
            }
            if line@.take(cv + 1) == solved_line@.take(cv + 1) {
                assert(line@.take(cv) =~= solved_line@.take(cv));
                assert(line@[cv] == line@.take(cv + 1)[cv]);
                assert(line@[cv] == solved_line@[cv]);
            }
        }
        c = c + 1;
    }
    proof {
        assert(line@ == grid.row_view(row_index as int));
        assert(solved_line@.len() == line@.len());
        assert(grid.row_view(row_index as int).len() == grid.cols_spec());
        assert(solved_line@.len() == grid.cols_spec());
    }
    grid.set_row(row_index, &solved_line);
    proof {
        assert(line@.take(n as int) =~= line@);
        assert(solved_line@.take(n as int) =~= solved_line@);
    }
    progress
}

/// Re-solves one column of the grid in place, as `solve_row` does for a
/// row.
pub fn solve_col(grid: &mut Grid, clues: &Clues, col_index: LineSize) -> (progress: bool)
    requires
        old(grid).wf(),
        clues.wf(),
        clues.cols_view().len() == old(grid).cols_spec(),
        col_index < old(grid).cols_spec(),
        satisfiable(old(grid).col_view(col_index as int), clues.cols_view()[col_index as int]),
    ensures
        final(grid).wf(),
        final(grid).rows_spec() == old(grid).rows_spec(),
        final(grid).cols_spec() == old(grid).cols_spec(),
        final(grid).col_view(col_index as int) == line_solution(
            old(grid).col_view(col_index as int),
            clues.cols_view()[col_index as int],
        ),
        forall|r: int, c: int|
            0 <= r < old(grid).rows_spec() && 0 <= c < old(grid).cols_spec() && c != col_index
                ==> final(grid).cell_at(r, c) == old(grid).cell_at(r, c),
        progress == (final(grid).col_view(col_index as int) != old(grid).col_view(
            col_index as int,
        )),
{
    let line = grid.col(col_index);
    let clues_line = clues.col(col_index);
    let solved_line = match crate::line_solver::solve_line(&line, clues_line) {
        Some(l) => l,
        None => {
            proof {
                assert(false);
            }
            Line::with_size(0)
        },
    };
    proof {
        assert(line@.take(0) =~= solved_line@.take(0));
    }
    let mut progress = false;
    let n = line.len();
    let mut r: usize = 0;
    while r < n as usize
        invariant
            r <= n,
            n == line@.len(),
            line.wf(),
            grid == old(grid),
            grid.wf(),
            col_index < grid.cols_spec(),
            line@ == grid.col_view(col_index as int),
            solved_line@ == line_solution(
                grid.col_view(col_index as int),
                clues.cols_view()[col_index as int],
            ),
            solved_line@.len() == line@.len(),
            progress == (line@.take(r as int) != solved_line@.take(r as int)),
        decreases n - r,
    {
        let ghost rv = r as int;
        if line.get(r as LineSize) != solved_line.get(r as LineSize) {
            progress = true;
        }
        proof {
            assert(line@.take(rv + 1) == line@.take(rv).push(line@[rv]));
            assert(solved_line@.take(rv + 1) == solved_line@.take(rv).push(solved_line@[rv]));
            if line@[rv] == solved_line@[rv] && line@.take(rv) == solved_line@.take(rv) {
                assert(line@.take(rv + 1) == solved_line@.take(rv + 1));
            }
            if line@.take(rv + 1) == solved_line@.take(rv + 1) {
                assert(line@.take(rv) =~= solved_line@.take(rv));
                assert(line@[rv] == line@.take(rv + 1)[rv]);
                assert(line@[rv] == solved_line@[rv]);
            }
        }
        r = r + 1;
    }
    proof {
        assert(line@ == grid.col_view(col_index as int));
        assert(solved_line@.len() == line@.len());
        assert(grid.col_view(col_index as int).len() == grid.rows_spec());
        assert(solved_line@.len() == grid.rows_spec());
    }
    grid.set_col(col_index, &solved_line);
    proof {
        assert(line@.take(n as int) =~= line@);
        assert(solved_line@.take(n as int) =~= solved_line@);
    }
    progress
}

} // verus!
