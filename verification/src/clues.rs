//! The run-length clues of a whole puzzle: one sequence per row and one
//! per column.

use vstd::prelude::*;

use crate::line::LineSize;
use crate::line::MAX_LINE_LEN;

verus! {

/// The ordered run lengths of one line; an empty sequence means the
/// line is entirely empty.
pub type CluesLine = Vec<LineSize>;

/// The sum of the run lengths of one line.
pub open spec fn line_sum(s: Seq<u16>) -> int
    decreases s.len(),
{
    if s.len() == 0 {
        0
    } else {
        s[0] + line_sum(s.drop_first())
    }
}

/// The sum of all run lengths of a list of lines.
pub open spec fn lines_sum(ls: Seq<Seq<u16>>) -> int
    decreases ls.len(),
{
    if ls.len() == 0 {
        0
    } else {
        line_sum(ls[0]) + lines_sum(ls.drop_first())
    }
}

proof fn lemma_line_sum_bounds(s: Seq<u16>)
    ensures
        0 <= line_sum(s) <= 0x10000 * s.len(),
    decreases s.len(),
{
    if s.len() > 0 {
        lemma_line_sum_bounds(s.drop_first());
    }
}

proof fn lemma_lines_sum_bounds(ls: Seq<Seq<u16>>)
    requires
        forall|i: int| 0 <= i < ls.len() ==> (#[trigger] ls[i]).len() <= MAX_LINE_LEN,
    ensures
        0 <= lines_sum(ls) <= 0x1_0000_0000 * ls.len(),
    decreases ls.len(),
{
    if ls.len() > 0 {
        lemma_line_sum_bounds(ls[0]);
        assert forall|i: int|
            0 <= i < ls.drop_first().len() implies (#[trigger] ls.drop_first()[i]).len()
            <= MAX_LINE_LEN by {
            assert(ls.drop_first()[i] == ls[i + 1]);
        }
        lemma_lines_sum_bounds(ls.drop_first());
    }
}

/// The clue sequences of a puzzle, one per row and one per column,
/// immutable once built.
pub struct Clues {
    rows: Vec<CluesLine>,
    cols: Vec<CluesLine>,
}

/// Sums the run lengths of a list of clue lines.
fn sum_clue_lines(lines: &Vec<CluesLine>) -> (r: u64)
    requires
        lines.deep_view().len() <= MAX_LINE_LEN,
        forall|i: int|
            0 <= i < lines.deep_view().len() ==> (#[trigger] lines.deep_view()[i]).len()
                <= MAX_LINE_LEN,
    ensures
        r == lines_sum(lines.deep_view()),
{
    let ghost ls = lines.deep_view();
    proof {
        lemma_lines_sum_bounds(ls);
    }
    proof {
        assert(ls.skip(0) =~= ls);
    }
    let mut total: u64 = 0;
    let n = lines.len();
    let mut i: usize = 0;
    while i < n
        invariant
            i <= n,
            n == ls.len(),
            ls == lines.deep_view(),
            ls.len() <= MAX_LINE_LEN,
            forall|t: int| 0 <= t < ls.len() ==> (#[trigger] ls[t]).len() <= MAX_LINE_LEN,
            total + lines_sum(ls.skip(i as int)) == lines_sum(ls),
            0 <= total <= 0x1_0000_0000 * i,
        decreases n - i,
    {
        let row = &lines[i];
        let ghost rv = ls[i as int];
        proof {
            assert(rv == row@);
            lemma_line_sum_bounds(rv);
            assert(ls.skip(i as int).drop_first() =~= ls.skip(i + 1));
            assert(ls.skip(i as int)[0] == rv);
            lemma_lines_sum_bounds(ls);
        }
        proof {
            assert(rv.skip(0) =~= rv);
        }
        let m = row.len();
        let mut j: usize = 0;
        let mut row_total: u64 = 0;
        while j < m
            invariant
                j <= m,
                m == rv.len(),
                rv == ls[i as int],
                0 <= (i as int) < ls.len(),
                ls == lines.deep_view(),
                rv.len() <= MAX_LINE_LEN,
                row_total + line_sum(rv.skip(j as int)) == line_sum(rv),
                0 <= row_total <= 0x10000 * j,
            decreases m - j,
        {
            proof {
                assert(rv.skip(j as int).drop_first() =~= rv.skip(j + 1));
                assert(rv.skip(j as int)[0] == rv[j as int]);
                lemma_line_sum_bounds(rv.skip(j + 1));
            }
            row_total = row_total + lines[i][j] as u64;
            j = j + 1;
        }
        proof {
            assert(rv.skip(m as int) =~= Seq::<u16>::empty());
            assert(row_total == line_sum(rv));
            lemma_lines_sum_bounds(ls.skip(i + 1));
            assert(0x1_0000_0000 * (i as int) + 0x1_0000_0000 <= 0x1_0000_0000 * (i + 1))
                by (nonlinear_arith);
        }
        total = total + row_total;
        i = i + 1;
    }
    proof {
        assert(ls.skip(n as int) =~= Seq::<Seq<u16>>::empty());
    }
    total
}

impl Clues {
    /// The row clue sequences, outermost to innermost.
    pub closed spec fn rows_view(&self) -> Seq<Seq<u16>> {
        self.rows.deep_view()
    }

    /// The column clue sequences.
    pub closed spec fn cols_view(&self) -> Seq<Seq<u16>> {
        self.cols.deep_view()
    }

    /// Row and column counts, and every clue sequence, fit in a
    /// `LineSize`.
    pub open spec fn wf(&self) -> bool {
        &&& self.rows_view().len() <= MAX_LINE_LEN
        &&& self.cols_view().len() <= MAX_LINE_LEN
        &&& forall|i: int|
            0 <= i < self.rows_view().len() ==> (#[trigger] self.rows_view()[i]).len()
                <= MAX_LINE_LEN
        &&& forall|i: int|
            0 <= i < self.cols_view().len() ==> (#[trigger] self.cols_view()[i]).len()
                <= MAX_LINE_LEN
    }

    /// Wraps validated row and column clue lists.
    pub fn new(rows: Vec<CluesLine>, cols: Vec<CluesLine>) -> (r: Clues)
        requires
            rows.deep_view().len() <= MAX_LINE_LEN,
            cols.deep_view().len() <= MAX_LINE_LEN,
            forall|i: int|
                0 <= i < rows.deep_view().len() ==> (#[trigger] rows.deep_view()[i]).len()
                    <= MAX_LINE_LEN,
            forall|i: int|
                0 <= i < cols.deep_view().len() ==> (#[trigger] cols.deep_view()[i]).len()
                    <= MAX_LINE_LEN,
        ensures
            r.wf(),
            r.rows_view() == rows.deep_view(),
            r.cols_view() == cols.deep_view(),
    {
        Clues { rows, cols }
    }

    /// The number of rows of the puzzle.
    pub fn num_rows(&self) -> (r: LineSize)
        requires
            self.wf(),
        ensures
            r == self.rows_view().len(),
    {
        self.rows.len() as LineSize
    }

    /// The number of columns of the puzzle.
    pub fn num_cols(&self) -> (r: LineSize)
        requires
            self.wf(),
        ensures
            r == self.cols_view().len(),
    {
        self.cols.len() as LineSize
    }

    /// All row clue sequences.
    pub fn rows(&self) -> (r: &Vec<CluesLine>)
        ensures
            r.deep_view() == self.rows_view(),
    {
        &self.rows
    }

    /// All column clue sequences.
    pub fn cols(&self) -> (r: &Vec<CluesLine>)
        ensures
            r.deep_view() == self.cols_view(),
    {
        &self.cols
    }

    /// The clue sequence of one row.
    pub fn row(&self, index: LineSize) -> (r: &CluesLine)
        requires
            index < self.rows_view().len(),
        ensures
            r@ == self.rows_view()[index as int],
    {
        &self.rows[index as usize]
    }

    /// The clue sequence of one column.
    pub fn col(&self, index: LineSize) -> (r: &CluesLine)
        requires
            index < self.cols_view().len(),
        ensures
            r@ == self.cols_view()[index as int],
    {
        &self.cols[index as usize]
    }

    /// The total number of filled cells the row clues ask for.
    pub fn rows_sum(&self) -> (r: u64)
        requires
            self.wf(),
        ensures
            r == lines_sum(self.rows_view()),
    {
        sum_clue_lines(&self.rows)
    }

    /// The total number of filled cells the column clues ask for.
    pub fn cols_sum(&self) -> (r: u64)
        requires
            self.wf(),
        ensures
            r == lines_sum(self.cols_view()),
    {
        sum_clue_lines(&self.cols)
    }

    /// A sanity check: rows and columns ask for the same number of
    /// filled cells.
    pub fn is_consistent(&self) -> (r: bool)
        requires
            self.wf(),
        ensures
            r == (lines_sum(self.rows_view()) == lines_sum(self.cols_view())),
    {
        self.rows_sum() == self.cols_sum()
    }
}

} // verus!
