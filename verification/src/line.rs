//! One row or column of the grid, as an owned sequence of cells.

use vstd::prelude::*;
use vstd::string::StrSliceExecFns;
use vstd::string::StringExecFns;

use crate::cell::Cell;

verus! {

/// Indices and lengths of lines (and of the grid) fit in 16 bits.
pub type LineSize = u16;

/// The largest number of cells a line may hold.
pub const MAX_LINE_LEN: usize = 0xFFFF;

/// The cell a line-description character stands for, if any:
/// `-` unknown, ` ` empty, `#` filled, `!` empty (a visible blank).
pub open spec fn char_to_cell(c: char) -> Option<Cell> {
    if c == '-' {
        Some(Cell::Unknown)
    } else if c == ' ' {
        Some(Cell::Empty)
    } else if c == '#' {
        Some(Cell::Filled)
    } else if c == '!' {
        Some(Cell::Empty)
    } else {
        None
    }
}

/// The character that pictures a cell: `-` unknown, ` ` empty,
/// `#` filled, `!` error.
pub open spec fn cell_to_char(c: Cell) -> char {
    match c {
        Cell::Unknown => '-',
        Cell::Empty => ' ',
        Cell::Filled => '#',
        Cell::Error => '!',
    }
}

/// An owned line of cells.  A line never holds more than
/// `MAX_LINE_LEN` cells, so every index fits in a `LineSize`.
#[derive(Debug, PartialEq, Eq)]
pub struct Line {
    cells: Vec<Cell>,
}

impl View for Line {
    type V = Seq<Cell>;

    closed spec fn view(&self) -> Seq<Cell> {
        self.cells@
    }
}

impl Clone for Line {
    fn clone(&self) -> (r: Line)
        ensures
            r@ == self@,
    {
        Line { cells: self.cells.clone() }
    }
}

/// All cells of the line are decided.
pub open spec fn line_solved(s: Seq<Cell>) -> bool {
    forall|j: int| 0 <= j < s.len() ==> (#[trigger] s[j]).spec_is_solved()
}

/// All cells of the line are still unknown.
pub open spec fn line_unknown(s: Seq<Cell>) -> bool {
    forall|j: int| 0 <= j < s.len() ==> (#[trigger] s[j]) is Unknown
}

impl Line {
    /// Every index of the line fits in a `LineSize`.
    pub open spec fn wf(&self) -> bool {
        self@.len() <= MAX_LINE_LEN
    }

    /// Wraps a vector of cells as a line.
    pub fn new(cells: Vec<Cell>) -> (r: Line)
        requires
            cells@.len() <= MAX_LINE_LEN,
        ensures
            r@ == cells@,
            r.wf(),
    {
        Line { cells }
    }

    /// A line of `size` unknown cells.
    pub fn with_size(size: LineSize) -> (r: Line)
        ensures
            r@.len() == size,
            line_unknown(r@),
            r.wf(),
    {
        let mut cells: Vec<Cell> = Vec::new();
        let mut i: usize = 0;
        while i < size as usize
            invariant
                i <= size,
                cells@.len() == i,
                forall|j: int| 0 <= j < i ==> (#[trigger] cells@[j]) is Unknown,
            decreases size - i,
        {
            cells.push(Cell::Unknown);
            i = i + 1;
        }
        Line { cells }
    }

    /// Reads a line from its picture: one character per cell, as
    /// `char_to_cell` gives it.  Fails on any other character or on a
    /// picture too long for a line.
    pub fn from_str(source: &str) -> (r: Option<Line>)
        ensures
            r is Some <==> (source@.len() <= MAX_LINE_LEN && forall|j: int|
                0 <= j < source@.len() ==> char_to_cell(#[trigger] source@[j]) is Some),
            r matches Some(l) ==> {
                &&& l.wf()
                &&& l@.len() == source@.len()
                &&& forall|j: int|
                    0 <= j < source@.len() ==> char_to_cell(#[trigger] source@[j]) == Some(l@[j])
            },
    {
        let n = source.unicode_len();
        if n > MAX_LINE_LEN {
            return None;
        }
        let mut cells: Vec<Cell> = Vec::new();
        let mut i: usize = 0;
        while i < n
            invariant
                i <= n,
                n == source@.len(),
                cells@.len() == i,
                forall|j: int| 0 <= j < i ==> char_to_cell(#[trigger] source@[j]) is Some,
                forall|j: int|
                    0 <= j < i ==> char_to_cell(#[trigger] source@[j]) == Some(cells@[j]),
            decreases n - i,
        {
            let c = source.get_char(i);
            let cell = match c {
                '-' => Cell::Unknown,
                ' ' => Cell::Empty,
                '#' => Cell::Filled,
                '!' => Cell::Empty,
                _ => return None,
            };
            cells.push(cell);
            i = i + 1;
        }
        Some(Line { cells })
    }

    /// The cells of the line.
    pub fn cells(&self) -> (r: &Vec<Cell>)
        ensures
            r@ == self@,
    {
        &self.cells
    }

    /// The number of cells.
    pub fn len(&self) -> (r: LineSize)
        requires
            self.wf(),
        ensures
            r == self@.len(),
    {
        self.cells.len() as LineSize
    }

    /// One cell of the line.
    pub fn get(&self, index: LineSize) -> (r: Cell)
        requires
            index < self@.len(),
        ensures
            r == self@[index as int],
    {
        self.cells[index as usize]
    }

    /// Replaces one cell of the line.
    pub fn set(&mut self, index: LineSize, cell: Cell)
        requires
            index < old(self)@.len(),
        ensures
            final(self)@ == old(self)@.update(index as int, cell),
    {
        self.cells.set(index as usize, cell);
    }

    /// Whether every cell is decided.
    pub fn is_solved(&self) -> (r: bool)
        ensures
            r == line_solved(self@),
    {
        let n = self.cells.len();
        let mut i: usize = 0;
        while i < n
            invariant
                i <= n,
                n == self@.len(),
                forall|j: int| 0 <= j < i ==> (#[trigger] self@[j]).spec_is_solved(),
            decreases n - i,
        {
            if !self.cells[i].is_solved() {
                return false;
            }
            i = i + 1;
        }
        true
    }

    /// Whether every cell is still unknown.
    pub fn is_unknown(&self) -> (r: bool)
        ensures
            r == line_unknown(self@),
    {
        let n = self.cells.len();
        let mut i: usize = 0;
        while i < n
            invariant
                i <= n,
                n == self@.len(),
                forall|j: int| 0 <= j < i ==> (#[trigger] self@[j]) is Unknown,
            decreases n - i,
        {
            if !self.cells[i].is_unknown() {
                return false;
            }
            i = i + 1;
        }
        true
    }

    /// Pictures the line between brackets, one character per cell, as
    /// `cell_to_char` gives it.
    pub fn render(&self) -> (r: String)
        ensures
            r@.len() == self@.len() + 2,
            r@.first() == '[',
            r@.last() == ']',
            forall|j: int| 0 <= j < self@.len() ==> r@[j + 1] == cell_to_char(#[trigger] self@[j]),
    {
        proof {
            reveal_strlit("[");
            reveal_strlit("]");
            reveal_strlit("-");
            reveal_strlit(" ");
            reveal_strlit("#");
            reveal_strlit("!");
        }
        let mut r = String::from_str("[");
        let n = self.cells.len();
        let mut i: usize = 0;
        while i < n
            invariant
                i <= n,
                n == self@.len(),
                r@.len() == i + 1,
                r@.first() == '[',
                forall|j: int| 0 <= j < i ==> r@[j + 1] == cell_to_char(#[trigger] self@[j]),
            decreases n - i,
        {
            proof {
                reveal_strlit("-");
                reveal_strlit(" ");
                reveal_strlit("#");
                reveal_strlit("!");
            }
            match self.cells[i] {
                Cell::Unknown => r.append("-"),
                Cell::Empty => r.append(" "),
                Cell::Filled => r.append("#"),
                Cell::Error => r.append("!"),
            }
            i = i + 1;
        }
        proof {
            reveal_strlit("]");
        }
        r.append("]");
        r
    }
}

} // verus!
