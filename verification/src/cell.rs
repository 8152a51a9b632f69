//! The four-valued logical state of one grid cell.

use vstd::prelude::*;

verus! {

/// One cell of a nonogram grid: solved cells are `Empty` or `Filled`,
/// `Unknown` cells could still become either, and `Error` marks a
/// contradiction (normal operation never produces it).
#[derive(Clone, Copy, Debug, PartialEq, Eq, Structural)]
pub enum Cell {
    Error,
    Empty,
    Filled,
    Unknown,
}

impl Cell {
    /// A cell that may still be (or already is) empty.
    pub open spec fn spec_can_empty(self) -> bool {
        self is Empty || self is Unknown
    }

    /// A cell that may still be (or already is) filled.
    pub open spec fn spec_can_fill(self) -> bool {
        self is Filled || self is Unknown
    }

    /// A cell whose value has been decided.
    pub open spec fn spec_is_solved(self) -> bool {
        self is Empty || self is Filled
    }

    pub fn is_error(self) -> (r: bool)
        ensures
            r == (self is Error),
    {
        matches!(self, Cell::Error)
    }

    pub fn is_empty(self) -> (r: bool)
        ensures
            r == (self is Empty),
    {
        matches!(self, Cell::Empty)
    }

    pub fn is_filled(self) -> (r: bool)
        ensures
            r == (self is Filled),
    {
        matches!(self, Cell::Filled)
    }

    pub fn is_unknown(self) -> (r: bool)
        ensures
            r == (self is Unknown),
    {
        matches!(self, Cell::Unknown)
    }

    #[verifier::when_used_as_spec(spec_is_solved)]
    pub fn is_solved(self) -> (r: bool)
        ensures
            r == self.spec_is_solved(),
    {
        matches!(self, Cell::Empty | Cell::Filled)
    }

    #[verifier::when_used_as_spec(spec_can_empty)]
    pub fn can_empty(self) -> (r: bool)
        ensures
            r == self.spec_can_empty(),
    {
        matches!(self, Cell::Empty | Cell::Unknown)
    }

    #[verifier::when_used_as_spec(spec_can_fill)]
    pub fn can_fill(self) -> (r: bool)
        ensures
            r == self.spec_can_fill(),
    {
        matches!(self, Cell::Filled | Cell::Unknown)
    }
}

} // verus!
