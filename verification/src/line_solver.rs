//! Single-line deduction: every cell forced by the clues is found.
//!
//! The solver renders one placement of the clues as a sample, then probes
//! each unknown cell by flipping the sample's value there: if no placement
//! tolerates the flip, the sample's value was forced and is committed.  If
//! some placement does, the cell is ambiguous, and every cell on which that
//! placement disagrees with the sample is demoted to unknown as well, so a
//! sample value only survives to be committed when no placement refutes it.

use vstd::prelude::*;

use crate::cell::Cell;
use crate::clues_placer::find_placement;
use crate::line::Line;
use crate::line::LineSize;
use crate::line::MAX_LINE_LEN;
use crate::placement::admits;
use crate::placement::cell_refines;
use crate::placement::covered;
use crate::placement::forced_empty;
use crate::placement::forced_filled;
use crate::placement::lemma_admissible_len;
use crate::placement::lemma_admits_weaken;
use crate::placement::lemma_suffix_change;
use crate::placement::lemma_suffix_pointwise;
use crate::placement::satisfiable;

verus! {

/// The unique maximal sound deduction from a line and its clues: forced
/// cells become solved, all other cells stay as they were.
pub open spec fn line_solution(line: Seq<Cell>, clues: Seq<u16>) -> Seq<Cell> {
    Seq::new(
        line.len(),
        |j: int|
            if forced_filled(line, clues, j) {
                Cell::Filled
            } else if forced_empty(line, clues, j) {
                Cell::Empty
            } else {
                line[j]
            },
    )
}

/// A solved cell of the line is already forced to its own value.
pub proof fn lemma_solved_cell_forced(line: Seq<Cell>, clues: Seq<u16>, j: int)
    requires
        0 <= j < line.len(),
    ensures
        line[j] is Filled ==> forced_filled(line, clues, j),
        line[j] is Empty ==> forced_empty(line, clues, j),
{
    if line[j] is Filled {
        assert forall|starts: Seq<u16>| #[trigger] admits(line, clues, starts) implies covered(
            clues,
            starts,
            j,
        ) by {
            lemma_suffix_pointwise(line, clues, 0, starts);
        }
    }
    if line[j] is Empty {
        assert forall|starts: Seq<u16>| #[trigger] admits(line, clues, starts) implies !covered(
            clues,
            starts,
            j,
        ) by {
            lemma_suffix_pointwise(line, clues, 0, starts);
        }
    }
}

/// Soundness and completeness of the deduced line in one statement: a
/// cell is decided in the result exactly when every placement consistent
/// with the line agrees on it.
pub proof fn lemma_line_solution_forced(line: Seq<Cell>, clues: Seq<u16>, j: int)
    requires
        satisfiable(line, clues),
        0 <= j < line.len(),
    ensures
        line_solution(line, clues)[j] is Filled <==> forced_filled(line, clues, j),
        line_solution(line, clues)[j] is Empty <==> forced_empty(line, clues, j),
{
    let witness = choose|starts: Seq<u16>| admits(line, clues, starts);
    if forced_filled(line, clues, j) && forced_empty(line, clues, j) {
        assert(covered(clues, witness, j) && !covered(clues, witness, j));
    }
    if line_solution(line, clues)[j] is Filled && !forced_filled(line, clues, j) {
        assert(line[j] is Filled);
        lemma_solved_cell_forced(line, clues, j);
    }
    if line_solution(line, clues)[j] is Empty && !forced_empty(line, clues, j) {
        assert(line[j] is Empty);
        lemma_solved_cell_forced(line, clues, j);
    }
}

/// Monotonicity of the deduced line: cells already solved keep their
/// value, and no cell moves back towards unknown.
pub proof fn lemma_line_solution_monotone(line: Seq<Cell>, clues: Seq<u16>)
    requires
        satisfiable(line, clues),
    ensures
        forall|j: int|
            0 <= j < line.len() && (#[trigger] line[j]).spec_is_solved() ==> line_solution(
                line,
                clues,
            )[j] == line[j],
        forall|j: int|
            0 <= j < line.len() ==> #[trigger] line_solution(line, clues)[j] == line[j]
                || (line[j] is Unknown && line_solution(line, clues)[j].spec_is_solved()),
{
    let witness = choose|starts: Seq<u16>| admits(line, clues, starts);
    assert forall|j: int|
        0 <= j < line.len() && (#[trigger] line[j]).spec_is_solved() implies line_solution(
        line,
        clues,
    )[j] == line[j] by {
        lemma_solved_cell_forced(line, clues, j);
        if line[j] is Filled && forced_empty(line, clues, j) {
            assert(covered(clues, witness, j) && !covered(clues, witness, j));
        }
    }
    assert forall|j: int| 0 <= j < line.len() implies #[trigger] line_solution(line, clues)[j]
        == line[j] || (line[j] is Unknown && line_solution(line, clues)[j].spec_is_solved()) by {
        if !line[j].spec_is_solved() && line_solution(line, clues)[j] != line[j] {
            if line[j] is Error {
                lemma_suffix_pointwise(line, clues, 0, witness);
                if covered(clues, witness, j) {
                    assert(line[j].spec_can_fill());
                } else {
                    assert(line[j].spec_can_empty());
                }
            }
        }
    }
}

/// The line is a fixpoint of deduction: re-solving it with these clues
/// changes nothing.
#[verifier::opaque]
pub open spec fn line_fixed(line: Seq<Cell>, clues: Seq<u16>) -> bool {
    line_solution(line, clues) == line
}

/// What `line_fixed` says, spelled out.
pub proof fn lemma_line_fixed_unfold(line: Seq<Cell>, clues: Seq<u16>)
    ensures
        line_fixed(line, clues) <==> line_solution(line, clues) == line,
{
    reveal(line_fixed);
}

/// Determinism: the deduced line is a function of the input line and the
/// clues alone, so two results for the same input are the same line.
pub proof fn lemma_line_solution_deterministic(
    line: Seq<Cell>,
    clues: Seq<u16>,
    r1: Seq<Cell>,
    r2: Seq<Cell>,
)
    requires
        r1 == line_solution(line, clues),
        r2 == line_solution(line, clues),
    ensures
        r1 == r2,
{
}

/// The deduced line admits exactly the placements the input line does.
pub proof fn lemma_line_solution_same_placements(line: Seq<Cell>, clues: Seq<u16>)
    requires
        satisfiable(line, clues),
    ensures
        forall|starts: Seq<u16>|
            #[trigger] admits(line_solution(line, clues), clues, starts) <==> admits(
                line,
                clues,
                starts,
            ),
{
    let out = line_solution(line, clues);
    let witness = choose|starts: Seq<u16>| admits(line, clues, starts);
    assert forall|starts: Seq<u16>| #[trigger] admits(line, clues, starts) implies admits(
        out,
        clues,
        starts,
    ) by {
        lemma_suffix_pointwise(line, clues, 0, starts);
        assert forall|j: int|
            0 <= j < line.len() && #[trigger] covered(clues, starts, j) implies out[
            j].spec_can_fill() by {
            if out[j] is Empty {
                if forced_empty(line, clues, j) {
                    assert(!covered(clues, starts, j));
                } else {
                    assert(line[j] is Empty);
                    assert(line[j].spec_can_fill());
                }
            }
        }
        assert forall|j: int|
            0 <= j < line.len() && !(#[trigger] covered(clues, starts, j)) implies out[
            j].spec_can_empty() by {
            if out[j] is Filled {
                if forced_filled(line, clues, j) {
                    assert(covered(clues, starts, j));
                } else {
                    assert(line[j] is Filled);
                    assert(line[j].spec_can_empty());
                }
            }
        }
        lemma_suffix_change(line, out, clues, 0, starts);
    }
    assert forall|starts: Seq<u16>| #[trigger] admits(out, clues, starts) implies admits(
        line,
        clues,
        starts,
    ) by {
        assert forall|j: int| 0 <= j < out.len() implies cell_refines(
            #[trigger] out[j],
            line[j],
        ) by {
            lemma_line_solution_monotone(line, clues);
        }
        lemma_admits_weaken(out, line, clues, starts);
    }
}

/// Idempotence at the fixpoint: deducing again from the deduced line
/// (with the same clues) changes nothing.
pub proof fn lemma_line_solution_idempotent(line: Seq<Cell>, clues: Seq<u16>)
    requires
        satisfiable(line, clues),
    ensures
        line_solution(line_solution(line, clues), clues) == line_solution(line, clues),
{
    let out = line_solution(line, clues);
    lemma_line_solution_same_placements(line, clues);
    assert forall|j: int|
        0 <= j < out.len() implies #[trigger] line_solution(out, clues)[j] == out[j] by {
        assert(forced_filled(out, clues, j) == forced_filled(line, clues, j)) by {
            if forced_filled(out, clues, j) {
                assert forall|starts: Seq<u16>| #[trigger] admits(line, clues, starts)
                    implies covered(clues, starts, j) by {
                    assert(admits(out, clues, starts));
                }
            }
            if forced_filled(line, clues, j) {
                assert forall|starts: Seq<u16>| #[trigger] admits(out, clues, starts)
                    implies covered(clues, starts, j) by {
                    assert(admits(line, clues, starts));
                }
            }
        }
        assert(forced_empty(out, clues, j) == forced_empty(line, clues, j)) by {
            if forced_empty(out, clues, j) {
                assert forall|starts: Seq<u16>| #[trigger] admits(line, clues, starts)
                    implies !covered(clues, starts, j) by {
                    assert(admits(out, clues, starts));
                }
            }
            if forced_empty(line, clues, j) {
                assert forall|starts: Seq<u16>| #[trigger] admits(out, clues, starts)
                    implies !covered(clues, starts, j) by {
                    assert(admits(line, clues, starts));
                }
            }
        }
        if !forced_filled(line, clues, j) && !forced_empty(line, clues, j) {
            assert(out[j] == line[j]);
        }
    }
    assert(line_solution(out, clues) =~= out);
}

/// Whether cell `j` lies inside one of the placed runs.
fn placed_covers(clues: &Vec<u16>, starts: &Vec<u16>, j: usize) -> (r: bool)
    requires
        starts@.len() == clues@.len(),
    ensures
        r == covered(clues@, starts@, j as int),
{
    let n = starts.len();
    let mut i: usize = 0;
    while i < n
        invariant
            i <= n,
            n == starts@.len(),
            n == clues@.len(),
            forall|t: int| 0 <= t < i ==> !((#[trigger] starts@[t]) <= j < starts@[t] + clues@[t]),
        decreases n - i,
    {
        if starts[i] as usize <= j && j < starts[i] as usize + clues[i] as usize {
            assert(starts@[i as int] <= j < starts@[i as int] + clues@[i as int]);
            return true;
        }
        i = i + 1;
    }
    false
}

/// Draws a placement as a line: the cells of each run filled, every
/// other cell empty.
pub fn render_placed_clues(clues: &Vec<u16>, starts: &Vec<u16>, size: LineSize) -> (r: Line)
    requires
        starts@.len() == clues@.len(),
    ensures
        r.wf(),
        r@.len() == size,
        forall|j: int|
            0 <= j < size ==> #[trigger] r@[j] == (if covered(clues@, starts@, j) {
                Cell::Filled
            } else {
                Cell::Empty
            }),
{
    let mut cells: Vec<Cell> = Vec::new();
    let mut j: usize = 0;
    while j < size as usize
        invariant
            j <= size,
            cells@.len() == j,
            starts@.len() == clues@.len(),
            forall|t: int|
                0 <= t < j ==> #[trigger] cells@[t] == (if covered(clues@, starts@, t) {
                    Cell::Filled
                } else {
                    Cell::Empty
                }),
        decreases size - j,
    {
        if placed_covers(clues, starts, j) {
            cells.push(Cell::Filled);
        } else {
            cells.push(Cell::Empty);
        }
        j = j + 1;
    }
    Line::new(cells)
}

/// Solves one line cell by cell: construction fails exactly when the line
/// already contradicts its clues, and afterwards each call to `next`
/// yields the deduced value of the next cell.
pub struct LineSolver {
    clues: Vec<u16>,
    line: Line,
    sample: Line,
    proposed: Line,
    index: usize,
    original: Ghost<Seq<Cell>>,
}

impl LineSolver {
    /// The line the solver was built from.
    pub closed spec fn origin(&self) -> Seq<Cell> {
        self.original@
    }

    /// The clue sequence of the line.
    pub closed spec fn clue_list(&self) -> Seq<u16> {
        self.clues@
    }

    /// How many cells have been yielded so far.
    pub closed spec fn cursor(&self) -> int {
        self.index as int
    }

    /// The line as deduced so far: cells before the cursor carry the
    /// solution, cells after it still carry the input.
    pub closed spec fn committed(&self) -> Seq<Cell> {
        self.line@
    }

    /// The solver's invariant, with the first `processed` cells done.
    closed spec fn wf_core(&self, processed: int) -> bool {
        let orig = self.original@;
        let cl = self.clues@;
        &&& self.line.wf()
        &&& cl.len() <= MAX_LINE_LEN
        &&& self.line@.len() == orig.len()
        &&& self.sample@.len() == orig.len()
        &&& self.proposed@ == self.line@
        &&& satisfiable(orig, cl)
        // the deduced line only strengthens the input
        &&& forall|j: int|
            0 <= j < orig.len() && (#[trigger] orig[j]).spec_is_solved() ==> self.line@[j]
                == orig[j]
        &&& forall|j: int| processed <= j < orig.len() ==> #[trigger] self.line@[j] == orig[j]
        // the deduced line admits exactly the placements the input does
        &&& forall|starts: Seq<u16>|
            admits(orig, cl, starts) <==> #[trigger] admits(self.line@, cl, starts)
        // what the sample still claims is witnessed by some placement,
        // and what is forced is still claimed by the sample
        &&& forall|j: int|
            0 <= j < orig.len() && forced_filled(orig, cl, j) ==> (#[trigger] self.sample@[j])
                is Filled
        &&& forall|j: int|
            0 <= j < orig.len() && forced_empty(orig, cl, j) ==> (#[trigger] self.sample@[j])
                is Empty
        &&& forall|j: int|
            0 <= j < orig.len() && (#[trigger] self.sample@[j]) is Filled ==> exists|
                starts: Seq<u16>,
            |
                #[trigger] admits(orig, cl, starts) && covered(cl, starts, j)
        &&& forall|j: int|
            0 <= j < orig.len() && (#[trigger] self.sample@[j]) is Empty ==> exists|
                starts: Seq<u16>,
            |
                #[trigger] admits(orig, cl, starts) && !covered(cl, starts, j)
        &&& forall|j: int| 0 <= j < orig.len() ==> !((#[trigger] self.sample@[j]) is Error)
        // cells already processed carry the solution
        &&& forall|j: int|
            0 <= j < processed ==> #[trigger] self.line@[j] == line_solution(orig, cl)[j]
    }

    /// The solver's invariant.
    pub closed spec fn wf(&self) -> bool {
        &&& self.index <= self.original@.len()
        &&& self.wf_core(self.index as int)
    }

    /// What a caller may rely on between calls: the partially deduced
    /// line admits exactly the placements the input line does, cells
    /// behind the cursor still carry the input, and deduction only
    /// strengthens.
    pub proof fn lemma_committed_same_placements(&self)
        requires
            self.wf(),
        ensures
            forall|starts: Seq<u16>|
                admits(self.committed(), self.clue_list(), starts) <==> #[trigger] admits(
                    self.origin(),
                    self.clue_list(),
                    starts,
                ),
            satisfiable(self.origin(), self.clue_list()),
            self.committed().len() == self.origin().len(),
            0 <= self.cursor() <= self.origin().len(),
            forall|j: int|
                self.cursor() <= j < self.origin().len() ==> #[trigger] self.committed()[j]
                    == self.origin()[j],
            forall|j: int|
                0 <= j < self.origin().len() && (#[trigger] self.origin()[j]).spec_is_solved()
                    ==> self.committed()[j] == self.origin()[j],
            forall|j: int|
                0 <= j < self.cursor() ==> #[trigger] self.committed()[j] == line_solution(
                    self.origin(),
                    self.clue_list(),
                )[j],
    {
    }

    /// Builds a solver for one line and its clues; fails exactly when no
    /// placement of the clues is consistent with the line.
    pub fn new(line: &Line, clues: &Vec<u16>) -> (r: Option<LineSolver>)
        requires
            line.wf(),
            clues@.len() <= MAX_LINE_LEN,
        ensures
            r is Some <==> satisfiable(line@, clues@),
            r matches Some(ls) ==> {
                &&& ls.wf()
                &&& ls.origin() == line@
                &&& ls.clue_list() == clues@
                &&& ls.cursor() == 0
                &&& ls.committed() == line@
            },
    {
        match find_placement(line, clues) {
            None => None,
            Some(starts) => {
                proof {
                    lemma_admissible_len(line@, clues@, 0, starts@);
                }
                let sample = render_placed_clues(clues, &starts, line.len());
                let solver = LineSolver {
                    clues: clues.clone(),
                    line: line.clone(),
                    sample,
                    proposed: line.clone(),
                    index: 0,
                    original: Ghost(line@),
                };
                proof {
                    let orig = line@;
                    let cl = clues@;
                    assert forall|j: int|
                        0 <= j < orig.len() && forced_filled(orig, cl, j) implies (
                    #[trigger] solver.sample@[j]) is Filled by {
                        assert(covered(cl, starts@, j));
                    }
                    assert forall|j: int|
                        0 <= j < orig.len() && forced_empty(orig, cl, j) implies (
                    #[trigger] solver.sample@[j]) is Empty by {
                        assert(!covered(cl, starts@, j));
                    }
                    assert forall|j: int|
                        0 <= j < orig.len() && (#[trigger] solver.sample@[j]) is Filled implies
                        exists|s: Seq<u16>| #[trigger] admits(orig, cl, s) && covered(
                            cl,
                            s,
                            j,
                        ) by {
                        assert(admits(orig, cl, starts@) && covered(cl, starts@, j));
                    }
                    assert forall|j: int|
                        0 <= j < orig.len() && (#[trigger] solver.sample@[j]) is Empty implies
                        exists|s: Seq<u16>| #[trigger] admits(orig, cl, s) && !covered(
                            cl,
                            s,
                            j,
                        ) by {
                        assert(admits(orig, cl, starts@) && !covered(cl, starts@, j));
                    }
                }
                Some(solver)
            },
        }
    }

    /// Deduces the cell at the cursor, leaving the cursor in place.
    #[verifier::rlimit(100)]
    #[verifier::spinoff_prover]
    fn solve_cell(&mut self) -> (cell: Cell)
        requires
            old(self).wf(),
            old(self).cursor() < old(self).origin().len(),
        ensures
            final(self).wf_core(old(self).cursor() + 1),
            final(self).cursor() == old(self).cursor(),
            final(self).cursor() <= final(self).origin().len(),
            final(self).origin() == old(self).origin(),
            final(self).clue_list() == old(self).clue_list(),
            cell == line_solution(old(self).origin(), old(self).clue_list())[old(self).cursor()],
            final(self).committed() == old(self).committed().update(old(self).cursor(), cell),
    {
        let i = self.index;
        let ghost orig = self.original@;
        let ghost cl = self.clues@;
        let ghost sol = line_solution(orig, cl);
        let ghost iv = i as int;
        let existing = self.line.get(i as LineSize);
        proof {
            assert(self.line@[iv] == orig[iv]);
        }
        if !existing.is_unknown() {
            proof {
                let witness = choose|starts: Seq<u16>| admits(orig, cl, starts);
                if orig[iv] is Error {
                    lemma_suffix_pointwise(orig, cl, 0, witness);
                    if covered(cl, witness, iv) {
                        assert(orig[iv].spec_can_fill());
                    } else {
                        assert(orig[iv].spec_can_empty());
                    }
                }
                lemma_solved_cell_forced(orig, cl, iv);
                if orig[iv] is Filled && forced_empty(orig, cl, iv) {
                    assert(covered(cl, witness, iv) && !covered(cl, witness, iv));
                }
                assert(self.line@.update(iv, existing) =~= self.line@);
            }
            return existing;
        }
        let sample_cell = self.sample.get(i as LineSize);
        let invert = match sample_cell {
            Cell::Empty => Cell::Filled,
            Cell::Filled => Cell::Empty,
            _ => {
                // an unknown sample cell means two placements already
                // disagreed here, so nothing is forced
                proof {
                    assert(self.sample@[iv] is Unknown);
                    assert(!forced_filled(orig, cl, iv));
                    assert(!forced_empty(orig, cl, iv));
                    assert(self.line@.update(iv, existing) =~= self.line@);
                }
                return existing;
            },
        };
        self.proposed.set(i as LineSize, invert);
        match find_placement(&self.proposed, &self.clues) {
            None => {
                // the flip admits no placement: the sample value is forced
                proof {
                    let line_old = old(self).committed();
                    assert forall|starts: Seq<u16>| #[trigger] admits(line_old, cl, starts)
                        implies (covered(cl, starts, iv) <==> sample_cell is Filled) by {
                        if (covered(cl, starts, iv) <==> invert is Filled) {
                            lemma_suffix_pointwise(line_old, cl, 0, starts);
                            assert forall|j: int|
                                0 <= j < line_old.len() && #[trigger] covered(cl, starts, j)
                                    implies self.proposed@[j].spec_can_fill() by {
                                if j != iv {
                                    assert(self.proposed@[j] == line_old[j]);
                                }
                            }
                            assert forall|j: int|
                                0 <= j < line_old.len() && !(#[trigger] covered(cl, starts, j))
                                    implies self.proposed@[j].spec_can_empty() by {
                                if j != iv {
                                    assert(self.proposed@[j] == line_old[j]);
                                }
                            }
                            lemma_suffix_change(line_old, self.proposed@, cl, 0, starts);
                            assert(admits(self.proposed@, cl, starts));
                            assert(satisfiable(self.proposed@, cl));
                        }
                    }
                }
                self.proposed.set(i as LineSize, sample_cell);
                self.line.set(i as LineSize, sample_cell);
                proof {
                    let line_old = old(self).committed();
                    let line_new = self.line@;
                    assert(line_new == line_old.update(iv, sample_cell));
                    // the committed value agrees with every placement, so
                    // the admitted set is unchanged
                    assert forall|starts: Seq<u16>| #[trigger] admits(line_old, cl, starts)
                        implies admits(line_new, cl, starts) by {
                        lemma_suffix_pointwise(line_old, cl, 0, starts);
                        assert forall|j: int|
                            0 <= j < line_old.len() && #[trigger] covered(cl, starts, j)
                                implies line_new[j].spec_can_fill() by {
                            if j != iv {
                                assert(line_new[j] == line_old[j]);
                            }
                        }
                        assert forall|j: int|
                            0 <= j < line_old.len() && !(#[trigger] covered(cl, starts, j))
                                implies line_new[j].spec_can_empty() by {
                            if j != iv {
                                assert(line_new[j] == line_old[j]);
                            }
                        }
                        lemma_suffix_change(line_old, line_new, cl, 0, starts);
                    }
                    assert forall|starts: Seq<u16>| #[trigger] admits(line_new, cl, starts)
                        implies admits(line_old, cl, starts) by {
                        assert forall|j: int| 0 <= j < line_new.len() implies cell_refines(
                            #[trigger] line_new[j],
                            line_old[j],
                        ) by {}
                        lemma_admits_weaken(line_new, line_old, cl, starts);
                    }
                    assert(self.proposed@ =~= line_new);
                    assert forall|starts: Seq<u16>|
                        admits(orig, cl, starts) <==> #[trigger] admits(
                            line_new,
                            cl,
                            starts,
                        ) by {
                        assert(admits(orig, cl, starts) <==> admits(line_old, cl, starts));
                    }
                    // the committed value is the solution at this cell
                    let witness = choose|starts: Seq<u16>| admits(orig, cl, starts);
                    assert(admits(line_old, cl, witness));
                    if sample_cell is Filled {
                        assert forall|starts: Seq<u16>| #[trigger] admits(orig, cl, starts)
                            implies covered(cl, starts, iv) by {
                            assert(admits(line_old, cl, starts));
                        }
                        assert(forced_filled(orig, cl, iv));
                    } else {
                        assert forall|starts: Seq<u16>| #[trigger] admits(orig, cl, starts)
                            implies !covered(cl, starts, iv) by {
                            assert(admits(line_old, cl, starts));
                        }
                        assert(forced_empty(orig, cl, iv));
                        if forced_filled(orig, cl, iv) {
                            assert(covered(cl, witness, iv) && !covered(cl, witness, iv));
                        }
                    }
                    assert(sol[iv] == sample_cell);
                }
                return sample_cell;
            },
            Some(alt) => {
                // the flip is tolerated: this cell and every cell the new
                // placement disagrees on are genuinely ambiguous
                proof {
                    let line_old = old(self).committed();
                    assert forall|j: int| 0 <= j < self.proposed@.len() implies cell_refines(
                        #[trigger] self.proposed@[j],
                        line_old[j],
                    ) by {}
                    lemma_admits_weaken(self.proposed@, line_old, cl, alt@);
                    assert(admits(orig, cl, alt@));
                    lemma_suffix_pointwise(self.proposed@, cl, 0, alt@);
                    // the alternative placement takes the flipped value here
                    if invert is Filled {
                        if !covered(cl, alt@, iv) {
                            assert(self.proposed@[iv].spec_can_empty());
                        }
                    } else {
                        if covered(cl, alt@, iv) {
                            assert(self.proposed@[iv].spec_can_fill());
                        }
                    }
                    assert(covered(cl, alt@, iv) <==> invert is Filled);
                }
                let n = self.line.len();
                let mut j: usize = 0;
                while j < n as usize
                    invariant
                        j <= n,
                        n == orig.len(),
                        orig.len() <= MAX_LINE_LEN,
                        cl == self.clues@,
                        orig == self.original@,
                        alt@.len() == cl.len(),
                        admits(orig, cl, alt@),
                        self.sample@.len() == orig.len(),
                        self.clues@ == old(self).clue_list(),
                        self.original@ == old(self).origin(),
                        self.line@ == old(self).committed(),
                        self.proposed@ == old(self).committed().update(
                            old(self).cursor(),
                            invert,
                        ),
                        self.index == old(self).cursor(),
                        0 <= old(self).cursor() < orig.len(),
                        forall|t: int|
                            0 <= t < orig.len() && forced_filled(orig, cl, t) ==> (
                            #[trigger] self.sample@[t]) is Filled,
                        forall|t: int|
                            0 <= t < orig.len() && forced_empty(orig, cl, t) ==> (
                            #[trigger] self.sample@[t]) is Empty,
                        forall|t: int|
                            0 <= t < orig.len() && (#[trigger] self.sample@[t]) is Filled ==>
                                exists|s: Seq<u16>| #[trigger] admits(orig, cl, s) && covered(
                                cl,
                                s,
                                t,
                            ),
                        forall|t: int|
                            0 <= t < orig.len() && (#[trigger] self.sample@[t]) is Empty ==>
                                exists|s: Seq<u16>| #[trigger] admits(orig, cl, s) && !covered(
                                cl,
                                s,
                                t,
                            ),
                        forall|t: int|
                            0 <= t < orig.len() ==> !((#[trigger] self.sample@[t]) is Error),
                    decreases n - j,
                {
                    let placed = if placed_covers(&self.clues, &alt, j) {
                        Cell::Filled
                    } else {
                        Cell::Empty
                    };
                    let sample_j = self.sample.get(j as LineSize);
                    if placed != sample_j {
                        proof {
                            let t = j as int;
                            if sample_j is Filled {
                                // sample claims filled, alternative leaves empty
                                assert(!covered(cl, alt@, t));
                                if forced_filled(orig, cl, t) {
                                    assert(covered(cl, alt@, t));
                                }
                                if forced_empty(orig, cl, t) {
                                    let w = choose|s: Seq<u16>|
                                        admits(orig, cl, s) && covered(cl, s, t);
                                    assert(!covered(cl, w, t));
                                }
                            }
                            if sample_j is Empty {
                                assert(covered(cl, alt@, t));
                                if forced_empty(orig, cl, t) {
                                    assert(!covered(cl, alt@, t));
                                }
                                if forced_filled(orig, cl, t) {
                                    let w = choose|s: Seq<u16>|
                                        admits(orig, cl, s) && !covered(cl, s, t);
                                    assert(covered(cl, w, t));
                                }
                            }
                        }
                        self.sample.set(j as LineSize, Cell::Unknown);
                    }
                    j = j + 1;
                }
                self.proposed.set(i as LineSize, Cell::Unknown);
                proof {
                    assert(self.proposed@ =~= old(self).committed());
                    // this cell is witnessed ambiguous by the sample's
                    // witness and the alternative placement
                    if sample_cell is Filled {
                        assert(!covered(cl, alt@, iv));
                        assert(old(self).sample@[iv] is Filled);
                        let w = choose|s: Seq<u16>|
                            #[trigger] admits(orig, cl, s) && covered(cl, s, iv);
                        assert(admits(orig, cl, w) && covered(cl, w, iv));
                        assert(!forced_filled(orig, cl, iv));
                        assert(!forced_empty(orig, cl, iv));
                    } else {
                        assert(covered(cl, alt@, iv));
                        assert(old(self).sample@[iv] is Empty);
                        let w = choose|s: Seq<u16>|
                            #[trigger] admits(orig, cl, s) && !covered(cl, s, iv);
                        assert(admits(orig, cl, w) && !covered(cl, w, iv));
                        assert(!forced_filled(orig, cl, iv));
                        assert(!forced_empty(orig, cl, iv));
                    }
                    assert(sol[iv] == orig[iv]);
                    assert forall|starts: Seq<u16>|
                        admits(orig, cl, starts) <==> #[trigger] admits(
                            self.line@,
                            cl,
                            starts,
                        ) by {
                        assert(admits(orig, cl, starts) <==> admits(
                            old(self).committed(),
                            cl,
                            starts,
                        ));
                    }
                    assert(self.line@.update(iv, existing) =~= self.line@);
                }
                return existing;
            },
        }
    }

    /// The deduced value of the next cell, or `None` when the line is
    /// done.  Deduction never weakens a cell and decides exactly the
    /// forced ones: the values yielded are those of `line_solution`.
    pub fn next(&mut self) -> (r: Option<Cell>)
        requires
            old(self).wf(),
        ensures
            final(self).wf(),
            final(self).origin() == old(self).origin(),
            final(self).clue_list() == old(self).clue_list(),
            old(self).cursor() == old(self).origin().len() ==> {
                &&& r is None
                &&& final(self).cursor() == old(self).cursor()
                &&& final(self).committed() == old(self).committed()
            },
            old(self).cursor() < old(self).origin().len() ==> {
                &&& r == Some(
                    line_solution(old(self).origin(), old(self).clue_list())[old(self).cursor()],
                )
                &&& final(self).cursor() == old(self).cursor() + 1
                &&& final(self).committed() == old(self).committed().update(
                    old(self).cursor(),
                    line_solution(old(self).origin(), old(self).clue_list())[old(self).cursor()],
                )
            },
    {
        if self.index == self.line.len() as usize {
            return None;
        }
        let cell = self.solve_cell();
        let ghost pre = *self;
        self.index = self.index + 1;
        proof {
            assert(pre.wf_core(self.index as int));
            assert(self.wf_core(self.index as int));
        }
        Some(cell)
    }
}

/// Deduces every forced cell of a line at once: the result is the
/// unique maximal sound extension of the line, or `None` exactly when
/// the line already contradicts its clues.
pub fn solve_line(line: &Line, clues: &Vec<u16>) -> (r: Option<Line>)
    requires
        line.wf(),
        clues@.len() <= MAX_LINE_LEN,
    ensures
        r is Some <==> satisfiable(line@, clues@),
        r matches Some(out) ==> {
            &&& out.wf()
            &&& out@ == line_solution(line@, clues@)
        },
{
    match LineSolver::new(line, clues) {
        None => None,
        Some(mut solver) => {
            let ghost sol = line_solution(line@, clues@);
            let mut cells: Vec<Cell> = Vec::new();
            let n = line.len();
            let mut idx: usize = 0;
            while idx < n as usize
                invariant
                    solver.wf(),
                    solver.origin() == line@,
                    solver.clue_list() == clues@,
                    sol == line_solution(line@, clues@),
                    n == line@.len(),
                    idx == solver.cursor(),
                    idx == cells@.len(),
                    idx <= n,
                    forall|t: int| 0 <= t < cells@.len() ==> #[trigger] cells@[t] == sol[t],
                decreases n - idx,
            {
                match solver.next() {
                    Some(cell) => {
                        cells.push(cell);
                    },
                    None => {
                        proof {
                            assert(false);
                        }
                    },
                }
                idx = idx + 1;
            }
            proof {
                assert(cells@ =~= sol);
            }
            Some(Line::new(cells))
        },
    }
}

} // verus!
