//! What it means to place runs of filled cells on a line.
//!
//! A placement assigns one start offset to every clue of a line.  The
//! specifications here say when a placement is consistent with the cells
//! already known, and which cells are thereby forced; the executable
//! `CluePlacer` enumerates the legal offsets of a single run.

use vstd::prelude::*;

use crate::cell::Cell;
use crate::line::Line;
use crate::line::LineSize;
use crate::line::MAX_LINE_LEN;

verus! {

/// A single run of `size` filled cells may start at offset `s`, given that
/// the line is only considered from offset `o` on: everything in `[o, s)`
/// can be empty, the run's cells can be filled, and the cell just after
/// the run (if any) can be empty.
pub open spec fn run_fits(line: Seq<Cell>, size: u16, o: int, s: int) -> bool {
    &&& o <= s
    &&& s + size <= line.len()
    &&& forall|j: int| o <= j < s ==> (#[trigger] line[j]).spec_can_empty()
    &&& forall|j: int| s <= j < s + size ==> (#[trigger] line[j]).spec_can_fill()
    &&& (s + size == line.len() || line[s + size].spec_can_empty())
}

/// The starts `starts` place the runs `sizes` on the tail of the line
/// beginning at offset `o`: runs come in order, at least one gap apart,
/// and every cell from `o` on is consistent with the outcome.
pub open spec fn suffix_admissible(
    line: Seq<Cell>,
    sizes: Seq<u16>,
    o: int,
    starts: Seq<u16>,
) -> bool
    decreases sizes.len(),
{
    if sizes.len() == 0 {
        &&& starts.len() == 0
        &&& forall|j: int| o <= j < line.len() ==> (#[trigger] line[j]).spec_can_empty()
    } else {
        &&& starts.len() == sizes.len()
        &&& run_fits(line, sizes[0], o, starts[0] as int)
        &&& suffix_admissible(
            line,
            sizes.drop_first(),
            starts[0] + sizes[0] + 1,
            starts.drop_first(),
        )
    }
}

/// A full placement of all clues on the line.
pub open spec fn admits(line: Seq<Cell>, clues: Seq<u16>, starts: Seq<u16>) -> bool {
    suffix_admissible(line, clues, 0, starts)
}

/// Some full placement of the clues is consistent with the line.
pub open spec fn satisfiable(line: Seq<Cell>, clues: Seq<u16>) -> bool {
    exists|starts: Seq<u16>| admits(line, clues, starts)
}

/// Cell `j` lies inside one of the placed runs.
pub open spec fn covered(sizes: Seq<u16>, starts: Seq<u16>, j: int) -> bool {
    exists|i: int| 0 <= i < starts.len() && (#[trigger] starts[i]) <= j < starts[i] + sizes[i]
}

/// Every placement consistent with the line fills cell `j`.
pub open spec fn forced_filled(line: Seq<Cell>, clues: Seq<u16>, j: int) -> bool {
    forall|starts: Seq<u16>| #[trigger] admits(line, clues, starts) ==> covered(clues, starts, j)
}

/// Every placement consistent with the line leaves cell `j` empty.
pub open spec fn forced_empty(line: Seq<Cell>, clues: Seq<u16>, j: int) -> bool {
    forall|starts: Seq<u16>| #[trigger] admits(line, clues, starts) ==> !covered(clues, starts, j)
}

/// Whatever may still happen to `c2` may also happen to `c1`.
pub open spec fn cell_refines(c2: Cell, c1: Cell) -> bool {
    &&& (c2.spec_can_empty() ==> c1.spec_can_empty())
    &&& (c2.spec_can_fill() ==> c1.spec_can_fill())
}

/// An admissible placement has one start per run.
pub proof fn lemma_admissible_len(line: Seq<Cell>, sizes: Seq<u16>, o: int, starts: Seq<u16>)
    requires
        suffix_admissible(line, sizes, o, starts),
    ensures
        starts.len() == sizes.len(),
{
}

/// Strict lexicographic order on placements of equal length.
pub open spec fn lex_lt(a: Seq<u16>, b: Seq<u16>) -> bool
    decreases a.len(),
{
    &&& a.len() == b.len()
    &&& a.len() > 0
    &&& (a[0] < b[0] || (a[0] == b[0] && lex_lt(a.drop_first(), b.drop_first())))
}

/// The first position at which two placements differ.
pub open spec fn first_diff(a: Seq<u16>, b: Seq<u16>) -> int
    decreases a.len(),
{
    if a.len() == 0 || b.len() == 0 || a[0] != b[0] {
        0
    } else {
        1 + first_diff(a.drop_first(), b.drop_first())
    }
}

/// A lexicographically smaller placement agrees with the larger one up
/// to their first difference, where it is strictly smaller.
pub proof fn lemma_lex_witness(a: Seq<u16>, b: Seq<u16>)
    requires
        lex_lt(a, b),
    ensures
        0 <= first_diff(a, b) < a.len(),
        a.take(first_diff(a, b)) == b.take(first_diff(a, b)),
        a[first_diff(a, b)] < b[first_diff(a, b)],
    decreases a.len(),
{
    if a[0] < b[0] {
        assert(a.take(0) =~= b.take(0));
    } else {
        lemma_lex_witness(a.drop_first(), b.drop_first());
        let k = first_diff(a.drop_first(), b.drop_first());
        assert(first_diff(a, b) == k + 1);
        assert(a.take(k + 1) =~= b.take(k + 1)) by {
            assert forall|i: int|
                0 <= i < k + 1 implies #[trigger] a.take(k + 1)[i] == b.take(k + 1)[i] by {
                if i > 0 {
                    assert(a.drop_first().take(k)[i - 1] == b.drop_first().take(k)[i - 1]);
                }
            }
        }
        assert(a[k + 1] == a.drop_first()[k]);
        assert(b[k + 1] == b.drop_first()[k]);
    }
}

/// Two placements of equal length that agree before `k`, where the
/// first is strictly smaller, are lexicographically ordered.
pub proof fn lemma_lex_from_prefix(a: Seq<u16>, b: Seq<u16>, k: int)
    requires
        a.len() == b.len(),
        0 <= k < a.len(),
        a.take(k) == b.take(k),
        a[k] < b[k],
    ensures
        lex_lt(a, b),
    decreases k,
{
    if k == 0 {
    } else {
        assert(a[0] == b[0]) by {
            assert(a.take(k)[0] == a[0]);
            assert(b.take(k)[0] == b[0]);
            assert(a.take(k)[0] == b.take(k)[0]);
        }
        assert(a.drop_first().take(k - 1) =~= b.drop_first().take(k - 1)) by {
            assert forall|i: int|
                0 <= i < k - 1 implies #[trigger] a.drop_first().take(k - 1)[i]
                == b.drop_first().take(k - 1)[i] by {
                assert(a.drop_first().take(k - 1)[i] == a.drop_first()[i]);
                assert(a.drop_first()[i] == a[i + 1]);
                assert(b.drop_first().take(k - 1)[i] == b.drop_first()[i]);
                assert(b.drop_first()[i] == b[i + 1]);
                assert(a.take(k)[i + 1] == a[i + 1]);
                assert(b.take(k)[i + 1] == b[i + 1]);
                assert(a.take(k)[i + 1] == b.take(k)[i + 1]);
            }
        }
        assert(a.drop_first()[k - 1] == a[k]);
        assert(b.drop_first()[k - 1] == b[k]);
        lemma_lex_from_prefix(a.drop_first(), b.drop_first(), k - 1);
    }
}

/// Equal prefixes extend a comparison of the tails to the whole.
pub proof fn lemma_lex_extend(a: Seq<u16>, b: Seq<u16>, k: int)
    requires
        a.len() == b.len(),
        0 <= k <= a.len(),
        a.take(k) == b.take(k),
        lex_lt(a.skip(k), b.skip(k)),
    ensures
        lex_lt(a, b),
    decreases k,
{
    if k == 0 {
        assert(a.skip(0) =~= a);
        assert(b.skip(0) =~= b);
    } else {
        assert(a[0] == b[0]) by {
            assert(a.take(k)[0] == a[0]);
            assert(b.take(k)[0] == b[0]);
            assert(a.take(k)[0] == b.take(k)[0]);
        }
        assert(a.drop_first().take(k - 1) =~= b.drop_first().take(k - 1)) by {
            assert forall|i: int|
                0 <= i < k - 1 implies #[trigger] a.drop_first().take(k - 1)[i]
                == b.drop_first().take(k - 1)[i] by {
                assert(a.drop_first().take(k - 1)[i] == a.drop_first()[i]);
                assert(a.drop_first()[i] == a[i + 1]);
                assert(b.drop_first().take(k - 1)[i] == b.drop_first()[i]);
                assert(b.drop_first()[i] == b[i + 1]);
                assert(a.take(k)[i + 1] == a[i + 1]);
                assert(b.take(k)[i + 1] == b[i + 1]);
                assert(a.take(k)[i + 1] == b.take(k)[i + 1]);
            }
        }
        assert(a.drop_first().skip(k - 1) =~= a.skip(k));
        assert(b.drop_first().skip(k - 1) =~= b.skip(k));
        lemma_lex_extend(a.drop_first(), b.drop_first(), k - 1);
        assert(lex_lt(a.drop_first(), b.drop_first()));
    }
}

/// Splitting an admissible placement at run `k` leaves an admissible
/// placement of the clue tail after the gap behind run `k - 1`.
pub proof fn lemma_decompose(line: Seq<Cell>, sizes: Seq<u16>, o: int, starts: Seq<u16>, k: int)
    requires
        suffix_admissible(line, sizes, o, starts),
        0 < k <= sizes.len(),
    ensures
        suffix_admissible(line, sizes.skip(k), starts[k - 1] + sizes[k - 1] + 1, starts.skip(k)),
    decreases k,
{
    if k == 1 {
        assert(sizes.skip(1) =~= sizes.drop_first());
        assert(starts.skip(1) =~= starts.drop_first());
    } else {
        assert(sizes.drop_first().skip(k - 1) =~= sizes.skip(k));
        assert(starts.drop_first().skip(k - 1) =~= starts.skip(k));
        assert(starts.drop_first()[k - 2] == starts[k - 1]);
        assert(sizes.drop_first()[k - 2] == sizes[k - 1]);
        lemma_decompose(
            line,
            sizes.drop_first(),
            starts[0] + sizes[0] + 1,
            starts.drop_first(),
            k - 1,
        );
    }
}

/// The runs of an admissible placement come in order, one gap apart,
/// inside `[o, line.len())`.
pub proof fn lemma_run_bounds(line: Seq<Cell>, sizes: Seq<u16>, o: int, starts: Seq<u16>)
    requires
        suffix_admissible(line, sizes, o, starts),
    ensures
        starts.len() == sizes.len(),
        forall|i: int| 0 <= i < starts.len() ==> o <= #[trigger] starts[i],
        forall|i: int| 0 <= i < starts.len() ==> #[trigger] starts[i] + sizes[i] <= line.len(),
        forall|i: int|
            0 < i < starts.len() ==> starts[i - 1] + sizes[i - 1] + 1 <= #[trigger] starts[i],
    decreases sizes.len(),
{
    if sizes.len() > 0 {
        let o2 = starts[0] + sizes[0] + 1;
        lemma_run_bounds(line, sizes.drop_first(), o2, starts.drop_first());
        assert forall|i: int| 0 <= i < starts.len() implies o <= #[trigger] starts[i] by {
            if i > 0 {
                assert(starts.drop_first()[i - 1] == starts[i]);
            }
        }
        assert forall|i: int| 0 <= i < starts.len() implies #[trigger] starts[i] + sizes[i]
            <= line.len() by {
            if i > 0 {
                assert(starts.drop_first()[i - 1] == starts[i]);
                assert(sizes.drop_first()[i - 1] == sizes[i]);
            }
        }
        assert forall|i: int| 0 < i < starts.len() implies starts[i - 1] + sizes[i - 1] + 1
            <= #[trigger] starts[i] by {
            assert(starts.drop_first()[i - 1] == starts[i]);
            if i > 1 {
                assert(starts.drop_first()[i - 2] == starts[i - 1]);
                assert(sizes.drop_first()[i - 2] == sizes[i - 1]);
            }
        }
    }
}

/// Replacing the tail of an admissible placement from run `k` on by any
/// placement admissible from the gap after run `k - 1` yields an
/// admissible placement again.
pub proof fn lemma_splice(
    line: Seq<Cell>,
    sizes: Seq<u16>,
    o: int,
    starts: Seq<u16>,
    k: int,
    tail: Seq<u16>,
)
    requires
        suffix_admissible(line, sizes, o, starts),
        0 < k <= sizes.len(),
        suffix_admissible(line, sizes.skip(k), starts[k - 1] + sizes[k - 1] + 1, tail),
    ensures
        suffix_admissible(line, sizes, o, starts.take(k) + tail),
    decreases k,
{
    lemma_admissible_len(line, sizes.skip(k), starts[k - 1] + sizes[k - 1] + 1, tail);
    let spliced = starts.take(k) + tail;
    assert(spliced.len() == sizes.len());
    assert(spliced[0] == starts[0]);
    if k == 1 {
        assert(sizes.skip(1) =~= sizes.drop_first());
        assert(spliced.drop_first() =~= tail);
    } else {
        assert(sizes.drop_first().skip(k - 1) =~= sizes.skip(k));
        assert(starts.drop_first()[k - 2] == starts[k - 1]);
        assert(sizes.drop_first()[k - 2] == sizes[k - 1]);
        lemma_splice(
            line,
            sizes.drop_first(),
            starts[0] + sizes[0] + 1,
            starts.drop_first(),
            k - 1,
            tail,
        );
        assert(spliced.drop_first() =~= starts.drop_first().take(k - 1) + tail);
    }
}

/// Unfolds `covered` by one run.
pub proof fn lemma_covered_unfold(sizes: Seq<u16>, starts: Seq<u16>, j: int)
    requires
        sizes.len() == starts.len(),
        sizes.len() > 0,
    ensures
        covered(sizes, starts, j) <==> (starts[0] <= j < starts[0] + sizes[0] || covered(
            sizes.drop_first(),
            starts.drop_first(),
            j,
        )),
{
    if covered(sizes, starts, j) {
        let i = choose|i: int| 0 <= i < starts.len() && (#[trigger] starts[i]) <= j < starts[i]
            + sizes[i];
        if i > 0 {
            assert(starts.drop_first()[i - 1] <= j < starts.drop_first()[i - 1]
                + sizes.drop_first()[i - 1]);
        }
    }
    if covered(sizes.drop_first(), starts.drop_first(), j) {
        let i = choose|i: int|
            0 <= i < starts.drop_first().len() && (#[trigger] starts.drop_first()[i]) <= j
                < starts.drop_first()[i] + sizes.drop_first()[i];
        assert(starts[i + 1] <= j < starts[i + 1] + sizes[i + 1]);
    }
}

/// Reads an admissible placement cell by cell: covered cells can be
/// filled, all other cells from `o` on can be empty, and no covered cell
/// lies outside `[o, line.len())`.
pub proof fn lemma_suffix_pointwise(line: Seq<Cell>, sizes: Seq<u16>, o: int, starts: Seq<u16>)
    requires
        suffix_admissible(line, sizes, o, starts),
    ensures
        forall|j: int| #[trigger] covered(sizes, starts, j) ==> o <= j < line.len(),
        forall|j: int|
            o <= j < line.len() && #[trigger] covered(sizes, starts, j)
                ==> line[j].spec_can_fill(),
        forall|j: int|
            o <= j < line.len() && !(#[trigger] covered(sizes, starts, j))
                ==> line[j].spec_can_empty(),
    decreases sizes.len(),
{
    if sizes.len() == 0 {
        assert forall|j: int| #[trigger] covered(sizes, starts, j) implies o <= j < line.len() by {
            assert(starts.len() == 0);
        }
    } else {
        let s0 = starts[0] as int;
        let sz = sizes[0] as int;
        let o2 = s0 + sz + 1;
        lemma_suffix_pointwise(line, sizes.drop_first(), o2, starts.drop_first());
        assert forall|j: int| #[trigger] covered(sizes, starts, j) implies o <= j < line.len() by {
            lemma_covered_unfold(sizes, starts, j);
        }
        assert forall|j: int|
            o <= j < line.len() && #[trigger] covered(sizes, starts, j) implies line[
            j].spec_can_fill() by {
            lemma_covered_unfold(sizes, starts, j);
        }
        assert forall|j: int|
            o <= j < line.len() && !(#[trigger] covered(sizes, starts, j)) implies line[
            j].spec_can_empty() by {
            lemma_covered_unfold(sizes, starts, j);
            if j < s0 {
            } else if j == s0 + sz {
            } else {
                assert(o2 <= j < line.len());
            }
        }
    }
}

/// An admissible placement stays admissible on another line of the same
/// length whose cells agree with the placement's outcome.
pub proof fn lemma_suffix_change(
    l1: Seq<Cell>,
    l2: Seq<Cell>,
    sizes: Seq<u16>,
    o: int,
    starts: Seq<u16>,
)
    requires
        suffix_admissible(l1, sizes, o, starts),
        l2.len() == l1.len(),
        forall|j: int|
            o <= j < l1.len() && #[trigger] covered(sizes, starts, j) ==> l2[j].spec_can_fill(),
        forall|j: int|
            o <= j < l1.len() && !(#[trigger] covered(sizes, starts, j))
                ==> l2[j].spec_can_empty(),
    ensures
        suffix_admissible(l2, sizes, o, starts),
    decreases sizes.len(),
{
    if sizes.len() == 0 {
        assert forall|j: int| o <= j < l2.len() implies (#[trigger] l2[j]).spec_can_empty() by {
            assert(starts.len() == 0);
            assert(!covered(sizes, starts, j));
        }
    } else {
        let s0 = starts[0] as int;
        let sz = sizes[0] as int;
        let o2 = s0 + sz + 1;
        lemma_suffix_pointwise(l1, sizes.drop_first(), o2, starts.drop_first());
        assert forall|j: int| s0 <= j < s0 + sz implies (#[trigger] l2[j]).spec_can_fill() by {
            assert(covered(sizes, starts, j));
        }
        assert forall|j: int| o <= j < s0 implies (#[trigger] l2[j]).spec_can_empty() by {
            lemma_covered_unfold(sizes, starts, j);
        }
        if s0 + sz < l1.len() {
            assert(!covered(sizes, starts, s0 + sz)) by {
                lemma_covered_unfold(sizes, starts, s0 + sz);
            }
            assert(l2[s0 + sz].spec_can_empty());
        }
        assert(run_fits(l2, sizes[0], o, s0));
        assert forall|j: int|
            o2 <= j < l1.len() && #[trigger] covered(
                sizes.drop_first(),
                starts.drop_first(),
                j,
            ) implies l2[j].spec_can_fill() by {
            lemma_covered_unfold(sizes, starts, j);
        }
        assert forall|j: int|
            o2 <= j < l1.len() && !(#[trigger] covered(
                sizes.drop_first(),
                starts.drop_first(),
                j,
            )) implies l2[j].spec_can_empty() by {
            lemma_covered_unfold(sizes, starts, j);
        }
        lemma_suffix_change(l1, l2, sizes.drop_first(), o2, starts.drop_first());
    }
}

/// A placement admissible on a stronger line (every cell refining the
/// weaker one) is admissible on the weaker line too.
pub proof fn lemma_admits_weaken(l2: Seq<Cell>, l1: Seq<Cell>, clues: Seq<u16>, starts: Seq<u16>)
    requires
        admits(l2, clues, starts),
        l1.len() == l2.len(),
        forall|j: int| 0 <= j < l2.len() ==> cell_refines(#[trigger] l2[j], l1[j]),
    ensures
        admits(l1, clues, starts),
{
    lemma_suffix_pointwise(l2, clues, 0, starts);
    lemma_suffix_change(l2, l1, clues, 0, starts);
}

/// Enumerates, in increasing order, every offset at which a single run of
/// `size` filled cells could start on the line, counting from the front:
/// exactly the offsets `s` with `run_fits(line, size, 0, s)`.
pub struct CluePlacer {
    cells: Vec<Cell>,
    size: u16,
    start: usize,
}

/// Builds a `CluePlacer` over (a copy of) the line for one run length.
pub fn place_clue(line: &Line, size: LineSize) -> (r: CluePlacer)
    requires
        line.wf(),
    ensures
        r.wf(),
        r.line_view() == line@,
        r.run_size() == size,
        r.cursor() == 0,
{
    CluePlacer::new(line, size)
}

impl CluePlacer {
    /// The line being scanned.
    pub closed spec fn line_view(&self) -> Seq<Cell> {
        self.cells@
    }

    /// The run length being placed.
    pub closed spec fn run_size(&self) -> u16 {
        self.size
    }

    /// The next offset to be examined; all smaller offsets are done.
    pub closed spec fn cursor(&self) -> int {
        self.start as int
    }

    /// The scan has passed every cell before the cursor and found it
    /// able to be empty (the cell just before the cursor is checked on
    /// the next call).
    pub closed spec fn wf(&self) -> bool {
        &&& self.cells@.len() <= MAX_LINE_LEN
        &&& self.start <= self.cells@.len() + 1
        &&& forall|j: int|
            0 <= j < self.start - 1 ==> (#[trigger] self.cells@[j]).spec_can_empty()
    }

    /// Starts a scan at the front of the line.
    pub fn new(line: &Line, size: LineSize) -> (r: CluePlacer)
        requires
            line.wf(),
        ensures
            r.wf(),
            r.line_view() == line@,
            r.run_size() == size,
            r.cursor() == 0,
    {
        CluePlacer { cells: line.cells().clone(), size, start: 0 }
    }

    /// The next legal offset for the run, if any is left.
    pub fn next(&mut self) -> (r: Option<LineSize>)
        requires
            old(self).wf(),
        ensures
            final(self).wf(),
            final(self).line_view() == old(self).line_view(),
            final(self).run_size() == old(self).run_size(),
            r matches Some(s) ==> {
                &&& run_fits(old(self).line_view(), old(self).run_size(), 0, s as int)
                &&& old(self).cursor() <= s
                &&& final(self).cursor() == s + 1
                &&& forall|t: int|
                    old(self).cursor() <= t < s ==> !run_fits(
                        old(self).line_view(),
                        old(self).run_size(),
                        0,
                        t,
                    )
            },
            r is None ==> forall|t: int|
                old(self).cursor() <= t ==> !run_fits(old(self).line_view(), old(self).run_size(), 0, t),
    {
        let len = self.cells.len();
        loop
            invariant
                self.wf(),
                len == self.cells@.len(),
                self.cells@ == old(self).line_view(),
                self.size == old(self).run_size(),
                old(self).cursor() <= self.start,
                forall|t: int|
                    old(self).cursor() <= t < self.start ==> !run_fits(
                        self.cells@,
                        self.size,
                        0,
                        t,
                    ),
            decreases len + 1 - self.start,
        {
            let s = self.start;
            if s + self.size as usize > len {
                assert forall|t: int| old(self).cursor() <= t implies !run_fits(
                    self.cells@,
                    self.size,
                    0,
                    t,
                ) by {
                    if t >= s {
                        assert(t + self.size > len);
                    }
                }
                return None;
            }
            if s != 0 && !self.cells[s - 1].can_empty() {
                assert forall|t: int| old(self).cursor() <= t implies !run_fits(
                    self.cells@,
                    self.size,
                    0,
                    t,
                ) by {
                    if t >= s {
                        assert(!self.cells@[s - 1].spec_can_empty());
                    }
                }
                return None;
            }
            let mut fillable = true;
            let mut j: usize = s;
            while j < s + self.size as usize
                invariant
                    s <= j <= s + self.size,
                    s + self.size <= self.cells@.len(),
                    self.cells@.len() <= MAX_LINE_LEN,
                    fillable ==> forall|t: int|
                        s <= t < j ==> (#[trigger] self.cells@[t]).spec_can_fill(),
                    !fillable ==> exists|t: int|
                        s <= t < j && !(#[trigger] self.cells@[t]).spec_can_fill(),
                decreases s + self.size - j,
            {
                if !self.cells[j].can_fill() {
                    fillable = false;
                    assert(!self.cells@[j as int].spec_can_fill());
                }
                j = j + 1;
            }
            let after_ok = s + self.size as usize == len || self.cells[s + self.size
                as usize].can_empty();
            self.start = s + 1;
            if fillable && after_ok {
                assert(run_fits(self.cells@, self.size, 0, s as int));
                return Some(s as LineSize);
            }
            assert(!run_fits(self.cells@, self.size, 0, s as int));
        }
    }
}

/// On a fully solved line an admissible placement retraces the line
/// exactly: covered cells are the filled ones.
pub proof fn lemma_solved_line_exact(line: Seq<Cell>, clues: Seq<u16>, starts: Seq<u16>)
    requires
        admits(line, clues, starts),
        crate::line::line_solved(line),
    ensures
        forall|j: int|
            0 <= j < line.len() ==> (line[j] is Filled <==> #[trigger] covered(clues, starts, j)),
{
    lemma_suffix_pointwise(line, clues, 0, starts);
}

} // verus!
