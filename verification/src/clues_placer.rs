//! Enumeration of every complete placement of a clue sequence on a line.
//!
//! The search is a depth-first walk over the runs, one level per clue.  A
//! memo table records offsets from which no tail of the clue sequence can
//! be placed, so dead branches are cut off after being explored once.

use vstd::prelude::*;

use crate::cell::Cell;
use crate::line::Line;
use crate::line::LineSize;
use crate::line::MAX_LINE_LEN;
use crate::placement::admits;
use crate::placement::lemma_admissible_len;
use crate::placement::lemma_decompose;
use crate::placement::lemma_lex_extend;
use crate::placement::lemma_lex_from_prefix;
use crate::placement::lemma_lex_witness;
use crate::placement::lex_lt;
use crate::placement::first_diff;
use crate::placement::run_fits;
use crate::placement::satisfiable;
use crate::placement::suffix_admissible;

verus! {

/// No placement of the runs `sizes` on the tail of the line from offset
/// `o` exists whose first run starts at `min_s` or later.
pub open spec fn no_tail_placement(
    line: Seq<Cell>,
    sizes: Seq<u16>,
    o: int,
    min_s: int,
) -> bool {
    forall|starts: Seq<u16>|
        #[trigger] suffix_admissible(line, sizes, o, starts) ==> sizes.len() > 0 && starts[0]
            < min_s
}

/// The placement `starts` of the runs `sizes` from offset `o` comes
/// before every other one whose first run starts at `min_s` or later.
#[verifier::opaque]
pub open spec fn tail_minimal(
    line: Seq<Cell>,
    sizes: Seq<u16>,
    o: int,
    min_s: int,
    starts: Seq<u16>,
) -> bool {
    forall|other: Seq<u16>|
        #[trigger] suffix_admissible(line, sizes, o, other) && (sizes.len() > 0 ==> other[0]
            >= min_s) ==> starts == other || lex_lt(starts, other)
}

/// Memo table of the search: one entry per (clue index, offset) pair,
/// set once the search has proven that no placement of the clue tail
/// exists from that offset.
pub struct Cache {
    data: Vec<bool>,
    width: usize,
    line: Ghost<Seq<Cell>>,
    sizes: Ghost<Seq<u16>>,
}

impl Cache {
    /// The line the recorded facts are about.
    pub closed spec fn line_view(&self) -> Seq<Cell> {
        self.line@
    }

    /// The clue sequence the recorded facts are about.
    pub closed spec fn sizes_view(&self) -> Seq<u16> {
        self.sizes@
    }

    /// The recorded answer for clue index `d` and offset `o`.
    pub closed spec fn entry(&self, d: int, o: int) -> bool {
        self.data@[d * self.width + o]
    }

    /// Every set entry states a true fact: no placement of the clue tail
    /// from that offset exists.
    pub closed spec fn wf(&self) -> bool {
        &&& self.width == self.line@.len() + 2
        &&& self.data@.len() == self.sizes@.len() * self.width
        &&& self.line@.len() <= MAX_LINE_LEN
        &&& self.sizes@.len() <= MAX_LINE_LEN
        &&& forall|d: int, o: int|
            0 <= d < self.sizes@.len() && 0 <= o < self.width && #[trigger] self.entry(d, o)
                ==> no_tail_placement(self.line@, self.sizes@.skip(d), o, 0)
    }

    /// An empty table for one (line, clue sequence) pair.
    pub fn new(line: &Line, sizes: &Vec<u16>) -> (r: Cache)
        requires
            line.wf(),
            sizes@.len() <= MAX_LINE_LEN,
        ensures
            r.wf(),
            r.line_view() == line@,
            r.sizes_view() == sizes@,
    {
        let width = line.cells().len() + 2;
        let n = sizes.len();
        proof {
            assert(n * width <= MAX_LINE_LEN * (MAX_LINE_LEN + 2)) by (nonlinear_arith)
                requires
                    n <= MAX_LINE_LEN,
                    width <= MAX_LINE_LEN + 2,
                    0 <= n,
                    0 <= width,
            ;
        }
        let total = n * width;
        let mut data: Vec<bool> = Vec::new();
        let mut i: usize = 0;
        while i < total
            invariant
                i <= total,
                data@.len() == i,
                forall|j: int| 0 <= j < i ==> !(#[trigger] data@[j]),
            decreases total - i,
        {
            data.push(false);
            i = i + 1;
        }
        let r = Cache { data, width, line: Ghost(line@), sizes: Ghost(sizes@) };
        proof {
            assert forall|d: int, o: int|
                0 <= d < r.sizes@.len() && 0 <= o < r.width && #[trigger] r.entry(d, o)
                    implies no_tail_placement(r.line@, r.sizes@.skip(d), o, 0) by {
                assert(0 <= d * r.width + o < r.data@.len()) by (nonlinear_arith)
                    requires
                        0 <= d < r.sizes@.len(),
                        0 <= o < r.width,
                        r.data@.len() == r.sizes@.len() * r.width,
                ;
                assert(!r.data@[d * r.width + o]);
            }
        }
        r
    }

    /// Whether a "no placement from here" fact is recorded.
    fn is_bad(&self, d: usize, o: usize) -> (r: bool)
        requires
            self.wf(),
            d < self.sizes_view().len(),
            o < self.line_view().len() + 2,
        ensures
            r == self.entry(d as int, o as int),
    {
        proof {
            assert(0 <= d * self.width + o < self.data@.len() && d * self.width + o < 0x1_0000_0000)
                by (nonlinear_arith)
                requires
                    0 <= (d as int) < self.sizes@.len(),
                    0 <= (o as int) < self.width,
                    self.data@.len() == self.sizes@.len() * self.width,
                    self.sizes@.len() <= MAX_LINE_LEN,
                    self.width <= MAX_LINE_LEN + 2,
            ;
        }
        self.data[d * self.width + o]
    }

    /// Records that no placement of the clue tail `d..` exists from
    /// offset `o`.
    fn mark_bad(&mut self, d: usize, o: usize)
        requires
            old(self).wf(),
            d < old(self).sizes_view().len(),
            o < old(self).line_view().len() + 2,
            no_tail_placement(old(self).line_view(), old(self).sizes_view().skip(d as int), o as int, 0),
        ensures
            final(self).wf(),
            final(self).line_view() == old(self).line_view(),
            final(self).sizes_view() == old(self).sizes_view(),
    {
        proof {
            assert(0 <= d * self.width + o < self.data@.len() && d * self.width + o < 0x1_0000_0000)
                by (nonlinear_arith)
                requires
                    0 <= (d as int) < self.sizes@.len(),
                    0 <= (o as int) < self.width,
                    self.data@.len() == self.sizes@.len() * self.width,
                    self.sizes@.len() <= MAX_LINE_LEN,
                    self.width <= MAX_LINE_LEN + 2,
            ;
        }
        let index = d * self.width + o;
        self.data.set(index, true);
        proof {
            assert forall|d2: int, o2: int|
                0 <= d2 < self.sizes@.len() && 0 <= o2 < self.width && #[trigger] self.entry(
                    d2,
                    o2,
                ) implies no_tail_placement(self.line@, self.sizes@.skip(d2), o2, 0) by {
                if d2 * self.width + o2 == index {
                    assert(d2 == d && o2 == o) by (nonlinear_arith)
                        requires
                            d2 * self.width + o2 == d * self.width + o,
                            0 <= o2 < self.width,
                            0 <= (o as int) < self.width,
                            0 <= d2,
                            0 <= (d as int),
                    ;
                } else {
                    assert(0 <= d2 * self.width + o2 < self.data@.len()) by (nonlinear_arith)
                        requires
                            0 <= d2 < self.sizes@.len(),
                            0 <= o2 < self.width,
                            self.data@.len() == self.sizes@.len() * self.width,
                    ;
                    assert(old(self).entry(d2, o2));
                }
            }
        }
    }
}

/// Depth-first search for one placement of the clue tail `d..` on the
/// line from offset `o`, the first of its runs starting at `min_s` or
/// later.  The runs found are appended to `acc`; on failure `acc` is
/// left as it was.
fn search(
    line: &Line,
    clues: &Vec<u16>,
    d: usize,
    o: usize,
    min_s: usize,
    cache: &mut Cache,
    acc: &mut Vec<u16>,
) -> (found: bool)
    requires
        line.wf(),
        clues@.len() <= MAX_LINE_LEN,
        d <= clues@.len(),
        o <= line@.len() + 1,
        o <= min_s,
        old(cache).wf(),
        old(cache).line_view() == line@,
        old(cache).sizes_view() == clues@,
    ensures
        final(cache).wf(),
        final(cache).line_view() == line@,
        final(cache).sizes_view() == clues@,
        found ==> {
            &&& final(acc)@.len() == old(acc)@.len() + clues@.len() - d
            &&& final(acc)@.take(old(acc)@.len() as int) == old(acc)@
            &&& suffix_admissible(
                line@,
                clues@.skip(d as int),
                o as int,
                final(acc)@.skip(old(acc)@.len() as int),
            )
            &&& d < clues@.len() ==> final(acc)@[old(acc)@.len() as int] >= min_s
            &&& tail_minimal(
                line@,
                clues@.skip(d as int),
                o as int,
                min_s as int,
                final(acc)@.skip(old(acc)@.len() as int),
            )
        },
        !found ==> {
            &&& final(acc)@ == old(acc)@
            &&& no_tail_placement(line@, clues@.skip(d as int), o as int, min_s as int)
        },
    decreases clues@.len() - d,
{
    let len = line.len() as usize;
    let ghost sizes = clues@.skip(d as int);
    let ghost acc0 = acc@;
    if d == clues.len() {
        assert(sizes.len() == 0);
        let mut j = o;
        while j < len
            invariant
                o <= j,
                len == line@.len(),
                line.wf(),
                d == clues@.len(),
                sizes == clues@.skip(d as int),
                sizes.len() == 0,
                acc@ == old(acc)@,
                cache.wf(),
                cache.line_view() == line@,
                cache.sizes_view() == clues@,
                forall|t: int| o <= t < j ==> (#[trigger] line@[t]).spec_can_empty(),
            decreases len - j,
        {
            if !line.get(j as LineSize).can_empty() {
                proof {
                    assert forall|starts: Seq<u16>| #[trigger] suffix_admissible(
                        line@,
                        sizes,
                        o as int,
                        starts,
                    ) implies sizes.len() > 0 && starts[0] < min_s by {
                        assert(!line@[j as int].spec_can_empty());
                    }
                }
                return false;
            }
            j = j + 1;
        }
        proof {
            assert(suffix_admissible(line@, sizes, o as int, Seq::<u16>::empty()));
            assert(acc@.skip(acc0.len() as int) =~= Seq::<u16>::empty());
            assert(acc@.take(acc0.len() as int) =~= acc0);
            assert forall|other: Seq<u16>|
                #[trigger] suffix_admissible(line@, sizes, o as int, other) && (sizes.len() > 0
                    ==> other[0] >= min_s) implies acc@.skip(acc0.len() as int) == other
                || lex_lt(acc@.skip(acc0.len() as int), other) by {
                assert(other.len() == 0);
                assert(other =~= acc@.skip(acc0.len() as int));
            }
            assert(tail_minimal(line@, sizes, o as int, min_s as int, acc@.skip(acc0.len() as int)))
                by {
                reveal(tail_minimal);
            }
        }
        return true;
    }
    let size = clues[d] as usize;
    assert(sizes[0] == clues@[d as int]);
    if o + size > len {
        proof {
            assert forall|starts: Seq<u16>| #[trigger] suffix_admissible(
                line@,
                sizes,
                o as int,
                starts,
            ) implies sizes.len() > 0 && starts[0] < min_s by {
                assert(run_fits(line@, sizes[0], o as int, starts[0] as int));
            }
        }
        return false;
    }
    if cache.is_bad(d, o) {
        proof {
            assert(no_tail_placement(line@, clues@.skip(d as int), o as int, 0));
            assert forall|starts: Seq<u16>| #[trigger] suffix_admissible(
                line@,
                sizes,
                o as int,
                starts,
            ) implies sizes.len() > 0 && starts[0] < min_s by {
                assert(starts[0] < 0);
            }
        }
        return false;
    }
    let mut s = o;
    loop
        invariant
            line.wf(),
            len == line@.len(),
            clues@.len() <= MAX_LINE_LEN,
            d < clues@.len(),
            size == clues@[d as int],
            sizes == clues@.skip(d as int),
            acc0 == acc@,
            acc0 == old(acc)@,
            o <= min_s,
            o <= s,
            s + size <= len + 1,
            cache.wf(),
            cache.line_view() == line@,
            cache.sizes_view() == clues@,
            forall|t: int| o <= t < s - 1 ==> (#[trigger] line@[t]).spec_can_empty(),
            forall|starts: Seq<u16>|
                #[trigger] suffix_admissible(line@, sizes, o as int, starts) ==> !(min_s
                    <= starts[0] < s),
        decreases len + 1 - s,
    {
        assert(sizes.len() == clues@.len() - d);
        if s + size > len {
            proof {
                assert forall|starts: Seq<u16>| #[trigger] suffix_admissible(
                    line@,
                    sizes,
                    o as int,
                    starts,
                ) implies sizes.len() > 0 && starts[0] < min_s by {
                    assert(run_fits(line@, sizes[0], o as int, starts[0] as int));
                    assert(starts[0] + size <= len);
                    assert(starts[0] < s);
                }
            }
            if min_s <= o {
                proof {
                    assert forall|starts: Seq<u16>| #[trigger] suffix_admissible(
                        line@,
                        sizes,
                        o as int,
                        starts,
                    ) implies sizes.len() > 0 && starts[0] < 0 by {
                        assert(run_fits(line@, sizes[0], o as int, starts[0] as int));
                        assert(starts[0] >= o >= min_s);
                        assert(starts[0] < min_s);
                    }
                }
                cache.mark_bad(d, o);
            }
            return false;
        }
        if s > o && !line.get((s - 1) as LineSize).can_empty() {
            proof {
                assert forall|starts: Seq<u16>| #[trigger] suffix_admissible(
                    line@,
                    sizes,
                    o as int,
                    starts,
                ) implies sizes.len() > 0 && starts[0] < min_s by {
                    assert(run_fits(line@, sizes[0], o as int, starts[0] as int));
                    if starts[0] >= s {
                        assert(line@[s - 1].spec_can_empty());
                    }
                }
            }
            if min_s <= o {
                proof {
                    assert forall|starts: Seq<u16>| #[trigger] suffix_admissible(
                        line@,
                        sizes,
                        o as int,
                        starts,
                    ) implies sizes.len() > 0 && starts[0] < 0 by {
                        assert(run_fits(line@, sizes[0], o as int, starts[0] as int));
                        if starts[0] >= s {
                            assert(line@[s - 1].spec_can_empty());
                        }
                        assert(starts[0] >= o >= min_s);
                    }
                }
                cache.mark_bad(d, o);
            }
            return false;
        }
        // the whole stretch [o, s) is now known to be free
        assert(forall|t: int| o <= t < s ==> (#[trigger] line@[t]).spec_can_empty());
        let mut fillable = true;
        let mut j = s;
        while j < s + size
            invariant
                s <= j <= s + size,
                s + size <= line@.len(),
                line@.len() <= MAX_LINE_LEN,
                fillable ==> forall|t: int| s <= t < j ==> (#[trigger] line@[t]).spec_can_fill(),
                !fillable ==> exists|t: int|
                    s <= t < j && !(#[trigger] line@[t]).spec_can_fill(),
            decreases s + size - j,
        {
            if !line.get(j as LineSize).can_fill() {
                fillable = false;
                assert(!line@[j as int].spec_can_fill());
            }
            j = j + 1;
        }
        let after_ok = s + size == len || line.get((s + size) as LineSize).can_empty();
        if s >= min_s && fillable && after_ok {
            assert(run_fits(line@, sizes[0], o as int, s as int));
            acc.push(s as u16);
            let ghost acc1 = acc@;
            let deeper = search(line, clues, d + 1, s + size + 1, s + size + 1, cache, acc);
            if deeper {
                proof {
                    let tail = acc@.skip(acc1.len() as int);
                    let whole = acc@.skip(acc0.len() as int);
                    assert(acc@.take(acc1.len() as int) == acc1);
                    assert(whole[0] == s as u16) by {
                        assert(acc@[acc0.len() as int] == acc1[acc0.len() as int]);
                    }
                    assert(whole.drop_first() =~= tail);
                    assert(sizes.drop_first() =~= clues@.skip(d as int + 1));
                    assert(suffix_admissible(
                        line@,
                        sizes.drop_first(),
                        s + size + 1,
                        whole.drop_first(),
                    ));
                    crate::placement::lemma_admissible_len(
                        line@,
                        sizes.drop_first(),
                        s + size + 1,
                        tail,
                    );
                    assert(whole.len() == sizes.len());
                    assert(suffix_admissible(line@, sizes, o as int, whole));
                    assert forall|other: Seq<u16>|
                        #[trigger] suffix_admissible(line@, sizes, o as int, other) && (
                        sizes.len() > 0 ==> other[0] >= min_s) implies whole == other || lex_lt(
                        whole,
                        other,
                    ) by {
                        reveal(tail_minimal);
                        crate::placement::lemma_admissible_len(line@, sizes, o as int, other);
                        assert(other[0] >= s);
                        if other[0] > s {
                            assert(whole[0] == s as u16);
                            assert(lex_lt(whole, other));
                        } else {
                            assert(other[0] == s);
                            assert(suffix_admissible(
                                line@,
                                sizes.drop_first(),
                                s + size + 1,
                                other.drop_first(),
                            ));
                            if sizes.drop_first().len() > 0 {
                                assert(run_fits(
                                    line@,
                                    sizes.drop_first()[0],
                                    s + size + 1,
                                    other.drop_first()[0] as int,
                                ));
                                assert(other.drop_first()[0] >= s + size + 1);
                            }
                            assert(tail == other.drop_first() || lex_lt(
                                tail,
                                other.drop_first(),
                            ));
                            if tail == other.drop_first() {
                                assert(whole =~= other) by {
                                    assert forall|t: int|
                                        0 <= t < whole.len() implies #[trigger] whole[t]
                                        == other[t] by {
                                        if t > 0 {
                                            assert(whole.drop_first()[t - 1] == whole[t]);
                                            assert(other.drop_first()[t - 1] == other[t]);
                                        }
                                    }
                                }
                            } else {
                                assert(whole.take(1) =~= other.take(1));
                                assert(whole.skip(1) =~= whole.drop_first());
                                assert(other.skip(1) =~= other.drop_first());
                                assert(whole.drop_first() =~= tail);
                                lemma_lex_extend(whole, other, 1);
                            }
                        }
                    }
                    assert(tail_minimal(line@, sizes, o as int, min_s as int, whole)) by {
                        reveal(tail_minimal);
                    }
                    assert(acc@.take(acc0.len() as int) =~= acc0) by {
                        assert forall|t: int| 0 <= t < acc0.len() implies acc@.take(
                            acc0.len() as int,
                        )[t] == acc0[t] by {
                            assert(acc@[t] == acc1[t]);
                        }
                    }
                }
                return true;
            }
            acc.pop();
            proof {
                assert(acc@ =~= acc0);
                // no placement of the deeper tail exists at all, so no
                // placement of this tail starts exactly at s
                assert forall|starts: Seq<u16>| #[trigger] suffix_admissible(
                    line@,
                    sizes,
                    o as int,
                    starts,
                ) implies !(min_s <= starts[0] < s + 1) by {
                    if starts[0] == s {
                        assert(suffix_admissible(
                            line@,
                            sizes.drop_first(),
                            s + size + 1,
                            starts.drop_first(),
                        ));
                        assert(sizes.drop_first() =~= clues@.skip(d as int + 1));
                        assert(no_tail_placement(
                            line@,
                            clues@.skip(d as int + 1),
                            s + size + 1,
                            s + size + 1,
                        ));
                        if sizes.drop_first().len() > 0 {
                            assert(run_fits(
                                line@,
                                sizes.drop_first()[0],
                                s + size + 1,
                                starts.drop_first()[0] as int,
                            ));
                        }
                    }
                }
            }
        } else {
            proof {
                assert forall|starts: Seq<u16>| #[trigger] suffix_admissible(
                    line@,
                    sizes,
                    o as int,
                    starts,
                ) implies !(min_s <= starts[0] < s + 1) by {
                    if min_s <= starts[0] < s + 1 {
                        assert(starts[0] == s);
                        assert(run_fits(line@, sizes[0], o as int, s as int));
                        assert(s >= min_s);
                        assert(fillable && after_ok);
                    }
                }
            }
        }
        s = s + 1;
    }
}

/// Where the search resumes when run `k` is to be moved: the cell after
/// the gap behind run `k - 1`.
pub open spec fn resume_offset(clues: Seq<u16>, starts: Seq<u16>, k: int) -> int {
    if k == 0 {
        0
    } else {
        starts[k - 1] + clues[k - 1] + 1
    }
}

/// No placement improves on `cur` by moving run `k` alone: none keeps
/// the runs before `k` and starts run `k` further right.
#[verifier::opaque]
pub open spec fn no_move_at(line: Seq<Cell>, clues: Seq<u16>, cur: Seq<u16>, k: int) -> bool {
    no_tail_placement(line, clues.skip(k), resume_offset(clues, cur, k), cur[k] + 1)
}

/// When no run of `cur` can be moved right, `cur` is the last placement.
proof fn lemma_no_next(line: Seq<Cell>, clues: Seq<u16>, cur: Seq<u16>)
    requires
        admits(line, clues, cur),
        clues.len() > 0,
        forall|k2: int| 0 <= k2 < clues.len() ==> #[trigger] no_move_at(line, clues, cur, k2),
    ensures
        forall|q: Seq<u16>| #[trigger] admits(line, clues, q) ==> !lex_lt(cur, q),
{
    reveal(no_move_at);
    lemma_admissible_len(line, clues, 0, cur);
    assert forall|q: Seq<u16>| #[trigger] admits(line, clues, q) implies !lex_lt(cur, q) by {
        lemma_admissible_len(line, clues, 0, q);
        if lex_lt(cur, q) {
            lemma_lex_witness(cur, q);
            let k = first_diff(cur, q);
            assert(no_move_at(line, clues, cur, k));
            if k == 0 {
                assert(clues.skip(0) =~= clues);
                assert(suffix_admissible(line, clues.skip(0), 0, q));
                assert(q[0] < cur[0] + 1);
            } else {
                lemma_decompose(line, clues, 0, q, k);
                assert(q[k - 1] == cur[k - 1]) by {
                    assert(cur.take(k)[k - 1] == q.take(k)[k - 1]);
                }
                assert(suffix_admissible(
                    line,
                    clues.skip(k),
                    resume_offset(clues, cur, k),
                    q.skip(k),
                ));
                assert(q.skip(k)[0] == q[k]);
                assert(q[k] < cur[k] + 1);
            }
        }
    }
}

/// Moving the deepest movable run as little as possible gives the very
/// next placement: `res` comes after `cur`, and nothing fits between.
proof fn lemma_next_minimal(
    line: Seq<Cell>,
    clues: Seq<u16>,
    cur: Seq<u16>,
    k: int,
    tail: Seq<u16>,
    res: Seq<u16>,
)
    requires
        admits(line, clues, cur),
        0 <= k < clues.len(),
        cur.len() == clues.len(),
        forall|k2: int| k < k2 < clues.len() ==> #[trigger] no_move_at(line, clues, cur, k2),
        suffix_admissible(line, clues.skip(k), resume_offset(clues, cur, k), tail),
        tail[0] >= cur[k] + 1,
        tail_minimal(line, clues.skip(k), resume_offset(clues, cur, k), cur[k] + 1, tail),
        res == cur.take(k) + tail,
    ensures
        admits(line, clues, res),
        lex_lt(cur, res),
        forall|q: Seq<u16>|
            #[trigger] admits(line, clues, q) && lex_lt(cur, q) ==> res == q || lex_lt(res, q),
{
    reveal(no_move_at);
    reveal(tail_minimal);
    let n = clues.len() as int;
    lemma_admissible_len(line, clues.skip(k), resume_offset(clues, cur, k), tail);
    assert(res.len() == n);
    assert(res.take(k) =~= cur.take(k));
    assert(res[k] == tail[0]);
    if k == 0 {
        assert(clues.skip(0) =~= clues);
        assert(res.skip(0) =~= res);
        assert(tail =~= res);
        assert(admits(line, clues, res));
    } else {
        crate::placement::lemma_splice(line, clues, 0, cur, k, tail);
    }
    lemma_lex_from_prefix(cur, res, k);
    assert forall|q: Seq<u16>|
        #[trigger] admits(line, clues, q) && lex_lt(cur, q) implies res == q || lex_lt(
        res,
        q,
    ) by {
        lemma_admissible_len(line, clues, 0, q);
        lemma_lex_witness(cur, q);
        let kd = first_diff(cur, q);
        if kd > k {
            assert(no_move_at(line, clues, cur, kd));
            lemma_decompose(line, clues, 0, q, kd);
            assert(q[kd - 1] == cur[kd - 1]) by {
                assert(cur.take(kd)[kd - 1] == q.take(kd)[kd - 1]);
            }
            assert(suffix_admissible(
                line,
                clues.skip(kd),
                resume_offset(clues, cur, kd),
                q.skip(kd),
            ));
            assert(q.skip(kd)[0] == q[kd]);
            assert(q[kd] < cur[kd] + 1);
            assert(false);
        } else if kd == k {
            let qk = q.skip(k);
            if k == 0 {
                assert(clues.skip(0) =~= clues);
                assert(qk =~= q);
                assert(suffix_admissible(line, clues.skip(0), 0, qk));
            } else {
                lemma_decompose(line, clues, 0, q, k);
                assert(q[k - 1] == cur[k - 1]) by {
                    assert(cur.take(k)[k - 1] == q.take(k)[k - 1]);
                }
                assert(suffix_admissible(
                    line,
                    clues.skip(k),
                    resume_offset(clues, cur, k),
                    qk,
                ));
            }
            assert(qk[0] == q[k]);
            assert(qk[0] >= cur[k] + 1);
            assert(tail == qk || lex_lt(tail, qk));
            assert(res.take(k) =~= q.take(k)) by {
                assert forall|i: int| 0 <= i < k implies #[trigger] res.take(k)[i] == q.take(
                    k,
                )[i] by {
                    assert(cur.take(k)[i] == q.take(k)[i]);
                }
            }
            if tail == qk {
                assert(res =~= q) by {
                    assert forall|i: int| 0 <= i < res.len() implies #[trigger] res[i]
                        == q[i] by {
                        if i < k {
                            assert(res.take(k)[i] == q.take(k)[i]);
                        } else {
                            assert(tail[i - k] == qk[i - k]);
                            assert(qk[i - k] == q[i]);
                        }
                    }
                }
            } else {
                assert(res.skip(k) =~= tail);
                lemma_lex_extend(res, q, k);
            }
        } else {
            // q already differs from the kept prefix
            assert(res.take(kd) =~= q.take(kd)) by {
                assert forall|i: int| 0 <= i < kd implies #[trigger] res.take(kd)[i] == q.take(
                    kd,
                )[i] by {
                    assert(cur.take(kd)[i] == q.take(kd)[i]);
                    assert(res.take(k)[i] == cur.take(k)[i]);
                }
            }
            assert(res[kd] == cur[kd]) by {
                assert(res.take(k)[kd] == cur.take(k)[kd]);
            }
            lemma_lex_from_prefix(res, q, kd);
        }
    }
}

/// Lazily enumerates the complete placements of a clue sequence on a
/// line, in increasing order of their start offsets, resuming from the
/// placement found last.
pub struct CluesPlacer {
    line: Line,
    clues: Vec<u16>,
    cache: Cache,
    current: Vec<u16>,
    started: bool,
    done: bool,
}

/// Builds a `CluesPlacer` over (copies of) the line and its clues.
pub fn place_clues(line: &Line, clues: &Vec<u16>) -> (r: CluesPlacer)
    requires
        line.wf(),
        clues@.len() <= MAX_LINE_LEN,
    ensures
        r.wf(),
        r.line_view() == line@,
        r.clues_view() == clues@,
        !r.is_started(),
        !r.is_done(),
{
    CluesPlacer::new(line, clues)
}

impl CluesPlacer {
    /// The line being placed on.
    pub closed spec fn line_view(&self) -> Seq<Cell> {
        self.line@
    }

    /// The clue sequence being placed.
    pub closed spec fn clues_view(&self) -> Seq<u16> {
        self.clues@
    }

    /// The placement found by the last successful `advance`.
    pub closed spec fn current_view(&self) -> Seq<u16> {
        self.current@
    }

    /// Whether `advance` has been called at least once.
    pub closed spec fn is_started(&self) -> bool {
        self.started
    }

    /// Whether the placements are exhausted.
    pub closed spec fn is_done(&self) -> bool {
        self.done
    }

    /// While not exhausted, the current placement is consistent with
    /// the line.
    pub closed spec fn wf(&self) -> bool {
        &&& self.line.wf()
        &&& self.clues@.len() <= MAX_LINE_LEN
        &&& self.cache.wf()
        &&& self.cache.line_view() == self.line@
        &&& self.cache.sizes_view() == self.clues@
        &&& (self.done ==> self.started)
        &&& (self.started && !self.done ==> admits(self.line@, self.clues@, self.current@))
    }

    /// Starts an enumeration over (copies of) the line and its clues.
    pub fn new(line: &Line, clues: &Vec<u16>) -> (r: CluesPlacer)
        requires
            line.wf(),
            clues@.len() <= MAX_LINE_LEN,
        ensures
            r.wf(),
            r.line_view() == line@,
            r.clues_view() == clues@,
            !r.is_started(),
            !r.is_done(),
    {
        CluesPlacer {
            line: line.clone(),
            clues: clues.clone(),
            cache: Cache::new(line, clues),
            current: Vec::new(),
            started: false,
            done: false,
        }
    }

    /// Steps to the next placement, telling whether one was found.  A
    /// found placement is consistent with the line and can be read with
    /// `current`; once the answer is `false` it stays `false`.  The very
    /// first step yields the first placement in increasing order or shows
    /// that none exists; every later step yields the next placement after
    /// the current one, so each placement is seen exactly once.
    #[verifier::rlimit(100)]
    #[verifier::spinoff_prover]
    pub fn advance(&mut self) -> (found: bool)
        requires
            old(self).wf(),
        ensures
            final(self).wf(),
            final(self).line_view() == old(self).line_view(),
            final(self).clues_view() == old(self).clues_view(),
            final(self).is_started(),
            found == !final(self).is_done(),
            found ==> admits(
                old(self).line_view(),
                old(self).clues_view(),
                final(self).current_view(),
            ),
            !old(self).is_started() && !found ==> !satisfiable(
                old(self).line_view(),
                old(self).clues_view(),
            ),
            !old(self).is_started() && found ==> forall|q: Seq<u16>|
                #[trigger] admits(old(self).line_view(), old(self).clues_view(), q)
                    ==> final(self).current_view() == q || lex_lt(final(self).current_view(), q),
            old(self).is_started() && !old(self).is_done() && found ==> {
                &&& lex_lt(old(self).current_view(), final(self).current_view())
                &&& forall|q: Seq<u16>|
                    #[trigger] admits(old(self).line_view(), old(self).clues_view(), q) && lex_lt(
                        old(self).current_view(),
                        q,
                    ) ==> final(self).current_view() == q || lex_lt(final(self).current_view(), q)
            },
            old(self).is_started() && !old(self).is_done() && !found ==> forall|q: Seq<u16>|
                #[trigger] admits(old(self).line_view(), old(self).clues_view(), q) ==> !lex_lt(
                    old(self).current_view(),
                    q,
                ),
    {
        if self.done {
            return false;
        }
        if !self.started {
            self.started = true;
            let mut acc: Vec<u16> = Vec::new();
            proof {
                assert(self.clues@.skip(0) =~= self.clues@);
            }
            if search(&self.line, &self.clues, 0, 0, 0, &mut self.cache, &mut acc) {
                proof {
                    assert(acc@.skip(0) =~= acc@);
                    assert forall|q: Seq<u16>| #[trigger] admits(
                        self.line@,
                        self.clues@,
                        q,
                    ) implies acc@ == q || lex_lt(acc@, q) by {
                        reveal(tail_minimal);
                        assert(suffix_admissible(self.line@, self.clues@.skip(0), 0, q));
                    }
                }
                self.current = acc;
                return true;
            }
            self.done = true;
            proof {
                assert forall|starts: Seq<u16>| !admits(self.line@, self.clues@, starts) by {
                    if admits(self.line@, self.clues@, starts) {
                        assert(suffix_admissible(self.line@, self.clues@.skip(0), 0, starts));
                    }
                }
            }
            return false;
        }
        proof {
            crate::placement::lemma_run_bounds(self.line@, self.clues@, 0, self.current@);
        }
        let n = self.clues.len();
        if n == 0 {
            self.done = true;
            proof {
                assert forall|q: Seq<u16>| #[trigger] admits(self.line@, self.clues@, q)
                    implies !lex_lt(self.current@, q) by {
                    lemma_admissible_len(self.line@, self.clues@, 0, q);
                }
            }
            return false;
        }
        if self.seek(n) {
            return true;
        }
        self.done = true;
        false
    }

    /// Looks for the placement right after the current one by moving the
    /// deepest run that can still move, keeping everything before it.
    #[verifier::rlimit(100)]
    #[verifier::spinoff_prover]
    fn seek(&mut self, n: usize) -> (found: bool)
        requires
            old(self).wf(),
            old(self).is_started(),
            !old(self).is_done(),
            n == old(self).clues_view().len(),
            0 < n,
            old(self).current_view().len() == n,
            forall|i: int|
                0 <= i < n ==> #[trigger] old(self).current_view()[i] + old(self).clues_view()[i]
                    <= old(self).line_view().len(),
            forall|i: int|
                0 < i < n ==> old(self).current_view()[i - 1] + old(self).clues_view()[i - 1] + 1
                    <= #[trigger] old(self).current_view()[i],
        ensures
            final(self).wf(),
            final(self).line_view() == old(self).line_view(),
            final(self).clues_view() == old(self).clues_view(),
            final(self).is_started(),
            final(self).is_done() == old(self).is_done(),
            !found ==> final(self).current_view() == old(self).current_view(),
            found ==> {
                &&& admits(old(self).line_view(), old(self).clues_view(), final(self).current_view())
                &&& lex_lt(old(self).current_view(), final(self).current_view())
                &&& forall|q: Seq<u16>|
                    #[trigger] admits(old(self).line_view(), old(self).clues_view(), q) && lex_lt(
                        old(self).current_view(),
                        q,
                    ) ==> final(self).current_view() == q || lex_lt(final(self).current_view(), q)
            },
            !found ==> forall|q: Seq<u16>|
                #[trigger] admits(old(self).line_view(), old(self).clues_view(), q) ==> !lex_lt(
                    old(self).current_view(),
                    q,
                ),
    {
        let mut k = n;
        while k > 0
            invariant
                self.wf(),
                self.started,
                !self.done,
                k <= n,
                n == self.clues@.len(),
                0 < n,
                self.current@.len() == n,
                self.line@ == old(self).line_view(),
                self.clues@ == old(self).clues_view(),
                self.current@ == old(self).current_view(),
                admits(self.line@, self.clues@, self.current@),
                forall|i: int| 0 <= i < n ==> #[trigger] self.current@[i] + self.clues@[i]
                    <= self.line@.len(),
                forall|i: int|
                    0 < i < n ==> self.current@[i - 1] + self.clues@[i - 1] + 1
                        <= #[trigger] self.current@[i],
                old(self).is_started(),
                !old(self).is_done(),
                forall|k2: int|
                    k <= k2 < n ==> #[trigger] no_move_at(
                        self.line@,
                        self.clues@,
                        self.current@,
                        k2,
                    ),
            decreases k,
        {
            k = k - 1;
            let o_k: usize = if k == 0 {
                0
            } else {
                self.current[k - 1] as usize + self.clues[k - 1] as usize + 1
            };
            let min_s: usize = self.current[k] as usize + 1;
            proof {
                assert(o_k == resume_offset(self.clues@, self.current@, k as int));
            }
            let mut acc: Vec<u16> = Vec::new();
            let mut i: usize = 0;
            while i < k
                invariant
                    i <= k,
                    k < self.current@.len(),
                    acc@ =~= self.current@.take(i as int),
                decreases k - i,
            {
                let v = self.current[i];
                acc.push(v);
                proof {
                    assert(acc@ =~= self.current@.take(i + 1));
                }
                i = i + 1;
            }
            assert(acc@ == self.current@.take(k as int));
            if search(&self.line, &self.clues, k, o_k, min_s, &mut self.cache, &mut acc) {
                proof {
                    let tail = acc@.skip(k as int);
                    assert(acc@.take(k as int) == self.current@.take(k as int));
                    assert(acc@ =~= self.current@.take(k as int) + tail);
                    lemma_next_minimal(
                        self.line@,
                        self.clues@,
                        self.current@,
                        k as int,
                        tail,
                        acc@,
                    );
                }
                self.current = acc;
                return true;
            }
            proof {
                assert(no_move_at(self.line@, self.clues@, self.current@, k as int)) by {
                    reveal(no_move_at);
                }
            }
        }
        proof {
            lemma_no_next(self.line@, self.clues@, self.current@);
        }
        false
    }


    /// The placement found by the last successful `advance`, one start
    /// offset per clue.
    pub fn current(&self) -> (r: &Vec<u16>)
        ensures
            r@ == self.current_view(),
    {
        &self.current
    }
}

/// The first placement of the clues on the line, if any exists.
pub(crate) fn find_placement(line: &Line, clues: &Vec<u16>) -> (r: Option<Vec<u16>>)
    requires
        line.wf(),
        clues@.len() <= MAX_LINE_LEN,
    ensures
        r matches Some(starts) ==> admits(line@, clues@, starts@),
        r is None ==> !satisfiable(line@, clues@),
{
    let mut cache = Cache::new(line, clues);
    let mut acc: Vec<u16> = Vec::new();
    proof {
        assert(clues@.skip(0) =~= clues@);
    }
    if search(line, clues, 0, 0, 0, &mut cache, &mut acc) {
        proof {
            assert(acc@.skip(0) =~= acc@);
        }
        Some(acc)
    } else {
        proof {
            assert forall|starts: Seq<u16>| !admits(line@, clues@, starts) by {
                if admits(line@, clues@, starts) {
                    assert(suffix_admissible(line@, clues@.skip(0), 0, starts));
                }
            }
        }
        None
    }
}

} // verus!
