//! The line index: a table of line-start offsets for a text buffer, offset to
//! line-and-column lookup, splitting of absolute ranges at line boundaries,
//! mapping changed ranges to the distinct lines they touch, and expansion of
//! matched lines with surrounding context.

use crate::diffs::Change;
use vstd::prelude::*;

verus! {

/// A range in a string, relative to the string start.
#[derive(Debug, PartialEq, Eq, Structural, Clone, Copy)]
pub struct AbsoluteRange {
    /// Inclusive.
    pub start: usize,
    /// Exclusive.
    pub end: usize,
}

/// A zero-indexed line number.
#[derive(Debug, Clone, Copy, PartialEq, Eq, Structural, PartialOrd, Ord, Hash)]
pub struct LineNumber {
    pub number: usize,
}

impl LineNumber {
    /// Wraps a plain index as a line number.
    pub fn from(number: usize) -> (r: LineNumber)
        ensures
            r.number == number,
    {
        LineNumber { number }
    }
}

/// A position in a single line of a string.
#[derive(Debug, PartialEq, Eq, Structural, Clone, Copy)]
pub struct LinePosition {
    /// Both zero-indexed.
    pub line: LineNumber,
    pub column: usize,
}

/// A range within a single line of a string.
#[derive(Debug, PartialEq, Eq, Structural, Clone, Copy)]
pub struct LineRange {
    /// All zero-indexed.
    pub line: LineNumber,
    pub start: usize,
    pub end: usize,
}

/// One line to display, paired with the corresponding line in the other text
/// being compared.
#[derive(Debug, PartialEq, Eq, Structural, Clone, Copy)]
pub struct MatchedLine {
    pub line: LineNumber,
    pub opposite_line: LineNumber,
}

/// The start offsets of all lines of `s`: offset zero, then the offset just
/// after each newline character, in ascending order.
pub open spec fn line_starts(s: Seq<char>) -> Seq<usize>
    decreases s.len(),
{
    if s.len() == 0 {
        seq![0usize]
    } else if s.last() == '\n' {
        line_starts(s.drop_last()).push(s.len() as usize)
    } else {
        line_starts(s.drop_last())
    }
}

/// A well-formed line-start table: nonempty, beginning at offset zero, and
/// strictly ascending.
pub open spec fn wf_positions(pos: Seq<usize>) -> bool {
    &&& pos.len() >= 1
    &&& pos[0] == 0
    &&& forall|i: int, j: int| 0 <= i < j < pos.len() ==> pos[i] < pos[j]
}

/// The table of line starts of any text is well formed, and no start offset
/// lies past the end of the text.
pub proof fn lemma_line_starts_wf(s: Seq<char>)
    requires
        s.len() <= usize::MAX,
    ensures
        wf_positions(line_starts(s)),
        forall|i: int| 0 <= i < line_starts(s).len() ==> #[trigger] line_starts(s)[i] <= s.len(),
        line_starts(s).len() <= s.len() + 1,
    decreases s.len(),
{
    if s.len() == 0 {
    } else {
        lemma_line_starts_wf(s.drop_last());
        assert(s.drop_last().len() == s.len() - 1);
    }
}

/// The greatest index `l` with `pos[l] <= offset`; zero when every entry
/// exceeds `offset` (the fallback line).
pub open spec fn line_at(pos: Seq<usize>, offset: int) -> int
    decreases pos.len(),
{
    if pos.len() == 0 {
        0
    } else if pos.last() <= offset {
        pos.len() - 1
    } else {
        line_at(pos.drop_last(), offset)
    }
}

/// The line-relative position of absolute `offset` under the table `pos`.
pub open spec fn position_at(pos: Seq<usize>, offset: int) -> LinePosition {
    let l = line_at(pos, offset);
    LinePosition {
        line: LineNumber { number: l as usize },
        column: (offset - pos[l]) as usize,
    }
}

/// The looked-up line is always an index into a nonempty table.
pub proof fn lemma_line_at_range(pos: Seq<usize>, offset: int)
    ensures
        0 <= line_at(pos, offset),
        pos.len() > 0 ==> line_at(pos, offset) < pos.len(),
    decreases pos.len(),
{
    if pos.len() == 0 {
    } else if pos.last() <= offset {
    } else {
        lemma_line_at_range(pos.drop_last(), offset);
    }
}

/// An index at or before `offset` followed only by entries past `offset` is
/// exactly what the lookup returns.
proof fn lemma_line_at_unique(pos: Seq<usize>, offset: int, k: int)
    requires
        0 <= k < pos.len(),
        pos[k] <= offset,
        forall|j: int| k < j < pos.len() ==> pos[j] > offset,
    ensures
        line_at(pos, offset) == k,
    decreases pos.len(),
{
    if pos.last() <= offset {
        assert(k == pos.len() - 1);
    } else {
        assert(k < pos.len() - 1);
        lemma_line_at_unique(pos.drop_last(), offset, k);
    }
}

/// Monotonicity of the offset-to-line lookup: for offsets `o1 <= o2`, the
/// line of `o1` never exceeds the line of `o2`.
pub proof fn lemma_from_offset_monotonic(pos: Seq<usize>, o1: int, o2: int)
    requires
        o1 <= o2,
    ensures
        line_at(pos, o1) <= line_at(pos, o2),
    decreases pos.len(),
{
    if pos.len() == 0 {
    } else if pos.last() <= o1 {
    } else if pos.last() <= o2 {
        lemma_line_at_range(pos.drop_last(), o1);
    } else {
        lemma_from_offset_monotonic(pos.drop_last(), o1, o2);
    }
}

/// The length of line `l` under the table `pos`, excluding its terminating
/// newline: the offset of that newline minus the line's start offset.
/// Meaningful only for `0 <= l < pos.len() - 1`.
pub open spec fn full_line_len(pos: Seq<usize>, l: int) -> int {
    pos[l + 1] - 1 - pos[l]
}

/// The decomposition of a range reaching from `start` to `end` (in document
/// order) into ranges that each lie on a single line: the tail of the start
/// line, every full line strictly between, and the head of the end line.
pub open spec fn split_spec(pos: Seq<usize>, start: LinePosition, end: LinePosition) -> Seq<
    LineRange,
> {
    let sl = start.line.number as int;
    let el = end.line.number as int;
    if sl == el {
        seq![LineRange { line: start.line, start: start.column, end: end.column }]
    } else {
        Seq::new(
            (el - sl + 1) as nat,
            |k: int|
                if k == 0 {
                    LineRange {
                        line: start.line,
                        start: start.column,
                        end: full_line_len(pos, sl) as usize,
                    }
                } else if k < el - sl {
                    LineRange {
                        line: LineNumber { number: (sl + k) as usize },
                        start: 0,
                        end: full_line_len(pos, sl + k) as usize,
                    }
                } else {
                    LineRange { line: end.line, start: 0, end: end.column }
                },
        )
    }
}

/// The line-relative ranges of the absolute ranges `ranges`, in order: each
/// range is split at line boundaries and the pieces are concatenated.
pub open spec fn ranges_spec(pos: Seq<usize>, ranges: Seq<AbsoluteRange>) -> Seq<LineRange>
    decreases ranges.len(),
{
    if ranges.len() == 0 {
        seq![]
    } else {
        split_spec(
            pos,
            position_at(pos, ranges[0].start as int),
            position_at(pos, ranges[0].end as int),
        ) + ranges_spec(pos, ranges.drop_first())
    }
}

/// A struct for efficiently converting absolute string positions to
/// line-relative positions.
#[derive(Debug)]
pub struct NewlinePositions {
    /// The start offsets of all the lines of the indexed text.
    positions: Vec<usize>,
}

impl View for NewlinePositions {
    type V = Seq<usize>;

    closed spec fn view(&self) -> Seq<usize> {
        self.positions@
    }
}

impl NewlinePositions {
    /// The table is well formed: see `wf_positions`.
    pub open spec fn wf(&self) -> bool {
        wf_positions(self@)
    }

    /// Builds the line-start table of `s`: a scan records the offset just
    /// after every newline character, with offset zero prepended.
    pub fn from(s: &str) -> (r: NewlinePositions)
        ensures
            r@ == line_starts(s@),
            r.wf(),
            r@.len() <= s@.len() + 1,
    {
        let n: usize = s.unicode_len();
        let mut positions: Vec<usize> = Vec::new();
        positions.push(0);
        proof {
            assert(positions@ =~= line_starts(s@.take(0)));
        }
        let mut i: usize = 0;
        while i < n
            invariant
                i <= n,
                n == s@.len(),
                positions@ == line_starts(s@.take(i as int)),
            decreases n - i,
        {
            let c = s.get_char(i);
            proof {
                assert(s@.take(i + 1).drop_last() =~= s@.take(i as int));
                assert(s@.take(i + 1).last() == s@[i as int]);
            }
            if c == '\n' {
                positions.push(i + 1);
            }
            i = i + 1;
        }
        proof {
            assert(s@.take(n as int) =~= s@);
            lemma_line_starts_wf(s@);
        }
        NewlinePositions { positions }
    }

    /// Maps an absolute offset to the line it falls on and the column within
    /// that line: the line is the greatest index whose start offset does not
    /// exceed `offset`.
    pub fn from_offset(&self, offset: usize) -> (r: LinePosition)
        requires
            self.wf(),
        ensures
            r == position_at(self@, offset as int),
            r.line.number < self@.len(),
            self@[r.line.number as int] <= offset,
            forall|j: int| r.line.number < j < self@.len() ==> self@[j] > offset,
            r.column == offset - self@[r.line.number as int],
    {
        let len: usize = self.positions.len();
        let mut line_num: usize = len;
        while line_num > 0
            invariant
                line_num <= len,
                len == self@.len(),
                self.wf(),
                forall|j: int| line_num <= j < len ==> self@[j] > offset,
            decreases line_num,
        {
            line_num = line_num - 1;
            if self.positions[line_num] <= offset {
                proof {
                    lemma_line_at_unique(self@, offset as int, line_num as int);
                }
                return LinePosition { line: LineNumber::from(line_num), column: offset - self.positions[line_num] };
            }
        }
        // Unreachable: a well-formed table starts at offset zero, which no
        // offset can precede.
        proof {
            assert(self@[0] > offset);
            assert(false);
        }
        LinePosition { line: LineNumber::from(0), column: offset }
    }

    /// Given a range within the indexed string, splits it into ranges that
    /// each lie on a single line. `start` and `end` must be in document
    /// order, and `end` must fall on an indexed line.
    #[verifier::loop_isolation(false)]
    fn split_line_boundaries(&self, start: LinePosition, end: LinePosition) -> (r: Vec<LineRange>)
        requires
            self.wf(),
            start.line.number <= end.line.number < self@.len(),
        ensures
            r@ == split_spec(self@, start, end),
            forall|k: int|
                0 <= k < r@.len() ==> (#[trigger] r@[k]).line.number <= end.line.number,
    {
        let mut ranges: Vec<LineRange> = Vec::new();

        if start.line.number == end.line.number {
            ranges.push(LineRange { line: start.line, start: start.column, end: end.column });
            proof {
                assert(ranges@ =~= split_spec(self@, start, end));
            }
            return ranges;
        }
        let first_line_end_pos = self.positions[start.line.number + 1] - 1;
        let first_line_length = first_line_end_pos - self.positions[start.line.number];
        ranges.push(LineRange { line: start.line, start: start.column, end: first_line_length });

        let mut line_num: usize = start.line.number + 1;
        while line_num < end.line.number
            invariant
                start.line.number + 1 <= line_num <= end.line.number,
                ranges@.len() == line_num - start.line.number,
                forall|k: int|
                    0 <= k < ranges@.len() ==> ranges@[k] == split_spec(self@, start, end)[k],
            decreases end.line.number - line_num,
        {
            let line_end_pos = self.positions[line_num + 1] - 1;
            let line_length = line_end_pos - self.positions[line_num];
            ranges.push(LineRange { line: LineNumber::from(line_num), start: 0, end: line_length });
            line_num = line_num + 1;
        }

        // Last line, up to end.
        ranges.push(LineRange { line: end.line, start: 0, end: end.column });
        proof {
            assert(ranges@ =~= split_spec(self@, start, end));
        }
        ranges
    }

    /// Convert absolute string ranges to line-relative ranges. If an
    /// absolute range crosses a newline, it is split into multiple
    /// line-relative ranges.
    #[verifier::loop_isolation(false)]
    pub fn from_ranges(&self, ranges: &[AbsoluteRange]) -> (r: Vec<LineRange>)
        requires
            self.wf(),
            forall|k: int|
                0 <= k < ranges@.len() ==> (#[trigger] ranges@[k]).start <= ranges@[k].end,
        ensures
            r@ == ranges_spec(self@, ranges@),
            forall|k: int| 0 <= k < r@.len() ==> (#[trigger] r@[k]).line.number < self@.len(),
    {
        let mut rel_positions: Vec<LineRange> = Vec::new();
        let n: usize = ranges.len();
        let mut idx: usize = 0;
        proof {
            assert(ranges@.skip(0) =~= ranges@);
            assert(rel_positions@ + ranges_spec(self@, ranges@) =~= ranges_spec(self@, ranges@));
        }
        while idx < n
            invariant
                idx <= n,
                rel_positions@ + ranges_spec(self@, ranges@.skip(idx as int)) == ranges_spec(
                    self@,
                    ranges@,
                ),
                forall|k: int|
                    0 <= k < rel_positions@.len() ==> (#[trigger] rel_positions@[k]).line.number
                        < self@.len(),
            decreases n - idx,
        {
            let range = ranges[idx];
            let start_pos = self.from_offset(range.start);
            let end_pos = self.from_offset(range.end);
            proof {
                assert(self.positions.len() <= usize::MAX);
                lemma_from_offset_monotonic(self@, range.start as int, range.end as int);
                lemma_line_at_range(self@, range.start as int);
                lemma_line_at_range(self@, range.end as int);
                assert(ranges@.skip(idx as int).drop_first() =~= ranges@.skip(idx as int + 1));
                assert(ranges@.skip(idx as int)[0] == ranges@[idx as int]);
            }
            let mut split = self.split_line_boundaries(start_pos, end_pos);
            let ghost old_rel = rel_positions@;
            let ghost split_view = split@;
            rel_positions.append(&mut split);
            proof {
                assert(rel_positions@ + ranges_spec(self@, ranges@.skip(idx as int + 1)) =~= (
                old_rel + (split_view + ranges_spec(self@, ranges@.skip(idx as int + 1)))));
            }
            idx = idx + 1;
        }
        proof {
            assert(ranges@.skip(n as int) =~= Seq::<AbsoluteRange>::empty());
        }
        rel_positions
    }
}

/// True when some entry of `acc` already carries line `l`.
pub open spec fn seen_line(acc: Seq<MatchedLine>, l: LineNumber) -> bool {
    exists|i: int| 0 <= i < acc.len() && acc[i].line == l
}

/// Appends to `acc`, for each of `ranges` in order, one matched line pairing
/// its line with `opposite`, skipping every line already carried.
pub open spec fn emit_ranges(
    ranges: Seq<LineRange>,
    opposite: LineNumber,
    acc: Seq<MatchedLine>,
) -> Seq<MatchedLine>
    decreases ranges.len(),
{
    if ranges.len() == 0 {
        acc
    } else {
        let acc2 = if seen_line(acc, ranges[0].line) {
            acc
        } else {
            acc.push(MatchedLine { line: ranges[0].line, opposite_line: opposite })
        };
        emit_ranges(ranges.drop_first(), opposite, acc2)
    }
}

/// The matched lines of `changes` under the table `pos`: for each change in
/// order, the lines its range splits into, each line emitted once, at its
/// first encounter, paired with that change's opposite line.
pub open spec fn relevant_spec(
    pos: Seq<usize>,
    changes: Seq<Change>,
    acc: Seq<MatchedLine>,
) -> Seq<MatchedLine>
    decreases changes.len(),
{
    if changes.len() == 0 {
        acc
    } else {
        relevant_spec(
            pos,
            changes.drop_first(),
            emit_ranges(
                ranges_spec(pos, seq![changes[0].range]),
                changes[0].opposite_line,
                acc,
            ),
        )
    }
}

/// Whether `lines` already holds an entry for `line`.
fn contains_line(lines: &Vec<MatchedLine>, line: LineNumber) -> (r: bool)
    ensures
        r == seen_line(lines@, line),
{
    let n: usize = lines.len();
    let mut i: usize = 0;
    while i < n
        invariant
            i <= n,
            n == lines@.len(),
            forall|j: int| 0 <= j < i ==> lines@[j].line != line,
        decreases n - i,
    {
        if lines[i].line == line {
            proof {
                assert(lines@[i as int].line == line);
            }
            return true;
        }
        i = i + 1;
    }
    false
}

/// Given a slice of changes, return the unique lines that they land on, plus
/// their corresponding line in the other file. Lines appear in the order they
/// are first encountered, each exactly once.
#[verifier::loop_isolation(false)]
pub fn relevant_lines(changes: &[Change], s: &str) -> (r: Vec<MatchedLine>)
    requires
        forall|k: int|
            0 <= k < changes@.len() ==> (#[trigger] changes@[k]).range.start
                <= changes@[k].range.end,
    ensures
        r@ == relevant_spec(line_starts(s@), changes@, seq![]),
        forall|i: int, j: int| 0 <= i < j < r@.len() ==> r@[i].line != r@[j].line,
        forall|k: int| 0 <= k < r@.len() ==> (#[trigger] r@[k]).line.number <= s@.len(),
        forall|k: int|
            0 <= k < r@.len() ==> exists|c: int|
                0 <= c < changes@.len() && (#[trigger] r@[k]).opposite_line
                    == changes@[c].opposite_line,
{
    let newlines = NewlinePositions::from(s);

    let mut result: Vec<MatchedLine> = Vec::new();
    let n: usize = changes.len();
    let mut idx: usize = 0;
    proof {
        assert(changes@.skip(0) =~= changes@);
    }
    while idx < n
        invariant
            idx <= n,
            relevant_spec(newlines@, changes@.skip(idx as int), result@) == relevant_spec(
                newlines@,
                changes@,
                seq![],
            ),
            forall|i: int, j: int|
                0 <= i < j < result@.len() ==> result@[i].line != result@[j].line,
            forall|k: int|
                0 <= k < result@.len() ==> (#[trigger] result@[k]).line.number < newlines@.len(),
            forall|k: int|
                0 <= k < result@.len() ==> exists|c: int|
                    0 <= c < changes@.len() && (#[trigger] result@[k]).opposite_line
                        == changes@[c].opposite_line,
        decreases n - idx,
    {
        let change = changes[idx];
        let one = vec![change.range];
        let line_relative_ranges = newlines.from_ranges(one.as_slice());
        proof {
            assert(one@ =~= seq![change.range]);
            assert(changes@.skip(idx as int)[0] == changes@[idx as int]);
            assert(changes@.skip(idx as int).drop_first() =~= changes@.skip(idx as int + 1));
        }
        let ghost result_before = result@;
        let ghost target = emit_ranges(line_relative_ranges@, change.opposite_line, result_before);
        let m: usize = line_relative_ranges.len();
        let mut rdx: usize = 0;
        proof {
            assert(line_relative_ranges@.skip(0) =~= line_relative_ranges@);
        }
        while rdx < m
            invariant
                rdx <= m,
                m == line_relative_ranges@.len(),
                emit_ranges(line_relative_ranges@.skip(rdx as int), change.opposite_line, result@)
                    == target,
                forall|i: int, j: int|
                    0 <= i < j < result@.len() ==> result@[i].line != result@[j].line,
                forall|k: int|
                    0 <= k < result@.len() ==> (#[trigger] result@[k]).line.number
                        < newlines@.len(),
                forall|k: int|
                    0 <= k < result@.len() ==> exists|c: int|
                        0 <= c < changes@.len() && (#[trigger] result@[k]).opposite_line
                            == changes@[c].opposite_line,
            decreases m - rdx,
        {
            let range = line_relative_ranges[rdx];
            proof {
                assert(line_relative_ranges@.skip(rdx as int)[0] == line_relative_ranges@[
                    rdx as int]);
                assert(line_relative_ranges@.skip(rdx as int).drop_first()
                    =~= line_relative_ranges@.skip(rdx as int + 1));
            }
            if !contains_line(&result, range.line) {
                result.push(MatchedLine { line: range.line, opposite_line: change.opposite_line });
            }
            rdx = rdx + 1;
        }
        idx = idx + 1;
    }
    proof {
        assert(changes@.skip(n as int) =~= Seq::<Change>::empty());
    }
    result
}

/// One step of the context walk: line `i` of the window around a match on
/// `line` (whose counterpart is `opposite`) is appended unless an entry at or
/// past `i` was already emitted; its counterpart is shifted by the same
/// distance as `i`, clamped below at zero.
pub open spec fn context_step(acc: Seq<MatchedLine>, i: int, line: int, opposite: int) -> Seq<
    MatchedLine,
> {
    if acc.len() > 0 && i <= acc.last().line.number {
        acc
    } else {
        acc.push(
            MatchedLine {
                line: LineNumber { number: i as usize },
                opposite_line: LineNumber {
                    number: (if i + opposite - line >= 0 {
                        i + opposite - line
                    } else {
                        0
                    }) as usize,
                },
            },
        )
    }
}

/// The context walk over the window `[lo, hi]`, in ascending order.
pub open spec fn window_spec(
    lo: int,
    hi: int,
    line: int,
    opposite: int,
    acc: Seq<MatchedLine>,
) -> Seq<MatchedLine>
    decreases hi + 1 - lo,
{
    if lo > hi {
        acc
    } else {
        window_spec(lo + 1, hi, line, opposite, context_step(acc, lo, line, opposite))
    }
}

/// The expansion of matched lines by `context` lines of leading and trailing
/// context: each match opens a window clamped to `[0, max_line]`, and
/// windows overlapping the lines already emitted are merged by skipping every
/// line at or before the last emitted one.
pub open spec fn add_context_spec(
    lines: Seq<MatchedLine>,
    context: int,
    max_line: int,
    acc: Seq<MatchedLine>,
) -> Seq<MatchedLine>
    decreases lines.len(),
{
    if lines.len() == 0 {
        acc
    } else {
        let m = lines[0];
        let lo = if m.line.number - context >= 0 {
            m.line.number - context
        } else {
            0
        };
        let hi = if m.line.number + context <= max_line {
            m.line.number + context
        } else {
            max_line
        };
        add_context_spec(
            lines.drop_first(),
            context,
            max_line,
            window_spec(lo, hi, m.line.number as int, m.opposite_line.number as int, acc),
        )
    }
}

/// Expands each matched line into a window of `context` neighboring lines on
/// either side, clamped to `[0, max_line]`, merging overlapping windows. The
/// counterpart of a context line is shifted by the same distance as the line
/// itself, clamped below at zero. The input is assumed ascending by line;
/// the merge skips any line at or before the most recently emitted one.
#[verifier::loop_isolation(false)]
pub fn add_context(lines: &[MatchedLine], context: usize, max_line: LineNumber) -> (r: Vec<
    MatchedLine,
>)
    requires
        forall|k: int|
            0 <= k < lines@.len() ==> (#[trigger] lines@[k]).line.number + context < usize::MAX,
        forall|k: int|
            0 <= k < lines@.len() ==> (#[trigger] lines@[k]).opposite_line.number + context
                <= usize::MAX,
    ensures
        r@ == add_context_spec(lines@, context as int, max_line.number as int, seq![]),
        forall|i: int, j: int|
            0 <= i < j < r@.len() ==> r@[i].line.number < r@[j].line.number,
{
    let mut result: Vec<MatchedLine> = Vec::new();

    let n: usize = lines.len();
    let mut idx: usize = 0;
    proof {
        assert(lines@.skip(0) =~= lines@);
    }
    while idx < n
        invariant
            idx <= n,
            add_context_spec(
                lines@.skip(idx as int),
                context as int,
                max_line.number as int,
                result@,
            ) == add_context_spec(lines@, context as int, max_line.number as int, seq![]),
            forall|i: int, j: int|
                0 <= i < j < result@.len() ==> result@[i].line.number < result@[j].line.number,
        decreases n - idx,
    {
        let matched_line = lines[idx];
        let line_number: usize = matched_line.line.number;
        let opposite_number: usize = matched_line.opposite_line.number;

        let earliest: usize = if line_number >= context {
            line_number - context
        } else {
            0
        };
        let widened: usize = line_number + context;
        let latest: usize = if widened <= max_line.number {
            widened
        } else {
            max_line.number
        };

        proof {
            assert(lines@.skip(idx as int)[0] == lines@[idx as int]);
            assert(lines@.skip(idx as int).drop_first() =~= lines@.skip(idx as int + 1));
        }
        let ghost target = window_spec(
            earliest as int,
            latest as int,
            line_number as int,
            opposite_number as int,
            result@,
        );

        let mut i: usize = earliest;
        while i < latest + 1
            invariant
                earliest <= i,
                i <= latest + 1 || i == earliest,
                window_spec(
                    i as int,
                    latest as int,
                    line_number as int,
                    opposite_number as int,
                    result@,
                ) == target,
                forall|i0: int, j0: int|
                    0 <= i0 < j0 < result@.len() ==> result@[i0].line.number
                        < result@[j0].line.number,
            decreases latest + 1 - i,
        {
            let is_new: bool = if result.len() > 0 {
                i > result[result.len() - 1].line.number
            } else {
                true
            };
            if is_new {
                let opposite_i: usize = if i >= line_number {
                    opposite_number + (i - line_number)
                } else {
                    let d = line_number - i;
                    if opposite_number >= d {
                        opposite_number - d
                    } else {
                        0
                    }
                };
                result.push(
                    MatchedLine {
                        line: LineNumber::from(i),
                        opposite_line: LineNumber::from(opposite_i),
                    },
                );
            }
            i = i + 1;
        }
        idx = idx + 1;
    }
    proof {
        assert(lines@.skip(n as int) =~= Seq::<MatchedLine>::empty());
    }
    result
}

proof fn lemma_add_context_zero_aux(lines: Seq<MatchedLine>, max_line: int, acc: Seq<MatchedLine>)
    requires
        forall|i: int, j: int|
            0 <= i < j < lines.len() ==> (#[trigger] lines[i]).line.number
                < (#[trigger] lines[j]).line.number,
        forall|i: int| 0 <= i < lines.len() ==> (#[trigger] lines[i]).line.number <= max_line,
        lines.len() > 0 && acc.len() > 0 ==> acc.last().line.number < lines[0].line.number,
    ensures
        add_context_spec(lines, 0, max_line, acc) == acc + lines,
    decreases lines.len(),
{
    if lines.len() == 0 {
        assert(acc + lines =~= acc);
    } else {
        let m = lines[0];
        let acc2 = context_step(
            acc,
            m.line.number as int,
            m.line.number as int,
            m.opposite_line.number as int,
        );
        assert(acc2 == acc.push(m));
        let l: int = m.line.number as int;
        let o: int = m.opposite_line.number as int;
        assert(window_spec(l + 1, l, l, o, acc2) == acc2);
        assert(window_spec(l, l, l, o, acc) == acc2);
        assert(forall|i: int, j: int|
            0 <= i < j < lines.drop_first().len() ==> (#[trigger] lines.drop_first()[i]).line.number
                < (#[trigger] lines.drop_first()[j]).line.number);
        assert(forall|i: int|
            0 <= i < lines.drop_first().len() ==> (#[trigger] lines.drop_first()[i]).line.number
                <= max_line);
        lemma_add_context_zero_aux(lines.drop_first(), max_line, acc2);
        assert(acc.push(m) + lines.drop_first() =~= acc + lines);
    }
}

/// A zero context radius is the identity: expanding matched lines that are
/// strictly ascending and lie within the buffer returns them unchanged.
pub proof fn lemma_add_context_zero_identity(lines: Seq<MatchedLine>, max_line: int)
    requires
        forall|i: int, j: int|
            0 <= i < j < lines.len() ==> (#[trigger] lines[i]).line.number
                < (#[trigger] lines[j]).line.number,
        forall|i: int| 0 <= i < lines.len() ==> (#[trigger] lines[i]).line.number <= max_line,
    ensures
        add_context_spec(lines, 0, max_line, seq![]) == lines,
{
    lemma_add_context_zero_aux(lines, max_line, seq![]);
    assert(Seq::<MatchedLine>::empty() + lines =~= lines);
}


} // verus!
