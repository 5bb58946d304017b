//! The rows of a hunk body and ranges of them: parsing, trimming and
//! validating user selections.
use crate::lines::{bytes_views, lines, split_lines};
use vstd::prelude::*;

verus! {

/// A row range within a natural hunk's diff body.
///
/// Rows are 0-based indices into the unified-diff *body* (i.e. the `@@ ... @@`
/// header line is excluded). `start` is inclusive, `end` is exclusive; an
/// empty range has `end <= start`.
#[derive(Clone, Copy, Debug, PartialEq, Eq, Structural, Hash, PartialOrd, Ord)]
pub struct RowRange {
    /// The first row of the range.
    pub start: u32,
    /// One past the last row of the range.
    pub end: u32,
}

/// The kind of a single row in a unified-diff hunk body.
#[derive(Clone, Copy, Debug, PartialEq, Eq, Structural, Hash)]
pub enum RowKind {
    /// A ` ` (space-prefixed) context row.
    Context,
    /// A `+` added row.
    Add,
    /// A `-` removed row.
    Remove,
}

/// The number of rows in `r`, zero when it is empty.
pub open spec fn range_len(r: RowRange) -> int {
    if r.end > r.start {
        r.end - r.start
    } else {
        0
    }
}

/// `r` holds no row.
pub open spec fn range_is_empty(r: RowRange) -> bool {
    r.end <= r.start
}

/// Row `i` lies in `r`.
pub open spec fn in_range(r: RowRange, i: int) -> bool {
    r.start <= i < r.end
}

impl RowRange {
    /// The number of rows in the range.
    pub fn len(&self) -> (r: u32)
        ensures
            r == range_len(*self),
    {
        if self.end > self.start {
            self.end - self.start
        } else {
            0
        }
    }

    /// Whether the range holds no row.
    pub fn is_empty(&self) -> (r: bool)
        ensures
            r == range_is_empty(*self),
    {
        self.end <= self.start
    }
}

/// The row a diff line stands for: `+` adds, `-` removes, `@` headers and
/// `\` markers are no rows, and everything else (an empty line too) is
/// context.
pub open spec fn line_kind(line: Seq<u8>) -> Option<RowKind> {
    if line.len() == 0 {
        Some(RowKind::Context)
    } else if line[0] == 43u8 {
        Some(RowKind::Add)
    } else if line[0] == 45u8 {
        Some(RowKind::Remove)
    } else if line[0] == 64u8 || line[0] == 92u8 {
        None
    } else {
        Some(RowKind::Context)
    }
}

/// The rows that `lines` stand for, in order.
pub open spec fn kinds_of_lines(lines: Seq<Seq<u8>>) -> Seq<RowKind>
    decreases lines.len(),
{
    if lines.len() == 0 {
        seq![]
    } else {
        let rest = kinds_of_lines(lines.drop_last());
        match line_kind(lines.last()) {
            Some(k) => rest.push(k),
            None => rest,
        }
    }
}

/// The rows of the unified-diff text `diff`.
pub open spec fn row_kinds_of(diff: Seq<u8>) -> Seq<RowKind> {
    kinds_of_lines(split_lines(diff))
}

/// Parse a unified-diff body into per-row kinds.
///
/// Skips `@@` header lines and `\` "no newline" markers. Empty lines are
/// treated as context.
pub fn parse_row_kinds(diff: &[u8]) -> (r: Vec<RowKind>)
    ensures
        r@ == row_kinds_of(diff@),
{
    let ls = lines(diff);
    let ghost views = bytes_views(ls@);
    let mut out: Vec<RowKind> = Vec::new();
    let mut i: usize = 0;
    while i < ls.len()
        invariant
            0 <= i <= ls.len(),
            views == bytes_views(ls@),
            views == split_lines(diff@),
            out@ == kinds_of_lines(views.take(i as int)),
        decreases ls.len() - i,
    {
        let line = &ls[i];
        assert(views[i as int] == line@);
        assert(views.take(i + 1).drop_last() =~= views.take(i as int));
        assert(views.take(i + 1).last() == line@);
        if line.len() == 0 {
            out.push(RowKind::Context);
        } else {
            let b = line[0];
            if b == 43u8 {
                out.push(RowKind::Add);
            } else if b == 45u8 {
                out.push(RowKind::Remove);
            } else if b == 64u8 || b == 92u8 {
            } else {
                out.push(RowKind::Context);
            }
        }
        i += 1;
    }
    assert(views.take(ls.len() as int) =~= views);
    out
}

/// Row `i` ends a trimmed selection: it lies outside `kinds` or is not context.
pub open spec fn is_stop(kinds: Seq<RowKind>, i: int) -> bool {
    i >= kinds.len() || kinds[i] != RowKind::Context
}

/// The first stop row in `[lo, hi)`, or `hi` if there is none.
pub open spec fn first_stop(kinds: Seq<RowKind>, lo: int, hi: int) -> int
    decreases hi - lo,
{
    if lo >= hi {
        hi
    } else if is_stop(kinds, lo) {
        lo
    } else {
        first_stop(kinds, lo + 1, hi)
    }
}

/// One past the last stop row in `[lo, hi)`, or `lo` if there is none.
pub open spec fn last_stop_end(kinds: Seq<RowKind>, lo: int, hi: int) -> int
    decreases hi - lo,
{
    if hi <= lo {
        lo
    } else if is_stop(kinds, hi - 1) {
        hi
    } else {
        last_stop_end(kinds, lo, hi - 1)
    }
}

/// `range` without its leading and trailing context rows, or `None` when
/// nothing but context (or nothing at all) is left.
pub open spec fn spec_trim(range: RowRange, kinds: Seq<RowKind>) -> Option<RowRange> {
    let s = first_stop(kinds, range.start as int, range.end as int);
    let e = last_stop_end(kinds, s, range.end as int);
    if e <= s {
        None
    } else {
        Some(RowRange { start: s as u32, end: e as u32 })
    }
}

/// The first stop lies in `[lo, hi]` and every row before it is context.
pub proof fn lemma_first_stop(kinds: Seq<RowKind>, lo: int, hi: int)
    requires
        lo <= hi,
    ensures
        lo <= first_stop(kinds, lo, hi) <= hi,
        first_stop(kinds, lo, hi) < hi ==> is_stop(kinds, first_stop(kinds, lo, hi)),
        forall|i: int| lo <= i < first_stop(kinds, lo, hi) ==> !is_stop(kinds, i),
    decreases hi - lo,
{
    if lo < hi && !is_stop(kinds, lo) {
        lemma_first_stop(kinds, lo + 1, hi);
    }
}

/// The last stop end lies in `[lo, hi]` and every row after it is context.
pub proof fn lemma_last_stop_end(kinds: Seq<RowKind>, lo: int, hi: int)
    requires
        lo <= hi,
    ensures
        lo <= last_stop_end(kinds, lo, hi) <= hi,
        last_stop_end(kinds, lo, hi) > lo ==> is_stop(kinds, last_stop_end(kinds, lo, hi) - 1),
        forall|i: int| last_stop_end(kinds, lo, hi) <= i < hi ==> !is_stop(kinds, i),
    decreases hi - lo,
{
    if lo < hi && !is_stop(kinds, hi - 1) {
        lemma_last_stop_end(kinds, lo, hi - 1);
    }
}

/// What trimming keeps: the trimmed range starts and ends on non-context
/// rows, only context was cut away, and `None` means the range held only
/// context rows inside `kinds`.
pub proof fn lemma_trim_shape(range: RowRange, kinds: Seq<RowKind>)
    ensures
        spec_trim(range, kinds) is None <==> (forall|i: int|
            range.start <= i < range.end ==> !is_stop(kinds, i)),
        spec_trim(range, kinds) matches Some(t) ==> {
            &&& range.start <= t.start < t.end <= range.end
            &&& is_stop(kinds, t.start as int)
            &&& is_stop(kinds, t.end - 1)
            &&& forall|i: int| range.start <= i < t.start ==> !is_stop(kinds, i)
            &&& forall|i: int| t.end <= i < range.end ==> !is_stop(kinds, i)
        },
{
    let lo = range.start as int;
    let hi = range.end as int;
    if lo <= hi {
        lemma_first_stop(kinds, lo, hi);
        let s = first_stop(kinds, lo, hi);
        lemma_last_stop_end(kinds, s, hi);
        let e = last_stop_end(kinds, s, hi);
        if e <= s {
            assert forall|i: int| lo <= i < hi implies !is_stop(kinds, i) by {
                if i >= s {
                    assert(e <= i);
                }
            }
        } else {
            assert(is_stop(kinds, s));
        }
    } else {
        assert(first_stop(kinds, lo, hi) == hi);
        assert(last_stop_end(kinds, hi, hi) == hi);
    }
}

/// Trimming is idempotent: a trimmed range trims to itself.
pub proof fn lemma_trim_idempotent(range: RowRange, kinds: Seq<RowKind>)
    ensures
        spec_trim(range, kinds) matches Some(t) ==> spec_trim(t, kinds) == Some(t),
{
    lemma_trim_shape(range, kinds);
    if let Some(t) = spec_trim(range, kinds) {
        assert(first_stop(kinds, t.start as int, t.end as int) == t.start);
        assert(last_stop_end(kinds, t.start as int, t.end as int) == t.end);
    }
}

/// Trim leading and trailing context rows from `range`.
///
/// Returns `None` if every row in the range is context (the split would carry
/// no `+`/`-` content). Rows past the end of `kinds` are never trimmed.
pub fn trim_context(range: RowRange, kinds: &[RowKind]) -> (r: Option<RowRange>)
    ensures
        r == spec_trim(range, kinds@),
{
    let mut start = range.start;
    let end0 = range.end;
    proof {
        if start <= end0 {
            lemma_first_stop(kinds@, start as int, end0 as int);
        }
    }
    while start < end0 && (start as usize) < kinds.len() && kinds[start as usize]
        == RowKind::Context
        invariant
            range.start <= start,
            start <= end0 || start == range.start,
            end0 == range.end,
            first_stop(kinds@, range.start as int, end0 as int) == first_stop(
                kinds@,
                start as int,
                end0 as int,
            ),
        decreases end0 - start,
    {
        start += 1;
    }
    let mut end = end0;
    while end > start && ((end - 1) as usize) < kinds.len() && kinds[(end - 1) as usize]
        == RowKind::Context
        invariant
            start <= end <= end0 || (end == end0 && end0 < start),
            last_stop_end(kinds@, start as int, end0 as int) == last_stop_end(
                kinds@,
                start as int,
                end as int,
            ),
        decreases end,
    {
        end -= 1;
    }
    proof {
        if range.start <= range.end {
            assert(first_stop(kinds@, start as int, end0 as int) == start);
        } else {
            assert(first_stop(kinds@, range.start as int, range.end as int) == range.end);
            assert(last_stop_end(kinds@, range.end as int, range.end as int) == range.end);
        }
    }
    if end <= start {
        None
    } else {
        Some(RowRange { start, end })
    }
}

/// Why a list of row ranges is not an acceptable split.
#[derive(Clone, Copy, Debug, PartialEq, Eq, Structural)]
pub enum RangeError {
    /// The list holds no range.
    NoRanges,
    /// The range at `index` holds no row.
    EmptyRange { index: usize },
    /// The range at `index` reaches past the anchor's `row_count` rows.
    OutOfBounds { index: usize, start: u32, end: u32, row_count: u32 },
    /// The range at `index` starts before the previous range ends.
    Overlap { index: usize },
    /// The ranges together cover the whole anchor.
    FullCoverage,
}

/// The first thing wrong with the range at `i`, judged on its own and against
/// its predecessor.
pub open spec fn range_problem(ranges: Seq<RowRange>, i: int, row_count: u32) -> Option<
    RangeError,
> {
    let r = ranges[i];
    if r.end <= r.start {
        Some(RangeError::EmptyRange { index: i as usize })
    } else if r.end > row_count {
        Some(
            RangeError::OutOfBounds { index: i as usize, start: r.start, end: r.end, row_count },
        )
    } else if i > 0 && r.start < ranges[i - 1].end {
        Some(RangeError::Overlap { index: i as usize })
    } else {
        None
    }
}

/// The problem of the first range at or after `i` that has one.
pub open spec fn first_problem(ranges: Seq<RowRange>, i: int, row_count: u32) -> Option<
    RangeError,
>
    decreases ranges.len() - i,
{
    if i < 0 || i >= ranges.len() {
        None
    } else {
        match range_problem(ranges, i, row_count) {
            Some(e) => Some(e),
            None => first_problem(ranges, i + 1, row_count),
        }
    }
}

/// The number of rows the ranges hold together.
pub open spec fn total_rows(ranges: Seq<RowRange>) -> int
    decreases ranges.len(),
{
    if ranges.len() == 0 {
        0
    } else {
        total_rows(ranges.drop_last()) + range_len(ranges.last())
    }
}

/// The outcome of validating `ranges` against an anchor of `row_count` rows;
/// with `allow_full_coverage` the ranges may cover the whole anchor.
pub open spec fn spec_validate(ranges: Seq<RowRange>, row_count: u32, allow_full_coverage: bool) -> Result<
    (),
    RangeError,
> {
    if ranges.len() == 0 {
        Err(RangeError::NoRanges)
    } else {
        match first_problem(ranges, 0, row_count) {
            Some(e) => Err(e),
            None => if !allow_full_coverage && total_rows(ranges) >= row_count {
                Err(RangeError::FullCoverage)
            } else {
                Ok(())
            },
        }
    }
}

/// `ranges` is a non-empty, sorted list of disjoint, non-empty ranges inside
/// `[0, row_count)`.
pub open spec fn ranges_well_formed(ranges: Seq<RowRange>, row_count: int) -> bool {
    &&& ranges.len() > 0
    &&& forall|i: int|
        0 <= i < ranges.len() ==> #[trigger] ranges[i].start < ranges[i].end <= row_count
    &&& forall|i: int| 0 < i < ranges.len() ==> ranges[i - 1].end <= #[trigger] ranges[i].start
}

/// With no problem at the indices before `i`, the first problem overall is the
/// first one from `i` on.
proof fn lemma_first_problem_skip(ranges: Seq<RowRange>, i: int, row_count: u32)
    requires
        0 <= i <= ranges.len(),
        forall|j: int| 0 <= j < i ==> range_problem(ranges, j, row_count) is None,
    ensures
        first_problem(ranges, 0, row_count) == first_problem(ranges, i, row_count),
    decreases i,
{
    if i > 0 {
        lemma_first_problem_skip(ranges, i - 1, row_count);
    }
}

/// No first problem means no problem anywhere.
proof fn lemma_no_first_problem(ranges: Seq<RowRange>, i: int, row_count: u32)
    requires
        0 <= i <= ranges.len(),
        first_problem(ranges, i, row_count) is None,
    ensures
        forall|j: int| i <= j < ranges.len() ==> range_problem(ranges, j, row_count) is None,
    decreases ranges.len() - i,
{
    if i < ranges.len() {
        lemma_no_first_problem(ranges, i + 1, row_count);
    }
}

/// Validation with full coverage allowed succeeds exactly on well-formed
/// lists.
pub proof fn lemma_validate_stored_ok(ranges: Seq<RowRange>, row_count: u32)
    ensures
        spec_validate(ranges, row_count, true) is Ok <==> ranges_well_formed(
            ranges,
            row_count as int,
        ),
{
    if ranges_well_formed(ranges, row_count as int) {
        assert forall|j: int| 0 <= j < ranges.len() implies range_problem(
            ranges,
            j,
            row_count,
        ) is None by {
            assert(ranges[j].start < ranges[j].end);
        }
        lemma_first_problem_skip(ranges, ranges.len() as int, row_count);
    }
    if spec_validate(ranges, row_count, true) is Ok {
        lemma_no_first_problem(ranges, 0, row_count);
        assert forall|i: int| 0 < i < ranges.len() implies ranges[i - 1].end
            <= #[trigger] ranges[i].start by {
            assert(range_problem(ranges, i, row_count) is None);
        }
        assert forall|i: int| 0 <= i < ranges.len() implies #[trigger] ranges[i].start
            < ranges[i].end <= row_count by {
            assert(range_problem(ranges, i, row_count) is None);
        }
    }
}

/// Validate `ranges` against an anchor of `row_count` rows, optionally
/// allowing them to cover the whole anchor.
fn validate_ranges_inner(ranges: &[RowRange], row_count: u32, allow_full_coverage: bool) -> (r:
    Result<(), RangeError>)
    ensures
        r == spec_validate(ranges@, row_count, allow_full_coverage),
{
    if ranges.len() == 0 {
        return Err(RangeError::NoRanges);
    }
    let mut prev_end: u32 = 0;
    let mut total: u32 = 0;
    let mut i: usize = 0;
    while i < ranges.len()
        invariant
            0 <= i <= ranges.len(),
            ranges.len() > 0,
            forall|j: int| 0 <= j < i ==> range_problem(ranges@, j, row_count) is None,
            i > 0 ==> prev_end == ranges@[i - 1].end,
            i == 0 ==> prev_end == 0,
            total == total_rows(ranges@.take(i as int)),
            total <= prev_end,
        decreases ranges.len() - i,
    {
        let r = ranges[i];
        assert(ranges@.take(i + 1).drop_last() =~= ranges@.take(i as int));
        if r.is_empty() {
            proof {
                lemma_first_problem_skip(ranges@, i as int, row_count);
            }
            return Err(RangeError::EmptyRange { index: i });
        }
        if r.end > row_count {
            proof {
                lemma_first_problem_skip(ranges@, i as int, row_count);
            }
            return Err(
                RangeError::OutOfBounds { index: i, start: r.start, end: r.end, row_count },
            );
        }
        if i > 0 && r.start < prev_end {
            proof {
                lemma_first_problem_skip(ranges@, i as int, row_count);
            }
            return Err(RangeError::Overlap { index: i });
        }
        prev_end = r.end;
        total = total + r.len();
        i += 1;
    }
    assert(ranges@.take(ranges.len() as int) =~= ranges@);
    proof {
        lemma_first_problem_skip(ranges@, ranges.len() as int, row_count);
    }
    if !allow_full_coverage && total >= row_count {
        return Err(RangeError::FullCoverage);
    }
    Ok(())
}

/// Validate `ranges` against an anchor of `row_count` rows.
///
/// The list must be non-empty, each range non-empty and within
/// `[0, row_count)`, the ranges sorted and disjoint, and together they must
/// not cover the entire anchor.
pub fn validate_ranges(ranges: &[RowRange], row_count: u32) -> (r: Result<(), RangeError>)
    ensures
        r == spec_validate(ranges@, row_count, false),
{
    validate_ranges_inner(ranges, row_count, false)
}

/// Like [`validate_ranges`] but allows the ranges to cover the entire
/// anchor. Used to validate stored overrides whose `ranges` include
/// residuals.
pub fn validate_ranges_stored(ranges: &[RowRange], row_count: u32) -> (r: Result<(), RangeError>)
    ensures
        r == spec_validate(ranges@, row_count, true),
        r is Ok <==> ranges_well_formed(ranges@, row_count as int),
{
    proof {
        lemma_validate_stored_ok(ranges@, row_count);
    }
    validate_ranges_inner(ranges, row_count, true)
}

} // verus!
