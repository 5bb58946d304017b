//! Hunk headers for sub-ranges of an anchor hunk: the natural-rendering
//! header of a sub-hunk, and the null-side encoding the commit engine takes.
use crate::hunks::HunkHeader;
use crate::rows::{RowKind, RowRange};
use vstd::prelude::*;

verus! {

/// The number of rows in `s` that exist on the old side (context and removals).
pub open spec fn count_old(s: Seq<RowKind>) -> nat
    decreases s.len(),
{
    if s.len() == 0 {
        0
    } else {
        count_old(s.drop_last()) + if s.last() != RowKind::Add {
            1nat
        } else {
            0nat
        }
    }
}

/// The number of rows in `s` that exist on the new side (context and additions).
pub open spec fn count_new(s: Seq<RowKind>) -> nat
    decreases s.len(),
{
    if s.len() == 0 {
        0
    } else {
        count_new(s.drop_last()) + if s.last() != RowKind::Remove {
            1nat
        } else {
            0nat
        }
    }
}

/// Neither count exceeds the number of rows.
pub proof fn lemma_counts_bounded(s: Seq<RowKind>)
    ensures
        count_old(s) <= s.len(),
        count_new(s) <= s.len(),
    decreases s.len(),
{
    if s.len() > 0 {
        lemma_counts_bounded(s.drop_last());
    }
}

/// Counting one more row adds that row's contribution.
pub proof fn lemma_counts_step(s: Seq<RowKind>, j: int)
    requires
        0 <= j < s.len(),
    ensures
        count_old(s.take(j + 1)) == count_old(s.take(j)) + if s[j] != RowKind::Add {
            1nat
        } else {
            0nat
        },
        count_new(s.take(j + 1)) == count_new(s.take(j)) + if s[j] != RowKind::Remove {
            1nat
        } else {
            0nat
        },
{
    assert(s.take(j + 1).drop_last() =~= s.take(j));
}

/// Counting one more row of a subrange adds that row's contribution.
pub proof fn lemma_counts_step_sub(s: Seq<RowKind>, a: int, j: int)
    requires
        0 <= a <= j < s.len(),
    ensures
        count_old(s.subrange(a, j + 1)) == count_old(s.subrange(a, j)) + if s[j]
            != RowKind::Add {
            1nat
        } else {
            0nat
        },
        count_new(s.subrange(a, j + 1)) == count_new(s.subrange(a, j)) + if s[j]
            != RowKind::Remove {
            1nat
        } else {
            0nat
        },
{
    assert(s.subrange(a, j + 1).drop_last() =~= s.subrange(a, j));
}

/// Counts over longer prefixes are at least as large.
pub proof fn lemma_counts_monotone(s: Seq<RowKind>, j: int, k: int)
    requires
        0 <= j <= k <= s.len(),
    ensures
        count_old(s.take(j)) <= count_old(s.take(k)),
        count_new(s.take(j)) <= count_new(s.take(k)),
    decreases k - j,
{
    if j < k {
        lemma_counts_step(s, k - 1);
        lemma_counts_monotone(s, j, k - 1);
    }
}

/// Counting a prefix and then the rows after it counts the longer prefix.
pub proof fn lemma_counts_split(s: Seq<RowKind>, j: int, k: int)
    requires
        0 <= j <= k <= s.len(),
    ensures
        count_old(s.take(j)) + count_old(s.subrange(j, k)) == count_old(s.take(k)),
        count_new(s.take(j)) + count_new(s.subrange(j, k)) == count_new(s.take(k)),
    decreases k - j,
{
    if j == k {
        assert(s.subrange(j, k) =~= Seq::<RowKind>::empty());
    } else {
        lemma_counts_split(s, j, k - 1);
        lemma_counts_step(s, k - 1);
        lemma_counts_step_sub(s, j, k - 1);
    }
}

/// `min(a, b)` over integers.
pub open spec fn min_int(a: int, b: int) -> int {
    if a <= b {
        a
    } else {
        b
    }
}

/// The rows of `range` clamped to the rows that exist.
pub open spec fn clamp_start(range: RowRange, kinds: Seq<RowKind>) -> int {
    min_int(range.start as int, kinds.len() as int)
}

/// One past the last row of `range` clamped to the rows that exist.
pub open spec fn clamp_end(range: RowRange, kinds: Seq<RowKind>) -> int {
    min_int(range.end as int, kinds.len() as int)
}

/// The old-side line of row `j` of an anchor body.
pub open spec fn old_line_at(anchor: HunkHeader, rows: Seq<RowKind>, j: int) -> int {
    anchor.old_start + count_old(rows.take(j))
}

/// The new-side line of row `j` of an anchor body.
pub open spec fn new_line_at(anchor: HunkHeader, rows: Seq<RowKind>, j: int) -> int {
    anchor.new_start + count_new(rows.take(j))
}

/// The clamped range is ordered and the anchor's line numbers up to it fit
/// in `u32`: what header synthesis needs.
pub open spec fn synthesize_ok(anchor: HunkHeader, kinds: Seq<RowKind>, range: RowRange) -> bool {
    &&& clamp_start(range, kinds) <= clamp_end(range, kinds)
    &&& kinds.len() <= u32::MAX
    &&& old_line_at(anchor, kinds, clamp_start(range, kinds)) <= u32::MAX
    &&& new_line_at(anchor, kinds, clamp_start(range, kinds)) <= u32::MAX
}

/// The natural-rendering header of the rows `range` of an anchor body: it
/// starts at the old- and new-side lines of the range's first row and spans
/// the range's old-side and new-side rows.
pub open spec fn spec_synthesize(anchor: HunkHeader, kinds: Seq<RowKind>, range: RowRange) -> HunkHeader {
    let s = clamp_start(range, kinds);
    let e = clamp_end(range, kinds);
    HunkHeader {
        old_start: old_line_at(anchor, kinds, s) as u32,
        old_lines: count_old(kinds.subrange(s, e)) as u32,
        new_start: new_line_at(anchor, kinds, s) as u32,
        new_lines: count_new(kinds.subrange(s, e)) as u32,
    }
}

/// Synthesize a natural-rendering `HunkHeader` for a sub-range of `anchor`.
///
/// `kinds` is the parsed row sequence of the anchor's diff body.
pub fn synthesize_header(anchor: &HunkHeader, kinds: &[RowKind], range: RowRange) -> (r: HunkHeader)
    requires
        synthesize_ok(*anchor, kinds@, range),
    ensures
        r == spec_synthesize(*anchor, kinds@, range),
{
    let row_count = kinds.len();
    let start = if (range.start as usize) < row_count {
        range.start as usize
    } else {
        row_count
    };
    let end = if (range.end as usize) < row_count {
        range.end as usize
    } else {
        row_count
    };
    let mut old_offset_before: u32 = 0;
    let mut new_offset_before: u32 = 0;
    let mut j: usize = 0;
    while j < start
        invariant
            start <= kinds.len() <= u32::MAX,
            0 <= j <= start,
            old_offset_before == count_old(kinds@.take(j as int)),
            new_offset_before == count_new(kinds@.take(j as int)),
        decreases start - j,
    {
        proof {
            lemma_counts_step(kinds@, j as int);
            lemma_counts_bounded(kinds@.take(j + 1));
        }
        match kinds[j] {
            RowKind::Context => {
                old_offset_before += 1;
                new_offset_before += 1;
            },
            RowKind::Remove => old_offset_before += 1,
            RowKind::Add => new_offset_before += 1,
        }
        j += 1;
    }
    let mut old_lines: u32 = 0;
    let mut new_lines: u32 = 0;
    let mut k: usize = start;
    assert(kinds@.subrange(start as int, start as int) =~= Seq::<RowKind>::empty());
    while k < end
        invariant
            start <= end <= kinds.len() <= u32::MAX,
            start <= k <= end,
            old_lines == count_old(kinds@.subrange(start as int, k as int)),
            new_lines == count_new(kinds@.subrange(start as int, k as int)),
        decreases end - k,
    {
        proof {
            lemma_counts_step_sub(kinds@, start as int, k as int);
            lemma_counts_bounded(kinds@.subrange(start as int, k + 1));
        }
        match kinds[k] {
            RowKind::Context => {
                old_lines += 1;
                new_lines += 1;
            },
            RowKind::Remove => old_lines += 1,
            RowKind::Add => new_lines += 1,
        }
        k += 1;
    }
    HunkHeader {
        old_start: anchor.old_start + old_offset_before,
        old_lines,
        new_start: anchor.new_start + new_offset_before,
        new_lines,
    }
}

/// The commit-engine encoding of the rows `[start, k)` of an anchor body:
/// each maximal run of added rows becomes `(-0,0 +l,n)` with `l` the new-side
/// line of its first row, each maximal run of removed rows becomes
/// `(-l,n +0,0)` with `l` the old-side line of its first row, in row order;
/// context rows emit nothing.
pub open spec fn encode_prefix(anchor: HunkHeader, rows: Seq<RowKind>, start: int, k: int) -> Seq<
    HunkHeader,
>
    decreases k - start,
{
    if k <= start {
        seq![]
    } else {
        let prev = encode_prefix(anchor, rows, start, k - 1);
        let j = k - 1;
        match rows[j] {
            RowKind::Context => prev,
            RowKind::Add => if j > start && rows[j - 1] == RowKind::Add {
                prev.update(
                    prev.len() - 1,
                    HunkHeader { new_lines: (prev.last().new_lines + 1) as u32, ..prev.last() },
                )
            } else {
                prev.push(
                    HunkHeader {
                        old_start: 0,
                        old_lines: 0,
                        new_start: new_line_at(anchor, rows, j) as u32,
                        new_lines: 1,
                    },
                )
            },
            RowKind::Remove => if j > start && rows[j - 1] == RowKind::Remove {
                prev.update(
                    prev.len() - 1,
                    HunkHeader { old_lines: (prev.last().old_lines + 1) as u32, ..prev.last() },
                )
            } else {
                prev.push(
                    HunkHeader {
                        old_start: old_line_at(anchor, rows, j) as u32,
                        old_lines: 1,
                        new_start: 0,
                        new_lines: 0,
                    },
                )
            },
        }
    }
}

/// The commit-engine encoding of the rows `range` of an anchor body.
pub open spec fn spec_encode(anchor: HunkHeader, range: RowRange, rows: Seq<RowKind>) -> Seq<
    HunkHeader,
> {
    encode_prefix(anchor, rows, clamp_start(range, rows), clamp_end(range, rows))
}

/// The line numbers of every row up to the end of the range fit in `u32`.
pub open spec fn encode_ok(anchor: HunkHeader, range: RowRange, rows: Seq<RowKind>) -> bool {
    let top = max_int(clamp_start(range, rows), clamp_end(range, rows));
    &&& old_line_at(anchor, rows, top) <= u32::MAX
    &&& new_line_at(anchor, rows, top) <= u32::MAX
}

/// `max(a, b)` over integers.
pub open spec fn max_int(a: int, b: int) -> int {
    if a >= b {
        a
    } else {
        b
    }
}

/// Encode a sub-range as `HunkHeader`s in the form the commit engine
/// expects: contiguous runs of `+` rows become `(-0,0 +new_start,count)`
/// headers and contiguous runs of `-` rows become `(-old_start,count +0,0)`
/// headers. Context rows inside the range are skipped.
///
/// `rows` is the parsed row sequence of the anchor's *full* diff body;
/// `range` indexes into it.
pub fn encode_sub_hunk_for_commit(anchor: HunkHeader, range: RowRange, rows: &[RowKind]) -> (r: Vec<
    HunkHeader,
>)
    requires
        encode_ok(anchor, range, rows@),
    ensures
        r@ == spec_encode(anchor, range, rows@),
{
    let row_count = rows.len();
    let start = if (range.start as usize) < row_count {
        range.start as usize
    } else {
        row_count
    };
    let end = if (range.end as usize) < row_count {
        range.end as usize
    } else {
        row_count
    };
    let ghost e = max_int(clamp_start(range, rows@), clamp_end(range, rows@));
    let mut new_line = anchor.new_start;
    let mut old_line = anchor.old_start;
    let mut j: usize = 0;
    while j < start
        invariant
            start <= rows.len(),
            end <= rows.len(),
            0 <= j <= start,
            e == max_int(start as int, end as int),
            new_line == new_line_at(anchor, rows@, j as int),
            old_line == old_line_at(anchor, rows@, j as int),
            old_line_at(anchor, rows@, e) <= u32::MAX,
            new_line_at(anchor, rows@, e) <= u32::MAX,
        decreases start - j,
    {
        proof {
            lemma_counts_step(rows@, j as int);
            lemma_counts_monotone(rows@, j + 1, start as int);
            lemma_counts_monotone(rows@, start as int, rows.len() as int);
            lemma_counts_monotone(rows@, j + 1, e);
        }
        match rows[j] {
            RowKind::Context => {
                new_line += 1;
                old_line += 1;
            },
            RowKind::Add => new_line += 1,
            RowKind::Remove => old_line += 1,
        }
        j += 1;
    }
    let mut out: Vec<HunkHeader> = Vec::new();
    let mut i: usize = start;
    while i < end
        invariant
            start <= rows.len(),
            end <= rows.len(),
            start <= i,
            i <= end || i == start,
            e == max_int(start as int, end as int),
            new_line == new_line_at(anchor, rows@, i as int),
            old_line == old_line_at(anchor, rows@, i as int),
            old_line_at(anchor, rows@, e) <= u32::MAX,
            new_line_at(anchor, rows@, e) <= u32::MAX,
            out@ == encode_prefix(anchor, rows@, start as int, i as int),
            i > start && rows@[i - 1] == RowKind::Add ==> (i >= end || rows@[i as int]
                != RowKind::Add),
            i > start && rows@[i - 1] == RowKind::Remove ==> (i >= end || rows@[i as int]
                != RowKind::Remove),
        decreases end - i,
    {
        match rows[i] {
            RowKind::Add => {
                let run_start = new_line;
                let i0 = i;
                let mut count: u32 = 0;
                let ghost base = out@;
                while i < end && rows[i] == RowKind::Add
                    invariant
                        end <= rows.len(),
                        start <= i0 <= i <= end,
                        e == max_int(start as int, end as int),
                        rows@[i0 as int] == RowKind::Add,
                        i0 > start ==> rows@[i0 - 1] != RowKind::Add,
                        forall|t: int| i0 <= t < i ==> rows@[t] == RowKind::Add,
                        count == i - i0,
                        run_start == new_line_at(anchor, rows@, i0 as int),
                        new_line == new_line_at(anchor, rows@, i as int),
                        old_line == old_line_at(anchor, rows@, i as int),
                        new_line == run_start + count,
                        old_line_at(anchor, rows@, e) <= u32::MAX,
                        new_line_at(anchor, rows@, e) <= u32::MAX,
                        base == encode_prefix(anchor, rows@, start as int, i0 as int),
                        i > i0 ==> encode_prefix(anchor, rows@, start as int, i as int) == base.push(
                            HunkHeader {
                                old_start: 0,
                                old_lines: 0,
                                new_start: run_start,
                                new_lines: count,
                            },
                        ),
                    decreases end - i,
                {
                    proof {
                        lemma_counts_step(rows@, i as int);
                        lemma_counts_monotone(rows@, i + 1, e);
                    }
                    count += 1;
                    new_line += 1;
                    i += 1;
                }
                out.push(HunkHeader { old_start: 0, old_lines: 0, new_start: run_start, new_lines: count });
            },
            RowKind::Remove => {
                let run_start = old_line;
                let i0 = i;
                let mut count: u32 = 0;
                let ghost base = out@;
                while i < end && rows[i] == RowKind::Remove
                    invariant
                        end <= rows.len(),
                        start <= i0 <= i <= end,
                        e == max_int(start as int, end as int),
                        rows@[i0 as int] == RowKind::Remove,
                        i0 > start ==> rows@[i0 - 1] != RowKind::Remove,
                        forall|t: int| i0 <= t < i ==> rows@[t] == RowKind::Remove,
                        count == i - i0,
                        run_start == old_line_at(anchor, rows@, i0 as int),
                        new_line == new_line_at(anchor, rows@, i as int),
                        old_line == old_line_at(anchor, rows@, i as int),
                        old_line == run_start + count,
                        old_line_at(anchor, rows@, e) <= u32::MAX,
                        new_line_at(anchor, rows@, e) <= u32::MAX,
                        base == encode_prefix(anchor, rows@, start as int, i0 as int),
                        i > i0 ==> encode_prefix(anchor, rows@, start as int, i as int) == base.push(
                            HunkHeader {
                                old_start: run_start,
                                old_lines: count,
                                new_start: 0,
                                new_lines: 0,
                            },
                        ),
                    decreases end - i,
                {
                    proof {
                        lemma_counts_step(rows@, i as int);
                        lemma_counts_monotone(rows@, i + 1, e);
                    }
                    count += 1;
                    old_line += 1;
                    i += 1;
                }
                out.push(HunkHeader { old_start: run_start, old_lines: count, new_start: 0, new_lines: 0 });
            },
            RowKind::Context => {
                proof {
                    lemma_counts_step(rows@, i as int);
                    lemma_counts_monotone(rows@, i + 1, e);
                }
                old_line += 1;
                new_line += 1;
                i += 1;
            },
        }
    }
    out
}

/// A run of added rows counts only on the new side, one per row.
proof fn lemma_counts_all_add(s: Seq<RowKind>)
    requires
        forall|j: int| 0 <= j < s.len() ==> s[j] == RowKind::Add,
    ensures
        count_new(s) == s.len(),
        count_old(s) == 0,
    decreases s.len(),
{
    if s.len() > 0 {
        lemma_counts_all_add(s.drop_last());
    }
}

/// A run of removed rows counts only on the old side, one per row.
proof fn lemma_counts_all_remove(s: Seq<RowKind>)
    requires
        forall|j: int| 0 <= j < s.len() ==> s[j] == RowKind::Remove,
    ensures
        count_old(s) == s.len(),
        count_new(s) == 0,
    decreases s.len(),
{
    if s.len() > 0 {
        lemma_counts_all_remove(s.drop_last());
    }
}

/// Rows `[s, k)` that are all additions encode as one pure-add header.
proof fn lemma_encode_add_run(anchor: HunkHeader, rows: Seq<RowKind>, s: int, k: int)
    requires
        0 <= s < k <= rows.len(),
        forall|j: int| s <= j < k ==> rows[j] == RowKind::Add,
        new_line_at(anchor, rows, s) <= u32::MAX,
        k - s <= u32::MAX,
    ensures
        encode_prefix(anchor, rows, s, k) == seq![
            HunkHeader {
                old_start: 0,
                old_lines: 0,
                new_start: new_line_at(anchor, rows, s) as u32,
                new_lines: (k - s) as u32,
            },
        ],
    decreases k - s,
{
    let prev = encode_prefix(anchor, rows, s, k - 1);
    if k - 1 > s {
        lemma_encode_add_run(anchor, rows, s, k - 1);
        let hp = HunkHeader { old_start: 0, old_lines: 0, new_start: new_line_at(anchor, rows, s) as u32, new_lines: (k - 1 - s) as u32 };
        assert(prev == seq![hp]);
        assert(prev.last() == hp);
        let hn = HunkHeader { old_start: 0, old_lines: 0, new_start: new_line_at(anchor, rows, s) as u32, new_lines: (k - s) as u32 };
        assert(prev.update(0, hn) =~= seq![hn]);
    } else {
        assert(prev =~= Seq::<HunkHeader>::empty());
    }
}

/// Rows `[s, k)` that are all removals encode as one pure-remove header.
proof fn lemma_encode_remove_run(anchor: HunkHeader, rows: Seq<RowKind>, s: int, k: int)
    requires
        0 <= s < k <= rows.len(),
        forall|j: int| s <= j < k ==> rows[j] == RowKind::Remove,
        old_line_at(anchor, rows, s) <= u32::MAX,
        k - s <= u32::MAX,
    ensures
        encode_prefix(anchor, rows, s, k) == seq![
            HunkHeader {
                old_start: old_line_at(anchor, rows, s) as u32,
                old_lines: (k - s) as u32,
                new_start: 0,
                new_lines: 0,
            },
        ],
    decreases k - s,
{
    let prev = encode_prefix(anchor, rows, s, k - 1);
    if k - 1 > s {
        lemma_encode_remove_run(anchor, rows, s, k - 1);
        let hp = HunkHeader { old_start: old_line_at(anchor, rows, s) as u32, old_lines: (k - 1 - s) as u32, new_start: 0, new_lines: 0 };
        assert(prev == seq![hp]);
        assert(prev.last() == hp);
        let hn = HunkHeader { old_start: old_line_at(anchor, rows, s) as u32, old_lines: (k - s) as u32, new_start: 0, new_lines: 0 };
        assert(prev.update(0, hn) =~= seq![hn]);
    } else {
        assert(prev =~= Seq::<HunkHeader>::empty());
    }
}

/// A sub-range made only of added rows encodes as the single header
/// `(-0,0 +l,n)` whose new side is that of its synthesized header; one made
/// only of removed rows encodes as `(-l,n +0,0)` with the synthesized old
/// side.
pub proof fn lemma_encode_pure_run(anchor: HunkHeader, range: RowRange, rows: Seq<RowKind>)
    requires
        range.start < range.end <= rows.len(),
        rows.len() <= u32::MAX,
        old_line_at(anchor, rows, range.start as int) <= u32::MAX,
        new_line_at(anchor, rows, range.start as int) <= u32::MAX,
    ensures
        (forall|j: int| range.start <= j < range.end ==> rows[j] == RowKind::Add) ==> spec_encode(
            anchor,
            range,
            rows,
        ) == seq![
            HunkHeader {
                old_start: 0,
                old_lines: 0,
                new_start: spec_synthesize(anchor, rows, range).new_start,
                new_lines: spec_synthesize(anchor, rows, range).new_lines,
            },
        ],
        (forall|j: int| range.start <= j < range.end ==> rows[j] == RowKind::Remove) ==> spec_encode(
            anchor,
            range,
            rows,
        ) == seq![
            HunkHeader {
                old_start: spec_synthesize(anchor, rows, range).old_start,
                old_lines: spec_synthesize(anchor, rows, range).old_lines,
                new_start: 0,
                new_lines: 0,
            },
        ],
{
    let s = range.start as int;
    let e = range.end as int;
    assert(clamp_start(range, rows) == s);
    assert(clamp_end(range, rows) == e);
    let sub = rows.subrange(s, e);
    if forall|j: int| range.start <= j < range.end ==> rows[j] == RowKind::Add {
        lemma_encode_add_run(anchor, rows, s, e);
        lemma_counts_all_add(sub);
    }
    if forall|j: int| range.start <= j < range.end ==> rows[j] == RowKind::Remove {
        lemma_encode_remove_run(anchor, rows, s, e);
        lemma_counts_all_remove(sub);
    }
}

} // verus!
