//! Single-candidate migration of an override: the override's new-side line
//! span picks the one natural hunk it overlaps, and each of its ranges is
//! remapped onto that hunk's rows by content.
use crate::body::{row_contents, row_contents_of};
use crate::headers::{count_new, lemma_counts_monotone, lemma_counts_step};
use crate::hunks::HunkHeader;
use crate::lines::bytes_views;
use crate::migrate::{dedup_ranges, insert_pair, pairs_insert};
use crate::model::{
    bytes_eq, copy_bytes, lookup_target, target_for, AssignmentView, HunkAssignment,
    OverrideView, SubHunkOverride, TargetView,
};
use crate::overrides::{assignment_fits, lemma_row_kinds_len, views_of};
use crate::rows::{
    parse_row_kinds, row_kinds_of, spec_trim, spec_validate, trim_context, validate_ranges_stored,
    RowKind, RowRange,
};
use crate::sorting::{isort, lemma_ins_pos_step, lemma_ins_pos_stop, ins_pos};
use vstd::prelude::*;

verus! {

/// Row `idx` lies in one of `ranges`.
pub open spec fn covered(ranges: Seq<RowRange>, idx: int) -> bool {
    exists|k: int| 0 <= k < ranges.len() && (#[trigger] ranges[k]).start <= idx < ranges[k].end
}

/// The new-side line of row `idx` of an anchor body.
pub open spec fn new_line_of(anchor: HunkHeader, rows: Seq<RowKind>, idx: int) -> int {
    anchor.new_start + count_new(rows.take(idx))
}

/// The new-side lines `[lo, hi)` spanned by the covered rows among the first
/// `n` that exist on the new side, if there are any.
pub open spec fn span_upto(anchor: HunkHeader, rows: Seq<RowKind>, ranges: Seq<RowRange>, n: int) -> Option<
    (int, int),
>
    decreases n,
{
    if n <= 0 {
        None
    } else {
        let prev = span_upto(anchor, rows, ranges, n - 1);
        let idx = n - 1;
        if covered(ranges, idx) && rows[idx] != RowKind::Remove {
            let nl = new_line_of(anchor, rows, idx);
            match prev {
                None => Some((nl, nl + 1)),
                Some((lo, hi)) => Some(
                    (if nl < lo {
                        nl
                    } else {
                        lo
                    }, if nl + 1 > hi {
                        nl + 1
                    } else {
                        hi
                    }),
                ),
            }
        } else {
            prev
        }
    }
}

/// The new-side line span `[lo, hi)` covered by the ranges of an override:
/// for an override without new-side rows, the empty span at the anchor's
/// new start.
pub open spec fn spec_new_side_span(anchor: HunkHeader, rows: Seq<RowKind>, ranges: Seq<RowRange>) -> (
    int,
    int,
) {
    match span_upto(anchor, rows, ranges, rows.len() as int) {
        Some(s) => s,
        None => (anchor.new_start as int, anchor.new_start as int),
    }
}

/// Whether row `idx` lies in one of `ranges`.
fn covers(ranges: &[RowRange], idx: usize) -> (r: bool)
    ensures
        r == covered(ranges@, idx as int),
{
    let mut k: usize = 0;
    while k < ranges.len()
        invariant
            0 <= k <= ranges@.len(),
            forall|j: int| 0 <= j < k ==> !((#[trigger] ranges@[j]).start <= idx < ranges@[j].end),
        decreases ranges.len() - k,
    {
        if (ranges[k].start as usize) <= idx && idx < (ranges[k].end as usize) {
            return true;
        }
        k += 1;
    }
    false
}

/// Compute the new-side line span covered by all `ranges` in an anchor, as
/// the half-open `[lo, hi)` over new-side file lines; an override with no
/// new-side rows (pure removal) pins to the anchor's new start.
pub fn override_new_side_span(anchor: &HunkHeader, rows: &[RowKind], ranges: &[RowRange]) -> (r: (
    u32,
    u32,
))
    requires
        anchor.new_start + count_new(rows@) <= u32::MAX,
    ensures
        (r.0 as int, r.1 as int) == spec_new_side_span(*anchor, rows@, ranges@),
{
    let mut lo: u32 = u32::MAX;
    let mut hi: u32 = 0;
    let mut new_line: u32 = anchor.new_start;
    let mut idx: usize = 0;
    assert(rows@.take(0) =~= Seq::<RowKind>::empty());
    while idx < rows.len()
        invariant
            0 <= idx <= rows@.len(),
            anchor.new_start + count_new(rows@) <= u32::MAX,
            new_line == new_line_of(*anchor, rows@, idx as int),
            match span_upto(*anchor, rows@, ranges@, idx as int) {
                None => lo == u32::MAX && hi == 0,
                Some((a, b)) => lo == a && hi == b && a < u32::MAX,
            },
        decreases rows.len() - idx,
    {
        proof {
            lemma_counts_step(rows@, idx as int);
            lemma_counts_monotone(rows@, idx + 1, rows@.len() as int);
            assert(rows@.take(rows@.len() as int) =~= rows@);
        }
        let in_range = covers(ranges, idx);
        let advances_new = match rows[idx] {
            RowKind::Add | RowKind::Context => true,
            RowKind::Remove => false,
        };
        if in_range && advances_new {
            if new_line < lo {
                lo = new_line;
            }
            if new_line + 1 > hi {
                hi = new_line + 1;
            }
        }
        if advances_new {
            new_line += 1;
        }
        idx += 1;
    }
    if lo == u32::MAX {
        (anchor.new_start, anchor.new_start)
    } else {
        (lo, hi)
    }
}

/// The first row at or after `j` with kind `kind` and content `content`.
pub open spec fn first_match(
    new_rows: Seq<RowKind>,
    new_contents: Seq<Seq<u8>>,
    kind: RowKind,
    content: Seq<u8>,
    j: int,
) -> Option<int>
    decreases new_rows.len() - j,
{
    if j < 0 || j >= new_rows.len() {
        None
    } else if new_rows[j] == kind && new_contents[j] == content {
        Some(j)
    } else {
        first_match(new_rows, new_contents, kind, content, j + 1)
    }
}

/// The least and greatest new rows matched by the non-context old rows in
/// `[start, i)`, if any matched.
pub open spec fn remap_upto(
    old_rows: Seq<RowKind>,
    old_contents: Seq<Seq<u8>>,
    new_rows: Seq<RowKind>,
    new_contents: Seq<Seq<u8>>,
    start: int,
    i: int,
) -> Option<(int, int)>
    decreases i - start,
{
    if i <= start {
        None
    } else {
        let prev = remap_upto(old_rows, old_contents, new_rows, new_contents, start, i - 1);
        if old_rows[i - 1] == RowKind::Context {
            prev
        } else {
            match first_match(new_rows, new_contents, old_rows[i - 1], old_contents[i - 1], 0) {
                None => prev,
                Some(j) => match prev {
                    None => Some((j, j)),
                    Some((a, b)) => Some(
                        (if j < a {
                            j
                        } else {
                            a
                        }, if j > b {
                            j
                        } else {
                            b
                        }),
                    ),
                },
            }
        }
    }
}

/// The smallest range of new rows holding every non-context old row of
/// `old_range` that is found among the new rows by kind and content (the
/// first such new row for each), trimmed of context; none when no such row
/// is found.
pub open spec fn spec_remap_range(
    old_range: RowRange,
    old_rows: Seq<RowKind>,
    old_contents: Seq<Seq<u8>>,
    new_rows: Seq<RowKind>,
    new_contents: Seq<Seq<u8>>,
) -> Option<RowRange> {
    let s = crate::headers::min_int(old_range.start as int, old_rows.len() as int);
    let e = crate::headers::min_int(old_range.end as int, old_rows.len() as int);
    match remap_upto(old_rows, old_contents, new_rows, new_contents, s, e) {
        None => None,
        Some((a, b)) => spec_trim(RowRange { start: a as u32, end: (b + 1) as u32 }, new_rows),
    }
}

/// The first new row matching `kind` and `content`.
fn find_match(
    new_rows: &[RowKind],
    new_contents: &Vec<Vec<u8>>,
    kind: RowKind,
    content: &[u8],
) -> (r: Option<usize>)
    requires
        new_contents@.len() >= new_rows@.len(),
    ensures
        r matches Some(j) ==> j < new_rows@.len() && first_match(
            new_rows@,
            bytes_views(new_contents@),
            kind,
            content@,
            0,
        ) == Some(j as int),
        r is None ==> first_match(new_rows@, bytes_views(new_contents@), kind, content@, 0) is None,
{
    let ghost nc = bytes_views(new_contents@);
    let mut j: usize = 0;
    while j < new_rows.len()
        invariant
            0 <= j <= new_rows@.len(),
            new_contents@.len() >= new_rows@.len(),
            nc == bytes_views(new_contents@),
            first_match(new_rows@, nc, kind, content@, 0) == first_match(
                new_rows@,
                nc,
                kind,
                content@,
                j as int,
            ),
        decreases new_rows.len() - j,
    {
        assert(nc[j as int] == new_contents@[j as int]@);
        if new_rows[j] == kind && bytes_eq(new_contents[j].as_slice(), content) {
            return Some(j);
        }
        j += 1;
    }
    None
}

/// Find the smallest contiguous row range among the new rows that contains
/// every non-context row of `old_range`, matched by kind and content.
/// Returns `None` if no non-context row of the old range survives.
pub fn remap_range(
    old_range: RowRange,
    old_rows: &[RowKind],
    old_contents: &Vec<Vec<u8>>,
    new_rows: &[RowKind],
    new_contents: &Vec<Vec<u8>>,
) -> (r: Option<RowRange>)
    requires
        old_contents@.len() >= old_rows@.len(),
        new_contents@.len() >= new_rows@.len(),
        new_rows@.len() <= u32::MAX,
    ensures
        r == spec_remap_range(
            old_range,
            old_rows@,
            bytes_views(old_contents@),
            new_rows@,
            bytes_views(new_contents@),
        ),
{
    let ghost oc = bytes_views(old_contents@);
    let ghost nc = bytes_views(new_contents@);
    let start = if (old_range.start as usize) < old_rows.len() {
        old_range.start as usize
    } else {
        old_rows.len()
    };
    let end = if (old_range.end as usize) < old_rows.len() {
        old_range.end as usize
    } else {
        old_rows.len()
    };
    let mut min_idx: Option<usize> = None;
    let mut max_idx: Option<usize> = None;
    let mut i: usize = start;
    while i < end
        invariant
            start <= i <= end || (i == start && end < start),
            end <= old_rows@.len(),
            old_contents@.len() >= old_rows@.len(),
            new_contents@.len() >= new_rows@.len(),
            oc == bytes_views(old_contents@),
            nc == bytes_views(new_contents@),
            new_rows@.len() <= u32::MAX,
            remap_upto(old_rows@, oc, new_rows@, nc, start as int, i as int) is None ==> (min_idx is None
                && max_idx is None),
            remap_upto(old_rows@, oc, new_rows@, nc, start as int, i as int) matches Some(p) ==> (
            min_idx matches Some(m) && max_idx matches Some(x) && m as int == p.0 && x as int
                == p.1 && m <= x < new_rows@.len()),
        decreases end - i,
    {
        if old_rows[i] != RowKind::Context {
            assert(oc[i as int] == old_contents@[i as int]@);
            match find_match(new_rows, new_contents, old_rows[i], old_contents[i].as_slice()) {
                Some(j) => {
                    min_idx = match min_idx {
                        Some(m) => Some(if j < m { j } else { m }),
                        None => Some(j),
                    };
                    max_idx = match max_idx {
                        Some(m) => Some(if j > m { j } else { m }),
                        None => Some(j),
                    };
                },
                None => {},
            }
        }
        i += 1;
    }
    let (lo, hi) = match (min_idx, max_idx) {
        (Some(a), Some(b)) => (a as u32, b as u32 + 1),
        _ => {
            return None;
        },
    };
    trim_context(RowRange { start: lo, end: hi }, new_rows)
}

/// Assignment `a` is a natural hunk of `path` whose new side overlaps the
/// lines `[lo, hi)`; an empty span matches a hunk whose new side reaches
/// its position, ends included.
pub open spec fn overlaps_span(a: AssignmentView, path: Seq<u8>, lo: int, hi: int) -> bool {
    &&& a.path_bytes == path
    &&& a.sub_hunk_origin is None
    &&& a.hunk_header matches Some(h) && if lo == hi {
        h.new_start <= lo && lo <= h.new_start + h.new_lines
    } else {
        h.new_start < hi && lo < h.new_start + h.new_lines
    }
}

/// The indices among the first `n` assignments that overlap the span.
pub open spec fn span_candidates(assigns: Seq<AssignmentView>, path: Seq<u8>, lo: int, hi: int, n: int) -> Seq<
    int,
>
    decreases n,
{
    if n <= 0 {
        seq![]
    } else {
        let prev = span_candidates(assigns, path, lo, hi, n - 1);
        if overlaps_span(assigns[n - 1], path, lo, hi) {
            prev.push(n - 1)
        } else {
            prev
        }
    }
}

/// The first `n` ranges of `ov` remapped onto the new rows, dropping those
/// that do not survive, with the targets of the surviving ones moved to
/// their new ranges (later ones winning).
pub open spec fn remap_all(
    ov: OverrideView,
    new_rows: Seq<RowKind>,
    oc: Seq<Seq<u8>>,
    nc: Seq<Seq<u8>>,
    n: int,
) -> (Seq<RowRange>, Seq<(RowRange, TargetView)>)
    decreases n,
{
    if n <= 0 {
        (seq![], seq![])
    } else {
        let prev = remap_all(ov, new_rows, oc, nc, n - 1);
        match spec_remap_range(ov.ranges[n - 1], ov.rows, oc, new_rows, nc) {
            None => prev,
            Some(nr) => (
                prev.0.push(nr),
                match target_for(ov.assignments, ov.ranges[n - 1]) {
                    Some(t) => pairs_insert(prev.1, nr, t),
                    None => prev.1,
                },
            ),
        }
    }
}

/// The key ranges are sorted by: their start.
pub open spec fn start_key() -> spec_fn(RowRange) -> int {
    |r: RowRange| r.start as int
}

/// Where override `ov` migrates when exactly one natural hunk on its path
/// overlaps its new-side span: onto that hunk, with each range remapped by
/// content, the survivors sorted by start with repeats dropped, provided
/// they form a well-formed partition there. Anything else gives none.
pub open spec fn spec_migrate_single(ov: OverrideView, assigns: Seq<AssignmentView>) -> Option<
    (int, OverrideView),
> {
    let span = spec_new_side_span(ov.anchor, ov.rows, ov.ranges);
    let cands = span_candidates(assigns, ov.path, span.0, span.1, assigns.len() as int);
    if cands.len() != 1 {
        None
    } else {
        let i = cands[0];
        match (assigns[i].hunk_header, assigns[i].diff) {
            (Some(h), Some(d)) => {
                let new_rows = row_kinds_of(d);
                let oc = row_contents_of(ov.anchor_diff);
                let nc = row_contents_of(d);
                if oc.len() != ov.rows.len() || nc.len() != new_rows.len() {
                    None
                } else {
                    let remapped = remap_all(ov, new_rows, oc, nc, ov.ranges.len() as int);
                    if remapped.0.len() == 0 {
                        None
                    } else {
                        let ranges = dedup_ranges(isort(remapped.0, start_key()));
                        if spec_validate(ranges, new_rows.len() as u32, true) is Ok {
                            Some(
                                (
                                    i,
                                    OverrideView {
                                        origin: ov.origin,
                                        path: ov.path,
                                        anchor: h,
                                        ranges,
                                        assignments: remapped.1,
                                        rows: new_rows,
                                        anchor_diff: d,
                                    },
                                ),
                            )
                        } else {
                            None
                        }
                    }
                }
            },
            _ => None,
        }
    }
}

/// Stably sort ranges by their start.
fn sort_ranges_by_start(v: &Vec<RowRange>) -> (r: Vec<RowRange>)
    ensures
        r@ == isort(v@, start_key()),
{
    let mut sorted: Vec<RowRange> = Vec::new();
    let mut i: usize = 0;
    while i < v.len()
        invariant
            0 <= i <= v@.len(),
            sorted@ == isort(v@.take(i as int), start_key()),
        decreases v.len() - i,
    {
        let x = v[i];
        let ghost sv = sorted@;
        let mut p: usize = sorted.len();
        assert(sv.take(sv.len() as int) =~= sv);
        while p > 0 && sorted[p - 1].start > x.start
            invariant
                0 <= p <= sorted@.len(),
                sv == sorted@,
                ins_pos(sv, x, start_key()) == ins_pos(sv.take(p as int), x, start_key()),
            decreases p,
        {
            proof {
                lemma_ins_pos_step(sv, x, start_key(), p as int);
            }
            p -= 1;
        }
        proof {
            lemma_ins_pos_stop(sv, x, start_key(), p as int);
        }
        sorted.insert(p, x);
        assert(v@.take(i + 1).drop_last() =~= v@.take(i as int));
        assert(v@.take(i + 1).last() == x);
        i += 1;
    }
    assert(v@.take(v@.len() as int) =~= v@);
    sorted
}

/// Drop consecutive repeats.
fn dedup_range_vec(v: &Vec<RowRange>) -> (r: Vec<RowRange>)
    ensures
        r@ == dedup_ranges(v@),
{
    let mut out: Vec<RowRange> = Vec::new();
    let mut i: usize = 0;
    while i < v.len()
        invariant
            0 <= i <= v@.len(),
            out@ == dedup_ranges(v@.take(i as int)),
        decreases v.len() - i,
    {
        let r = v[i];
        assert(v@.take(i + 1).drop_last() =~= v@.take(i as int));
        assert(v@.take(i + 1).last() == r);
        if out.len() > 0 && out[out.len() - 1] == r {
        } else {
            out.push(r);
        }
        i += 1;
    }
    assert(v@.take(v@.len() as int) =~= v@);
    out
}

/// Single-candidate migration, superseded by `migrate_override_multi`:
/// find the one natural hunk the override's new-side span overlaps and remap
/// each range onto it by content. Returns the hunk's assignment index and the migrated override,
/// or `None` when not exactly one hunk overlaps or nothing survives.
#[allow(dead_code)]
fn migrate_override(ov: &SubHunkOverride, assignments: &Vec<HunkAssignment>) -> (r: Option<
    (usize, SubHunkOverride),
>)
    requires
        ov.anchor.new_start + count_new(ov.rows@) <= u32::MAX,
        forall|k: int|
            0 <= k < assignments@.len() ==> ((#[trigger] assignments@[k]).hunk_header matches Some(
                h,
            ) ==> h.new_start + h.new_lines <= u32::MAX),
        forall|k: int| 0 <= k < assignments@.len() ==> assignment_fits(#[trigger] assignments@[k]@),
    ensures
        r matches Some(p) ==> spec_migrate_single(ov@, views_of(assignments@)) == Some(
            (p.0 as int, p.1@),
        ),
        r is None ==> spec_migrate_single(ov@, views_of(assignments@)) is None,
{
    let ghost av = views_of(assignments@);
    let ghost ovv = ov@;
    let (ov_lo, ov_hi) = override_new_side_span(&ov.anchor, ov.rows.as_slice(), ov.ranges.as_slice());
    let mut cands: Vec<usize> = Vec::new();
    let mut k: usize = 0;
    while k < assignments.len()
        invariant
            0 <= k <= assignments@.len(),
            av == views_of(assignments@),
            ovv == ov@,
            forall|x: int|
                0 <= x < assignments@.len() ==> ((#[trigger] assignments@[x]).hunk_header matches Some(
                    h,
                ) ==> h.new_start + h.new_lines <= u32::MAX),
            cands@.map_values(|c: usize| c as int) == span_candidates(
                av,
                ovv.path,
                ov_lo as int,
                ov_hi as int,
                k as int,
            ),
        decreases assignments.len() - k,
    {
        let a = &assignments[k];
        assert(av[k as int] == a@);
        let hit = match a.hunk_header {
            Some(h) => {
                let lo = h.new_start;
                let hi = h.new_start + h.new_lines;
                if ov_lo == ov_hi {
                    lo <= ov_lo && ov_lo <= hi
                } else {
                    lo < ov_hi && ov_lo < hi
                }
            },
            None => false,
        };
        let ghost before = cands@;
        if hit && a.sub_hunk_origin.is_none() && bytes_eq(a.path_bytes.as_slice(), ov.path.as_slice()) {
            cands.push(k);
            assert(overlaps_span(av[k as int], ovv.path, ov_lo as int, ov_hi as int));
            assert(cands@.map_values(|c: usize| c as int) =~= before.map_values(|c: usize| c as int).push(
                k as int,
            ));
        } else {
            assert(!overlaps_span(av[k as int], ovv.path, ov_lo as int, ov_hi as int));
        }
        k += 1;
    }
    if cands.len() != 1 {
        return None;
    }
    let i = cands[0];
    assert(cands@.map_values(|c: usize| c as int)[0] == i as int);
    proof {
        lemma_span_candidates_bound(av, ovv.path, ov_lo as int, ov_hi as int, av.len() as int);
    }
    let new_anchor_assignment = &assignments[i];
    assert(av[i as int] == new_anchor_assignment@);
    let new_anchor = match new_anchor_assignment.hunk_header {
        Some(h) => h,
        None => {
            return None;
        },
    };
    let new_diff = match &new_anchor_assignment.diff {
        Some(d) => d,
        None => {
            return None;
        },
    };
    let new_rows = parse_row_kinds(new_diff.as_slice());
    proof {
        lemma_row_kinds_len(new_diff@);
    }
    let old_contents = row_contents(ov.anchor_diff.as_slice());
    let new_contents = row_contents(new_diff.as_slice());
    if old_contents.len() != ov.rows.len() || new_contents.len() != new_rows.len() {
        return None;
    }
    let ghost oc = bytes_views(old_contents@);
    let ghost nc = bytes_views(new_contents@);
    let mut new_ranges: Vec<RowRange> = Vec::new();
    let mut new_assignments: Vec<(RowRange, crate::model::HunkAssignmentTarget)> = Vec::new();
    let mut j: usize = 0;
    while j < ov.ranges.len()
        invariant
            0 <= j <= ov.ranges@.len(),
            ovv == ov@,
            old_contents@.len() == ov.rows@.len(),
            new_contents@.len() == new_rows@.len(),
            new_rows@.len() <= u32::MAX,
            oc == bytes_views(old_contents@),
            nc == bytes_views(new_contents@),
            (new_ranges@, crate::model::pairs_view(new_assignments@)) == remap_all(
                ovv,
                new_rows@,
                oc,
                nc,
                j as int,
            ),
        decreases ov.ranges.len() - j,
    {
        let old_range = ov.ranges[j];
        match remap_range(old_range, ov.rows.as_slice(), &old_contents, new_rows.as_slice(), &new_contents) {
            None => {},
            Some(nr) => {
                match lookup_target(&ov.assignments, old_range) {
                    Some(t) => {
                        insert_pair(&mut new_assignments, nr, t);
                    },
                    None => {},
                }
                new_ranges.push(nr);
            },
        }
        j += 1;
    }
    if new_ranges.len() == 0 {
        return None;
    }
    let sorted = sort_ranges_by_start(&new_ranges);
    let deduped = dedup_range_vec(&sorted);
    if validate_ranges_stored(deduped.as_slice(), new_rows.len() as u32).is_err() {
        return None;
    }
    Some(
        (
            i,
            SubHunkOverride {
                origin: ov.origin.duplicate(),
                path: copy_bytes(&ov.path),
                anchor: new_anchor,
                ranges: deduped,
                assignments: new_assignments,
                rows: new_rows,
                anchor_diff: copy_bytes(new_diff),
            },
        ),
    )
}

/// The candidates are indices of assignments.
proof fn lemma_span_candidates_bound(assigns: Seq<AssignmentView>, path: Seq<u8>, lo: int, hi: int, n: int)
    requires
        0 <= n <= assigns.len(),
    ensures
        forall|x: int|
            0 <= x < span_candidates(assigns, path, lo, hi, n).len() ==> 0 <= #[trigger] span_candidates(
                assigns,
                path,
                lo,
                hi,
                n,
            )[x] < n,
    decreases n,
{
    if n > 0 {
        lemma_span_candidates_bound(assigns, path, lo, hi, n - 1);
        let prev = span_candidates(assigns, path, lo, hi, n - 1);
        let now = span_candidates(assigns, path, lo, hi, n);
        assert forall|x: int| 0 <= x < now.len() implies 0 <= #[trigger] now[x] < n by {
            if x < prev.len() {
                assert(now[x] == prev[x]);
            }
        }
    }
}

} // verus!
