//! The requests that split a hunk or commit a sub-range of one: the
//! override a split stores, and the commit-engine form of a sub-range.
use crate::headers::{
    count_new, count_old, encode_ok, encode_sub_hunk_for_commit, lemma_counts_monotone,
    spec_encode,
};
use crate::hunks::HunkHeader;
use crate::model::{
    copy_pairs, pairs_view, HunkAssignmentTarget, OverrideView, SubHunkOriginLocation,
    SubHunkOverride,
};
use crate::partition::{
    is_merged_partition, materialize_residual_ranges, merge_user_ranges_into_partition,
    nonempty_sorted_by_start, spec_materialize_residuals,
};
use crate::overrides::lemma_row_kinds_len;
use crate::rows::{
    lemma_validate_stored_ok, parse_row_kinds, ranges_well_formed, row_kinds_of, spec_trim,
    spec_validate, trim_context, validate_ranges, RangeError, RowKind, RowRange,
};
use crate::text::{header_line, render_header_line};
use vstd::prelude::*;

verus! {

/// The first `n` requested ranges trimmed of leading and trailing context,
/// those with nothing but context left out.
pub open spec fn trimmed_upto(ranges: Seq<RowRange>, kinds: Seq<RowKind>, n: int) -> Seq<RowRange>
    decreases n,
{
    if n <= 0 {
        seq![]
    } else {
        let prev = trimmed_upto(ranges, kinds, n - 1);
        match spec_trim(ranges[n - 1], kinds) {
            Some(t) => prev.push(t),
            None => prev,
        }
    }
}

/// The requested ranges trimmed of context.
pub open spec fn trimmed(ranges: Seq<RowRange>, kinds: Seq<RowKind>) -> Seq<RowRange> {
    trimmed_upto(ranges, kinds, ranges.len() as int)
}

/// Trim each requested range of context, leaving out those with nothing
/// but context.
fn trim_all(ranges: &[RowRange], kinds: &[RowKind]) -> (r: Vec<RowRange>)
    ensures
        r@ == trimmed(ranges@, kinds@),
{
    let mut out: Vec<RowRange> = Vec::new();
    let mut i: usize = 0;
    while i < ranges.len()
        invariant
            0 <= i <= ranges@.len(),
            out@ == trimmed_upto(ranges@, kinds@, i as int),
        decreases ranges.len() - i,
    {
        match trim_context(ranges[i], kinds) {
            Some(t) => out.push(t),
            None => {},
        }
        i += 1;
    }
    out
}

/// Ranges that pass validation are non-empty and sorted by start.
proof fn lemma_valid_sorted(ranges: Seq<RowRange>, row_count: u32)
    requires
        spec_validate(ranges, row_count, false) is Ok,
    ensures
        ranges_well_formed(ranges, row_count as int),
        nonempty_sorted_by_start(ranges),
{
    lemma_validate_stored_ok(ranges, row_count);
    assert forall|i: int, j: int| 0 <= i < j < ranges.len() implies #[trigger] ranges[i].start
        <= #[trigger] ranges[j].start by {
        lemma_well_formed_ordered(ranges, row_count as int, i, j);
    }
}

/// In a well-formed list, an earlier range ends before a later one starts.
pub(crate) proof fn lemma_well_formed_ordered(ranges: Seq<RowRange>, row_count: int, i: int, j: int)
    requires
        ranges_well_formed(ranges, row_count),
        0 <= i < j < ranges.len(),
    ensures
        ranges[i].end <= ranges[j].start,
    decreases j - i,
{
    assert(ranges[j - 1].end <= ranges[j].start);
    if i < j - 1 {
        lemma_well_formed_ordered(ranges, row_count, i, j - 1);
        assert(ranges[j - 1].start < ranges[j - 1].end);
    }
}

/// A split request that validates stores a valid partition: the trimmed
/// request with its residuals materialized passes the stored-override
/// validation, so the split carves the anchor into sub-hunks.
pub proof fn lemma_split_partition_valid(requested: Seq<RowRange>, kinds: Seq<RowKind>)
    requires
        kinds.len() <= u32::MAX,
        spec_validate(trimmed(requested, kinds), kinds.len() as u32, false) is Ok,
    ensures
        spec_validate(
            spec_materialize_residuals(trimmed(requested, kinds), kinds),
            kinds.len() as u32,
            true,
        ) is Ok,
{
    let t = trimmed(requested, kinds);
    lemma_valid_sorted(t, kinds.len() as u32);
    crate::partition::lemma_residuals_partition(t, kinds);
    lemma_validate_stored_ok(spec_materialize_residuals(t, kinds), kinds.len() as u32);
}

/// The override that a split of the hunk `anchor` of `path` with body
/// `hunk_diff` stores at `location`: its rows are the body's rows, its
/// cached diff is the `@@` line of the anchor followed by the body, and its
/// ranges are the trimmed request refining an existing split of the same
/// hunk (whose per-range targets it keeps), or, when there is none, the
/// trimmed request with its residuals materialized.
pub open spec fn split_override(
    location: crate::model::LocationView,
    path: Seq<u8>,
    anchor: HunkHeader,
    hunk_diff: Seq<u8>,
    requested: Seq<RowRange>,
    existing: Option<OverrideView>,
    merged: Seq<RowRange>,
) -> OverrideView {
    let kinds = row_kinds_of(hunk_diff);
    OverrideView {
        origin: location,
        path,
        anchor,
        ranges: match existing {
            Some(_) => merged,
            None => spec_materialize_residuals(trimmed(requested, kinds), kinds),
        },
        assignments: match existing {
            Some(e) => e.assignments,
            None => seq![],
        },
        rows: kinds,
        anchor_diff: header_line(anchor) + hunk_diff,
    }
}

/// Build the override that splits the hunk `anchor` of `path`, whose diff
/// body is `hunk_diff`, by the requested `ranges`, stored at `location`.
///
/// The ranges are trimmed of context and must then pass
/// [`validate_ranges`]; otherwise the validation error is returned. When
/// `existing` is the override already stored for this hunk, the new ranges
/// refine its partition and its per-range targets are kept, so that an
/// already split hunk can be split further.
pub fn build_split_override(
    location: SubHunkOriginLocation,
    path: Vec<u8>,
    anchor: HunkHeader,
    hunk_diff: &[u8],
    ranges: &[RowRange],
    existing: Option<&SubHunkOverride>,
) -> (r: Result<SubHunkOverride, RangeError>)
    requires
        row_kinds_of(hunk_diff@).len() <= u32::MAX,
    ensures
        r matches Err(e) ==> spec_validate(
            trimmed(ranges@, row_kinds_of(hunk_diff@)),
            row_kinds_of(hunk_diff@).len() as u32,
            false,
        ) == Err::<(), RangeError>(e),
        r is Ok <==> spec_validate(
            trimmed(ranges@, row_kinds_of(hunk_diff@)),
            row_kinds_of(hunk_diff@).len() as u32,
            false,
        ) is Ok,
        r matches Ok(o) ==> o@ == split_override(
            location@,
            path@,
            anchor,
            hunk_diff@,
            ranges@,
            match existing {
                Some(e) => Some(e@),
                None => None,
            },
            o@.ranges,
        ),
        r matches Ok(o) ==> (existing matches Some(e) ==> is_merged_partition(
            e@.ranges,
            trimmed(ranges@, row_kinds_of(hunk_diff@)),
            o@.ranges,
        )),
{
    let kinds = parse_row_kinds(hunk_diff);
    proof {
        lemma_row_kinds_len(hunk_diff@);
    }
    let row_count = kinds.len() as u32;
    let trimmed_ranges = trim_all(ranges, kinds.as_slice());
    match validate_ranges(trimmed_ranges.as_slice(), row_count) {
        Err(e) => {
            return Err(e);
        },
        Ok(()) => {},
    }
    proof {
        lemma_valid_sorted(trimmed_ranges@, row_count);
    }
    let mut anchor_diff = render_header_line(&anchor);
    crate::body::append_bytes(&mut anchor_diff, hunk_diff);
    let (stored_ranges, assignments) = match existing {
        Some(ov) => (
            merge_user_ranges_into_partition(ov.ranges.as_slice(), trimmed_ranges.as_slice()),
            copy_pairs(&ov.assignments),
        ),
        None => {
            let empty: Vec<(RowRange, HunkAssignmentTarget)> = Vec::new();
            assert(pairs_view(empty@) =~= seq![]);
            (materialize_residual_ranges(trimmed_ranges.as_slice(), kinds.as_slice()), empty)
        },
    };
    Ok(
        SubHunkOverride {
            origin: location,
            path,
            anchor,
            ranges: stored_ranges,
            assignments,
            rows: kinds,
            anchor_diff,
        },
    )
}

/// The index of the first hunk of a file whose header is `anchor`, if any:
/// how a split request finds the natural hunk it names.
pub fn find_hunk_by_header(headers: &[HunkHeader], anchor: HunkHeader) -> (r: Option<usize>)
    ensures
        r matches Some(i) ==> i < headers@.len() && headers@[i as int] == anchor && forall|j: int|
            0 <= j < i ==> headers@[j] != anchor,
        r is None ==> forall|j: int| 0 <= j < headers@.len() ==> headers@[j] != anchor,
{
    let mut i: usize = 0;
    while i < headers.len()
        invariant
            0 <= i <= headers@.len(),
            forall|j: int| 0 <= j < i ==> headers@[j] != anchor,
        decreases headers.len() - i,
    {
        if headers[i] == anchor {
            return Some(i);
        }
        i += 1;
    }
    None
}

/// A path's changes to take into a commit: the hunk headers selected in
/// it, in the null-side encoding the commit engine takes.
pub struct DiffSpec {
    /// The path before a rename, if the change renamed it.
    pub previous_path: Option<Vec<u8>>,
    /// The path.
    pub path: Vec<u8>,
    /// The selected hunks.
    pub hunk_headers: Vec<HunkHeader>,
}

/// Why a committed sub-range cannot be encoded.
#[derive(Debug, Clone)]
pub enum SubRangeError {
    /// Nothing but context (or nothing at all) is left after trimming.
    ContextOnly,
    /// The trimmed range does not validate against the anchor.
    Invalid(RangeError),
    /// The range encodes to no hunk header.
    NoHeaders,
}

/// The header's line numbers, over all rows of the body, fit in `u32`.
pub open spec fn lines_fit(anchor: HunkHeader, kinds: Seq<RowKind>) -> bool {
    &&& anchor.old_start + count_old(kinds) <= u32::MAX
    &&& anchor.new_start + count_new(kinds) <= u32::MAX
}

/// The headers of a committed sub-range: the range trimmed of context
/// (an error when only context is left), validated as a single range, and
/// encoded for the commit engine (an error when that gives no header).
pub open spec fn spec_sub_range_headers(anchor: HunkHeader, kinds: Seq<RowKind>, range: RowRange) -> Result<
    Seq<HunkHeader>,
    SubRangeError,
> {
    match spec_trim(range, kinds) {
        None => Err(SubRangeError::ContextOnly),
        Some(t) => match spec_validate(seq![t], kinds.len() as u32, false) {
            Err(e) => Err(SubRangeError::Invalid(e)),
            Ok(_) => if spec_encode(anchor, t, kinds).len() == 0 {
                Err(SubRangeError::NoHeaders)
            } else {
                Ok(spec_encode(anchor, t, kinds))
            },
        },
    }
}

/// Resolve a sub-range of the hunk `anchor` (body `hunk_diff`) of `path` to
/// a [`DiffSpec`] whose headers are the null-side per-row encoding the commit
/// engine consumes.
///
/// The range is trimmed of leading and trailing context and must then be
/// non-empty and pass [`validate_ranges`]; it never covers the entire
/// anchor.
pub fn encode_sub_hunk_diff_spec(
    previous_path: Option<Vec<u8>>,
    path: Vec<u8>,
    anchor: HunkHeader,
    hunk_diff: &[u8],
    range: RowRange,
) -> (r: Result<DiffSpec, SubRangeError>)
    requires
        row_kinds_of(hunk_diff@).len() <= u32::MAX,
        lines_fit(anchor, row_kinds_of(hunk_diff@)),
    ensures
        r is Ok <==> spec_sub_range_headers(anchor, row_kinds_of(hunk_diff@), range) is Ok,
        r matches Err(e) ==> spec_sub_range_headers(anchor, row_kinds_of(hunk_diff@), range)
            == Err::<Seq<HunkHeader>, SubRangeError>(e),
        r matches Ok(d) ==> spec_sub_range_headers(anchor, row_kinds_of(hunk_diff@), range) == Ok::<
            Seq<HunkHeader>,
            SubRangeError,
        >(d.hunk_headers@) && d.path@ == path@ && d.previous_path == previous_path,
{
    let kinds = parse_row_kinds(hunk_diff);
    proof {
        lemma_row_kinds_len(hunk_diff@);
    }
    let trimmed = match trim_context(range, kinds.as_slice()) {
        Some(t) => t,
        None => {
            return Err(SubRangeError::ContextOnly);
        },
    };
    let one = vec![trimmed];
    assert(one@ == seq![trimmed]);
    match validate_ranges(one.as_slice(), kinds.len() as u32) {
        Err(e) => {
            return Err(SubRangeError::Invalid(e));
        },
        Ok(()) => {},
    }
    proof {
        let top = crate::headers::max_int(
            crate::headers::clamp_start(trimmed, kinds@),
            crate::headers::clamp_end(trimmed, kinds@),
        );
        lemma_counts_monotone(kinds@, top, kinds@.len() as int);
        assert(kinds@.take(kinds@.len() as int) =~= kinds@);
        assert(encode_ok(anchor, trimmed, kinds@));
    }
    let headers = encode_sub_hunk_for_commit(anchor, trimmed, kinds.as_slice());
    if headers.len() == 0 {
        return Err(SubRangeError::NoHeaders);
    }
    Ok(DiffSpec { previous_path, path, hunk_headers: headers })
}

} // verus!
