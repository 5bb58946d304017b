//! Applying overrides to hunk assignments: carving an anchor into its
//! sub-hunks.
use crate::body::{lemma_sub_body_rows, spec_sub_diff_body, sub_diff_body};
use crate::external::{full_ref_name, is_valid_full_ref_name, new_v4_id};
use crate::headers::{
    count_new, count_old, lemma_counts_monotone, lemma_counts_split, spec_synthesize,
    synthesize_header,
};
use crate::hunks::HunkHeader;
use crate::lines::{lemma_split_lines_count, split_lines};
use crate::model::{
    copy_bytes, copy_opt_bytes, copy_string, copy_vec, lookup_target, target_for, AssignmentView,
    HunkAssignment, HunkAssignmentTarget, OverrideView, SubHunkOrigin, SubHunkOverride,
    SubOriginView, TargetView,
};
use crate::rows::{
    kinds_of_lines, parse_row_kinds, row_kinds_of, spec_validate, validate_ranges_stored, RowKind,
    RowRange,
};
use vstd::prelude::*;

verus! {

/// The views of a sequence of assignments.
pub open spec fn views_of(s: Seq<HunkAssignment>) -> Seq<AssignmentView> {
    s.map_values(|a: HunkAssignment| a@)
}

/// There are no more rows than lines.
pub proof fn lemma_kinds_of_lines_len(lines: Seq<Seq<u8>>)
    ensures
        kinds_of_lines(lines).len() <= lines.len(),
    decreases lines.len(),
{
    if lines.len() > 0 {
        lemma_kinds_of_lines_len(lines.drop_last());
    }
}

/// There are no more rows than bytes.
pub proof fn lemma_row_kinds_len(d: Seq<u8>)
    ensures
        row_kinds_of(d).len() <= d.len(),
{
    lemma_kinds_of_lines_len(split_lines(d));
    lemma_split_lines_count(d);
}

/// An assignment whose hunk can be carved into sub-hunks without overflow:
/// its diff is at most `u32::MAX` bytes long and the line numbers of all its
/// rows fit in `u32`.
pub open spec fn assignment_fits(a: AssignmentView) -> bool {
    match (a.hunk_header, a.diff) {
        (Some(h), Some(d)) => {
            &&& d.len() <= u32::MAX
            &&& h.old_start + count_old(row_kinds_of(d)) <= u32::MAX
            &&& h.new_start + count_new(row_kinds_of(d)) <= u32::MAX
        },
        _ => true,
    }
}

/// Whether assignment `a` can be carved into sub-hunks without overflow:
/// its diff is at most `u32::MAX` bytes long and the line numbers of all its
/// rows fit in `u32`.
pub fn fits(a: &HunkAssignment) -> (r: bool)
    ensures
        r == assignment_fits(a@),
{
    let (h, d) = match (&a.hunk_header, &a.diff) {
        (Some(h), Some(d)) => (h, d),
        _ => {
            return true;
        },
    };
    if d.len() > 0xffff_ffffusize {
        return false;
    }
    let kinds = parse_row_kinds(d.as_slice());
    proof {
        lemma_row_kinds_len(d@);
    }
    let mut old_count: u64 = 0;
    let mut new_count: u64 = 0;
    let mut j: usize = 0;
    while j < kinds.len()
        invariant
            0 <= j <= kinds@.len(),
            kinds@.len() <= u32::MAX,
            old_count == count_old(kinds@.take(j as int)),
            new_count == count_new(kinds@.take(j as int)),
            old_count <= j,
            new_count <= j,
        decreases kinds.len() - j,
    {
        proof {
            crate::headers::lemma_counts_step(kinds@, j as int);
            crate::headers::lemma_counts_bounded(kinds@.take(j + 1));
        }
        match kinds[j] {
            RowKind::Context => {
                old_count += 1;
                new_count += 1;
            },
            RowKind::Remove => old_count += 1,
            RowKind::Add => new_count += 1,
        }
        j += 1;
    }
    assert(kinds@.take(kinds@.len() as int) =~= kinds@);
    h.old_start as u64 + old_count <= 0xffff_ffffu64 && h.new_start as u64 + new_count
        <= 0xffff_ffffu64
}

/// The branch of a sub-hunk: a branch target that gix accepts as a full
/// reference name, a rejected branch target yields none, and otherwise the
/// anchor's branch is inherited.
pub open spec fn sub_hunk_branch(a: AssignmentView, t: Option<TargetView>) -> Option<Seq<u8>> {
    match t {
        Some(TargetView::Branch(b)) => if is_valid_full_ref_name(b) {
            Some(b)
        } else {
            None
        },
        _ => a.branch_ref_bytes,
    }
}

/// The sub-hunk of anchor assignment `a` (header `h`, diff `d`) for the rows
/// `r` of override `ov`.
pub open spec fn sub_hunk_view(
    a: AssignmentView,
    h: HunkHeader,
    d: Seq<u8>,
    ov: OverrideView,
    r: RowRange,
) -> AssignmentView {
    let kinds = row_kinds_of(d);
    AssignmentView {
        hunk_header: Some(spec_synthesize(h, kinds, r)),
        path: a.path,
        path_bytes: a.path_bytes,
        stack_id: None,
        branch_ref_bytes: sub_hunk_branch(a, target_for(ov.assignments, r)),
        line_nums_added: None,
        line_nums_removed: None,
        diff: Some(spec_sub_diff_body(d, r)),
        sub_hunk_origin: Some(SubOriginView { anchor: h, range: r, rows: kinds }),
    }
}

/// A sub-hunk carved from an anchor that fits fits too: its body is no
/// longer than the anchor's, and its rows end where the range ends.
pub proof fn lemma_sub_hunk_fits(a: AssignmentView, ov: OverrideView, r: RowRange)
    requires
        assignment_fits(a),
        a.hunk_header is Some,
        a.diff is Some,
        r.start <= r.end,
    ensures
        assignment_fits(sub_hunk_view(a, a.hunk_header->0, a.diff->0, ov, r)),
{
    let h = a.hunk_header->0;
    let d = a.diff->0;
    let kinds = row_kinds_of(d);
    let s = crate::headers::clamp_start(r, kinds);
    let e = crate::headers::clamp_end(r, kinds);
    lemma_sub_body_rows(d, r);
    lemma_counts_split(kinds, s, e);
    lemma_counts_monotone(kinds, e, kinds.len() as int);
    assert(kinds.take(kinds.len() as int) =~= kinds);
    lemma_counts_monotone(kinds, s, e);
}

/// Whether override `ov` carves anchor assignment `a` into sub-hunks: `a`
/// has a header and a diff and the ranges are a well-formed partition of its
/// rows.
pub open spec fn carves(a: AssignmentView, ov: OverrideView) -> bool {
    match (a.hunk_header, a.diff) {
        (Some(h), Some(d)) => spec_validate(ov.ranges, row_kinds_of(d).len() as u32, true) is Ok,
        _ => false,
    }
}

/// The sub-hunks that override `ov` carves out of anchor assignment `a`:
/// one per range when `ov` carves `a`; otherwise `a` unchanged.
pub open spec fn spec_materialize(a: AssignmentView, ov: OverrideView) -> Seq<AssignmentView> {
    match (a.hunk_header, a.diff) {
        (Some(h), Some(d)) => if spec_validate(ov.ranges, row_kinds_of(d).len() as u32, true) is Ok {
            ov.ranges.map_values(|r: RowRange| sub_hunk_view(a, h, d, ov, r))
        } else {
            seq![a]
        },
        _ => seq![a],
    }
}

/// Apply a single override to a single anchor assignment.
///
/// Returns the materialized sub-hunk assignments, each with a fresh id. If
/// the anchor lacks a header or a diff, or the override's ranges do not
/// partition its rows, the anchor is returned unchanged, id included.
pub fn materialize_override(anchor_assignment: &HunkAssignment, override_: &SubHunkOverride) -> (r:
    Vec<HunkAssignment>)
    requires
        assignment_fits(anchor_assignment@),
    ensures
        views_of(r@) == spec_materialize(anchor_assignment@, override_@),
        carves(anchor_assignment@, override_@) ==> forall|k: int|
            0 <= k < r@.len() ==> (#[trigger] r@[k]).id is Some,
        !carves(anchor_assignment@, override_@) ==> r@.len() == 1 && r@[0].id
            == anchor_assignment.id,
        forall|k: int| 0 <= k < r@.len() ==> assignment_fits(#[trigger] r@[k]@),
{
    let anchor_header = match anchor_assignment.hunk_header {
        Some(h) => h,
        None => {
            let only = anchor_assignment.duplicate();
            let out = vec![only];
            assert(views_of(out@) =~= seq![anchor_assignment@]);
            return out;
        },
    };
    let diff = match &anchor_assignment.diff {
        Some(d) => d,
        None => {
            let only = anchor_assignment.duplicate();
            let out = vec![only];
            assert(views_of(out@) =~= seq![anchor_assignment@]);
            return out;
        },
    };
    let kinds = parse_row_kinds(diff.as_slice());
    proof {
        lemma_row_kinds_len(diff@);
    }
    let row_count = kinds.len() as u32;
    if validate_ranges_stored(override_.ranges.as_slice(), row_count).is_err() {
        let only = anchor_assignment.duplicate();
        let out = vec![only];
        assert(views_of(out@) =~= seq![anchor_assignment@]);
        return out;
    }
    let ghost a = anchor_assignment@;
    let ghost ov = override_@;
    let ghost d = diff@;
    let mut out: Vec<HunkAssignment> = Vec::new();
    let mut i: usize = 0;
    while i < override_.ranges.len()
        invariant
            0 <= i <= override_.ranges.len(),
            a == anchor_assignment@,
            ov == override_@,
            d == diff@,
            anchor_assignment.hunk_header == Some(anchor_header),
            anchor_assignment.diff == Some(*diff),
            kinds@ == row_kinds_of(d),
            row_count == kinds@.len(),
            assignment_fits(a),
            spec_validate(ov.ranges, row_count, true) is Ok,
            crate::rows::ranges_well_formed(ov.ranges, row_count as int),
            views_of(out@) == ov.ranges.take(i as int).map_values(
                |r: RowRange| sub_hunk_view(a, anchor_header, d, ov, r),
            ),
            forall|k: int| 0 <= k < out@.len() ==> (#[trigger] out@[k]).id is Some,
            forall|k: int| 0 <= k < out@.len() ==> assignment_fits(#[trigger] out@[k]@),
        decreases override_.ranges.len() - i,
    {
        let range = override_.ranges[i];
        assert(ov.ranges[i as int] == range);
        assert(range.start < range.end <= row_count);
        let target = lookup_target(&override_.assignments, range);
        let branch_ref_bytes = match target {
            Some(HunkAssignmentTarget::Branch { branch_ref_bytes }) => full_ref_name(
                branch_ref_bytes,
            ),
            _ => copy_opt_bytes(&anchor_assignment.branch_ref_bytes),
        };
        proof {
            lemma_counts_monotone(kinds@, range.start as int, kinds@.len() as int);
            assert(kinds@.take(kinds@.len() as int) =~= kinds@);
        }
        let header = synthesize_header(&anchor_header, kinds.as_slice(), range);
        let body = sub_diff_body(diff.as_slice(), range);
        let sub = HunkAssignment {
            id: Some(new_v4_id()),
            hunk_header: Some(header),
            path: copy_string(&anchor_assignment.path),
            path_bytes: copy_bytes(&anchor_assignment.path_bytes),
            stack_id: None,
            branch_ref_bytes,
            line_nums_added: None,
            line_nums_removed: None,
            diff: Some(body),
            sub_hunk_origin: Some(
                SubHunkOrigin { anchor: anchor_header, range, rows: copy_vec(&kinds) },
            ),
        };
        assert(sub@ == sub_hunk_view(a, anchor_header, d, ov, range));
        proof {
            lemma_sub_hunk_fits(a, ov, range);
        }
        let ghost before = out@;
        out.push(sub);
        proof {
            let f = |r: RowRange| sub_hunk_view(a, anchor_header, d, ov, r);
            let want = ov.ranges.take(i + 1).map_values(f);
            assert(views_of(before) == ov.ranges.take(i as int).map_values(f));
            assert(views_of(before).len() == before.len());
            assert(ov.ranges.take(i as int).map_values(f).len() == i);
            assert(out@.len() == i + 1);
            assert forall|k: int| 0 <= k < i + 1 implies #[trigger] views_of(out@)[k] == want[k] by {
                assert(ov.ranges.take(i + 1)[k] == ov.ranges[k]);
                if k < i {
                    assert(out@[k] == before[k]);
                    assert(views_of(before)[k] == ov.ranges.take(i as int).map_values(f)[k]);
                    assert(ov.ranges.take(i as int)[k] == ov.ranges[k]);
                } else {
                    assert(out@[k] == sub);
                }
            }
            assert(views_of(out@) =~= want);
        }
        i += 1;
    }
    assert(ov.ranges.take(override_.ranges.len() as int) =~= ov.ranges);
    out
}

} // verus!
