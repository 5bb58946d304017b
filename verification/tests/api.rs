use hunk_split::api::{build_split_override, encode_sub_hunk_diff_spec, find_hunk_by_header, SubRangeError};
use hunk_split::hunks::HunkHeader;
use hunk_split::model::{HunkAssignmentTarget, SubHunkOriginLocation};
use hunk_split::rows::{RangeError, RowKind, RowRange};
use hunk_split::text::{push_decimal, render_header_line};

fn anchor() -> HunkHeader {
    HunkHeader { old_start: 10, old_lines: 5, new_start: 10, new_lines: 5 }
}

fn body() -> Vec<u8> {
    b" c1\n-r1\n+a1\n-r2\n+a2\n c2\n".to_vec()
}

#[test]
fn header_line_renders_decimal_fields() {
    assert_eq!(render_header_line(&anchor()), b"@@ -10,5 +10,5 @@\n".to_vec());
    assert_eq!(
        render_header_line(&HunkHeader { old_start: 0, old_lines: 0, new_start: 4294967295, new_lines: 7 }),
        b"@@ -0,0 +4294967295,7 @@\n".to_vec()
    );
    let mut out = b"n=".to_vec();
    push_decimal(&mut out, 1203);
    assert_eq!(out, b"n=1203".to_vec());
}

#[test]
fn split_without_existing_override_materializes_residuals() {
    let path = b"foo.rs".to_vec();
    let ov = build_split_override(
        SubHunkOriginLocation::worktree(path.clone()),
        path.clone(),
        anchor(),
        &body(),
        &[RowRange { start: 0, end: 4 }],
        None,
    )
    .unwrap();
    assert_eq!(ov.ranges, vec![RowRange { start: 1, end: 4 }, RowRange { start: 4, end: 5 }]);
    assert_eq!(ov.rows.len(), 6);
    assert_eq!(ov.rows[0], RowKind::Context);
    assert!(ov.assignments.is_empty());
    let mut want = b"@@ -10,5 +10,5 @@\n".to_vec();
    want.extend_from_slice(&body());
    assert_eq!(ov.anchor_diff, want);
    assert_eq!(ov.origin, SubHunkOriginLocation::worktree(path));
}

#[test]
fn split_refines_an_existing_override_and_keeps_targets() {
    let path = b"foo.rs".to_vec();
    let first = build_split_override(
        SubHunkOriginLocation::worktree(path.clone()),
        path.clone(),
        anchor(),
        &body(),
        &[RowRange { start: 2, end: 4 }],
        None,
    )
    .unwrap();
    let mut existing = first.clone();
    existing.assignments = vec![(RowRange { start: 2, end: 4 }, HunkAssignmentTarget::Stack { stack_id: 3 })];
    let second = build_split_override(
        SubHunkOriginLocation::worktree(path.clone()),
        path,
        anchor(),
        &body(),
        &[RowRange { start: 3, end: 4 }],
        Some(&existing),
    )
    .unwrap();
    assert_eq!(
        second.ranges,
        vec![
            RowRange { start: 1, end: 2 },
            RowRange { start: 2, end: 3 },
            RowRange { start: 3, end: 4 },
            RowRange { start: 4, end: 5 },
        ]
    );
    assert_eq!(second.assignments, existing.assignments);
}

#[test]
fn split_rejects_whole_anchor_and_context_only_requests() {
    let path = b"foo.rs".to_vec();
    let whole = build_split_override(
        SubHunkOriginLocation::worktree(path.clone()),
        path.clone(),
        anchor(),
        b"+a\n+b\n",
        &[RowRange { start: 0, end: 2 }],
        None,
    );
    assert_eq!(whole.unwrap_err(), RangeError::FullCoverage);
    let context_only = build_split_override(
        SubHunkOriginLocation::worktree(path.clone()),
        path,
        anchor(),
        &body(),
        &[RowRange { start: 0, end: 1 }],
        None,
    );
    assert_eq!(context_only.unwrap_err(), RangeError::NoRanges);
}

#[test]
fn encode_sub_hunk_diff_spec_encodes_trimmed_range() {
    let spec = encode_sub_hunk_diff_spec(
        Some(b"old.rs".to_vec()),
        b"foo.rs".to_vec(),
        anchor(),
        &body(),
        RowRange { start: 0, end: 3 },
    )
    .unwrap();
    assert_eq!(spec.path, b"foo.rs".to_vec());
    assert_eq!(spec.previous_path, Some(b"old.rs".to_vec()));
    assert_eq!(
        spec.hunk_headers,
        vec![
            HunkHeader { old_start: 11, old_lines: 1, new_start: 0, new_lines: 0 },
            HunkHeader { old_start: 0, old_lines: 0, new_start: 11, new_lines: 1 },
        ]
    );
}

#[test]
fn encode_sub_hunk_diff_spec_errors() {
    let ctx = encode_sub_hunk_diff_spec(None, b"f".to_vec(), anchor(), &body(), RowRange { start: 5, end: 6 });
    assert!(matches!(ctx, Err(SubRangeError::ContextOnly)));
    let all = encode_sub_hunk_diff_spec(None, b"f".to_vec(), anchor(), b"+a\n", RowRange { start: 0, end: 1 });
    assert!(matches!(all, Err(SubRangeError::Invalid(RangeError::FullCoverage))));
    let past = encode_sub_hunk_diff_spec(None, b"f".to_vec(), anchor(), &body(), RowRange { start: 5, end: 9 });
    assert!(matches!(past, Err(SubRangeError::Invalid(RangeError::OutOfBounds { .. }))));
}

#[test]
fn find_hunk_by_header_takes_the_first_match() {
    let other = HunkHeader { old_start: 1, old_lines: 1, new_start: 1, new_lines: 1 };
    let headers = [other, anchor(), anchor()];
    assert_eq!(find_hunk_by_header(&headers, anchor()), Some(1));
    assert_eq!(find_hunk_by_header(&headers[..1], anchor()), None);
    assert_eq!(find_hunk_by_header(&[], anchor()), None);
}
