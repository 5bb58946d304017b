use hunk_split::apply::{apply_overrides_to_assignments, OverrideOutcome};
use hunk_split::body::{row_contents, sub_diff_body};
use hunk_split::headers::{encode_sub_hunk_for_commit, synthesize_header};
use hunk_split::hunks::HunkHeader;
use hunk_split::migrate::migrate_override_multi;
use hunk_split::model::{
    HunkAssignment, HunkAssignmentTarget, SubHunkOriginLocation, SubHunkOverride,
};
use hunk_split::overrides::materialize_override;
use hunk_split::partition::{materialize_residual_ranges, merge_user_ranges_into_partition};
use hunk_split::rows::{
    parse_row_kinds, trim_context, validate_ranges, validate_ranges_stored, RangeError, RowKind,
    RowRange,
};

fn anchor() -> HunkHeader {
    HunkHeader { old_start: 10, old_lines: 5, new_start: 10, new_lines: 5 }
}

fn sample_diff() -> Vec<u8> {
    b"@@ -10,5 +10,5 @@\n c1\n-r1\n+a1\n-r2\n+a2\n c2\n".to_vec()
}

fn anchor_assignment() -> HunkAssignment {
    HunkAssignment {
        id: Some(7),
        hunk_header: Some(anchor()),
        path: "foo.rs".to_string(),
        path_bytes: b"foo.rs".to_vec(),
        stack_id: None,
        branch_ref_bytes: Some(b"refs/heads/main".to_vec()),
        line_nums_added: None,
        line_nums_removed: None,
        diff: Some(sample_diff()),
        sub_hunk_origin: None,
    }
}

fn make_stored_override(
    anchor: HunkHeader,
    diff: Vec<u8>,
    user_ranges: Vec<RowRange>,
    assignments: Vec<(RowRange, HunkAssignmentTarget)>,
) -> SubHunkOverride {
    let kinds = parse_row_kinds(&diff);
    let ranges = materialize_residual_ranges(&user_ranges, &kinds);
    let path = b"foo.rs".to_vec();
    SubHunkOverride {
        origin: SubHunkOriginLocation::worktree(path.clone()),
        path,
        anchor,
        ranges,
        assignments,
        rows: kinds,
        anchor_diff: diff,
    }
}

fn nat_assignment(path: &str, header: HunkHeader, diff: &[u8]) -> HunkAssignment {
    HunkAssignment {
        id: Some(1),
        hunk_header: Some(header),
        path: path.to_string(),
        path_bytes: path.as_bytes().to_vec(),
        stack_id: None,
        branch_ref_bytes: Some(b"refs/heads/main".to_vec()),
        line_nums_added: None,
        line_nums_removed: None,
        diff: Some(diff.to_vec()),
        sub_hunk_origin: None,
    }
}

fn migrated_of(outcome: &OverrideOutcome) -> Vec<SubHunkOverride> {
    match outcome {
        OverrideOutcome::Migrated(m) => m.clone(),
        other => panic!("expected Migrated, got {other:?}"),
    }
}

#[test]
fn parse_row_kinds_basic() {
    let kinds = parse_row_kinds(&sample_diff());
    assert_eq!(
        kinds,
        vec![
            RowKind::Context,
            RowKind::Remove,
            RowKind::Add,
            RowKind::Remove,
            RowKind::Add,
            RowKind::Context,
        ]
    );
}

#[test]
fn validate_ranges_rejects_full_coverage() {
    let err = validate_ranges(&[RowRange { start: 0, end: 6 }], 6).unwrap_err();
    assert!(err.to_string().contains("entire anchor"));
}

#[test]
fn validate_ranges_rejects_overlap_and_oob() {
    assert!(validate_ranges(&[RowRange { start: 0, end: 3 }, RowRange { start: 2, end: 4 }], 6)
        .is_err());
    assert!(validate_ranges(&[RowRange { start: 0, end: 7 }], 6).is_err());
    assert!(validate_ranges(&[RowRange { start: 3, end: 3 }], 6).is_err());
    assert!(validate_ranges(&[], 6).is_err());
}

#[test]
fn validate_ranges_accepts_partial() {
    validate_ranges(&[RowRange { start: 1, end: 4 }], 6).unwrap();
    validate_ranges(&[RowRange { start: 0, end: 2 }, RowRange { start: 3, end: 5 }], 6).unwrap();
}

#[test]
fn validate_ranges_reports_each_error() {
    assert_eq!(validate_ranges(&[], 6), Err(RangeError::NoRanges));
    assert_eq!(
        validate_ranges(&[RowRange { start: 3, end: 3 }], 6),
        Err(RangeError::EmptyRange { index: 0 })
    );
    assert_eq!(
        validate_ranges(&[RowRange { start: 0, end: 7 }], 6),
        Err(RangeError::OutOfBounds { index: 0, start: 0, end: 7, row_count: 6 })
    );
    assert_eq!(
        validate_ranges(&[RowRange { start: 0, end: 3 }, RowRange { start: 2, end: 4 }], 6),
        Err(RangeError::Overlap { index: 1 })
    );
    assert_eq!(
        validate_ranges(&[RowRange { start: 0, end: 6 }], 6),
        Err(RangeError::FullCoverage)
    );
    assert_eq!(validate_ranges_stored(&[RowRange { start: 0, end: 6 }], 6), Ok(()));
}

#[test]
fn range_error_messages() {
    assert_eq!(RangeError::NoRanges.to_string(), "split requires at least one range");
    assert_eq!(RangeError::EmptyRange { index: 3 }.to_string(), "range 3 is empty");
    assert_eq!(
        RangeError::OutOfBounds { index: 0, start: 2, end: 17, row_count: 12 }.to_string(),
        "range 0 (2, 17) exceeds anchor row count 12"
    );
    assert_eq!(
        RangeError::Overlap { index: 10 }.to_string(),
        "range 10 overlaps or is not sorted relative to range 9"
    );
    assert_eq!(
        RangeError::FullCoverage.to_string(),
        "ranges cover the entire anchor; nothing to split out"
    );
}

#[test]
fn row_range_len_and_emptiness() {
    assert_eq!(RowRange { start: 2, end: 5 }.len(), 3);
    assert_eq!(RowRange { start: 5, end: 2 }.len(), 0);
    assert!(RowRange { start: 3, end: 3 }.is_empty());
    assert!(!RowRange { start: 3, end: 4 }.is_empty());
}

#[test]
fn synthesize_header_pure_add_at_start() {
    let kinds = vec![RowKind::Add, RowKind::Add, RowKind::Context, RowKind::Context];
    let anchor = HunkHeader { old_start: 100, old_lines: 2, new_start: 100, new_lines: 4 };
    let h = synthesize_header(&anchor, &kinds, RowRange { start: 0, end: 2 });
    assert_eq!(h.old_start, 100);
    assert_eq!(h.old_lines, 0);
    assert_eq!(h.new_start, 100);
    assert_eq!(h.new_lines, 2);
}

#[test]
fn synthesize_header_pure_remove_at_end() {
    let kinds = vec![RowKind::Context, RowKind::Context, RowKind::Remove, RowKind::Remove];
    let anchor = HunkHeader { old_start: 50, old_lines: 4, new_start: 50, new_lines: 2 };
    let h = synthesize_header(&anchor, &kinds, RowRange { start: 2, end: 4 });
    assert_eq!(h.old_start, 52);
    assert_eq!(h.old_lines, 2);
    assert_eq!(h.new_start, 52);
    assert_eq!(h.new_lines, 0);
}

#[test]
fn synthesize_header_mixed_middle() {
    let kinds = parse_row_kinds(&sample_diff());
    let h = synthesize_header(&anchor(), &kinds, RowRange { start: 1, end: 5 });
    assert_eq!(h.old_start, 11);
    assert_eq!(h.old_lines, 2);
    assert_eq!(h.new_start, 11);
    assert_eq!(h.new_lines, 2);
}

#[test]
fn synthesize_header_clamps_past_the_rows() {
    let kinds = vec![RowKind::Context, RowKind::Add];
    let anchor = HunkHeader { old_start: 7, old_lines: 1, new_start: 7, new_lines: 2 };
    let h = synthesize_header(&anchor, &kinds, RowRange { start: 1, end: 9 });
    assert_eq!(h, HunkHeader { old_start: 8, old_lines: 0, new_start: 8, new_lines: 1 });
}

#[test]
fn trim_context_drops_pure_context_selection() {
    let kinds = vec![RowKind::Context, RowKind::Context];
    assert!(trim_context(RowRange { start: 0, end: 2 }, &kinds).is_none());
}

#[test]
fn trim_context_strips_boundaries() {
    let kinds = vec![RowKind::Context, RowKind::Add, RowKind::Context];
    let trimmed = trim_context(RowRange { start: 0, end: 3 }, &kinds).unwrap();
    assert_eq!(trimmed, RowRange { start: 1, end: 2 });
}

#[test]
fn trim_context_is_idempotent_on_samples() {
    let kinds = vec![RowKind::Context, RowKind::Add, RowKind::Context, RowKind::Remove, RowKind::Context];
    for start in 0..6u32 {
        for end in 0..7u32 {
            if let Some(t) = trim_context(RowRange { start, end }, &kinds) {
                assert_eq!(trim_context(t, &kinds), Some(t));
                assert!(start <= t.start && t.start < t.end && t.end <= end);
            }
        }
    }
}

#[test]
fn sub_diff_body_extracts_row_slice() {
    let body = sample_diff();
    let slice = sub_diff_body(&body, RowRange { start: 1, end: 3 });
    assert_eq!(slice, b"-r1\n+a1\n".to_vec());
}

#[test]
fn sub_diff_body_keeps_no_newline_marker_with_its_row() {
    let body = b"@@ -1,1 +1,1 @@\n-old\n+new\n\\ No newline at end of file\n".to_vec();
    assert_eq!(
        sub_diff_body(&body, RowRange { start: 1, end: 2 }),
        b"+new\n\\ No newline at end of file\n".to_vec()
    );
    assert_eq!(sub_diff_body(&body, RowRange { start: 0, end: 1 }), b"-old\n".to_vec());
}

#[test]
fn row_contents_strips_prefixes() {
    let contents = row_contents(&sample_diff());
    let want: Vec<Vec<u8>> = ["c1", "r1", "a1", "r2", "a2", "c2"]
        .iter()
        .map(|s| s.as_bytes().to_vec())
        .collect();
    assert_eq!(contents, want);
}

#[test]
fn materialize_override_three_way_split() {
    let ov = make_stored_override(anchor(), sample_diff(), vec![RowRange { start: 2, end: 4 }], vec![]);
    let subs = materialize_override(&anchor_assignment(), &ov);
    assert_eq!(subs.len(), 3, "leading residual + user range + trailing residual");
    for s in &subs {
        assert_eq!(s.branch_ref_bytes, Some(b"refs/heads/main".to_vec()));
        assert_eq!(s.path, "foo.rs");
        assert!(s.hunk_header.is_some());
        assert!(s.id.is_some());
    }
}

#[test]
fn materialize_override_two_way_at_edge() {
    let ov = make_stored_override(anchor(), sample_diff(), vec![RowRange { start: 0, end: 3 }], vec![]);
    let subs = materialize_override(&anchor_assignment(), &ov);
    assert_eq!(subs.len(), 2, "edge selection collapses to 2-way");
}

#[test]
fn materialize_override_per_range_branch_target() {
    let r = RowRange { start: 2, end: 4 };
    let assignments = vec![(
        r,
        HunkAssignmentTarget::Branch { branch_ref_bytes: b"refs/heads/feature".to_vec() },
    )];
    let ov = make_stored_override(anchor(), sample_diff(), vec![r], assignments);
    let subs = materialize_override(&anchor_assignment(), &ov);
    assert_eq!(subs.len(), 3);
    let on_feature = subs
        .iter()
        .filter(|s| s.branch_ref_bytes == Some(b"refs/heads/feature".to_vec()))
        .count();
    let on_main = subs
        .iter()
        .filter(|s| s.branch_ref_bytes == Some(b"refs/heads/main".to_vec()))
        .count();
    assert_eq!(on_feature, 1, "middle sub-hunk on override branch");
    assert_eq!(on_main, 2, "residuals on anchor branch");
}

#[test]
fn materialize_override_gives_exact_sub_hunks() {
    let ov = make_stored_override(anchor(), sample_diff(), vec![RowRange { start: 2, end: 4 }], vec![]);
    let subs = materialize_override(&anchor_assignment(), &ov);
    let headers: Vec<HunkHeader> = subs.iter().map(|s| s.hunk_header.unwrap()).collect();
    assert_eq!(
        headers,
        vec![
            HunkHeader { old_start: 11, old_lines: 1, new_start: 11, new_lines: 0 },
            HunkHeader { old_start: 12, old_lines: 1, new_start: 11, new_lines: 1 },
            HunkHeader { old_start: 13, old_lines: 0, new_start: 12, new_lines: 1 },
        ]
    );
    let bodies: Vec<Vec<u8>> = subs.iter().map(|s| s.diff.clone().unwrap()).collect();
    assert_eq!(bodies, vec![b"-r1\n".to_vec(), b"+a1\n-r2\n".to_vec(), b"+a2\n".to_vec()]);
    for s in &subs {
        let origin = s.sub_hunk_origin.as_ref().unwrap();
        assert_eq!(origin.anchor, anchor());
        assert_eq!(origin.rows, parse_row_kinds(&sample_diff()));
        assert_eq!(s.stack_id, None);
        assert_ne!(s.id, Some(7));
    }
}

#[test]
fn materialize_override_rejects_invalid_branch_target() {
    let r = RowRange { start: 2, end: 4 };
    let assignments = vec![(
        r,
        HunkAssignmentTarget::Branch { branch_ref_bytes: b"not a ref name".to_vec() },
    )];
    let ov = make_stored_override(anchor(), sample_diff(), vec![r], assignments);
    let subs = materialize_override(&anchor_assignment(), &ov);
    assert_eq!(subs.len(), 3);
    assert_eq!(subs[1].branch_ref_bytes, None);
    assert_eq!(subs[0].branch_ref_bytes, Some(b"refs/heads/main".to_vec()));
}

#[test]
fn materialize_override_keeps_anchor_without_diff() {
    let ov = make_stored_override(anchor(), sample_diff(), vec![RowRange { start: 2, end: 4 }], vec![]);
    let mut a = anchor_assignment();
    a.diff = None;
    let subs = materialize_override(&a, &ov);
    assert_eq!(subs.len(), 1);
    assert_eq!(subs[0].id, Some(7));
    assert_eq!(subs[0].diff, None);
}

#[test]
fn encode_pure_add_at_start() {
    let rows = vec![RowKind::Add, RowKind::Add, RowKind::Context, RowKind::Context];
    let anchor = HunkHeader { old_start: 100, old_lines: 2, new_start: 100, new_lines: 4 };
    let headers = encode_sub_hunk_for_commit(anchor, RowRange { start: 0, end: 2 }, &rows);
    assert_eq!(
        headers,
        vec![HunkHeader { old_start: 0, old_lines: 0, new_start: 100, new_lines: 2 }]
    );
}

#[test]
fn encode_pure_remove_at_end() {
    let rows = vec![RowKind::Context, RowKind::Context, RowKind::Remove, RowKind::Remove];
    let anchor = HunkHeader { old_start: 50, old_lines: 4, new_start: 50, new_lines: 2 };
    let headers = encode_sub_hunk_for_commit(anchor, RowRange { start: 2, end: 4 }, &rows);
    assert_eq!(
        headers,
        vec![HunkHeader { old_start: 52, old_lines: 2, new_start: 0, new_lines: 0 }]
    );
}

#[test]
fn encode_mixed_emits_two_headers() {
    let rows = parse_row_kinds(&sample_diff());
    let headers = encode_sub_hunk_for_commit(anchor(), RowRange { start: 1, end: 5 }, &rows);
    assert_eq!(
        headers,
        vec![
            HunkHeader { old_start: 11, old_lines: 1, new_start: 0, new_lines: 0 },
            HunkHeader { old_start: 0, old_lines: 0, new_start: 11, new_lines: 1 },
            HunkHeader { old_start: 12, old_lines: 1, new_start: 0, new_lines: 0 },
            HunkHeader { old_start: 0, old_lines: 0, new_start: 12, new_lines: 1 },
        ]
    );
}

#[test]
fn encode_collapses_contiguous_runs() {
    let rows = vec![RowKind::Add, RowKind::Add, RowKind::Add];
    let anchor = HunkHeader { old_start: 1, old_lines: 0, new_start: 1, new_lines: 3 };
    let headers = encode_sub_hunk_for_commit(anchor, RowRange { start: 0, end: 3 }, &rows);
    assert_eq!(
        headers,
        vec![HunkHeader { old_start: 0, old_lines: 0, new_start: 1, new_lines: 3 }]
    );
}

#[test]
fn encode_skips_internal_context() {
    let rows = vec![RowKind::Add, RowKind::Context, RowKind::Add];
    let anchor = HunkHeader { old_start: 1, old_lines: 1, new_start: 1, new_lines: 3 };
    let headers = encode_sub_hunk_for_commit(anchor, RowRange { start: 0, end: 3 }, &rows);
    assert_eq!(
        headers,
        vec![
            HunkHeader { old_start: 0, old_lines: 0, new_start: 1, new_lines: 1 },
            HunkHeader { old_start: 0, old_lines: 0, new_start: 3, new_lines: 1 },
        ]
    );
}

#[test]
fn encode_single_row_range() {
    let rows = parse_row_kinds(&sample_diff());
    let headers = encode_sub_hunk_for_commit(anchor(), RowRange { start: 2, end: 3 }, &rows);
    assert_eq!(
        headers,
        vec![HunkHeader { old_start: 0, old_lines: 0, new_start: 11, new_lines: 1 }]
    );
}

#[test]
fn encode_with_leading_context_in_range() {
    let rows = vec![RowKind::Context, RowKind::Remove, RowKind::Context, RowKind::Add];
    let anchor = HunkHeader { old_start: 1, old_lines: 2, new_start: 1, new_lines: 2 };
    let headers = encode_sub_hunk_for_commit(anchor, RowRange { start: 0, end: 4 }, &rows);
    assert_eq!(
        headers,
        vec![
            HunkHeader { old_start: 2, old_lines: 1, new_start: 0, new_lines: 0 },
            HunkHeader { old_start: 0, old_lines: 0, new_start: 3, new_lines: 1 },
        ]
    );
}

#[test]
fn apply_overrides_silently_drops_unmatched_anchor() {
    let mut assignments = vec![anchor_assignment()];
    let stale_anchor = HunkHeader { old_start: 999, old_lines: 1, new_start: 999, new_lines: 1 };
    let stale_diff = b"@@ -999,1 +999,1 @@\n-totally-unrelated-line\n+also-unrelated\n".to_vec();
    let mut ov = make_stored_override(stale_anchor, stale_diff, vec![RowRange { start: 0, end: 2 }], vec![]);
    ov.path = b"nonexistent.rs".to_vec();
    let outcomes = apply_overrides_to_assignments(&mut assignments, &[ov]);
    assert_eq!(outcomes.len(), 1);
    assert!(matches!(outcomes[0], OverrideOutcome::Drop));
    assert_eq!(assignments.len(), 1, "anchor not split when override unmatched");
}

#[test]
fn apply_overrides_replaces_matched_anchor_in_place() {
    let before = nat_assignment("a.rs", HunkHeader { old_start: 1, old_lines: 0, new_start: 1, new_lines: 1 }, b"+x\n");
    let after = nat_assignment("z.rs", HunkHeader { old_start: 1, old_lines: 0, new_start: 1, new_lines: 1 }, b"+y\n");
    let mut assignments = vec![before, anchor_assignment(), after];
    let ov = make_stored_override(anchor(), sample_diff(), vec![RowRange { start: 2, end: 4 }], vec![]);
    let outcomes = apply_overrides_to_assignments(&mut assignments, &[ov]);
    assert!(matches!(outcomes[0], OverrideOutcome::KeepAsIs));
    assert_eq!(assignments.len(), 5);
    assert_eq!(assignments[0].path, "a.rs");
    assert_eq!(assignments[4].path, "z.rs");
    assert!(assignments[1..4].iter().all(|a| a.sub_hunk_origin.is_some()));
}

#[test]
fn materialize_residual_ranges_full_coverage() {
    let kinds = parse_row_kinds(&sample_diff());
    let out = materialize_residual_ranges(&[RowRange { start: 2, end: 4 }], &kinds);
    assert_eq!(
        out,
        vec![
            RowRange { start: 1, end: 2 },
            RowRange { start: 2, end: 4 },
            RowRange { start: 4, end: 5 },
        ]
    );
}

#[test]
fn materialize_residual_ranges_drops_pure_context_gap() {
    let kinds = vec![RowKind::Add, RowKind::Context, RowKind::Context, RowKind::Add];
    let out = materialize_residual_ranges(&[RowRange { start: 0, end: 1 }], &kinds);
    assert_eq!(out, vec![RowRange { start: 0, end: 1 }, RowRange { start: 3, end: 4 }]);
}

#[test]
fn residual_partition_is_stored_valid_and_covers_changes() {
    let kinds = parse_row_kinds(&sample_diff());
    for (s, e) in [(1u32, 2u32), (2, 4), (4, 5), (1, 5)] {
        let user = [RowRange { start: s, end: e }];
        let out = materialize_residual_ranges(&user, &kinds);
        assert_eq!(validate_ranges_stored(&out, kinds.len() as u32), Ok(()));
        assert!(out.contains(&user[0]));
        for (idx, k) in kinds.iter().enumerate() {
            if *k != RowKind::Context {
                let idx = idx as u32;
                assert!(out.iter().any(|r| r.start <= idx && idx < r.end));
            }
        }
    }
}

#[test]
fn migration_remaps_residuals_after_partial_commit() {
    let pre_anchor = HunkHeader { old_start: 1, old_lines: 0, new_start: 1, new_lines: 3 };
    let pre_diff = b"@@ -1,0 +1,3 @@\n+A\n+B\n+C\n".to_vec();
    let ov = make_stored_override(pre_anchor, pre_diff, vec![RowRange { start: 1, end: 2 }], vec![]);
    assert_eq!(
        ov.ranges,
        vec![
            RowRange { start: 0, end: 1 },
            RowRange { start: 1, end: 2 },
            RowRange { start: 2, end: 3 },
        ]
    );
    let post_anchor = HunkHeader { old_start: 2, old_lines: 1, new_start: 1, new_lines: 3 };
    let post_diff = b"@@ -2,1 +1,3 @@\n+A\n B\n+C\n";
    let mut assignments = vec![nat_assignment("foo.rs", post_anchor, post_diff)];
    let outcomes = apply_overrides_to_assignments(&mut assignments, &[ov.clone()]);
    assert_eq!(outcomes.len(), 1);
    let migrated_list = migrated_of(&outcomes[0]);
    assert_eq!(migrated_list.len(), 1, "single post-commit candidate hunk");
    let migrated = &migrated_list[0];
    assert_eq!(migrated.anchor, post_anchor);
    assert_eq!(migrated.ranges, vec![RowRange { start: 0, end: 1 }, RowRange { start: 2, end: 3 }]);
    assert_eq!(assignments.len(), 2);
}

#[test]
fn migration_drops_override_when_no_rows_survive() {
    let pre_anchor = HunkHeader { old_start: 1, old_lines: 0, new_start: 1, new_lines: 2 };
    let pre_diff = b"@@ -1,0 +1,2 @@\n+A\n+B\n".to_vec();
    let ov = make_stored_override(pre_anchor, pre_diff, vec![RowRange { start: 0, end: 1 }], vec![]);
    let post_anchor = HunkHeader { old_start: 2, old_lines: 0, new_start: 2, new_lines: 1 };
    let post_diff = b"@@ -2,0 +2,1 @@\n+different\n";
    let mut assignments = vec![nat_assignment("foo.rs", post_anchor, post_diff)];
    let outcomes = apply_overrides_to_assignments(&mut assignments, &[ov]);
    assert!(matches!(outcomes[0], OverrideOutcome::Drop), "got {:?}", outcomes[0]);
}

#[test]
fn migration_preserves_per_range_assignment_targets() {
    let pre_anchor = HunkHeader { old_start: 1, old_lines: 0, new_start: 1, new_lines: 3 };
    let pre_diff = b"@@ -1,0 +1,3 @@\n+A\n+B\n+C\n".to_vec();
    let mid = RowRange { start: 1, end: 2 };
    let targeted = vec![(
        mid,
        HunkAssignmentTarget::Branch { branch_ref_bytes: b"refs/heads/feature".to_vec() },
    )];
    let ov = make_stored_override(pre_anchor, pre_diff, vec![mid], targeted);
    let post_anchor = HunkHeader { old_start: 2, old_lines: 0, new_start: 2, new_lines: 2 };
    let post_diff = b"@@ -2,0 +2,2 @@\n+B\n+C\n";
    let mut assignments = vec![nat_assignment("foo.rs", post_anchor, post_diff)];
    let outcomes = apply_overrides_to_assignments(&mut assignments, &[ov]);
    let migrated_list = migrated_of(&outcomes[0]);
    assert_eq!(migrated_list.len(), 1);
    let migrated = &migrated_list[0];
    let new_b = RowRange { start: 0, end: 1 };
    let target = migrated
        .assignments
        .iter()
        .find(|(r, _)| *r == new_b)
        .map(|(_, t)| t.clone())
        .expect("feature-branch assignment migrated to new range key");
    match target {
        HunkAssignmentTarget::Branch { branch_ref_bytes } => {
            assert_eq!(branch_ref_bytes, b"refs/heads/feature".to_vec());
        }
        other => panic!("unexpected target {other:?}"),
    }
}

#[test]
fn migration_splits_across_multiple_candidates_after_partial_commit() {
    let pre_anchor = HunkHeader { old_start: 1, old_lines: 0, new_start: 1, new_lines: 9 };
    let pre_diff = b"@@ -1,0 +1,9 @@\n+A\n+B\n+C\n+D\n+E\n+F\n+G\n+H\n+I\n".to_vec();
    let ov = make_stored_override(pre_anchor, pre_diff, vec![RowRange { start: 4, end: 5 }], vec![]);
    let h1 = HunkHeader { old_start: 1, old_lines: 0, new_start: 1, new_lines: 4 };
    let h2 = HunkHeader { old_start: 2, old_lines: 0, new_start: 6, new_lines: 4 };
    let mut assignments = vec![
        nat_assignment("foo.rs", h1, b"@@ -1,0 +1,4 @@\n+A\n+B\n+C\n+D\n"),
        nat_assignment("foo.rs", h2, b"@@ -2,0 +6,4 @@\n+F\n+G\n+H\n+I\n"),
    ];
    let outcomes = apply_overrides_to_assignments(&mut assignments, &[ov]);
    let migrated_list = migrated_of(&outcomes[0]);
    assert_eq!(migrated_list.len(), 2, "override fans out across both surviving natural hunks");
    let anchors: Vec<HunkHeader> = migrated_list.iter().map(|m| m.anchor).collect();
    assert!(anchors.contains(&h1));
    assert!(anchors.contains(&h2));
}

#[test]
fn migration_fans_out_residuals_across_two_candidates() {
    let pre_anchor = HunkHeader { old_start: 1, old_lines: 0, new_start: 1, new_lines: 3 };
    let pre_diff = b"@@ -1,0 +1,3 @@\n+A\n+B\n+C\n".to_vec();
    let ov = make_stored_override(pre_anchor, pre_diff, vec![RowRange { start: 1, end: 2 }], vec![]);
    let h1 = HunkHeader { old_start: 1, old_lines: 0, new_start: 1, new_lines: 1 };
    let h2 = HunkHeader { old_start: 2, old_lines: 0, new_start: 3, new_lines: 1 };
    let mut assignments = vec![
        nat_assignment("foo.rs", h1, b"@@ -1,0 +1,1 @@\n+A\n"),
        nat_assignment("foo.rs", h2, b"@@ -2,0 +3,1 @@\n+C\n"),
    ];
    let outcomes = apply_overrides_to_assignments(&mut assignments, &[ov]);
    let migrated_list = migrated_of(&outcomes[0]);
    assert_eq!(migrated_list.len(), 2);
    let anchors: Vec<HunkHeader> = migrated_list.iter().map(|m| m.anchor).collect();
    assert!(anchors.contains(&h1));
    assert!(anchors.contains(&h2));
}

#[test]
fn migration_re_introduces_residuals_after_uncommit() {
    let mid_anchor = HunkHeader { old_start: 1, old_lines: 3, new_start: 1, new_lines: 5 };
    let mid_diff = b"@@ -1,3 +1,5 @@\n row0\n+row1\n row2\n+row3\n row4\n".to_vec();
    let mid_kinds = parse_row_kinds(&mid_diff);
    let mid_ranges = materialize_residual_ranges(
        &[RowRange { start: 1, end: 2 }, RowRange { start: 3, end: 4 }],
        &mid_kinds,
    );
    assert_eq!(mid_ranges, vec![RowRange { start: 1, end: 2 }, RowRange { start: 3, end: 4 }]);
    let path = b"foo.rs".to_vec();
    let ov = SubHunkOverride {
        origin: SubHunkOriginLocation::worktree(path.clone()),
        path,
        anchor: mid_anchor,
        ranges: mid_ranges,
        assignments: vec![],
        rows: mid_kinds,
        anchor_diff: mid_diff,
    };
    let post_anchor = HunkHeader { old_start: 1, old_lines: 0, new_start: 1, new_lines: 5 };
    let post_diff = b"@@ -1,0 +1,5 @@\n+row0\n+row1\n+row2\n+row3\n+row4\n";
    let mut assignments = vec![nat_assignment("foo.rs", post_anchor, post_diff)];
    let outcomes = apply_overrides_to_assignments(&mut assignments, &[ov]);
    let migrated = migrated_of(&outcomes[0]);
    assert_eq!(migrated.len(), 1);
    assert_eq!(
        migrated[0].ranges,
        vec![
            RowRange { start: 0, end: 1 },
            RowRange { start: 1, end: 2 },
            RowRange { start: 2, end: 3 },
            RowRange { start: 3, end: 4 },
            RowRange { start: 4, end: 5 },
        ],
        "residuals must be re-materialized so uncommitted rows aren't silently hidden",
    );
}

#[test]
fn migration_handles_duplicate_blank_rows_in_single_candidate() {
    let pre_anchor = HunkHeader { old_start: 1, old_lines: 0, new_start: 1, new_lines: 19 };
    let pre_diff = b"@@ -1,0 +1,19 @@\n+# Split Test\n+\n+This whole file\n+pure-add hunk\n+\n+## Section A\n+- alpha line one\n+- alpha line two\n+- alpha line three\n+\n+## Section B\n+- beta line one\n+- beta line two\n+- beta line three\n+\n+## Section C\n+- gamma line one\n+- gamma line two\n+- gamma line three\n".to_vec();
    let ov = make_stored_override(pre_anchor, pre_diff, vec![RowRange { start: 5, end: 9 }], vec![]);
    let post_anchor = HunkHeader { old_start: 1, old_lines: 4, new_start: 1, new_lines: 19 };
    let post_diff = b"@@ -1,4 +1,19 @@\n+# Split Test\n+\n+This whole file\n+pure-add hunk\n+\n ## Section A\n - alpha line one\n - alpha line two\n - alpha line three\n+\n+## Section B\n+- beta line one\n+- beta line two\n+- beta line three\n+\n+## Section C\n+- gamma line one\n+- gamma line two\n+- gamma line three\n";
    let mut assignments = vec![nat_assignment("foo.rs", post_anchor, post_diff)];
    let outcomes = apply_overrides_to_assignments(&mut assignments, &[ov]);
    let migrated_list = migrated_of(&outcomes[0]);
    assert_eq!(migrated_list.len(), 1);
    let migrated = &migrated_list[0];
    assert_eq!(migrated.anchor, post_anchor);
    let new_ranges = &migrated.ranges;
    assert_eq!(new_ranges.len(), 2, "got {new_ranges:?}");
    assert_eq!(new_ranges[0], RowRange { start: 0, end: 5 });
    assert_eq!(new_ranges[1], RowRange { start: 9, end: 19 });
}

#[test]
fn migrate_override_multi_reports_indices_in_order() {
    let pre_anchor = HunkHeader { old_start: 1, old_lines: 0, new_start: 1, new_lines: 3 };
    let ov = make_stored_override(
        pre_anchor,
        b"@@ -1,0 +1,3 @@\n+A\n+B\n+C\n".to_vec(),
        vec![RowRange { start: 1, end: 2 }],
        vec![],
    );
    let h1 = HunkHeader { old_start: 1, old_lines: 0, new_start: 1, new_lines: 1 };
    let h2 = HunkHeader { old_start: 2, old_lines: 0, new_start: 3, new_lines: 1 };
    let other = nat_assignment("bar.rs", h1, b"@@ -1,0 +1,1 @@\n+A\n");
    let assignments = vec![
        nat_assignment("foo.rs", h1, b"@@ -1,0 +1,1 @@\n+A\n"),
        other,
        nat_assignment("foo.rs", h2, b"@@ -2,0 +3,1 @@\n+C\n"),
    ];
    let migrated = migrate_override_multi(&ov, &assignments);
    let indices: Vec<usize> = migrated.iter().map(|(i, _)| *i).collect();
    assert_eq!(indices, vec![0, 2]);
    assert!(migrated.iter().all(|(_, m)| m.origin == ov.origin && m.path == ov.path));
}

#[test]
fn merge_user_ranges_splits_at_boundary() {
    let existing = vec![RowRange { start: 0, end: 5 }, RowRange { start: 5, end: 15 }];
    let new_ranges = vec![RowRange { start: 10, end: 11 }];
    let merged = merge_user_ranges_into_partition(&existing, &new_ranges);
    assert_eq!(
        merged,
        vec![
            RowRange { start: 0, end: 5 },
            RowRange { start: 5, end: 10 },
            RowRange { start: 10, end: 11 },
            RowRange { start: 11, end: 15 },
        ],
    );
}

#[test]
fn merge_user_ranges_carves_out_a_span() {
    let existing = vec![RowRange { start: 0, end: 20 }];
    let new_ranges = vec![RowRange { start: 7, end: 12 }];
    let merged = merge_user_ranges_into_partition(&existing, &new_ranges);
    assert_eq!(
        merged,
        vec![
            RowRange { start: 0, end: 7 },
            RowRange { start: 7, end: 12 },
            RowRange { start: 12, end: 20 },
        ],
    );
}

#[test]
fn merge_user_ranges_no_op_when_already_aligned() {
    let existing = vec![RowRange { start: 0, end: 5 }, RowRange { start: 5, end: 15 }];
    let new_ranges = vec![RowRange { start: 0, end: 5 }];
    let merged = merge_user_ranges_into_partition(&existing, &new_ranges);
    assert_eq!(merged, existing);
}

#[test]
fn merge_user_ranges_empty_input_passthrough() {
    let existing = vec![RowRange { start: 0, end: 5 }, RowRange { start: 5, end: 15 }];
    let merged = merge_user_ranges_into_partition(&existing, &[]);
    assert_eq!(merged, existing);
}

#[test]
fn merge_user_ranges_keeps_coverage_with_gaps() {
    let existing = vec![RowRange { start: 1, end: 4 }, RowRange { start: 6, end: 9 }];
    let new_ranges = vec![RowRange { start: 3, end: 7 }];
    let merged = merge_user_ranges_into_partition(&existing, &new_ranges);
    assert_eq!(
        merged,
        vec![
            RowRange { start: 1, end: 3 },
            RowRange { start: 3, end: 4 },
            RowRange { start: 6, end: 7 },
            RowRange { start: 7, end: 9 },
        ]
    );
}

#[test]
fn materialize_override_gives_ids_to_sub_hunks_of_an_anchor_without_id() {
    let ov = make_stored_override(anchor(), sample_diff(), vec![RowRange { start: 2, end: 4 }], vec![]);
    let mut a = anchor_assignment();
    a.id = None;
    let subs = materialize_override(&a, &ov);
    assert_eq!(subs.len(), 3);
    assert!(subs.iter().all(|s| s.id.is_some()));
}

#[test]
fn materialize_override_keeps_anchor_id_when_ranges_are_invalid() {
    let mut ov = make_stored_override(anchor(), sample_diff(), vec![RowRange { start: 2, end: 4 }], vec![]);
    ov.ranges = vec![RowRange { start: 0, end: 3 }, RowRange { start: 2, end: 6 }];
    let subs = materialize_override(&anchor_assignment(), &ov);
    assert_eq!(subs.len(), 1);
    assert_eq!(subs[0].id, Some(7));
}

#[test]
fn materialize_override_repeated_range_takes_the_later_target() {
    let r = RowRange { start: 2, end: 4 };
    let assignments = vec![
        (r, HunkAssignmentTarget::Branch { branch_ref_bytes: b"refs/heads/first".to_vec() }),
        (r, HunkAssignmentTarget::Branch { branch_ref_bytes: b"refs/heads/second".to_vec() }),
    ];
    let ov = make_stored_override(anchor(), sample_diff(), vec![r], assignments);
    let subs = materialize_override(&anchor_assignment(), &ov);
    assert_eq!(subs.len(), 3);
    assert_eq!(subs[1].branch_ref_bytes, Some(b"refs/heads/second".to_vec()));
}

#[test]
fn apply_overrides_keeps_ids_of_untouched_assignments() {
    let mut before = nat_assignment("a.rs", HunkHeader { old_start: 1, old_lines: 0, new_start: 1, new_lines: 1 }, b"+x\n");
    before.id = Some(1);
    let mut after = nat_assignment("z.rs", HunkHeader { old_start: 1, old_lines: 0, new_start: 1, new_lines: 1 }, b"+y\n");
    after.id = Some(2);
    let mut assignments = vec![before, anchor_assignment(), after];
    let ov = make_stored_override(anchor(), sample_diff(), vec![RowRange { start: 2, end: 4 }], vec![]);
    apply_overrides_to_assignments(&mut assignments, &[ov]);
    assert_eq!(assignments.len(), 5);
    assert_eq!(assignments[0].id, Some(1));
    assert_eq!(assignments[4].id, Some(2));
    assert!(assignments[1..4].iter().all(|a| a.id.is_some()));
}

#[test]
fn encode_pure_add_range_is_its_synthesized_new_side() {
    let diff = b" c1\n+a1\n+a2\n c2\n";
    let kinds = parse_row_kinds(diff);
    let anchor = HunkHeader { old_start: 4, old_lines: 2, new_start: 4, new_lines: 4 };
    let r = RowRange { start: 1, end: 3 };
    let h = synthesize_header(&anchor, &kinds, r);
    assert_eq!(
        encode_sub_hunk_for_commit(anchor, r, &kinds),
        vec![HunkHeader { old_start: 0, old_lines: 0, new_start: h.new_start, new_lines: h.new_lines }]
    );
}

#[test]
fn encode_pure_remove_range_is_its_synthesized_old_side() {
    let diff = b" c1\n-r1\n-r2\n c2\n";
    let kinds = parse_row_kinds(diff);
    let anchor = HunkHeader { old_start: 4, old_lines: 4, new_start: 4, new_lines: 2 };
    let r = RowRange { start: 1, end: 3 };
    let h = synthesize_header(&anchor, &kinds, r);
    assert_eq!(
        encode_sub_hunk_for_commit(anchor, r, &kinds),
        vec![HunkHeader { old_start: h.old_start, old_lines: h.old_lines, new_start: 0, new_lines: 0 }]
    );
}

#[test]
fn sub_diff_body_of_adjoining_ranges_concatenates() {
    let d = sample_diff();
    for (a, b, c) in [(0u32, 2u32, 6u32), (1, 3, 4), (0, 0, 3), (2, 5, 9)] {
        let whole = sub_diff_body(&d, RowRange { start: a, end: c });
        let mut parts = sub_diff_body(&d, RowRange { start: a, end: b });
        parts.extend(sub_diff_body(&d, RowRange { start: b, end: c }));
        assert_eq!(whole, parts);
        assert!(!whole.starts_with(b"@"));
    }
    assert_eq!(sub_diff_body(&d, RowRange { start: 1, end: 3 }), b"-r1\n+a1\n".to_vec());
}

#[test]
fn merge_with_no_new_ranges_keeps_the_partition() {
    let existing = vec![RowRange { start: 0, end: 5 }, RowRange { start: 5, end: 15 }];
    assert_eq!(merge_user_ranges_into_partition(&existing, &[]), existing);
}

#[test]
fn merge_is_idempotent_on_samples() {
    let existing = vec![RowRange { start: 0, end: 5 }, RowRange { start: 5, end: 15 }];
    let new_ranges = [RowRange { start: 2, end: 4 }, RowRange { start: 7, end: 9 }];
    let once = merge_user_ranges_into_partition(&existing, &new_ranges);
    let twice = merge_user_ranges_into_partition(&once, &new_ranges);
    assert_eq!(once, twice);
    let aligned = merge_user_ranges_into_partition(&existing, &[RowRange { start: 0, end: 5 }]);
    assert_eq!(aligned, existing);
}

#[test]
fn migrated_override_is_a_stored_partition_with_targets_on_its_ranges() {
    let pre_anchor = HunkHeader { old_start: 1, old_lines: 0, new_start: 1, new_lines: 3 };
    let pre_diff = b"@@ -1,0 +1,3 @@\n+A\n+B\n+C\n".to_vec();
    let target = HunkAssignmentTarget::Branch { branch_ref_bytes: b"refs/heads/x".to_vec() };
    let ov = make_stored_override(
        pre_anchor,
        pre_diff,
        vec![RowRange { start: 2, end: 3 }],
        vec![(RowRange { start: 2, end: 3 }, target)],
    );
    let post_anchor = HunkHeader { old_start: 2, old_lines: 1, new_start: 1, new_lines: 3 };
    let post_diff = b"@@ -2,1 +1,3 @@\n+A\n B\n+C\n";
    let assignments = vec![nat_assignment("foo.rs", post_anchor, post_diff)];
    let migrated = migrate_override_multi(&ov, &assignments);
    assert_eq!(migrated.len(), 1);
    let (idx, m) = &migrated[0];
    assert_eq!(*idx, 0);
    assert!(validate_ranges_stored(&m.ranges, m.rows.len() as u32).is_ok());
    for (k, kind) in m.rows.iter().enumerate() {
        if *kind != RowKind::Context {
            assert!(m.ranges.iter().any(|r| r.start as usize <= k && k < r.end as usize));
        }
    }
    for (r, _) in &m.assignments {
        assert!(m.ranges.contains(r));
    }
}
