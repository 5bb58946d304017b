use hunk_split::hunks::HunkHeader;
use hunk_split::model::{HunkAssignment, SubHunkOriginLocation, SubHunkOverride};
use hunk_split::partition::materialize_residual_ranges;
use hunk_split::rows::{parse_row_kinds, RowRange};
use hunk_split::store::{
    clear_store_for_tests, clear_store_for_tests_at, drop_overrides, get_commit_override,
    get_override, list_commit_overrides, list_overrides, list_worktree_overrides,
    migrate_stored_override, migrate_stored_override_multi, reconcile_with_overrides,
    remove_override, upsert_override, upsert_override_at, OverrideStore,
};

fn anchor() -> HunkHeader {
    HunkHeader { old_start: 10, old_lines: 5, new_start: 10, new_lines: 5 }
}

fn sample_diff() -> Vec<u8> {
    b"@@ -10,5 +10,5 @@\n c1\n-r1\n+a1\n-r2\n+a2\n c2\n".to_vec()
}

fn make_stored_override(anchor: HunkHeader, diff: Vec<u8>, user_ranges: Vec<RowRange>) -> SubHunkOverride {
    let kinds = parse_row_kinds(&diff);
    let ranges = materialize_residual_ranges(&user_ranges, &kinds);
    let path = b"foo.rs".to_vec();
    SubHunkOverride {
        origin: SubHunkOriginLocation::worktree(path.clone()),
        path,
        anchor,
        ranges,
        assignments: vec![],
        rows: kinds,
        anchor_diff: diff,
    }
}

fn nat_assignment(path: &str, header: HunkHeader, diff: &[u8]) -> HunkAssignment {
    HunkAssignment {
        id: Some(1),
        hunk_header: Some(header),
        path: path.to_string(),
        path_bytes: path.as_bytes().to_vec(),
        stack_id: None,
        branch_ref_bytes: Some(b"refs/heads/main".to_vec()),
        line_nums_added: None,
        line_nums_removed: None,
        diff: Some(diff.to_vec()),
        sub_hunk_origin: None,
    }
}

fn fixed_commit(byte: u8) -> Vec<u8> {
    vec![byte; 20]
}

#[test]
fn reconcile_with_overrides_prunes_stale_entries() {
    let gitdir: &[u8] = b"/test/gitdir/reconcile-prune";
    let mut store = OverrideStore::new();
    let stale_anchor = HunkHeader { old_start: 999, old_lines: 1, new_start: 999, new_lines: 1 };
    let mut stale = make_stored_override(
        stale_anchor,
        b"@@ -999,1 +999,1 @@\n-unrelated\n+content\n".to_vec(),
        vec![RowRange { start: 0, end: 2 }],
    );
    let missing = b"missing.rs".to_vec();
    stale.path = missing.clone();
    stale.origin = SubHunkOriginLocation::worktree(missing);
    upsert_override(&mut store, gitdir, stale);
    upsert_override(
        &mut store,
        gitdir,
        make_stored_override(anchor(), sample_diff(), vec![RowRange { start: 2, end: 4 }]),
    );
    assert_eq!(list_overrides(&store, gitdir).len(), 2);

    let mut assignments = vec![nat_assignment("foo.rs", anchor(), &sample_diff())];
    reconcile_with_overrides(&mut store, gitdir, &mut assignments);

    assert_eq!(assignments.len(), 3);
    let remaining = list_overrides(&store, gitdir);
    assert_eq!(remaining.len(), 1);
    assert_eq!(remaining[0].anchor, anchor());
}

#[test]
fn reconcile_rekeys_store_after_migration() {
    let gitdir: &[u8] = b"/test/gitdir/reconcile-rekey-after-migration";
    let mut store = OverrideStore::new();
    let pre_anchor = HunkHeader { old_start: 1, old_lines: 0, new_start: 1, new_lines: 3 };
    upsert_override(
        &mut store,
        gitdir,
        make_stored_override(
            pre_anchor,
            b"@@ -1,0 +1,3 @@\n+A\n+B\n+C\n".to_vec(),
            vec![RowRange { start: 1, end: 2 }],
        ),
    );
    let post_anchor = HunkHeader { old_start: 2, old_lines: 1, new_start: 1, new_lines: 3 };
    let mut assignments = vec![nat_assignment("foo.rs", post_anchor, b"@@ -2,1 +1,3 @@\n+A\n B\n+C\n")];
    reconcile_with_overrides(&mut store, gitdir, &mut assignments);

    let remaining = list_overrides(&store, gitdir);
    assert_eq!(remaining.len(), 1, "override survived migration");
    assert_eq!(remaining[0].anchor, post_anchor, "store rekeyed to new anchor");
    assert_eq!(remaining[0].ranges.len(), 2, "B dropped, A and C survive");
}

#[test]
fn reconcile_rekeys_store_into_multiple_entries_after_split() {
    let gitdir: &[u8] = b"/test/gitdir/reconcile-rekey-multi";
    let mut store = OverrideStore::new();
    let pre_anchor = HunkHeader { old_start: 1, old_lines: 0, new_start: 1, new_lines: 9 };
    upsert_override(
        &mut store,
        gitdir,
        make_stored_override(
            pre_anchor,
            b"@@ -1,0 +1,9 @@\n+A\n+B\n+C\n+D\n+E\n+F\n+G\n+H\n+I\n".to_vec(),
            vec![RowRange { start: 4, end: 5 }],
        ),
    );
    let h1 = HunkHeader { old_start: 1, old_lines: 0, new_start: 1, new_lines: 4 };
    let h2 = HunkHeader { old_start: 2, old_lines: 0, new_start: 6, new_lines: 4 };
    let mut assignments = vec![
        nat_assignment("foo.rs", h1, b"@@ -1,0 +1,4 @@\n+A\n+B\n+C\n+D\n"),
        nat_assignment("foo.rs", h2, b"@@ -2,0 +6,4 @@\n+F\n+G\n+H\n+I\n"),
    ];
    reconcile_with_overrides(&mut store, gitdir, &mut assignments);

    let remaining = list_overrides(&store, gitdir);
    assert_eq!(remaining.len(), 2, "single pre-anchor override fans out into two post-anchor entries");
    let anchors: Vec<HunkHeader> = remaining.iter().map(|m| m.anchor).collect();
    assert!(anchors.contains(&h1));
    assert!(anchors.contains(&h2));
    assert!(remaining.iter().all(|m| m.anchor != pre_anchor), "old key still present in store");
}

#[test]
fn worktree_keyed_overrides_round_trip_through_store() {
    let gitdir: &[u8] = b"/tmp/gitbutler-test-7a";
    let mut store = OverrideStore::new();
    let ov = make_stored_override(anchor(), sample_diff(), vec![RowRange { start: 2, end: 4 }]);
    let path = ov.path.clone();
    let anchor_h = ov.anchor;

    upsert_override(&mut store, gitdir, ov.clone());
    let got = get_override(&store, gitdir, &path, anchor_h)
        .expect("override should be retrievable via worktree key");
    assert_eq!(got.path, ov.path);
    assert_eq!(got.anchor, ov.anchor);

    let removed = remove_override(&mut store, gitdir, &path, anchor_h)
        .expect("override should be removable via worktree key");
    assert_eq!(removed.anchor, ov.anchor);
    assert!(get_override(&store, gitdir, &path, anchor_h).is_none());
}

#[test]
fn commit_anchored_overrides_are_isolated_from_worktree_lookups() {
    let gitdir: &[u8] = b"/tmp/gitbutler-test-7b-isol";
    let mut store = OverrideStore::new();
    let path = b"foo.rs".to_vec();
    let anchor_h = anchor();
    let commit = fixed_commit(0xaa);

    let wt_ov = make_stored_override(anchor_h, sample_diff(), vec![RowRange { start: 2, end: 4 }]);
    let cm_ov = make_stored_override(anchor_h, sample_diff(), vec![RowRange { start: 1, end: 3 }]);

    upsert_override(&mut store, gitdir, wt_ov.clone());
    upsert_override_at(
        &mut store,
        gitdir,
        SubHunkOriginLocation::commit(commit.clone(), path.clone()),
        cm_ov.clone(),
    );

    let got_wt = get_override(&store, gitdir, &path, anchor_h).unwrap();
    assert_eq!(got_wt.ranges, wt_ov.ranges);
    let got_cm = get_commit_override(&store, gitdir, &commit, &path, anchor_h).unwrap();
    assert_eq!(got_cm.ranges, cm_ov.ranges);

    assert_eq!(list_worktree_overrides(&store, gitdir).len(), 1);
    assert_eq!(list_commit_overrides(&store, gitdir, &commit).len(), 1);

    assert!(list_commit_overrides(&store, gitdir, &fixed_commit(0xbb)).is_empty());
    assert!(get_commit_override(&store, gitdir, &fixed_commit(0xbb), &path, anchor_h).is_none());

    assert_eq!(list_overrides(&store, gitdir).len(), 2);
}

#[test]
fn worktree_reconcile_does_not_drop_commit_anchored_overrides() {
    let gitdir: &[u8] = b"/tmp/gitbutler-test-7b-reconcile";
    let mut store = OverrideStore::new();
    let path = b"foo.rs".to_vec();
    let commit = fixed_commit(0xcc);
    let cm_ov = make_stored_override(anchor(), sample_diff(), vec![RowRange { start: 2, end: 4 }]);
    upsert_override_at(
        &mut store,
        gitdir,
        SubHunkOriginLocation::commit(commit.clone(), path.clone()),
        cm_ov.clone(),
    );

    let mut assignments: Vec<HunkAssignment> = Vec::new();
    reconcile_with_overrides(&mut store, gitdir, &mut assignments);

    let still_there = get_commit_override(&store, gitdir, &commit, &path, anchor())
        .expect("commit-anchored override must survive worktree reconcile");
    assert_eq!(still_there.ranges, cm_ov.ranges);

    reconcile_with_overrides(&mut store, gitdir, &mut assignments);
    assert!(get_commit_override(&store, gitdir, &commit, &path, anchor()).is_some());
}

#[test]
fn upsert_override_at_debug_asserts_path_consistency() {
    let gitdir: &[u8] = b"/tmp/gitbutler-test-7b-pathok";
    let mut store = OverrideStore::new();
    let path = b"foo.rs".to_vec();
    let commit = fixed_commit(0xdd);
    let ov = make_stored_override(anchor(), sample_diff(), vec![RowRange { start: 2, end: 4 }]);
    upsert_override_at(&mut store, gitdir, SubHunkOriginLocation::commit(commit.clone(), path.clone()), ov);
    assert!(get_commit_override(&store, gitdir, &commit, &path, anchor()).is_some());
}

#[test]
fn upsert_override_routes_through_origin_field() {
    let gitdir: &[u8] = b"/tmp/gitbutler-test-7c1-origin";
    let mut store = OverrideStore::new();
    let commit = fixed_commit(0xee);
    let mut ov = make_stored_override(anchor(), sample_diff(), vec![RowRange { start: 2, end: 4 }]);
    ov.origin = SubHunkOriginLocation::commit(commit.clone(), ov.path.clone());
    upsert_override(&mut store, gitdir, ov.clone());

    assert!(get_override(&store, gitdir, &ov.path, anchor()).is_none());
    assert!(get_commit_override(&store, gitdir, &commit, &ov.path, anchor()).is_some());
}

#[test]
fn upsert_override_at_overrides_origin_field_for_storage() {
    let gitdir: &[u8] = b"/tmp/gitbutler-test-7c1-at";
    let mut store = OverrideStore::new();
    let commit = fixed_commit(0xff);
    let ov = make_stored_override(anchor(), sample_diff(), vec![RowRange { start: 2, end: 4 }]);
    assert!(matches!(ov.origin, SubHunkOriginLocation::Worktree { .. }));
    upsert_override_at(
        &mut store,
        gitdir,
        SubHunkOriginLocation::commit(commit.clone(), ov.path.clone()),
        ov.clone(),
    );
    let stored = get_commit_override(&store, gitdir, &commit, &ov.path, anchor())
        .expect("stored under commit key");
    assert_eq!(
        stored.origin,
        SubHunkOriginLocation::commit(commit.clone(), ov.path.clone()),
        "upsert_override_at must rewrite ov.origin to match location"
    );
}

#[test]
fn upsert_replaces_the_override_under_its_key() {
    let gitdir: &[u8] = b"/repo/.git";
    let mut store = OverrideStore::new();
    let first = make_stored_override(anchor(), sample_diff(), vec![RowRange { start: 2, end: 4 }]);
    let second = make_stored_override(anchor(), sample_diff(), vec![RowRange { start: 1, end: 2 }]);
    upsert_override(&mut store, gitdir, first);
    upsert_override(&mut store, gitdir, second.clone());
    let all = list_overrides(&store, gitdir);
    assert_eq!(all.len(), 1);
    assert_eq!(all[0].ranges, second.ranges);
}

#[test]
fn projects_are_kept_apart() {
    let mut store = OverrideStore::new();
    let ov = make_stored_override(anchor(), sample_diff(), vec![RowRange { start: 2, end: 4 }]);
    upsert_override(&mut store, b"/a/.git", ov.clone());
    assert!(get_override(&store, b"/b/.git", &ov.path, anchor()).is_none());
    assert!(list_overrides(&store, b"/b/.git").is_empty());
    assert_eq!(list_overrides(&store, b"/a/.git").len(), 1);
}

#[test]
fn drop_overrides_removes_only_named_worktree_keys() {
    let gitdir: &[u8] = b"/repo/.git";
    let mut store = OverrideStore::new();
    let wt = make_stored_override(anchor(), sample_diff(), vec![RowRange { start: 2, end: 4 }]);
    let mut cm = wt.clone();
    cm.origin = SubHunkOriginLocation::commit(fixed_commit(1), wt.path.clone());
    let other_anchor = HunkHeader { old_start: 40, old_lines: 5, new_start: 40, new_lines: 5 };
    let mut other = wt.clone();
    other.anchor = other_anchor;
    upsert_override(&mut store, gitdir, wt.clone());
    upsert_override(&mut store, gitdir, cm);
    upsert_override(&mut store, gitdir, other);
    drop_overrides(&mut store, gitdir, &[(wt.path.clone(), anchor())]);
    let left = list_overrides(&store, gitdir);
    assert_eq!(left.len(), 2);
    assert!(get_override(&store, gitdir, &wt.path, anchor()).is_none());
    assert!(get_override(&store, gitdir, &wt.path, other_anchor).is_some());
    assert!(get_commit_override(&store, gitdir, &fixed_commit(1), &wt.path, anchor()).is_some());
}

#[test]
fn migrate_stored_override_moves_the_key() {
    let gitdir: &[u8] = b"/repo/.git";
    let mut store = OverrideStore::new();
    let ov = make_stored_override(anchor(), sample_diff(), vec![RowRange { start: 2, end: 4 }]);
    upsert_override(&mut store, gitdir, ov.clone());
    let new_anchor = HunkHeader { old_start: 20, old_lines: 5, new_start: 21, new_lines: 5 };
    let mut moved = ov.clone();
    moved.anchor = new_anchor;
    migrate_stored_override(&mut store, gitdir, &ov.path, anchor(), moved);
    assert!(get_override(&store, gitdir, &ov.path, anchor()).is_none());
    assert!(get_override(&store, gitdir, &ov.path, new_anchor).is_some());
}

#[test]
fn migrate_stored_override_multi_needs_an_existing_project() {
    let mut store = OverrideStore::new();
    let ov = make_stored_override(anchor(), sample_diff(), vec![RowRange { start: 2, end: 4 }]);
    migrate_stored_override_multi(&mut store, b"/unknown/.git", &ov.path, anchor(), vec![ov.clone()]);
    assert!(list_overrides(&store, b"/unknown/.git").is_empty());
}

#[test]
fn clearing_the_store() {
    let mut store = OverrideStore::new();
    let ov = make_stored_override(anchor(), sample_diff(), vec![RowRange { start: 2, end: 4 }]);
    upsert_override(&mut store, b"/a/.git", ov.clone());
    upsert_override(&mut store, b"/b/.git", ov.clone());
    clear_store_for_tests_at(&mut store, Some(&b"/a/.git"[..]));
    assert!(list_overrides(&store, b"/a/.git").is_empty());
    assert_eq!(list_overrides(&store, b"/b/.git").len(), 1);
    migrate_stored_override_multi(&mut store, b"/a/.git", &ov.path, anchor(), vec![ov.clone()]);
    assert!(list_overrides(&store, b"/a/.git").is_empty());
    clear_store_for_tests(&mut store);
    assert!(list_overrides(&store, b"/b/.git").is_empty());
}
