use hunk_split::hunks::HunkHeader;
use hunk_split::model::{HunkAssignmentTarget, SubHunkOriginLocation, SubHunkOverride};
use hunk_split::partition::materialize_residual_ranges;
use hunk_split::persist::{
    clear_hydrated_for_tests, disk_writes_after_reconcile, drop_overrides_persistent,
    ensure_hydrated, from_db_row, hydrate_from_db, origin_commit_id_bytes,
    remove_override_persistent, to_db_row, upsert_override_persistent, DiskWrite, HydratedSet,
    OverrideColumns, ParsedColumns, RowError, SubHunkOverrideRow, MAX_OVERRIDE_DB_BYTES,
    OVERRIDE_DB_SCHEMA_VERSION,
};
use hunk_split::rows::{parse_row_kinds, RowRange};
use hunk_split::store::{list_overrides, OverrideStore};

fn anchor() -> HunkHeader {
    HunkHeader { old_start: 10, old_lines: 5, new_start: 10, new_lines: 5 }
}

fn sample_diff() -> Vec<u8> {
    b"@@ -10,5 +10,5 @@\n c1\n-r1\n+a1\n-r2\n+a2\n c2\n".to_vec()
}

fn sample_override() -> SubHunkOverride {
    let kinds = parse_row_kinds(&sample_diff());
    let user_range = RowRange { start: 1, end: 5 };
    let ranges = materialize_residual_ranges(&[user_range], &kinds);
    let path = b"src/foo.rs".to_vec();
    SubHunkOverride {
        origin: SubHunkOriginLocation::worktree(path.clone()),
        path,
        anchor: anchor(),
        ranges,
        assignments: vec![(user_range, HunkAssignmentTarget::Stack { stack_id: 42 })],
        rows: kinds,
        anchor_diff: sample_diff(),
    }
}

fn columns() -> OverrideColumns {
    OverrideColumns {
        ranges_json: "[{\"start\":1,\"end\":5}]".to_string(),
        assignments_json: "[[{\"start\":1,\"end\":5},{\"type\":\"stack\"}]]".to_string(),
        rows_json: "[\"context\",\"remove\",\"add\",\"remove\",\"add\",\"context\"]".to_string(),
    }
}

fn parsed_of(ov: &SubHunkOverride) -> ParsedColumns {
    ParsedColumns { ranges: ov.ranges.clone(), rows: ov.rows.clone(), pairs: ov.assignments.clone() }
}

fn db_key() -> String {
    "/tmp/sub_hunk_persist_test/repo.git".to_string()
}

#[test]
fn db_row_round_trip_preserves_override() {
    let stored = sample_override();
    let row = to_db_row(&db_key(), &stored, columns()).expect("row not refused for size");
    assert_eq!(row.gitdir, db_key());
    assert_eq!(row.schema_version, OVERRIDE_DB_SCHEMA_VERSION);
    let restored = from_db_row(row, Ok(parsed_of(&stored))).expect("from_db_row");
    assert_eq!(restored.path, stored.path);
    assert_eq!(restored.anchor, stored.anchor);
    assert_eq!(restored.ranges, stored.ranges);
    assert_eq!(restored.rows, stored.rows);
    assert_eq!(restored.anchor_diff, stored.anchor_diff);
    assert_eq!(restored.origin, stored.origin);
    assert_eq!(restored.assignments, stored.assignments);
}

#[test]
fn from_db_row_rejects_unknown_schema_version() {
    let ov = sample_override();
    let mut row = to_db_row(&db_key(), &ov, columns()).unwrap();
    row.schema_version = 999;
    let err = from_db_row(row, Ok(parsed_of(&ov))).expect_err("future schema rejected");
    let msg = err.to_string();
    assert!(msg.contains("schema_version"), "got: {msg}");
    assert_eq!(msg, "sub_hunk_overrides row has schema_version=999, this binary supports 2");
}

#[test]
fn from_db_row_reports_json_and_commit_id_errors() {
    let ov = sample_override();
    let row = to_db_row(&db_key(), &ov, columns()).unwrap();
    match from_db_row(row.clone(), Err("expected value at line 1".to_string())) {
        Err(RowError::Json { message }) => assert_eq!(message, "expected value at line 1"),
        other => panic!("unexpected {other:?}"),
    }
    let mut bad_id = row;
    bad_id.commit_id = vec![1, 2, 3];
    match from_db_row(bad_id, Ok(parsed_of(&ov))) {
        Err(e @ RowError::CommitId { .. }) => {
            assert!(e.to_string().starts_with("sub_hunk_overrides.commit_id is not a valid object id: "))
        }
        other => panic!("unexpected {other:?}"),
    }
}

#[test]
fn from_db_row_collects_pairs_later_winning() {
    let ov = sample_override();
    let row = to_db_row(&db_key(), &ov, columns()).unwrap();
    let r = RowRange { start: 1, end: 5 };
    let parsed = ParsedColumns {
        ranges: ov.ranges.clone(),
        rows: ov.rows.clone(),
        pairs: vec![
            (r, HunkAssignmentTarget::Stack { stack_id: 1 }),
            (r, HunkAssignmentTarget::Stack { stack_id: 2 }),
        ],
    };
    let restored = from_db_row(row, Ok(parsed)).unwrap();
    assert_eq!(restored.assignments, vec![(r, HunkAssignmentTarget::Stack { stack_id: 2 })]);
}

#[test]
fn to_db_row_size_guard_drops_oversize() {
    let mut ov = sample_override();
    ov.anchor_diff = vec![b'x'; MAX_OVERRIDE_DB_BYTES + 1];
    assert!(to_db_row(&db_key(), &ov, columns()).is_none(), "oversize override should refuse to persist");
}

#[test]
fn to_db_row_size_guard_counts_rows_json_bytes() {
    let mut ov = sample_override();
    let cols = columns();
    ov.anchor_diff = vec![b'x'; MAX_OVERRIDE_DB_BYTES - cols.rows_json.len()];
    assert!(to_db_row(&db_key(), &ov, columns()).is_some());
    ov.anchor_diff.push(b'x');
    assert!(to_db_row(&db_key(), &ov, columns()).is_none());
}

#[test]
fn commit_keyed_override_round_trips_through_db_bridge() {
    let commit = vec![0x55u8; 20];
    let path = b"foo.rs".to_vec();
    let mut ov = sample_override();
    ov.path = path.clone();
    ov.origin = SubHunkOriginLocation::commit(commit.clone(), path.clone());
    let row = to_db_row(&db_key(), &ov, columns()).expect("row not size-guarded");
    assert_eq!(row.commit_id, commit, "commit_id encoded as raw bytes");
    assert_eq!(row.schema_version, OVERRIDE_DB_SCHEMA_VERSION);
    let restored = from_db_row(row, Ok(parsed_of(&ov))).expect("from_db_row");
    assert_eq!(restored.origin, SubHunkOriginLocation::commit(commit, path.clone()), "origin survives the round trip");
    assert_eq!(restored.path, path);
    assert_eq!(restored.anchor, anchor());
}

#[test]
fn worktree_keyed_override_encodes_empty_commit_id() {
    let ov = sample_override();
    let row = to_db_row(&db_key(), &ov, columns()).unwrap();
    assert!(row.commit_id.is_empty(), "worktree → empty commit_id");
    let restored = from_db_row(row, Ok(parsed_of(&ov))).unwrap();
    assert!(matches!(restored.origin, SubHunkOriginLocation::Worktree { .. }));
    assert!(origin_commit_id_bytes(&ov.origin).is_empty());
    assert_eq!(
        origin_commit_id_bytes(&SubHunkOriginLocation::commit(vec![9; 20], ov.path.clone())),
        vec![9; 20]
    );
}

#[test]
fn upsert_override_persistent_writes_through() {
    let gitdir: &[u8] = b"/tmp/upsert.git";
    let mut store = OverrideStore::new();
    let ov = sample_override();
    let write = upsert_override_persistent(&mut store, gitdir, &db_key(), ov.clone(), columns());
    match write {
        DiskWrite::Upsert(row) => {
            assert_eq!(row.path, ov.path);
            assert_eq!(row.anchor_old_start, 10);
        }
        DiskWrite::Delete(_) => panic!("expected an upsert"),
    }
    let in_mem = list_overrides(&store, gitdir);
    assert_eq!(in_mem.len(), 1);
    assert_eq!(in_mem[0].anchor, ov.anchor);
}

#[test]
fn upsert_override_persistent_drops_disk_when_oversize() {
    let gitdir: &[u8] = b"/tmp/upsert-oversize.git";
    let mut store = OverrideStore::new();
    let mut big = sample_override();
    big.anchor_diff = vec![b'x'; MAX_OVERRIDE_DB_BYTES + 1];
    match upsert_override_persistent(&mut store, gitdir, &db_key(), big.clone(), columns()) {
        DiskWrite::Delete(key) => {
            assert_eq!(key.gitdir, db_key());
            assert_eq!(key.path, big.path);
            assert_eq!(key.anchor, big.anchor);
            assert!(key.commit_id.is_empty());
        }
        DiskWrite::Upsert(_) => panic!("oversize override must not be written"),
    }
    assert_eq!(list_overrides(&store, gitdir).len(), 1);
}

#[test]
fn remove_override_persistent_clears_both_layers() {
    let gitdir: &[u8] = b"/tmp/remove.git";
    let mut store = OverrideStore::new();
    let ov = sample_override();
    let _ = upsert_override_persistent(&mut store, gitdir, &db_key(), ov.clone(), columns());
    let (removed, key) = remove_override_persistent(&mut store, gitdir, &db_key(), &ov.path, ov.anchor);
    assert!(removed.is_some());
    assert_eq!(key.path, ov.path);
    assert_eq!(key.anchor, ov.anchor);
    assert!(key.commit_id.is_empty());
    assert!(list_overrides(&store, gitdir).is_empty());
}

#[test]
fn drop_overrides_persistent_clears_both_layers() {
    let gitdir: &[u8] = b"/tmp/drop.git";
    let mut store = OverrideStore::new();
    let ov = sample_override();
    let _ = upsert_override_persistent(&mut store, gitdir, &db_key(), ov.clone(), columns());
    let keys = drop_overrides_persistent(&mut store, gitdir, &db_key(), &[(ov.path.clone(), ov.anchor)]);
    assert_eq!(keys.len(), 1);
    assert_eq!(keys[0].path, ov.path);
    assert!(list_overrides(&store, gitdir).is_empty());
    assert!(drop_overrides_persistent(&mut store, gitdir, &db_key(), &[]).is_empty());
}

fn poison_row(ranges_json: &str) -> SubHunkOverrideRow {
    SubHunkOverrideRow {
        gitdir: db_key(),
        path: b"src/bad.rs".to_vec(),
        anchor_old_start: 1,
        anchor_old_lines: 1,
        anchor_new_start: 1,
        anchor_new_lines: 1,
        commit_id: Vec::new(),
        ranges_json: ranges_json.to_string(),
        assignments_json: "[]".to_string(),
        rows_json: "[]".to_string(),
        anchor_diff: b"@@ -1 +1 @@\n".to_vec(),
        schema_version: OVERRIDE_DB_SCHEMA_VERSION,
    }
}

#[test]
fn hydrate_from_db_rebuilds_in_memory_store() {
    let gitdir: &[u8] = b"/tmp/hydrate.git";
    let mut store = OverrideStore::new();
    let ov = sample_override();
    let row = to_db_row(&db_key(), &ov, columns()).unwrap();
    let n = hydrate_from_db(&mut store, gitdir, vec![(row, Ok(parsed_of(&ov)))]);
    assert_eq!(n, 1);
    let restored = list_overrides(&store, gitdir);
    assert_eq!(restored.len(), 1);
    assert_eq!(restored[0].anchor, ov.anchor);
    assert_eq!(restored[0].path, ov.path);
    assert_eq!(restored[0].ranges, ov.ranges);
    assert_eq!(restored[0].anchor_diff, ov.anchor_diff);
}

#[test]
fn hydrate_from_db_skips_malformed_rows() {
    let gitdir: &[u8] = b"/tmp/hydrate-malformed.git";
    let mut store = OverrideStore::new();
    let ov = sample_override();
    let good = to_db_row(&db_key(), &ov, columns()).unwrap();
    let rows = vec![
        (poison_row("not-json"), Err("expected value at line 1 column 1".to_string())),
        (good, Ok(parsed_of(&ov))),
    ];
    let n = hydrate_from_db(&mut store, gitdir, rows);
    assert_eq!(n, 1, "only the well-formed row hydrates");
    let in_mem = list_overrides(&store, gitdir);
    assert_eq!(in_mem.len(), 1);
    assert_eq!(in_mem[0].anchor, ov.anchor);
}

#[test]
fn ensure_hydrated_runs_once_per_gitdir() {
    let gitdir: &[u8] = b"/tmp/ensure-once.git";
    let mut hydrated = HydratedSet::new();
    assert!(ensure_hydrated(&mut hydrated, gitdir));
    assert!(!ensure_hydrated(&mut hydrated, gitdir), "second ensure_hydrated must be a no-op");
    assert!(ensure_hydrated(&mut hydrated, b"/tmp/other.git"));
    clear_hydrated_for_tests(&mut hydrated, gitdir);
    assert!(ensure_hydrated(&mut hydrated, gitdir));
}

#[test]
fn disk_writes_after_reconcile_syncs_rows() {
    let ov = sample_override();
    let current = to_db_row(&db_key(), &ov, columns()).unwrap();
    let stale = poison_row("[]");
    let mut commit_row = poison_row("[]");
    commit_row.commit_id = vec![7; 20];
    let writes = disk_writes_after_reconcile(
        &db_key(),
        &vec![stale.clone(), current.clone(), commit_row],
        &vec![(ov.clone(), columns())],
    );
    assert_eq!(writes.len(), 1);
    match &writes[0] {
        DiskWrite::Delete(key) => {
            assert_eq!(key.path, stale.path);
            assert!(key.commit_id.is_empty());
        }
        DiskWrite::Upsert(_) => panic!("the stale row must be deleted"),
    }

    let mut changed = ov.clone();
    changed.ranges = vec![RowRange { start: 1, end: 5 }];
    let cols = OverrideColumns {
        ranges_json: "[]".to_string(),
        assignments_json: "[]".to_string(),
        rows_json: "[]".to_string(),
    };
    let writes = disk_writes_after_reconcile(&db_key(), &vec![current], &vec![(changed, cols)]);
    assert_eq!(writes.len(), 1);
    assert!(matches!(writes[0], DiskWrite::Upsert(_)));

    let mut big = ov.clone();
    big.anchor_diff = vec![b'x'; MAX_OVERRIDE_DB_BYTES + 1];
    let writes = disk_writes_after_reconcile(&db_key(), &vec![], &vec![(big, columns())]);
    assert_eq!(writes.len(), 1);
    assert!(matches!(writes[0], DiskWrite::Delete(_)));
}

#[test]
fn origin_location_worktree_and_commit_have_distinct_keys() {
    let path = b"src/foo.rs".to_vec();
    let commit = vec![0xaau8; 20];

    let wt = SubHunkOriginLocation::worktree(path.clone());
    let cm = SubHunkOriginLocation::commit(commit.clone(), path.clone());

    assert_ne!(wt, cm);
    assert_eq!(wt.path(), &path);
    assert_eq!(cm.path(), &path);
    assert!(wt.is_worktree());
    assert!(!cm.is_worktree());
    assert_eq!(wt.commit_id(), None);
    assert_eq!(cm.commit_id(), Some(commit));

    // Same path, same anchor, different origin: two distinct keys.
    let anchor = HunkHeader { old_start: 1, old_lines: 2, new_start: 1, new_lines: 3 };
    let mut keys: std::collections::HashSet<(SubHunkOriginLocation, HunkHeader)> = std::collections::HashSet::new();
    keys.insert((wt, anchor));
    keys.insert((cm, anchor));
    assert_eq!(keys.len(), 2);
}

#[test]
fn from_db_row_accepts_sha1_and_sha256_commit_ids() {
    let ov = sample_override();
    let row = to_db_row(&db_key(), &ov, columns()).unwrap();
    for width in [20usize, 32] {
        let mut commit_row = row.clone();
        commit_row.commit_id = vec![0xab; width];
        let restored = from_db_row(commit_row, Ok(parsed_of(&ov))).expect("object id accepted");
        assert_eq!(restored.origin, SubHunkOriginLocation::commit(vec![0xab; width], ov.path.clone()));
    }
    let mut odd = row;
    odd.commit_id = vec![0xab; 21];
    assert!(matches!(from_db_row(odd, Ok(parsed_of(&ov))), Err(RowError::CommitId { .. })));
}
