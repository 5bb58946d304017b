//! The on-disk form of overrides: one database row per override, with the
//! structured columns held as JSON text, and the decisions that keep the
//! database in step with the store.
use crate::external::object_id_from_bytes;
use crate::hunks::HunkHeader;
use crate::migrate::{insert_pair, pairs_insert};
use crate::model::{
    copy_bytes, copy_string, pairs_view, HunkAssignmentTarget, LocationView, OverrideView,
    SubHunkOriginLocation, SubHunkOverride, TargetView,
};
use crate::rows::{RowKind, RowRange};
use crate::text::{append_decimal, dec_chars};
use vstd::prelude::*;
use vstd::string::StringExecFns;
use vstd::utf8::encode_utf8;

verus! {

/// Maximum on-disk size of one override: its cached anchor diff and its
/// JSON-encoded rows together. Bigger overrides are kept in memory only.
pub const MAX_OVERRIDE_DB_BYTES: usize = 64 * 1024;

/// The version of the on-disk row shape that this library reads and writes.
pub const OVERRIDE_DB_SCHEMA_VERSION: u32 = 2;

/// One row of the `sub_hunk_overrides` table: the on-disk shape of an
/// override, with `ranges`, `assignments` and `rows` held as JSON text.
#[derive(Debug, Clone, PartialEq, Eq)]
pub struct SubHunkOverrideRow {
    /// The git directory the override belongs to.
    pub gitdir: String,
    /// Raw bytes of the worktree-relative path the override anchors on.
    pub path: Vec<u8>,
    pub anchor_old_start: u32,
    pub anchor_old_lines: u32,
    pub anchor_new_start: u32,
    pub anchor_new_lines: u32,
    /// The raw object id of the commit the override is anchored in, or
    /// empty for a worktree-anchored override.
    pub commit_id: Vec<u8>,
    /// JSON-encoded `Vec<RowRange>`.
    pub ranges_json: String,
    /// JSON-encoded `Vec<(RowRange, HunkAssignmentTarget)>`.
    pub assignments_json: String,
    /// JSON-encoded `Vec<RowKind>`.
    pub rows_json: String,
    /// Raw bytes of the cached anchor diff (with `@@` header).
    pub anchor_diff: Vec<u8>,
    /// The version of the row shape.
    pub schema_version: u32,
}

/// The view of a row.
pub struct RowView {
    pub gitdir: Seq<char>,
    pub path: Seq<u8>,
    pub anchor: HunkHeader,
    pub commit_id: Seq<u8>,
    pub ranges_json: Seq<char>,
    pub assignments_json: Seq<char>,
    pub rows_json: Seq<char>,
    pub anchor_diff: Seq<u8>,
    pub schema_version: u32,
}

impl View for SubHunkOverrideRow {
    type V = RowView;

    open spec fn view(&self) -> RowView {
        RowView {
            gitdir: self.gitdir@,
            path: self.path@,
            anchor: HunkHeader {
                old_start: self.anchor_old_start,
                old_lines: self.anchor_old_lines,
                new_start: self.anchor_new_start,
                new_lines: self.anchor_new_lines,
            },
            commit_id: self.commit_id@,
            ranges_json: self.ranges_json@,
            assignments_json: self.assignments_json@,
            rows_json: self.rows_json@,
            anchor_diff: self.anchor_diff@,
            schema_version: self.schema_version,
        }
    }
}

/// The JSON text of an override's structured fields, as its row stores it.
pub struct OverrideColumns {
    /// JSON-encoded `ranges`.
    pub ranges_json: String,
    /// JSON-encoded `assignments`, as an array of `[range, target]` pairs.
    pub assignments_json: String,
    /// JSON-encoded `rows`.
    pub rows_json: String,
}

/// The view of the JSON columns.
pub struct ColumnsView {
    pub ranges_json: Seq<char>,
    pub assignments_json: Seq<char>,
    pub rows_json: Seq<char>,
}

impl View for OverrideColumns {
    type V = ColumnsView;

    open spec fn view(&self) -> ColumnsView {
        ColumnsView {
            ranges_json: self.ranges_json@,
            assignments_json: self.assignments_json@,
            rows_json: self.rows_json@,
        }
    }
}

/// The structured fields read back from a row's JSON columns.
pub struct ParsedColumns {
    pub ranges: Vec<RowRange>,
    pub rows: Vec<RowKind>,
    pub pairs: Vec<(RowRange, HunkAssignmentTarget)>,
}

/// The view of parsed columns.
pub struct ParsedView {
    pub ranges: Seq<RowRange>,
    pub rows: Seq<RowKind>,
    pub pairs: Seq<(RowRange, TargetView)>,
}

impl View for ParsedColumns {
    type V = ParsedView;

    open spec fn view(&self) -> ParsedView {
        ParsedView { ranges: self.ranges@, rows: self.rows@, pairs: pairs_view(self.pairs@) }
    }
}

/// The on-disk commit id of an origin: empty for the worktree, the raw
/// object id for a commit.
pub open spec fn commit_id_bytes(loc: LocationView) -> Seq<u8> {
    match loc {
        LocationView::Worktree(_) => seq![],
        LocationView::Commit(id, _) => id,
    }
}

/// Encode an origin's commit id into the on-disk `commit_id` blob.
pub fn origin_commit_id_bytes(origin: &SubHunkOriginLocation) -> (r: Vec<u8>)
    ensures
        r@ == commit_id_bytes(origin@),
{
    match origin {
        SubHunkOriginLocation::Worktree { .. } => Vec::new(),
        SubHunkOriginLocation::Commit { id, .. } => copy_bytes(id),
    }
}

/// The row of override `ov` for git directory `gitdir` with JSON columns
/// `cols`, or none when the anchor diff and the rows' JSON together exceed
/// [`MAX_OVERRIDE_DB_BYTES`] bytes.
pub open spec fn spec_to_db_row(gitdir: Seq<char>, ov: OverrideView, cols: ColumnsView) -> Option<
    RowView,
> {
    if ov.anchor_diff.len() + encode_utf8(cols.rows_json).len() > MAX_OVERRIDE_DB_BYTES {
        None
    } else {
        Some(
            RowView {
                gitdir,
                path: ov.path,
                anchor: ov.anchor,
                commit_id: commit_id_bytes(ov.origin),
                ranges_json: cols.ranges_json,
                assignments_json: cols.assignments_json,
                rows_json: cols.rows_json,
                anchor_diff: ov.anchor_diff,
                schema_version: OVERRIDE_DB_SCHEMA_VERSION,
            },
        )
    }
}

/// Convert an override into its on-disk row, given the JSON encodings of
/// its structured fields.
///
/// Returns `None` when the override exceeds [`MAX_OVERRIDE_DB_BYTES`]:
/// such an override is not persisted, the in-memory entry still stands.
pub fn to_db_row(gitdir: &String, ov: &SubHunkOverride, columns: OverrideColumns) -> (r: Option<
    SubHunkOverrideRow,
>)
    ensures
        r matches Some(row) ==> spec_to_db_row(gitdir@, ov@, columns@) == Some(row@),
        r is None ==> spec_to_db_row(gitdir@, ov@, columns@) is None,
{
    let rows_len = columns.rows_json.as_str().as_bytes().len();
    let diff_len = ov.anchor_diff.len();
    if rows_len > MAX_OVERRIDE_DB_BYTES || diff_len > MAX_OVERRIDE_DB_BYTES - rows_len {
        return None;
    }
    let ghost cv = columns@;
    assert(rows_len == encode_utf8(cv.rows_json).len());
    assert(ov@.anchor_diff.len() + encode_utf8(cv.rows_json).len() <= MAX_OVERRIDE_DB_BYTES);
    let row = SubHunkOverrideRow {
            gitdir: copy_string(gitdir),
            path: copy_bytes(&ov.path),
            anchor_old_start: ov.anchor.old_start,
            anchor_old_lines: ov.anchor.old_lines,
            anchor_new_start: ov.anchor.new_start,
            anchor_new_lines: ov.anchor.new_lines,
            commit_id: origin_commit_id_bytes(&ov.origin),
            ranges_json: columns.ranges_json,
            assignments_json: columns.assignments_json,
            rows_json: columns.rows_json,
            anchor_diff: copy_bytes(&ov.anchor_diff),
            schema_version: OVERRIDE_DB_SCHEMA_VERSION,
        };
    assert(row@.ranges_json == cv.ranges_json);
    assert(row@ == spec_to_db_row(gitdir@, ov@, cv)->0);
    Some(row)
}

/// Why a row could not be read back into an override.
#[derive(Debug, Clone)]
pub enum RowError {
    /// The row was written in another shape version.
    SchemaVersion { found: u32 },
    /// A JSON column does not parse; the parser's message.
    Json { message: String },
    /// The `commit_id` blob is not an object id; gix's message.
    CommitId { message: String },
}

/// The message of a row error.
pub open spec fn row_error_message(e: RowError) -> Seq<char> {
    match e {
        RowError::SchemaVersion { found } => "sub_hunk_overrides row has schema_version="@
            + dec_chars(found as nat) + ", this binary supports "@ + dec_chars(
            OVERRIDE_DB_SCHEMA_VERSION as nat,
        ),
        RowError::Json { message } => message@,
        RowError::CommitId { message } => "sub_hunk_overrides.commit_id is not a valid object id: "@
            + message@,
    }
}

impl RowError {
    /// The human-readable message of this error.
    pub fn to_string(&self) -> (r: String)
        ensures
            r@ == row_error_message(*self),
    {
        match self {
            RowError::SchemaVersion { found } => {
                let mut s = String::from_str("sub_hunk_overrides row has schema_version=");
                append_decimal(&mut s, *found as u64);
                s.append(", this binary supports ");
                append_decimal(&mut s, OVERRIDE_DB_SCHEMA_VERSION as u64);
                s
            },
            RowError::Json { message } => copy_string(message),
            RowError::CommitId { message } => {
                let mut s = String::from_str(
                    "sub_hunk_overrides.commit_id is not a valid object id: ",
                );
                s.append(message.as_str());
                s
            },
        }
    }
}

/// The map that `(range, target)` pairs spell out, later pairs winning.
pub open spec fn pairs_collect(pairs: Seq<(RowRange, TargetView)>) -> Seq<(RowRange, TargetView)>
    decreases pairs.len(),
{
    if pairs.len() == 0 {
        seq![]
    } else {
        pairs_insert(pairs_collect(pairs.drop_last()), pairs.last().0, pairs.last().1)
    }
}

/// The override that a row with parsed columns stands for: anchored in the
/// worktree when the row has no commit id, otherwise in that commit.
pub open spec fn row_override(row: RowView, parsed: ParsedView) -> OverrideView {
    OverrideView {
        origin: if row.commit_id.len() == 0 {
            LocationView::Worktree(row.path)
        } else {
            LocationView::Commit(row.commit_id, row.path)
        },
        path: row.path,
        anchor: row.anchor,
        ranges: parsed.ranges,
        assignments: pairs_collect(parsed.pairs),
        rows: parsed.rows,
        anchor_diff: row.anchor_diff,
    }
}

/// A row reads back when it has the current shape version, its JSON
/// columns parsed, and its commit id is empty or an object id.
pub open spec fn row_reads(row: RowView, parsed_ok: bool) -> bool {
    &&& row.schema_version == OVERRIDE_DB_SCHEMA_VERSION
    &&& parsed_ok
    &&& (row.commit_id.len() == 0 || crate::external::is_object_id_len(row.commit_id.len()))
}

/// Collect `(range, target)` pairs into a map, later pairs winning.
fn collect_pairs(pairs: &Vec<(RowRange, HunkAssignmentTarget)>) -> (r: Vec<(RowRange, HunkAssignmentTarget)>)
    ensures
        pairs_view(r@) == pairs_collect(pairs_view(pairs@)),
{
    let ghost pv = pairs_view(pairs@);
    let mut out: Vec<(RowRange, HunkAssignmentTarget)> = Vec::new();
    let mut i: usize = 0;
    assert(pairs_view(out@) =~= pairs_collect(pv.take(0)));
    while i < pairs.len()
        invariant
            0 <= i <= pairs@.len(),
            pv == pairs_view(pairs@),
            pairs_view(out@) == pairs_collect(pv.take(i as int)),
        decreases pairs.len() - i,
    {
        assert(pv.take(i + 1).drop_last() =~= pv.take(i as int));
        assert(pv.take(i + 1).last() == pv[i as int]);
        assert(pv[i as int] == (pairs@[i as int].0, pairs@[i as int].1@));
        insert_pair(&mut out, pairs[i].0, pairs[i].1.duplicate());
        i += 1;
    }
    assert(pv.take(pairs@.len() as int) =~= pv);
    out
}

/// Convert an on-disk row back into an override, given the outcome of
/// parsing its JSON columns.
///
/// Errors, in this order: a row of another shape version; JSON columns that
/// did not parse; a `commit_id` that is neither empty nor an object id.
pub fn from_db_row(row: SubHunkOverrideRow, parsed: Result<ParsedColumns, String>) -> (r: Result<
    SubHunkOverride,
    RowError,
>)
    ensures
        row@.schema_version != OVERRIDE_DB_SCHEMA_VERSION ==> (r matches Err(
            RowError::SchemaVersion { found },
        ) && found == row@.schema_version),
        row@.schema_version == OVERRIDE_DB_SCHEMA_VERSION ==> (parsed matches Err(m) ==> (
        r matches Err(RowError::Json { message }) && message@ == m@)),
        row@.schema_version == OVERRIDE_DB_SCHEMA_VERSION && parsed is Ok && row@.commit_id.len()
            != 0 && !crate::external::is_object_id_len(row@.commit_id.len()) ==> r matches Err(
            RowError::CommitId { .. },
        ),
        r is Ok <==> row_reads(row@, parsed is Ok),
        r matches Ok(o) ==> (parsed matches Ok(p) && o@ == row_override(row@, p@)),
{
    if row.schema_version != OVERRIDE_DB_SCHEMA_VERSION {
        return Err(RowError::SchemaVersion { found: row.schema_version });
    }
    let parsed = match parsed {
        Ok(p) => p,
        Err(m) => {
            return Err(RowError::Json { message: m });
        },
    };
    let assignments = collect_pairs(&parsed.pairs);
    let path = row.path;
    let origin = if row.commit_id.len() == 0 {
        SubHunkOriginLocation::worktree(copy_bytes(&path))
    } else {
        match object_id_from_bytes(row.commit_id.as_slice()) {
            Ok(id) => SubHunkOriginLocation::commit(id, copy_bytes(&path)),
            Err(message) => {
                return Err(RowError::CommitId { message });
            },
        }
    };
    Ok(
        SubHunkOverride {
            origin,
            path,
            anchor: HunkHeader {
                old_start: row.anchor_old_start,
                old_lines: row.anchor_old_lines,
                new_start: row.anchor_new_start,
                new_lines: row.anchor_new_lines,
            },
            ranges: parsed.ranges,
            assignments,
            rows: parsed.rows,
            anchor_diff: row.anchor_diff,
        },
    )
}

/// The git directories whose overrides were loaded from the database.
pub struct HydratedSet {
    dirs: Vec<Vec<u8>>,
}

impl View for HydratedSet {
    type V = Set<Seq<u8>>;

    closed spec fn view(&self) -> Set<Seq<u8>> {
        crate::store::gitdir_set(self.dirs@)
    }
}

impl HydratedSet {
    /// No git directory loaded yet.
    pub fn new() -> (r: Self)
        ensures
            r@ == Set::<Seq<u8>>::empty(),
    {
        let r = HydratedSet { dirs: Vec::new() };
        assert(r@ =~= Set::<Seq<u8>>::empty());
        r
    }

    /// The index of `gitdir`, if it is there.
    fn find(&self, gitdir: &[u8]) -> (r: Option<usize>)
        ensures
            r matches Some(i) ==> i < self.dirs@.len() && self.dirs@[i as int]@ == gitdir@,
            r is None ==> !self@.contains(gitdir@),
    {
        let mut i: usize = 0;
        while i < self.dirs.len()
            invariant
                0 <= i <= self.dirs@.len(),
                forall|j: int| 0 <= j < i ==> #[trigger] self.dirs@[j]@ != gitdir@,
            decreases self.dirs.len() - i,
        {
            if crate::model::bytes_eq(self.dirs[i].as_slice(), gitdir) {
                return Some(i);
            }
            i += 1;
        }
        None
    }
}

/// Record that the overrides of `gitdir` are loaded, returning whether they
/// were not yet: the caller loads them from the database exactly when this
/// returns `true`, so that each git directory is loaded once.
pub fn ensure_hydrated(hydrated: &mut HydratedSet, gitdir: &[u8]) -> (r: bool)
    ensures
        r == !old(hydrated)@.contains(gitdir@),
        final(hydrated)@ == old(hydrated)@.insert(gitdir@),
{
    let ghost before = hydrated.dirs@;
    match hydrated.find(gitdir) {
        Some(_) => {
            assert(hydrated@ =~= crate::store::gitdir_set(before).insert(gitdir@));
            false
        },
        None => {
            let mut g: Vec<u8> = Vec::new();
            let mut i: usize = 0;
            while i < gitdir.len()
                invariant
                    0 <= i <= gitdir@.len(),
                    g@ == gitdir@.take(i as int),
                decreases gitdir.len() - i,
            {
                g.push(gitdir[i]);
                assert(g@ =~= gitdir@.take(i + 1));
                i += 1;
            }
            assert(gitdir@.take(gitdir@.len() as int) =~= gitdir@);
            hydrated.dirs.push(g);
            proof {
                let now = hydrated.dirs@;
                assert(now[before.len() as int]@ == gitdir@);
                assert forall|x: Seq<u8>| crate::store::gitdir_set(now).contains(x) <==> crate::store::gitdir_set(
                    before,
                ).insert(gitdir@).contains(x) by {
                    if crate::store::gitdir_set(before).contains(x) {
                        let j = choose|j: int| 0 <= j < before.len() && #[trigger] before[j]@ == x;
                        assert(now[j] == before[j]);
                    }
                    if crate::store::gitdir_set(now).contains(x) {
                        let j = choose|j: int| 0 <= j < now.len() && #[trigger] now[j]@ == x;
                        if j < before.len() {
                            assert(now[j] == before[j]);
                        }
                    }
                }
                assert(hydrated@ =~= crate::store::gitdir_set(before).insert(gitdir@));
            }
            true
        },
    }
}

/// Loading happens once per git directory: after a first
/// [`ensure_hydrated`] for `gitdir`, the next one says it is loaded.
pub proof fn lemma_hydrate_once(loaded: Set<Seq<u8>>, gitdir: Seq<u8>)
    ensures
        loaded.insert(gitdir).contains(gitdir),
        loaded.insert(gitdir).insert(gitdir) == loaded.insert(gitdir),
{
    assert(loaded.insert(gitdir).insert(gitdir) =~= loaded.insert(gitdir));
}

/// Forget that the overrides of `gitdir` were loaded, so that the next
/// [`ensure_hydrated`] loads them again.
pub fn clear_hydrated_for_tests(hydrated: &mut HydratedSet, gitdir: &[u8])
    ensures
        final(hydrated)@ == old(hydrated)@.remove(gitdir@),
{
    let ghost orig = hydrated@;
    let mut found = hydrated.find(gitdir);
    while found.is_some()
        invariant
            hydrated@.remove(gitdir@) == orig.remove(gitdir@),
            found matches Some(i) ==> i < hydrated.dirs@.len() && hydrated.dirs@[i as int]@
                == gitdir@,
            found is None ==> !hydrated@.contains(gitdir@),
        decreases hydrated.dirs@.len(),
    {
        let i = found.unwrap();
        let ghost before = hydrated.dirs@;
        hydrated.dirs.remove(i);
        proof {
            let mid = hydrated.dirs@;
            assert(mid == before.remove(i as int));
            assert(crate::store::gitdir_set(mid).remove(gitdir@) =~= crate::store::gitdir_set(
                before,
            ).remove(gitdir@)) by {
                assert forall|x: Seq<u8>| #[trigger] crate::store::gitdir_set(mid).remove(
                    gitdir@,
                ).contains(x) <==> crate::store::gitdir_set(before).remove(gitdir@).contains(x) by {
                    if x != gitdir@ && crate::store::gitdir_set(before).contains(x) {
                        let j = choose|j: int| 0 <= j < before.len() && #[trigger] before[j]@ == x;
                        assert(j != i);
                        let j2 = if j < i { j } else { j - 1 };
                        assert(mid[j2] == before[j]);
                    }
                    if crate::store::gitdir_set(mid).contains(x) {
                        let j = choose|j: int| 0 <= j < mid.len() && #[trigger] mid[j]@ == x;
                        let j2 = if j < i { j } else { j + 1 };
                        assert(mid[j] == before[j2]);
                    }
                }
            }
        }
        found = hydrated.find(gitdir);
    }
    assert(hydrated@ =~= hydrated@.remove(gitdir@));
}

/// The view of the outcome of parsing a row's JSON columns.
pub open spec fn parsed_view(p: Result<ParsedColumns, String>) -> Option<ParsedView> {
    match p {
        Ok(c) => Some(c@),
        Err(_) => None,
    }
}

/// The views of rows read from the database with their parsed columns.
pub open spec fn loaded_view(items: Seq<(SubHunkOverrideRow, Result<ParsedColumns, String>)>) -> Seq<
    (RowView, Option<ParsedView>),
> {
    items.map_values(|it: (SubHunkOverrideRow, Result<ParsedColumns, String>)| (it.0@, parsed_view(it.1)))
}

/// The store after loading the first `n` rows for project `gitdir`, and the
/// number of rows that read back: each such row's override is stored, in
/// row order; the others are skipped.
pub open spec fn hydrate_upto(
    v: crate::store::StoreView,
    gitdir: Seq<u8>,
    items: Seq<(RowView, Option<ParsedView>)>,
    n: int,
) -> (crate::store::StoreView, nat)
    decreases n,
{
    if n <= 0 {
        (v, 0)
    } else {
        let prev = hydrate_upto(v, gitdir, items, n - 1);
        let row = items[n - 1].0;
        match items[n - 1].1 {
            Some(p) => if row_reads(row, true) {
                (crate::store::store_insert(prev.0, gitdir, row_override(row, p)), prev.1 + 1)
            } else {
                prev
            },
            None => prev,
        }
    }
}

/// A loaded row reads back: it parsed, has the current shape version and an
/// empty or object-id commit id.
pub open spec fn row_loads(it: (RowView, Option<ParsedView>)) -> bool {
    it.1 is Some && row_reads(it.0, true)
}

/// The override a loaded row stands for.
pub open spec fn loaded_override(it: (RowView, Option<ParsedView>)) -> OverrideView {
    row_override(it.0, it.1->0)
}

/// The store key of the override a loaded row stands for.
pub open spec fn loaded_key(gitdir: Seq<u8>, it: (RowView, Option<ParsedView>)) -> (
    Seq<u8>,
    LocationView,
    HunkHeader,
) {
    crate::store::override_key(gitdir, loaded_override(it))
}

/// How many of the first `n` rows read back.
pub open spec fn loading_count(items: Seq<(RowView, Option<ParsedView>)>, n: int) -> nat
    decreases n,
{
    if n <= 0 {
        0
    } else {
        loading_count(items, n - 1) + if row_loads(items[n - 1]) {
            1nat
        } else {
            0nat
        }
    }
}

/// Hydration loads every row that reads back, whatever its origin: the
/// count is the number of such rows; the override of each such row that no
/// later such row replaces is stored under its own key (a commit location
/// included); every key that no such row has keeps what it held; and the
/// project is known once some row loaded.
pub proof fn lemma_hydrate_loads(
    v: crate::store::StoreView,
    gitdir: Seq<u8>,
    items: Seq<(RowView, Option<ParsedView>)>,
    n: int,
)
    requires
        0 <= n <= items.len(),
    ensures
        hydrate_upto(v, gitdir, items, n).1 == loading_count(items, n),
        forall|i: int|
            0 <= i < n && row_loads(#[trigger] items[i]) && (forall|j: int|
                i < j < n && row_loads(items[j]) ==> loaded_key(gitdir, items[j]) != loaded_key(
                    gitdir,
                    items[i],
                )) ==> hydrate_upto(v, gitdir, items, n).0.overrides.contains_key(
                loaded_key(gitdir, items[i]),
            ) && hydrate_upto(v, gitdir, items, n).0.overrides[loaded_key(gitdir, items[i])]
                == loaded_override(items[i]),
        forall|k: (Seq<u8>, LocationView, HunkHeader)|
            (forall|i: int| 0 <= i < n && row_loads(items[i]) ==> loaded_key(gitdir, items[i]) != k)
                ==> (#[trigger] hydrate_upto(v, gitdir, items, n).0.overrides.contains_key(k)
                == v.overrides.contains_key(k) && hydrate_upto(v, gitdir, items, n).0.overrides[k]
                == v.overrides[k]),
        loading_count(items, n) > 0 ==> hydrate_upto(v, gitdir, items, n).0.projects == v.projects.insert(
            gitdir,
        ),
        loading_count(items, n) == 0 ==> hydrate_upto(v, gitdir, items, n).0 == v,
    decreases n,
{
    if n > 0 {
        lemma_hydrate_loads(v, gitdir, items, n - 1);
        let prev = hydrate_upto(v, gitdir, items, n - 1);
        let now = hydrate_upto(v, gitdir, items, n);
        let it = items[n - 1];
        if row_loads(it) {
            assert(it.1 matches Some(p) && row_override(it.0, p) == loaded_override(it));
            let key = loaded_key(gitdir, it);
            assert(now.0.overrides == prev.0.overrides.insert(key, loaded_override(it)));
            assert forall|i: int|
                0 <= i < n && row_loads(#[trigger] items[i]) && (forall|j: int|
                    i < j < n && row_loads(items[j]) ==> loaded_key(gitdir, items[j]) != loaded_key(
                        gitdir,
                        items[i],
                    )) implies now.0.overrides.contains_key(loaded_key(gitdir, items[i]))
                && now.0.overrides[loaded_key(gitdir, items[i])] == loaded_override(items[i]) by {
                if i < n - 1 {
                    assert(row_loads(items[n - 1]));
                    assert(loaded_key(gitdir, items[n - 1]) != loaded_key(gitdir, items[i]));
                }
            }
            assert forall|k: (Seq<u8>, LocationView, HunkHeader)|
                (forall|i: int| 0 <= i < n && row_loads(items[i]) ==> loaded_key(gitdir, items[i]) != k)
                    implies (#[trigger] now.0.overrides.contains_key(k) == v.overrides.contains_key(k)
                && now.0.overrides[k] == v.overrides[k]) by {
                assert(row_loads(items[n - 1]) ==> loaded_key(gitdir, items[n - 1]) != k);
                assert forall|i: int| 0 <= i < n - 1 && row_loads(items[i]) implies loaded_key(
                    gitdir,
                    items[i],
                ) != k by {}
            }
            if loading_count(items, n - 1) > 0 {
                assert(now.0.projects =~= v.projects.insert(gitdir));
            }
        } else {
            assert(now == prev);
            assert forall|i: int|
                0 <= i < n && row_loads(#[trigger] items[i]) && (forall|j: int|
                    i < j < n && row_loads(items[j]) ==> loaded_key(gitdir, items[j]) != loaded_key(
                        gitdir,
                        items[i],
                    )) implies now.0.overrides.contains_key(loaded_key(gitdir, items[i]))
                && now.0.overrides[loaded_key(gitdir, items[i])] == loaded_override(items[i]) by {
                assert(i < n - 1);
            }
            assert forall|k: (Seq<u8>, LocationView, HunkHeader)|
                (forall|i: int| 0 <= i < n && row_loads(items[i]) ==> loaded_key(gitdir, items[i]) != k)
                    implies (#[trigger] now.0.overrides.contains_key(k) == v.overrides.contains_key(k)
                && now.0.overrides[k] == v.overrides[k]) by {
                assert forall|i: int| 0 <= i < n - 1 && row_loads(items[i]) implies loaded_key(
                    gitdir,
                    items[i],
                ) != k by {}
            }
        }
    }
}

/// Populate the store for `gitdir` from the override rows read from the
/// database (each with the outcome of parsing its JSON columns). Returns the
/// number of overrides loaded; rows that do not read back are skipped.
pub fn hydrate_from_db(
    store: &mut crate::store::OverrideStore,
    gitdir: &[u8],
    rows: Vec<(SubHunkOverrideRow, Result<ParsedColumns, String>)>,
) -> (r: usize)
    requires
        old(store).wf(),
    ensures
        final(store).wf(),
        (final(store)@, r as nat) == hydrate_upto(old(store)@, gitdir@, loaded_view(rows@), rows@.len() as int),
        r as nat == loading_count(loaded_view(rows@), rows@.len() as int),
        forall|i: int|
            0 <= i < rows@.len() && row_loads(#[trigger] loaded_view(rows@)[i]) && (forall|j: int|
                i < j < rows@.len() && row_loads(loaded_view(rows@)[j]) ==> loaded_key(
                    gitdir@,
                    loaded_view(rows@)[j],
                ) != loaded_key(gitdir@, loaded_view(rows@)[i])) ==> final(store)@.overrides[loaded_key(
                gitdir@,
                loaded_view(rows@)[i],
            )] == loaded_override(loaded_view(rows@)[i]) && final(store)@.overrides.contains_key(
                loaded_key(gitdir@, loaded_view(rows@)[i]),
            ),
{
    proof {
        lemma_hydrate_loads(store@, gitdir@, loaded_view(rows@), rows@.len() as int);
    }
    let ghost items = loaded_view(rows@);
    let total = rows.len();
    let ghost v0 = store@;
    let mut rest = rows;
    let mut count: usize = 0;
    let mut k: usize = 0;
    while rest.len() > 0
        invariant
            k + rest@.len() == total,
            items.len() == total,
            forall|j: int| 0 <= j < rest@.len() ==> loaded_view(rest@)[j] == items[k + j],
            store.wf(),
            (store@, count as nat) == hydrate_upto(v0, gitdir@, items, k as int),
            count <= k,
        decreases rest@.len(),
    {
        let ghost before_rest = rest@;
        let (row, parsed) = rest.remove(0);
        proof {
            assert(loaded_view(before_rest)[0] == items[k as int]);
            assert forall|j: int| 0 <= j < rest@.len() implies loaded_view(rest@)[j] == items[k + 1 + j] by {
                assert(rest@[j] == before_rest[j + 1]);
                assert(loaded_view(before_rest)[j + 1] == items[k + j + 1]);
            }
        }
        let ghost pv = parsed_view(parsed);
        let ghost rv = row@;
        match from_db_row(row, parsed) {
            Ok(ov) => {
                crate::store::upsert_override(store, gitdir, ov);
                count += 1;
            },
            Err(_) => {},
        }
        k += 1;
    }
    count
}

/// The key of a database row.
pub struct RowKey {
    pub gitdir: String,
    pub path: Vec<u8>,
    pub anchor: HunkHeader,
    pub commit_id: Vec<u8>,
}

/// The view of a row key.
pub struct KeyView {
    pub gitdir: Seq<char>,
    pub path: Seq<u8>,
    pub anchor: HunkHeader,
    pub commit_id: Seq<u8>,
}

impl View for RowKey {
    type V = KeyView;

    open spec fn view(&self) -> KeyView {
        KeyView { gitdir: self.gitdir@, path: self.path@, anchor: self.anchor, commit_id: self.commit_id@ }
    }
}

/// A write to the database.
pub enum DiskWrite {
    /// Insert or replace this row.
    Upsert(SubHunkOverrideRow),
    /// Delete the row with this key, if there is one.
    Delete(RowKey),
}

/// The view of a database write.
pub enum WriteView {
    Upsert(RowView),
    Delete(KeyView),
}

impl View for DiskWrite {
    type V = WriteView;

    open spec fn view(&self) -> WriteView {
        match self {
            DiskWrite::Upsert(row) => WriteView::Upsert(row@),
            DiskWrite::Delete(k) => WriteView::Delete(k@),
        }
    }
}

/// The write that persists override `ov` of git directory `gitdir` with JSON
/// columns `cols`: its row, or, when the size guard refuses it, the deletion
/// of any stale row under its key.
pub open spec fn persist_write(gitdir: Seq<char>, ov: OverrideView, cols: ColumnsView) -> WriteView {
    match spec_to_db_row(gitdir, ov, cols) {
        Some(row) => WriteView::Upsert(row),
        None => WriteView::Delete(
            KeyView { gitdir, path: ov.path, anchor: ov.anchor, commit_id: commit_id_bytes(ov.origin) },
        ),
    }
}

/// Insert or replace `ov` in the store and return the database write that
/// persists it, given the JSON encodings of its structured fields; the
/// override was persisted when that write is an upsert.
///
/// `gitdir` keys the store and `db_gitdir` the database rows.
pub fn upsert_override_persistent(
    store: &mut crate::store::OverrideStore,
    gitdir: &[u8],
    db_gitdir: &String,
    ov: SubHunkOverride,
    columns: OverrideColumns,
) -> (r: DiskWrite)
    requires
        old(store).wf(),
    ensures
        final(store).wf(),
        final(store)@ == crate::store::store_insert(old(store)@, gitdir@, ov@),
        r@ == persist_write(db_gitdir@, ov@, columns@),
{
    let row = to_db_row(db_gitdir, &ov, columns);
    let w = match row {
        Some(row) => DiskWrite::Upsert(row),
        None => DiskWrite::Delete(
            RowKey {
                gitdir: copy_string(db_gitdir),
                path: copy_bytes(&ov.path),
                anchor: ov.anchor,
                commit_id: origin_commit_id_bytes(&ov.origin),
            },
        ),
    };
    crate::store::upsert_override(store, gitdir, ov);
    w
}

/// The key of the worktree row of `path` at `anchor`.
pub open spec fn worktree_row_key(gitdir: Seq<char>, path: Seq<u8>, anchor: HunkHeader) -> KeyView {
    KeyView { gitdir, path, anchor, commit_id: seq![] }
}

/// A copy of a byte slice.
fn copy_slice(b: &[u8]) -> (r: Vec<u8>)
    ensures
        r@ == b@,
{
    let mut g: Vec<u8> = Vec::new();
    let mut i: usize = 0;
    while i < b.len()
        invariant
            0 <= i <= b@.len(),
            g@ == b@.take(i as int),
        decreases b.len() - i,
    {
        g.push(b[i]);
        assert(g@ =~= b@.take(i + 1));
        i += 1;
    }
    assert(b@.take(b@.len() as int) =~= b@);
    g
}

/// Remove the worktree override of `path` at `anchor` from the store,
/// returning it if there was one, together with the key of the database
/// row to delete.
pub fn remove_override_persistent(
    store: &mut crate::store::OverrideStore,
    gitdir: &[u8],
    db_gitdir: &String,
    path: &[u8],
    anchor: HunkHeader,
) -> (r: (Option<SubHunkOverride>, RowKey))
    requires
        old(store).wf(),
    ensures
        final(store).wf(),
        final(store)@ == crate::store::store_remove(old(store)@, crate::store::worktree_key(gitdir@, path@, anchor)),
        crate::store::opt_override(r.0) == crate::store::stored_at(old(store)@, crate::store::worktree_key(gitdir@, path@, anchor)),
        r.1@ == worktree_row_key(db_gitdir@, path@, anchor),
{
    let removed = crate::store::remove_override(store, gitdir, path, anchor);
    let key = RowKey { gitdir: copy_string(db_gitdir), path: copy_slice(path), anchor, commit_id: Vec::new() };
    (removed, key)
}

/// The views of row keys.
pub open spec fn keys_view(v: Seq<RowKey>) -> Seq<KeyView> {
    v.map_values(|k: RowKey| k@)
}

/// Drop the worktree overrides named by `keys` from the store, returning the
/// keys of the database rows to delete, one per name, in order.
pub fn drop_overrides_persistent(
    store: &mut crate::store::OverrideStore,
    gitdir: &[u8],
    db_gitdir: &String,
    keys: &[(Vec<u8>, HunkHeader)],
) -> (r: Vec<RowKey>)
    requires
        old(store).wf(),
    ensures
        final(store).wf(),
        final(store)@ == crate::store::store_drop(old(store)@, gitdir@, crate::store::path_keys_view(keys@)),
        keys_view(r@) == crate::store::path_keys_view(keys@).map_values(
            |k: (Seq<u8>, HunkHeader)| worktree_row_key(db_gitdir@, k.0, k.1),
        ),
{
    crate::store::drop_overrides(store, gitdir, keys);
    let ghost want = crate::store::path_keys_view(keys@).map_values(
        |k: (Seq<u8>, HunkHeader)| worktree_row_key(db_gitdir@, k.0, k.1),
    );
    let mut out: Vec<RowKey> = Vec::new();
    let mut i: usize = 0;
    while i < keys.len()
        invariant
            0 <= i <= keys@.len(),
            want == crate::store::path_keys_view(keys@).map_values(
                |k: (Seq<u8>, HunkHeader)| worktree_row_key(db_gitdir@, k.0, k.1),
            ),
            keys_view(out@) == want.take(i as int),
        decreases keys.len() - i,
    {
        let ghost prev = out@;
        out.push(RowKey { gitdir: copy_string(db_gitdir), path: copy_bytes(&keys[i].0), anchor: keys[i].1, commit_id: Vec::new() });
        assert(keys_view(out@) =~= want.take(i + 1)) by {
            assert(keys_view(prev).len() == i);
            assert forall|j: int| 0 <= j < i + 1 implies #[trigger] keys_view(out@)[j] == want.take(i + 1)[j] by {
                if j < i {
                    assert(out@[j] == prev[j]);
                    assert(keys_view(prev)[j] == want.take(i as int)[j]);
                }
            }
        }
        i += 1;
    }
    assert(want.take(keys@.len() as int) =~= want);
    out
}

/// The `(path, anchor)` key of a row within its git directory.
pub open spec fn row_path_key(r: RowView) -> (Seq<u8>, HunkHeader) {
    (r.path, r.anchor)
}

/// Row `i` is the last worktree row for its key: the one a map keyed by
/// `(path, anchor)` keeps.
pub open spec fn is_kept_row(rows: Seq<RowView>, i: int) -> bool {
    &&& rows[i].commit_id.len() == 0
    &&& forall|j: int|
        i < j < rows.len() && (#[trigger] rows[j]).commit_id.len() == 0 ==> row_path_key(rows[j])
            != row_path_key(rows[i])
}

/// The last worktree row with key `k` among the first `n` rows.
pub open spec fn disk_row_for(rows: Seq<RowView>, k: (Seq<u8>, HunkHeader), n: int) -> Option<RowView>
    decreases n,
{
    if n <= 0 {
        None
    } else if rows[n - 1].commit_id.len() == 0 && row_path_key(rows[n - 1]) == k {
        Some(rows[n - 1])
    } else {
        disk_row_for(rows, k, n - 1)
    }
}

/// The `(path, anchor)` key of an in-memory override.
pub open spec fn mem_key(m: (OverrideView, ColumnsView)) -> (Seq<u8>, HunkHeader) {
    (m.0.path, m.0.anchor)
}

/// Some in-memory override has key `k`.
pub open spec fn mem_has(mem: Seq<(OverrideView, ColumnsView)>, k: (Seq<u8>, HunkHeader)) -> bool {
    exists|j: int| 0 <= j < mem.len() && mem_key(#[trigger] mem[j]) == k
}

/// In-memory override `j` is the last one with its key.
pub open spec fn is_kept_mem(mem: Seq<(OverrideView, ColumnsView)>, j: int) -> bool {
    forall|l: int| j < l < mem.len() ==> mem_key(#[trigger] mem[l]) != mem_key(mem[j])
}

/// The deletions of the worktree rows among the first `n` that no
/// in-memory override has the key of.
pub open spec fn stale_deletes(
    db: Seq<char>,
    rows: Seq<RowView>,
    mem: Seq<(OverrideView, ColumnsView)>,
    n: int,
) -> Seq<WriteView>
    decreases n,
{
    if n <= 0 {
        seq![]
    } else {
        let prev = stale_deletes(db, rows, mem, n - 1);
        let r = rows[n - 1];
        if is_kept_row(rows, n - 1) && !mem_has(mem, row_path_key(r)) {
            prev.push(WriteView::Delete(worktree_row_key(db, r.path, r.anchor)))
        } else {
            prev
        }
    }
}

/// The writes for the first `n` in-memory overrides: a row the size guard
/// refuses is deleted, a row that differs from the stored one (or has
/// none) is upserted, an identical one is left alone.
pub open spec fn sync_writes(
    db: Seq<char>,
    rows: Seq<RowView>,
    mem: Seq<(OverrideView, ColumnsView)>,
    n: int,
) -> Seq<WriteView>
    decreases n,
{
    if n <= 0 {
        seq![]
    } else {
        let prev = sync_writes(db, rows, mem, n - 1);
        let ov = mem[n - 1].0;
        if !is_kept_mem(mem, n - 1) {
            prev
        } else {
            match spec_to_db_row(db, ov, mem[n - 1].1) {
                None => prev.push(WriteView::Delete(worktree_row_key(db, ov.path, ov.anchor))),
                Some(row) => if disk_row_for(rows, (ov.path, ov.anchor), rows.len() as int) == Some(
                    row,
                ) {
                    prev
                } else {
                    prev.push(WriteView::Upsert(row))
                },
            }
        }
    }
}

/// The views of in-memory overrides with their JSON columns.
pub open spec fn mem_view(mem: Seq<(SubHunkOverride, OverrideColumns)>) -> Seq<(OverrideView, ColumnsView)> {
    mem.map_values(|m: (SubHunkOverride, OverrideColumns)| (m.0@, m.1@))
}

/// The views of rows.
pub open spec fn rows_view(rows: Seq<SubHunkOverrideRow>) -> Seq<RowView> {
    rows.map_values(|r: SubHunkOverrideRow| r@)
}

/// The views of database writes.
pub open spec fn writes_view(w: Seq<DiskWrite>) -> Seq<WriteView> {
    w.map_values(|x: DiskWrite| x@)
}

/// Whether two rows are equal.
fn rows_equal(a: &SubHunkOverrideRow, b: &SubHunkOverrideRow) -> (r: bool)
    ensures
        r == (a@ == b@),
{
    let r = a.gitdir == b.gitdir && crate::model::bytes_eq(a.path.as_slice(), b.path.as_slice())
        && a.anchor_old_start == b.anchor_old_start && a.anchor_old_lines == b.anchor_old_lines
        && a.anchor_new_start == b.anchor_new_start && a.anchor_new_lines == b.anchor_new_lines
        && crate::model::bytes_eq(a.commit_id.as_slice(), b.commit_id.as_slice())
        && a.ranges_json == b.ranges_json && a.assignments_json == b.assignments_json
        && a.rows_json == b.rows_json && crate::model::bytes_eq(
        a.anchor_diff.as_slice(),
        b.anchor_diff.as_slice(),
    ) && a.schema_version == b.schema_version;
    proof {
        if a@ == b@ {
            assert(a.gitdir@ == b.gitdir@);
        }
    }
    r
}

/// Whether row `i` is the last worktree row for its key.
fn kept_row(rows: &Vec<SubHunkOverrideRow>, i: usize) -> (r: bool)
    requires
        i < rows@.len(),
    ensures
        r == is_kept_row(rows_view(rows@), i as int),
{
    let ghost rv = rows_view(rows@);
    if rows[i].commit_id.len() != 0 {
        return false;
    }
    let n = rows.len();
    let mut j: usize = i + 1;
    while j < rows.len()
        invariant
            i < j <= rows@.len(),
            rv == rows_view(rows@),
            rv[i as int].commit_id.len() == 0,
            forall|l: int|
                i < l < j && (#[trigger] rv[l]).commit_id.len() == 0 ==> row_path_key(rv[l])
                    != row_path_key(rv[i as int]),
        decreases rows.len() - j,
    {
        assert(rv[j as int] == rows@[j as int]@);
        assert(rv[i as int] == rows@[i as int]@);
        if rows[j].commit_id.len() == 0 && crate::model::bytes_eq(
            rows[j].path.as_slice(),
            rows[i].path.as_slice(),
        ) && rows[j].anchor_old_start == rows[i].anchor_old_start && rows[j].anchor_old_lines
            == rows[i].anchor_old_lines && rows[j].anchor_new_start == rows[i].anchor_new_start
            && rows[j].anchor_new_lines == rows[i].anchor_new_lines {
            return false;
        }
        j += 1;
    }
    true
}

/// Whether some in-memory override has key `(path, anchor)`.
fn mem_has_key(mem: &Vec<(SubHunkOverride, OverrideColumns)>, path: &[u8], anchor: HunkHeader) -> (r:
    bool)
    ensures
        r == mem_has(mem_view(mem@), (path@, anchor)),
{
    let ghost mv = mem_view(mem@);
    let mut j: usize = 0;
    while j < mem.len()
        invariant
            0 <= j <= mem@.len(),
            mv == mem_view(mem@),
            forall|l: int| 0 <= l < j ==> mem_key(#[trigger] mv[l]) != (path@, anchor),
        decreases mem.len() - j,
    {
        assert(mv[j as int] == (mem@[j as int].0@, mem@[j as int].1@));
        if crate::model::bytes_eq(mem[j].0.path.as_slice(), path) && mem[j].0.anchor == anchor {
            return true;
        }
        j += 1;
    }
    false
}

/// Whether in-memory override `j` is the last one with its key.
fn kept_mem(mem: &Vec<(SubHunkOverride, OverrideColumns)>, j: usize) -> (r: bool)
    requires
        j < mem@.len(),
    ensures
        r == is_kept_mem(mem_view(mem@), j as int),
{
    let ghost mv = mem_view(mem@);
    let n = mem.len();
    let mut l: usize = j + 1;
    assert(mv[j as int] == (mem@[j as int].0@, mem@[j as int].1@));
    while l < mem.len()
        invariant
            j < l <= mem@.len(),
            mv == mem_view(mem@),
            mv[j as int] == (mem@[j as int].0@, mem@[j as int].1@),
            forall|x: int| j < x < l ==> mem_key(#[trigger] mv[x]) != mem_key(mv[j as int]),
        decreases mem.len() - l,
    {
        assert(mv[l as int] == (mem@[l as int].0@, mem@[l as int].1@));
        if crate::model::bytes_eq(mem[l].0.path.as_slice(), mem[j].0.path.as_slice())
            && mem[l].0.anchor == mem[j].0.anchor {
            return false;
        }
        l += 1;
    }
    true
}

/// The index of the last worktree row with key `(path, anchor)`.
fn disk_row_index(rows: &Vec<SubHunkOverrideRow>, path: &[u8], anchor: HunkHeader) -> (r: Option<
    usize,
>)
    ensures
        r matches Some(i) ==> i < rows@.len() && disk_row_for(
            rows_view(rows@),
            (path@, anchor),
            rows@.len() as int,
        ) == Some(rows@[i as int]@),
        r is None ==> disk_row_for(rows_view(rows@), (path@, anchor), rows@.len() as int) is None,
{
    let ghost rv = rows_view(rows@);
    let mut n: usize = rows.len();
    while n > 0
        invariant
            0 <= n <= rows@.len(),
            rv == rows_view(rows@),
            disk_row_for(rv, (path@, anchor), rows@.len() as int) == disk_row_for(
                rv,
                (path@, anchor),
                n as int,
            ),
        decreases n,
    {
        let r = &rows[n - 1];
        assert(rv[n - 1] == r@);
        if r.commit_id.len() == 0 && crate::model::bytes_eq(r.path.as_slice(), path) && r.anchor_old_start
            == anchor.old_start && r.anchor_old_lines == anchor.old_lines && r.anchor_new_start
            == anchor.new_start && r.anchor_new_lines == anchor.new_lines {
            return Some(n - 1);
        }
        n -= 1;
    }
    None
}

/// The writes that bring the database rows of a git directory in step with
/// the worktree overrides in memory after a reconcile: the database side is
/// compared with the post-reconcile memory, not memory with memory, so that
/// drift left by an earlier in-memory-only reconcile is caught too.
///
/// `disk_rows` are the rows stored for the directory `db_gitdir`; `mem` are
/// the worktree overrides in memory, each with the JSON encoding of its
/// structured fields. Deletions of stale rows come first, in row order,
/// then the writes for the overrides, in their order.
pub fn disk_writes_after_reconcile(
    db_gitdir: &String,
    disk_rows: &Vec<SubHunkOverrideRow>,
    mem: &Vec<(SubHunkOverride, OverrideColumns)>,
) -> (r: Vec<DiskWrite>)
    ensures
        writes_view(r@) == stale_deletes(
            db_gitdir@,
            rows_view(disk_rows@),
            mem_view(mem@),
            disk_rows@.len() as int,
        ) + sync_writes(db_gitdir@, rows_view(disk_rows@), mem_view(mem@), mem@.len() as int),
{
    let ghost rv = rows_view(disk_rows@);
    let ghost mv = mem_view(mem@);
    let ghost db = db_gitdir@;
    let mut out: Vec<DiskWrite> = Vec::new();
    let mut i: usize = 0;
    assert(writes_view(out@) =~= stale_deletes(db, rv, mv, 0));
    while i < disk_rows.len()
        invariant
            0 <= i <= disk_rows@.len(),
            rv == rows_view(disk_rows@),
            mv == mem_view(mem@),
            db == db_gitdir@,
            writes_view(out@) == stale_deletes(db, rv, mv, i as int),
        decreases disk_rows.len() - i,
    {
        let r = &disk_rows[i];
        assert(rv[i as int] == r@);
        if kept_row(disk_rows, i) && !mem_has_key(mem, r.path.as_slice(), HunkHeader {
            old_start: r.anchor_old_start,
            old_lines: r.anchor_old_lines,
            new_start: r.anchor_new_start,
            new_lines: r.anchor_new_lines,
        }) {
            let ghost prev = out@;
            out.push(
                DiskWrite::Delete(
                    RowKey {
                        gitdir: copy_string(db_gitdir),
                        path: copy_bytes(&r.path),
                        anchor: HunkHeader {
                            old_start: r.anchor_old_start,
                            old_lines: r.anchor_old_lines,
                            new_start: r.anchor_new_start,
                            new_lines: r.anchor_new_lines,
                        },
                        commit_id: Vec::new(),
                    },
                ),
            );
            assert(writes_view(out@) =~= writes_view(prev).push(out@[prev.len() as int]@));
        }
        i += 1;
    }
    let ghost stale = writes_view(out@);
    let mut j: usize = 0;
    assert(writes_view(out@) =~= stale + sync_writes(db, rv, mv, 0));
    while j < mem.len()
        invariant
            0 <= j <= mem@.len(),
            rv == rows_view(disk_rows@),
            mv == mem_view(mem@),
            db == db_gitdir@,
            writes_view(out@) == stale + sync_writes(db, rv, mv, j as int),
        decreases mem.len() - j,
    {
        let ov = &mem[j].0;
        assert(mv[j as int] == (ov@, mem@[j as int].1@));
        if kept_mem(mem, j) {
            let ghost prev = out@;
            let cols = OverrideColumns {
                ranges_json: copy_string(&mem[j].1.ranges_json),
                assignments_json: copy_string(&mem[j].1.assignments_json),
                rows_json: copy_string(&mem[j].1.rows_json),
            };
            assert(cols@ == mem@[j as int].1@);
            match to_db_row(db_gitdir, ov, cols) {
                None => {
                    out.push(
                        DiskWrite::Delete(
                            RowKey {
                                gitdir: copy_string(db_gitdir),
                                path: copy_bytes(&ov.path),
                                anchor: ov.anchor,
                                commit_id: Vec::new(),
                            },
                        ),
                    );
                    assert(writes_view(out@) =~= writes_view(prev).push(out@[prev.len() as int]@));
                },
                Some(row) => {
                    let same = match disk_row_index(disk_rows, ov.path.as_slice(), ov.anchor) {
                        Some(k) => rows_equal(&disk_rows[k], &row),
                        None => false,
                    };
                    if !same {
                        out.push(DiskWrite::Upsert(row));
                        assert(writes_view(out@) =~= writes_view(prev).push(out@[prev.len() as int]@));
                    }
                },
            }
        }
        j += 1;
    }
    out
}

/// No two pairs share a range.
pub open spec fn ranges_distinct(pairs: Seq<(RowRange, TargetView)>) -> bool {
    forall|i: int, j: int| 0 <= i < j < pairs.len() ==> (#[trigger] pairs[i]).0 != (#[trigger] pairs[j]).0
}

/// Pairs with distinct ranges collect into themselves.
proof fn lemma_pairs_collect_distinct(pairs: Seq<(RowRange, TargetView)>)
    requires
        ranges_distinct(pairs),
    ensures
        pairs_collect(pairs) == pairs,
    decreases pairs.len(),
{
    if pairs.len() > 0 {
        let init = pairs.drop_last();
        assert(ranges_distinct(init)) by {
            assert forall|i: int, j: int| 0 <= i < j < init.len() implies (#[trigger] init[i]).0
                != (#[trigger] init[j]).0 by {
                assert(init[i] == pairs[i] && init[j] == pairs[j]);
            }
        }
        lemma_pairs_collect_distinct(init);
        crate::migrate::lemma_key_index(init, pairs.last().0);
        let k = crate::migrate::key_index(init, pairs.last().0);
        if k < init.len() {
            assert(init[k] == pairs[k]);
            assert(pairs[k].0 != pairs[pairs.len() - 1].0);
        }
        assert(init.push(pairs.last()) =~= pairs);
    }
}

/// In pairs with distinct ranges, the target of a range is that of the one
/// pair for it.
proof fn lemma_target_for_distinct(pairs: Seq<(RowRange, TargetView)>, r: RowRange, i: int)
    requires
        ranges_distinct(pairs),
        0 <= i < pairs.len(),
        pairs[i].0 == r,
    ensures
        crate::model::target_for(pairs, r) == Some(pairs[i].1),
    decreases pairs.len(),
{
    if i < pairs.len() - 1 {
        let init = pairs.drop_last();
        assert(pairs[i].0 != pairs[pairs.len() - 1].0);
        assert(ranges_distinct(init)) by {
            assert forall|a: int, b: int| 0 <= a < b < init.len() implies (#[trigger] init[a]).0
                != (#[trigger] init[b]).0 by {
                assert(init[a] == pairs[a] && init[b] == pairs[b]);
            }
        }
        assert(init[i] == pairs[i]);
        lemma_target_for_distinct(init, r, i);
    }
}

/// A range that no pair names has no target.
proof fn lemma_target_for_absent(pairs: Seq<(RowRange, TargetView)>, r: RowRange)
    requires
        forall|i: int| 0 <= i < pairs.len() ==> (#[trigger] pairs[i]).0 != r,
    ensures
        crate::model::target_for(pairs, r) is None,
    decreases pairs.len(),
{
    if pairs.len() > 0 {
        let init = pairs.drop_last();
        assert forall|i: int| 0 <= i < init.len() implies (#[trigger] init[i]).0 != r by {
            assert(init[i] == pairs[i]);
        }
        assert(pairs[pairs.len() - 1] == pairs.last());
        lemma_target_for_absent(init, r);
    }
}

/// Mapping `k` to `v` in pairs with distinct ranges keeps them distinct,
/// gives `k` the target `v` and leaves every other range's target alone.
proof fn lemma_pairs_insert(pairs: Seq<(RowRange, TargetView)>, k: RowRange, v: TargetView, r: RowRange)
    requires
        ranges_distinct(pairs),
    ensures
        ranges_distinct(pairs_insert(pairs, k, v)),
        crate::model::target_for(pairs_insert(pairs, k, v), r) == if r == k {
            Some(v)
        } else {
            crate::model::target_for(pairs, r)
        },
{
    crate::migrate::lemma_key_index(pairs, k);
    let i = crate::migrate::key_index(pairs, k);
    let m = pairs_insert(pairs, k, v);
    if i < pairs.len() {
        assert(m == pairs.update(i, (k, v)));
        assert(ranges_distinct(m)) by {
            assert forall|a: int, b: int| 0 <= a < b < m.len() implies (#[trigger] m[a]).0
                != (#[trigger] m[b]).0 by {
                assert(m[a].0 == pairs[a].0);
                assert(m[b].0 == pairs[b].0);
            }
        }
        if r == k {
            lemma_target_for_distinct(m, r, i);
        } else if exists|j: int| 0 <= j < pairs.len() && #[trigger] pairs[j].0 == r {
            let j = choose|j: int| 0 <= j < pairs.len() && #[trigger] pairs[j].0 == r;
            assert(j != i);
            assert(m[j] == pairs[j]);
            lemma_target_for_distinct(pairs, r, j);
            lemma_target_for_distinct(m, r, j);
        } else {
            assert forall|j: int| 0 <= j < m.len() implies (#[trigger] m[j]).0 != r by {
                if j != i {
                    assert(m[j] == pairs[j]);
                }
            }
            lemma_target_for_absent(pairs, r);
            lemma_target_for_absent(m, r);
        }
    } else {
        assert(m == pairs.push((k, v)));
        assert(m.drop_last() =~= pairs);
        assert(ranges_distinct(m)) by {
            assert forall|a: int, b: int| 0 <= a < b < m.len() implies (#[trigger] m[a]).0
                != (#[trigger] m[b]).0 by {
                assert(m[a] == pairs[a]);
                if b < pairs.len() {
                    assert(m[b] == pairs[b]);
                }
            }
        }
    }
}

/// Collecting pairs gives distinct ranges, each with the target that the
/// last pair for it names: the same range-to-target map.
pub proof fn lemma_pairs_collect_same_map(pairs: Seq<(RowRange, TargetView)>, r: RowRange)
    ensures
        ranges_distinct(pairs_collect(pairs)),
        crate::model::target_for(pairs_collect(pairs), r) == crate::model::target_for(pairs, r),
    decreases pairs.len(),
{
    if pairs.len() > 0 {
        let init = pairs.drop_last();
        lemma_pairs_collect_same_map(init, r);
        lemma_pairs_insert(pairs_collect(init), pairs.last().0, pairs.last().1, r);
    }
}

/// An override written to a row reads back as itself: when the row is not
/// refused for size and its JSON columns parse back to the override's
/// ranges, rows and pairs, reading the row gives the same location, path,
/// anchor, ranges, rows and anchor diff, and the same target for every
/// range; where no range is assigned twice, the very same override.
pub proof fn lemma_row_round_trip(gitdir: Seq<char>, ov: OverrideView, cols: ColumnsView, parsed: ParsedView)
    requires
        spec_to_db_row(gitdir, ov, cols) is Some,
        parsed.ranges == ov.ranges,
        parsed.rows == ov.rows,
        parsed.pairs == ov.assignments,
        crate::model::location_path(ov.origin) == ov.path,
        ov.origin matches LocationView::Commit(id, _) ==> crate::external::is_object_id_len(id.len()),
    ensures
        row_reads(spec_to_db_row(gitdir, ov, cols)->0, true),
        row_override(spec_to_db_row(gitdir, ov, cols)->0, parsed).origin == ov.origin,
        row_override(spec_to_db_row(gitdir, ov, cols)->0, parsed).path == ov.path,
        row_override(spec_to_db_row(gitdir, ov, cols)->0, parsed).anchor == ov.anchor,
        row_override(spec_to_db_row(gitdir, ov, cols)->0, parsed).ranges == ov.ranges,
        row_override(spec_to_db_row(gitdir, ov, cols)->0, parsed).rows == ov.rows,
        row_override(spec_to_db_row(gitdir, ov, cols)->0, parsed).anchor_diff == ov.anchor_diff,
        forall|r: RowRange|
            #[trigger] crate::model::target_for(
                row_override(spec_to_db_row(gitdir, ov, cols)->0, parsed).assignments,
                r,
            ) == crate::model::target_for(ov.assignments, r),
        ranges_distinct(ov.assignments) ==> row_override(
            spec_to_db_row(gitdir, ov, cols)->0,
            parsed,
        ) == ov,
{
    assert forall|r: RowRange|
        #[trigger] crate::model::target_for(
            row_override(spec_to_db_row(gitdir, ov, cols)->0, parsed).assignments,
            r,
        ) == crate::model::target_for(ov.assignments, r) by {
        lemma_pairs_collect_same_map(ov.assignments, r);
    }
    if ranges_distinct(ov.assignments) {
        lemma_pairs_collect_distinct(ov.assignments);
    }
}

/// An override written to the database comes back on reload, wherever it
/// is anchored (worktree or commit): hydrating the row that `to_db_row`
/// wrote for it, with its JSON columns parsed back, loads one override and
/// stores exactly it under its own key.
pub proof fn lemma_hydrate_written(
    v: crate::store::StoreView,
    gitdir: Seq<u8>,
    db_gitdir: Seq<char>,
    ov: OverrideView,
    cols: ColumnsView,
    parsed: ParsedView,
)
    requires
        spec_to_db_row(db_gitdir, ov, cols) is Some,
        parsed.ranges == ov.ranges,
        parsed.rows == ov.rows,
        parsed.pairs == ov.assignments,
        ranges_distinct(ov.assignments),
        crate::model::location_path(ov.origin) == ov.path,
        ov.origin matches LocationView::Commit(id, _) ==> crate::external::is_object_id_len(id.len()),
    ensures
        hydrate_upto(v, gitdir, seq![(spec_to_db_row(db_gitdir, ov, cols)->0, Some(parsed))], 1)
            == (crate::store::store_insert(v, gitdir, ov), 1nat),
{
    lemma_row_round_trip(db_gitdir, ov, cols, parsed);
    let items = seq![(spec_to_db_row(db_gitdir, ov, cols)->0, Some(parsed))];
    assert(items[0].1 == Some(parsed));
    assert(hydrate_upto(v, gitdir, items, 0) == (v, 0nat));
}

} // verus!
