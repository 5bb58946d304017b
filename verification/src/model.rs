//! The data that sub-hunk overrides work on: hunk assignments, assignment
//! targets, origins and the overrides themselves, each with its mathematical
//! view.
use crate::hunks::HunkHeader;
use crate::rows::{RowKind, RowRange};
use vstd::prelude::*;
use vstd::string::StringExecFns;

verus! {

/// Where a (sub-)hunk is assigned: a stack, or a branch by its full ref name.
#[derive(Debug, Clone, PartialEq, Eq)]
pub enum HunkAssignmentTarget {
    /// The stack with this id.
    Stack { stack_id: u128 },
    /// The branch with this full reference name.
    Branch { branch_ref_bytes: Vec<u8> },
}

/// The view of an assignment target.
pub enum TargetView {
    Stack(u128),
    Branch(Seq<u8>),
}

impl View for HunkAssignmentTarget {
    type V = TargetView;

    open spec fn view(&self) -> TargetView {
        match self {
            HunkAssignmentTarget::Stack { stack_id } => TargetView::Stack(*stack_id),
            HunkAssignmentTarget::Branch { branch_ref_bytes } => TargetView::Branch(
                branch_ref_bytes@,
            ),
        }
    }
}

/// Where a sub-hunk override is anchored.
#[derive(Debug, Clone, PartialEq, Eq, Hash)]
pub enum SubHunkOriginLocation {
    /// Override anchored to a hunk in the live worktree diff for `path`.
    Worktree { path: Vec<u8> },
    /// Override anchored to a hunk in the diff of the commit with the raw
    /// object id `id` against its parent, for `path`.
    Commit { id: Vec<u8>, path: Vec<u8> },
}

/// The view of an origin location.
pub enum LocationView {
    Worktree(Seq<u8>),
    Commit(Seq<u8>, Seq<u8>),
}

impl View for SubHunkOriginLocation {
    type V = LocationView;

    open spec fn view(&self) -> LocationView {
        match self {
            SubHunkOriginLocation::Worktree { path } => LocationView::Worktree(path@),
            SubHunkOriginLocation::Commit { id, path } => LocationView::Commit(id@, path@),
        }
    }
}

/// The path of an origin location.
pub open spec fn location_path(l: LocationView) -> Seq<u8> {
    match l {
        LocationView::Worktree(p) => p,
        LocationView::Commit(_, p) => p,
    }
}

/// The commit id of an origin location, `None` for the worktree.
pub open spec fn location_commit_id(l: LocationView) -> Option<Seq<u8>> {
    match l {
        LocationView::Worktree(_) => None,
        LocationView::Commit(id, _) => Some(id),
    }
}

/// Whether the bytes of `a` and `b` are equal.
pub fn bytes_eq(a: &[u8], b: &[u8]) -> (r: bool)
    ensures
        r == (a@ == b@),
{
    if a.len() != b.len() {
        return false;
    }
    let mut i: usize = 0;
    while i < a.len()
        invariant
            0 <= i <= a.len(),
            a.len() == b.len(),
            forall|k: int| 0 <= k < i ==> a@[k] == b@[k],
        decreases a.len() - i,
    {
        if a[i] != b[i] {
            return false;
        }
        i += 1;
    }
    assert(a@ =~= b@);
    true
}

/// A copy of the bytes of `v`.
pub fn copy_bytes(v: &Vec<u8>) -> (r: Vec<u8>)
    ensures
        r@ == v@,
{
    let mut out: Vec<u8> = Vec::new();
    let mut i: usize = 0;
    while i < v.len()
        invariant
            0 <= i <= v.len(),
            out@ == v@.take(i as int),
        decreases v.len() - i,
    {
        out.push(v[i]);
        assert(out@ =~= v@.take(i + 1));
        i += 1;
    }
    assert(v@.take(v.len() as int) =~= v@);
    out
}

/// A copy of a vector of copyable values.
pub fn copy_vec<T: Copy>(v: &Vec<T>) -> (r: Vec<T>)
    ensures
        r@ == v@,
{
    let mut out: Vec<T> = Vec::new();
    let mut i: usize = 0;
    while i < v.len()
        invariant
            0 <= i <= v.len(),
            out@ == v@.take(i as int),
        decreases v.len() - i,
    {
        out.push(v[i]);
        assert(out@ =~= v@.take(i + 1));
        i += 1;
    }
    assert(v@.take(v.len() as int) =~= v@);
    out
}

impl SubHunkOriginLocation {
    /// Construct a worktree-anchored override key for `path`.
    pub fn worktree(path: Vec<u8>) -> (r: Self)
        ensures
            r@ == LocationView::Worktree(path@),
    {
        SubHunkOriginLocation::Worktree { path }
    }

    /// Construct a commit-anchored override key for `path` inside the commit
    /// with raw object id `id`.
    pub fn commit(id: Vec<u8>, path: Vec<u8>) -> (r: Self)
        ensures
            r@ == LocationView::Commit(id@, path@),
    {
        SubHunkOriginLocation::Commit { id, path }
    }

    /// The path the override is anchored on, whatever the variant.
    pub fn path(&self) -> (r: &Vec<u8>)
        ensures
            r@ == location_path(self@),
    {
        match self {
            SubHunkOriginLocation::Worktree { path } => path,
            SubHunkOriginLocation::Commit { path, .. } => path,
        }
    }

    /// The commit id the override is anchored to, or `None` for the
    /// worktree case.
    pub fn commit_id(&self) -> (r: Option<Vec<u8>>)
        ensures
            r matches Some(v) ==> location_commit_id(self@) == Some(v@),
            r is None ==> location_commit_id(self@) is None,
    {
        match self {
            SubHunkOriginLocation::Worktree { .. } => None,
            SubHunkOriginLocation::Commit { id, .. } => Some(copy_bytes(id)),
        }
    }

    /// True iff this is a worktree-anchored override.
    pub fn is_worktree(&self) -> (r: bool)
        ensures
            r == (self@ is Worktree),
    {
        match self {
            SubHunkOriginLocation::Worktree { .. } => true,
            SubHunkOriginLocation::Commit { .. } => false,
        }
    }

    /// The empty-path worktree location that stands in for a missing origin.
    pub fn default_for_serde() -> (r: Self)
        ensures
            r@ == LocationView::Worktree(seq![]),
    {
        SubHunkOriginLocation::Worktree { path: Vec::new() }
    }

    /// A copy of this location.
    pub fn duplicate(&self) -> (r: Self)
        ensures
            r@ == self@,
    {
        match self {
            SubHunkOriginLocation::Worktree { path } => SubHunkOriginLocation::Worktree {
                path: copy_bytes(path),
            },
            SubHunkOriginLocation::Commit { id, path } => SubHunkOriginLocation::Commit {
                id: copy_bytes(id),
                path: copy_bytes(path),
            },
        }
    }

    /// Whether two locations are the same.
    pub fn same_as(&self, other: &Self) -> (r: bool)
        ensures
            r == (self@ == other@),
    {
        match (self, other) {
            (
                SubHunkOriginLocation::Worktree { path: a },
                SubHunkOriginLocation::Worktree { path: b },
            ) => bytes_eq(a, b),
            (
                SubHunkOriginLocation::Commit { id: ia, path: pa },
                SubHunkOriginLocation::Commit { id: ib, path: pb },
            ) => bytes_eq(ia, ib) && bytes_eq(pa, pb),
            _ => false,
        }
    }
}

impl Default for SubHunkOriginLocation {
    /// The empty-path worktree location: the stand-in for a missing origin.
    fn default() -> (r: Self)
        ensures
            r@ == LocationView::Worktree(seq![]),
    {
        SubHunkOriginLocation::Worktree { path: Vec::new() }
    }
}

impl HunkAssignmentTarget {
    /// A copy of this target.
    pub fn duplicate(&self) -> (r: Self)
        ensures
            r@ == self@,
    {
        match self {
            HunkAssignmentTarget::Stack { stack_id } => HunkAssignmentTarget::Stack {
                stack_id: *stack_id,
            },
            HunkAssignmentTarget::Branch { branch_ref_bytes } => HunkAssignmentTarget::Branch {
                branch_ref_bytes: copy_bytes(branch_ref_bytes),
            },
        }
    }
}

/// In-memory provenance of a sub-hunk assignment: the anchor it was carved
/// out of, its row range there, and the row kinds of the whole anchor body.
#[derive(Debug, Clone)]
pub struct SubHunkOrigin {
    /// The natural worktree hunk this sub-hunk was carved out of.
    pub anchor: HunkHeader,
    /// The row range within the anchor's diff body.
    pub range: RowRange,
    /// The parsed row kinds of the whole anchor body.
    pub rows: Vec<RowKind>,
}

/// The view of a sub-hunk origin.
pub struct SubOriginView {
    pub anchor: HunkHeader,
    pub range: RowRange,
    pub rows: Seq<RowKind>,
}

impl View for SubHunkOrigin {
    type V = SubOriginView;

    open spec fn view(&self) -> SubOriginView {
        SubOriginView { anchor: self.anchor, range: self.range, rows: self.rows@ }
    }
}

impl SubHunkOrigin {
    /// A copy of this origin.
    pub fn duplicate(&self) -> (r: Self)
        ensures
            r@ == self@,
    {
        SubHunkOrigin { anchor: self.anchor, range: self.range, rows: copy_vec(&self.rows) }
    }
}

/// A hunk, or a sub-hunk carved out of one, with the stack or branch it is
/// assigned to.
#[derive(Debug, Clone)]
pub struct HunkAssignment {
    /// A random identifier of the assignment.
    pub id: Option<u128>,
    /// The hunk's header, if the change is a textual hunk.
    pub hunk_header: Option<HunkHeader>,
    /// The path of the changed file, for display.
    pub path: String,
    /// The raw bytes of the path of the changed file.
    pub path_bytes: Vec<u8>,
    /// The stack the hunk is assigned to.
    pub stack_id: Option<u128>,
    /// The branch the hunk is assigned to, by its full reference name.
    pub branch_ref_bytes: Option<Vec<u8>>,
    /// The added line numbers.
    pub line_nums_added: Option<Vec<usize>>,
    /// The removed line numbers.
    pub line_nums_removed: Option<Vec<usize>>,
    /// The hunk's diff body.
    pub diff: Option<Vec<u8>>,
    /// Where this sub-hunk was carved from, if it is one.
    pub sub_hunk_origin: Option<SubHunkOrigin>,
}

/// The view of an assignment. The random `id` is left out; which ids are
/// kept and which are fresh is stated apart (`apply::ids_match`).
pub struct AssignmentView {
    pub hunk_header: Option<HunkHeader>,
    pub path: Seq<char>,
    pub path_bytes: Seq<u8>,
    pub stack_id: Option<u128>,
    pub branch_ref_bytes: Option<Seq<u8>>,
    pub line_nums_added: Option<Seq<usize>>,
    pub line_nums_removed: Option<Seq<usize>>,
    pub diff: Option<Seq<u8>>,
    pub sub_hunk_origin: Option<SubOriginView>,
}

/// The view of optional bytes.
pub open spec fn opt_bytes(o: Option<Vec<u8>>) -> Option<Seq<u8>> {
    match o {
        Some(v) => Some(v@),
        None => None,
    }
}

/// The view of optional line numbers.
pub open spec fn opt_nums(o: Option<Vec<usize>>) -> Option<Seq<usize>> {
    match o {
        Some(v) => Some(v@),
        None => None,
    }
}

/// The view of an optional sub-hunk origin.
pub open spec fn opt_origin(o: Option<SubHunkOrigin>) -> Option<SubOriginView> {
    match o {
        Some(v) => Some(v@),
        None => None,
    }
}

impl View for HunkAssignment {
    type V = AssignmentView;

    open spec fn view(&self) -> AssignmentView {
        AssignmentView {
            hunk_header: self.hunk_header,
            path: self.path@,
            path_bytes: self.path_bytes@,
            stack_id: self.stack_id,
            branch_ref_bytes: opt_bytes(self.branch_ref_bytes),
            line_nums_added: opt_nums(self.line_nums_added),
            line_nums_removed: opt_nums(self.line_nums_removed),
            diff: opt_bytes(self.diff),
            sub_hunk_origin: opt_origin(self.sub_hunk_origin),
        }
    }
}

/// A copy of optional bytes.
pub fn copy_opt_bytes(o: &Option<Vec<u8>>) -> (r: Option<Vec<u8>>)
    ensures
        opt_bytes(r) == opt_bytes(*o),
{
    match o {
        Some(v) => Some(copy_bytes(v)),
        None => None,
    }
}

/// A copy of optional line numbers.
pub fn copy_opt_nums(o: &Option<Vec<usize>>) -> (r: Option<Vec<usize>>)
    ensures
        opt_nums(r) == opt_nums(*o),
{
    match o {
        Some(v) => Some(copy_vec(v)),
        None => None,
    }
}

/// A copy of a string.
pub fn copy_string(s: &String) -> (r: String)
    ensures
        r@ == s@,
{
    String::from_str(s.as_str())
}

impl HunkAssignment {
    /// A copy of this assignment, keeping its id.
    pub fn duplicate(&self) -> (r: Self)
        ensures
            r@ == self@,
            r.id == self.id,
    {
        HunkAssignment {
            id: self.id,
            hunk_header: self.hunk_header,
            path: copy_string(&self.path),
            path_bytes: copy_bytes(&self.path_bytes),
            stack_id: self.stack_id,
            branch_ref_bytes: copy_opt_bytes(&self.branch_ref_bytes),
            line_nums_added: copy_opt_nums(&self.line_nums_added),
            line_nums_removed: copy_opt_nums(&self.line_nums_removed),
            diff: copy_opt_bytes(&self.diff),
            sub_hunk_origin: match &self.sub_hunk_origin {
                Some(o) => Some(o.duplicate()),
                None => None,
            },
        }
    }
}

/// A user-issued sub-hunk split of the natural hunk `anchor` of `path`.
///
/// `ranges` is the full partition of the anchor's non-context rows (user
/// ranges and residuals); `assignments` maps some of those ranges to a
/// target other than the anchor's; `rows` and `anchor_diff` cache the
/// anchor's parsed rows and its diff (with `@@` header).
#[derive(Debug, Clone)]
pub struct SubHunkOverride {
    /// Where this override is anchored; its path equals `path`.
    pub origin: SubHunkOriginLocation,
    /// The path of the anchored file.
    pub path: Vec<u8>,
    /// The natural hunk that is split.
    pub anchor: HunkHeader,
    /// Sorted, disjoint, non-empty ranges within the anchor.
    pub ranges: Vec<RowRange>,
    /// Per-range reassignment, as `(range, target)` pairs; where a range
    /// occurs twice, the later pair holds.
    pub assignments: Vec<(RowRange, HunkAssignmentTarget)>,
    /// The parsed row kinds of the anchor's diff body.
    pub rows: Vec<RowKind>,
    /// The anchor's diff body with its `@@` header.
    pub anchor_diff: Vec<u8>,
}

/// The view of an override.
pub struct OverrideView {
    pub origin: LocationView,
    pub path: Seq<u8>,
    pub anchor: HunkHeader,
    pub ranges: Seq<RowRange>,
    pub assignments: Seq<(RowRange, TargetView)>,
    pub rows: Seq<RowKind>,
    pub anchor_diff: Seq<u8>,
}

/// The view of `(range, target)` pairs.
pub open spec fn pairs_view(v: Seq<(RowRange, HunkAssignmentTarget)>) -> Seq<(RowRange, TargetView)> {
    v.map_values(|p: (RowRange, HunkAssignmentTarget)| (p.0, p.1@))
}

impl View for SubHunkOverride {
    type V = OverrideView;

    open spec fn view(&self) -> OverrideView {
        OverrideView {
            origin: self.origin@,
            path: self.path@,
            anchor: self.anchor,
            ranges: self.ranges@,
            assignments: pairs_view(self.assignments@),
            rows: self.rows@,
            anchor_diff: self.anchor_diff@,
        }
    }
}

/// The target of the last pair for range `r`, if there is one: a later pair
/// for the same range overrides an earlier one, as in a map built from the
/// pairs in order.
pub open spec fn target_for(pairs: Seq<(RowRange, TargetView)>, r: RowRange) -> Option<TargetView>
    decreases pairs.len(),
{
    if pairs.len() == 0 {
        None
    } else if pairs.last().0 == r {
        Some(pairs.last().1)
    } else {
        target_for(pairs.drop_last(), r)
    }
}

/// The target assigned to range `r`, if any; the last pair for `r` wins.
pub fn lookup_target(pairs: &Vec<(RowRange, HunkAssignmentTarget)>, r: RowRange) -> (res: Option<
    HunkAssignmentTarget,
>)
    ensures
        res matches Some(t) ==> target_for(pairs_view(pairs@), r) == Some(t@),
        res is None ==> target_for(pairs_view(pairs@), r) is None,
{
    let ghost pv = pairs_view(pairs@);
    assert(pv.take(pv.len() as int) =~= pv);
    let mut i: usize = pairs.len();
    while i > 0
        invariant
            0 <= i <= pairs.len(),
            pv == pairs_view(pairs@),
            target_for(pv, r) == target_for(pv.take(i as int), r),
        decreases i,
    {
        assert(pv.take(i as int).drop_last() =~= pv.take(i - 1));
        assert(pv.take(i as int).last() == pv[i - 1]);
        if pairs[i - 1].0 == r {
            return Some(pairs[i - 1].1.duplicate());
        }
        i -= 1;
    }
    None
}

/// A copy of `(range, target)` pairs.
pub fn copy_pairs(v: &Vec<(RowRange, HunkAssignmentTarget)>) -> (r: Vec<(RowRange, HunkAssignmentTarget)>)
    ensures
        pairs_view(r@) == pairs_view(v@),
{
    let mut out: Vec<(RowRange, HunkAssignmentTarget)> = Vec::new();
    let mut i: usize = 0;
    while i < v.len()
        invariant
            0 <= i <= v.len(),
            pairs_view(out@) == pairs_view(v@.take(i as int)),
        decreases v.len() - i,
    {
        let ghost before = out@;
        let t = v[i].1.duplicate();
        out.push((v[i].0, t));
        assert(pairs_view(before).len() == i);
        assert(before.len() == i);
        assert(out@.len() == i + 1);
        assert forall|k: int| 0 <= k < i + 1 implies #[trigger] pairs_view(out@)[k] == pairs_view(
            v@.take(i + 1),
        )[k] by {
            if k < i {
                assert(out@[k] == before[k]);
                assert(pairs_view(before)[k] == pairs_view(v@.take(i as int))[k]);
                assert(v@.take(i as int)[k] == v@.take(i + 1)[k]);
            } else {
                assert(out@[k] == (v@[i as int].0, t));
                assert(v@.take(i + 1)[k] == v@[i as int]);
            }
        }
        assert(pairs_view(out@) =~= pairs_view(v@.take(i + 1)));
        i += 1;
    }
    assert(v@.take(v.len() as int) =~= v@);
    out
}

impl SubHunkOverride {
    /// A copy of this override.
    pub fn duplicate(&self) -> (r: Self)
        ensures
            r@ == self@,
    {
        SubHunkOverride {
            origin: self.origin.duplicate(),
            path: copy_bytes(&self.path),
            anchor: self.anchor,
            ranges: copy_vec(&self.ranges),
            assignments: copy_pairs(&self.assignments),
            rows: copy_vec(&self.rows),
            anchor_diff: copy_bytes(&self.anchor_diff),
        }
    }
}

} // verus!
