//! Applying a list of stored overrides to the hunk assignments of a
//! worktree or commit: each override either finds its anchor, migrates to
//! the hunks that now hold its rows, or is dropped.
use crate::migrate::{migrate_override_multi, migrated_view, spec_migrate};
use crate::model::{bytes_eq, AssignmentView, HunkAssignment, OverrideView, SubHunkOverride};
use crate::overrides::{assignment_fits, carves, materialize_override, spec_materialize, views_of};
use vstd::prelude::*;

verus! {

/// Outcome of applying a single override during reconcile.
#[derive(Debug, Clone)]
pub enum OverrideOutcome {
    /// Anchor matched exactly; override unchanged.
    KeepAsIs,
    /// The anchor's natural shape changed but the override migrated to one
    /// or more new anchors with remapped ranges; the store should drop the
    /// old key and insert each migrated entry.
    Migrated(Vec<SubHunkOverride>),
    /// Override could not be matched or migrated; drop it from the store.
    Drop,
}

/// The view of an outcome.
pub enum OutcomeView {
    KeepAsIs,
    Migrated(Seq<OverrideView>),
    Drop,
}

/// The views of a sequence of overrides.
pub open spec fn overrides_view(v: Seq<SubHunkOverride>) -> Seq<OverrideView> {
    v.map_values(|o: SubHunkOverride| o@)
}

impl View for OverrideOutcome {
    type V = OutcomeView;

    open spec fn view(&self) -> OutcomeView {
        match self {
            OverrideOutcome::KeepAsIs => OutcomeView::KeepAsIs,
            OverrideOutcome::Migrated(v) => OutcomeView::Migrated(overrides_view(v@)),
            OverrideOutcome::Drop => OutcomeView::Drop,
        }
    }
}

/// The views of a sequence of outcomes.
pub open spec fn outcomes_view(v: Seq<OverrideOutcome>) -> Seq<OutcomeView> {
    v.map_values(|o: OverrideOutcome| o@)
}

/// Assignment `a` is the anchor of override `ov`: same path, same header.
pub open spec fn is_anchor_of(a: AssignmentView, ov: OverrideView) -> bool {
    a.path_bytes == ov.path && a.hunk_header == Some(ov.anchor)
}

/// The first index at or after `i` whose assignment is the anchor of `ov`.
pub open spec fn first_anchor_from(s: Seq<AssignmentView>, ov: OverrideView, i: int) -> Option<
    int,
>
    decreases s.len() - i,
{
    if i < 0 || i >= s.len() {
        None
    } else if is_anchor_of(s[i], ov) {
        Some(i)
    } else {
        first_anchor_from(s, ov, i + 1)
    }
}

/// The first anchor found is an anchor.
proof fn lemma_first_anchor(s: Seq<AssignmentView>, ov: OverrideView, i: int)
    ensures
        first_anchor_from(s, ov, i) matches Some(j) ==> i <= j < s.len() && is_anchor_of(s[j], ov),
    decreases s.len() - i,
{
    if 0 <= i < s.len() && !is_anchor_of(s[i], ov) {
        lemma_first_anchor(s, ov, i + 1);
    }
}

/// `s` with the element at `i` replaced by the elements of `m`.
pub open spec fn splice<A>(s: Seq<A>, i: int, m: Seq<A>) -> Seq<A> {
    s.take(i) + m + s.skip(i + 1)
}

/// Materialize each migrated override at its assignment, the highest index
/// first, so that no splice moves an index still to come.
pub open spec fn splice_migrated(s: Seq<AssignmentView>, ms: Seq<(int, OverrideView)>) -> Seq<
    AssignmentView,
>
    decreases ms.len(),
{
    if ms.len() == 0 {
        s
    } else {
        let idx = ms.last().0;
        let m = ms.last().1;
        splice_migrated(splice(s, idx, spec_materialize(s[idx], m)), ms.drop_last())
    }
}

/// One override applied to the assignments `s`: its anchor, where one is
/// there, is replaced by its sub-hunks; otherwise each migrated override is
/// materialized in place of the hunk it moved to; otherwise nothing changes
/// and the override is dropped.
pub open spec fn apply_one(s: Seq<AssignmentView>, ov: OverrideView) -> (
    Seq<AssignmentView>,
    OutcomeView,
) {
    match first_anchor_from(s, ov, 0) {
        Some(i) => (splice(s, i, spec_materialize(s[i], ov)), OutcomeView::KeepAsIs),
        None => {
            let ms = spec_migrate(ov, s);
            if ms.len() == 0 {
                (s, OutcomeView::Drop)
            } else {
                (
                    splice_migrated(s, ms),
                    OutcomeView::Migrated(ms.map_values(|p: (int, OverrideView)| p.1)),
                )
            }
        },
    }
}

/// The first `n` overrides applied in turn, with their outcomes.
pub open spec fn apply_all(s: Seq<AssignmentView>, ovs: Seq<OverrideView>, n: int) -> (
    Seq<AssignmentView>,
    Seq<OutcomeView>,
)
    decreases n,
{
    if n <= 0 {
        (s, seq![])
    } else {
        let prev = apply_all(s, ovs, n - 1);
        let step = apply_one(prev.0, ovs[n - 1]);
        (step.0, prev.1.push(step.1))
    }
}

/// What is known of the id of each assignment: `Some(id)` where the
/// assignment is carried over and keeps `id`, `None` where it is a sub-hunk
/// carved anew, which has a fresh id.
pub type IdMark = Option<Option<u128>>;

/// The marks of assignments that are all carried over.
pub open spec fn kept_marks(s: Seq<HunkAssignment>) -> Seq<IdMark> {
    s.map_values(|a: HunkAssignment| Some(a.id))
}

/// The assignments' ids agree with `marks`: a kept id is that id, a fresh
/// one is set.
pub open spec fn ids_match(s: Seq<HunkAssignment>, marks: Seq<IdMark>) -> bool {
    &&& s.len() == marks.len()
    &&& forall|k: int|
        0 <= k < s.len() ==> match #[trigger] marks[k] {
            Some(id) => s[k].id == id,
            None => s[k].id is Some,
        }
}

/// The marks of what materializing `ov` at assignment `a` (marked `mark`)
/// gives: fresh sub-hunks where `ov` carves `a`, else `a` itself.
pub open spec fn materialize_marks(a: AssignmentView, mark: IdMark, ov: OverrideView) -> Seq<IdMark> {
    if carves(a, ov) {
        Seq::new(spec_materialize(a, ov).len(), |k: int| None)
    } else {
        seq![mark]
    }
}

/// The marks after `splice_migrated(s, ms)`, starting from `marks`.
pub open spec fn splice_migrated_marks(
    s: Seq<AssignmentView>,
    marks: Seq<IdMark>,
    ms: Seq<(int, OverrideView)>,
) -> Seq<IdMark>
    decreases ms.len(),
{
    if ms.len() == 0 {
        marks
    } else {
        let idx = ms.last().0;
        let m = ms.last().1;
        splice_migrated_marks(
            splice(s, idx, spec_materialize(s[idx], m)),
            splice(marks, idx, materialize_marks(s[idx], marks[idx], m)),
            ms.drop_last(),
        )
    }
}

/// The marks after `apply_one(s, ov)`, starting from `marks`.
pub open spec fn apply_one_marks(s: Seq<AssignmentView>, marks: Seq<IdMark>, ov: OverrideView) -> Seq<
    IdMark,
> {
    match first_anchor_from(s, ov, 0) {
        Some(i) => splice(marks, i, materialize_marks(s[i], marks[i], ov)),
        None => {
            let ms = spec_migrate(ov, s);
            if ms.len() == 0 {
                marks
            } else {
                splice_migrated_marks(s, marks, ms)
            }
        },
    }
}

/// The marks after `apply_all(s, ovs, n)`, starting from `marks`.
pub open spec fn apply_all_marks(
    s: Seq<AssignmentView>,
    marks: Seq<IdMark>,
    ovs: Seq<OverrideView>,
    n: int,
) -> Seq<IdMark>
    decreases n,
{
    if n <= 0 {
        marks
    } else {
        apply_one_marks(apply_all(s, ovs, n - 1).0, apply_all_marks(s, marks, ovs, n - 1), ovs[n - 1])
    }
}

/// The index of the first assignment that is the anchor of `ov`.
fn find_anchor(assignments: &Vec<HunkAssignment>, ov: &SubHunkOverride) -> (r: Option<usize>)
    ensures
        r matches Some(i) ==> first_anchor_from(views_of(assignments@), ov@, 0) == Some(
            i as int,
        ),
        r is None ==> first_anchor_from(views_of(assignments@), ov@, 0) is None,
        r matches Some(i) ==> i < assignments@.len(),
{
    let ghost s = views_of(assignments@);
    let mut i: usize = 0;
    while i < assignments.len()
        invariant
            0 <= i <= assignments.len(),
            s == views_of(assignments@),
            first_anchor_from(s, ov@, 0) == first_anchor_from(s, ov@, i as int),
        decreases assignments.len() - i,
    {
        let a = &assignments[i];
        assert(s[i as int] == a@);
        let same_header = match a.hunk_header {
            Some(h) => h == ov.anchor,
            None => false,
        };
        if same_header && bytes_eq(a.path_bytes.as_slice(), ov.path.as_slice()) {
            return Some(i);
        }
        i += 1;
    }
    None
}

/// The views of a splice are the splice of the views.
proof fn lemma_splice_views(a: Seq<HunkAssignment>, i: int, b: Seq<HunkAssignment>)
    requires
        0 <= i < a.len(),
    ensures
        views_of(a.take(i) + b + a.skip(i + 1)) == splice(views_of(a), i, views_of(b)),
{
    let l = a.take(i) + b + a.skip(i + 1);
    let r = splice(views_of(a), i, views_of(b));
    assert(l.len() == r.len());
    assert forall|k: int| 0 <= k < l.len() implies #[trigger] views_of(l)[k] == r[k] by {
        if k < i {
            assert(l[k] == a[k]);
        } else if k < i + b.len() {
            assert(l[k] == b[k - i]);
        } else {
            assert(l[k] == a[k - b.len() + 1]);
        }
    }
    assert(views_of(l) =~= r);
}

/// Replace the assignment at `i` with `items`, keeping every other one.
fn splice_in(v: &mut Vec<HunkAssignment>, i: usize, items: Vec<HunkAssignment>)
    requires
        i < old(v)@.len(),
    ensures
        final(v)@ == old(v)@.take(i as int) + items@ + old(v)@.skip(i + 1),
        views_of(final(v)@) == splice(views_of(old(v)@), i as int, views_of(items@)),
{
    let ghost orig = v@;
    let ghost new_items = items@;
    let mut items = items;
    let n = v.len();
    let mut tail = v.split_off(i + 1);
    assert(tail@ =~= orig.skip(i + 1));
    let _ = v.pop();
    assert(v@ =~= orig.take(i as int));
    v.append(&mut items);
    v.append(&mut tail);
    assert(v@ =~= orig.take(i as int) + new_items + orig.skip(i + 1));
    proof {
        lemma_splice_views(orig, i as int, items@);
    }
}

/// Splicing assignments whose ids agree with their marks into assignments
/// whose ids agree with theirs keeps the ids in agreement.
proof fn lemma_splice_ids(
    a: Seq<HunkAssignment>,
    marks: Seq<IdMark>,
    i: int,
    b: Seq<HunkAssignment>,
    bm: Seq<IdMark>,
)
    requires
        0 <= i < a.len(),
        ids_match(a, marks),
        ids_match(b, bm),
    ensures
        ids_match(a.take(i) + b + a.skip(i + 1), splice(marks, i, bm)),
{
    let l = a.take(i) + b + a.skip(i + 1);
    let r = splice(marks, i, bm);
    assert(l.len() == r.len());
    assert forall|k: int| 0 <= k < l.len() implies match #[trigger] r[k] {
        Some(id) => l[k].id == id,
        None => l[k].id is Some,
    } by {
        if k < i {
            assert(l[k] == a[k]);
            assert(r[k] == marks[k]);
        } else if k < i + b.len() {
            assert(l[k] == b[k - i]);
            assert(r[k] == bm[k - i]);
        } else {
            assert(l[k] == a[k - b.len() + 1]);
            assert(r[k] == marks[k - b.len() + 1]);
        }
    }
}

/// Every assignment fits.
pub open spec fn all_fit(s: Seq<AssignmentView>) -> bool {
    forall|k: int| 0 <= k < s.len() ==> assignment_fits(#[trigger] s[k])
}

/// Splicing assignments that fit into assignments that fit leaves
/// assignments that fit.
proof fn lemma_splice_fits(s: Seq<AssignmentView>, i: int, m: Seq<AssignmentView>)
    requires
        0 <= i < s.len(),
        all_fit(s),
        all_fit(m),
    ensures
        all_fit(splice(s, i, m)),
{
    let r = splice(s, i, m);
    assert forall|k: int| 0 <= k < r.len() implies assignment_fits(#[trigger] r[k]) by {
        if k < i {
            assert(r[k] == s[k]);
        } else if k < i + m.len() {
            assert(r[k] == m[k - i]);
        } else {
            assert(r[k] == s[k - m.len() + 1]);
        }
    }
}

/// Every assignment on the path of one of the overrides `ovs` fits: the
/// assignments that applying `ovs` may carve.
pub open spec fn fits_on_paths(s: Seq<AssignmentView>, ovs: Seq<OverrideView>) -> bool {
    forall|k: int, j: int|
        #![trigger s[k], ovs[j]]
        0 <= k < s.len() && 0 <= j < ovs.len() && s[k].path_bytes == ovs[j].path ==> assignment_fits(
            s[k],
        )
}

/// Splicing assignments that fit into assignments that fit on the paths of
/// `ovs` leaves assignments that fit on those paths.
proof fn lemma_splice_paths(
    s: Seq<AssignmentView>,
    i: int,
    m: Seq<AssignmentView>,
    ovs: Seq<OverrideView>,
)
    requires
        0 <= i < s.len(),
        fits_on_paths(s, ovs),
        all_fit(m),
    ensures
        fits_on_paths(splice(s, i, m), ovs),
{
    let r = splice(s, i, m);
    assert forall|k: int, j: int|
        0 <= k < r.len() && 0 <= j < ovs.len() && r[k].path_bytes == ovs[j].path implies assignment_fits(
        r[k],
    ) by {
        if k < i {
            assert(r[k] == s[k]);
        } else if k < i + m.len() {
            assert(r[k] == m[k - i]);
        } else {
            assert(r[k] == s[k - m.len() + 1]);
        }
    }
}

/// Materialize override `m` at assignment `idx` and splice the sub-hunks in.
fn materialize_at(
    assignments: &mut Vec<HunkAssignment>,
    idx: usize,
    m: &SubHunkOverride,
    Ghost(marks): Ghost<Seq<IdMark>>,
)
    requires
        idx < old(assignments)@.len(),
        assignment_fits(views_of(old(assignments)@)[idx as int]),
        ids_match(old(assignments)@, marks),
    ensures
        ids_match(
            final(assignments)@,
            splice(
                marks,
                idx as int,
                materialize_marks(views_of(old(assignments)@)[idx as int], marks[idx as int], m@),
            ),
        ),
        views_of(final(assignments)@) == splice(
            views_of(old(assignments)@),
            idx as int,
            spec_materialize(views_of(old(assignments)@)[idx as int], m@),
        ),
        all_fit(spec_materialize(views_of(old(assignments)@)[idx as int], m@)),
        final(assignments)@.len() >= idx,
{
    let ghost before = views_of(assignments@);
    assert(before[idx as int] == assignments@[idx as int]@);
    let anchor = assignments[idx].duplicate();
    let sub_hunks = materialize_override(&anchor, m);
    let ghost sub_marks = materialize_marks(before[idx as int], marks[idx as int], m@);
    let ghost orig = assignments@;
    assert(ids_match(sub_hunks@, sub_marks)) by {
        assert(views_of(sub_hunks@).len() == sub_hunks@.len());
        if carves(anchor@, m@) {
            assert forall|k: int| 0 <= k < sub_hunks@.len() implies match #[trigger] sub_marks[k] {
                Some(id) => sub_hunks@[k].id == id,
                None => sub_hunks@[k].id is Some,
            } by {
                assert(sub_hunks@[k].id is Some);
            }
        } else {
            assert(orig[idx as int].id == anchor.id);
        }
    }
    assert(all_fit(views_of(sub_hunks@))) by {
        assert forall|k: int| 0 <= k < views_of(sub_hunks@).len() implies assignment_fits(
            #[trigger] views_of(sub_hunks@)[k],
        ) by {
            assert(views_of(sub_hunks@)[k] == sub_hunks@[k]@);
        }
    }
    let ghost items = sub_hunks@;
    splice_in(assignments, idx, sub_hunks);
    proof {
        lemma_splice_ids(orig, marks, idx as int, items, sub_marks);
    }
}

/// Copy the overrides out of migration results, in order.
fn migrated_overrides(migrated: &Vec<(usize, SubHunkOverride)>) -> (r: Vec<SubHunkOverride>)
    ensures
        overrides_view(r@) == migrated_view(migrated@).map_values(|p: (int, OverrideView)| p.1),
{
    let ghost ms = migrated_view(migrated@);
    let mut out: Vec<SubHunkOverride> = Vec::new();
    let mut j: usize = 0;
    while j < migrated.len()
        invariant
            0 <= j <= migrated.len(),
            ms == migrated_view(migrated@),
            overrides_view(out@) == ms.take(j as int).map_values(|p: (int, OverrideView)| p.1),
        decreases migrated.len() - j,
    {
        let ghost prev = out@;
        let m = migrated[j].1.duplicate();
        out.push(m);
        assert(ms[j as int].1 == migrated@[j as int].1@);
        assert(overrides_view(out@) =~= ms.take(j + 1).map_values(|p: (int, OverrideView)| p.1))
            by {
            assert(overrides_view(prev).len() == j);
            assert forall|k: int| 0 <= k < j + 1 implies #[trigger] overrides_view(out@)[k]
                == ms.take(j + 1).map_values(|p: (int, OverrideView)| p.1)[k] by {
                if k < j {
                    assert(out@[k] == prev[k]);
                    assert(overrides_view(prev)[k] == ms.take(j as int).map_values(
                        |p: (int, OverrideView)| p.1,
                    )[k]);
                }
            }
        }
        j += 1;
    }
    assert(ms.take(migrated.len() as int) =~= ms);
    out
}

/// Materialize every migration result, the highest index first.
fn apply_migrated(
    assignments: &mut Vec<HunkAssignment>,
    migrated: &Vec<(usize, SubHunkOverride)>,
    Ghost(marks): Ghost<Seq<IdMark>>,
    Ghost(ovs): Ghost<Seq<OverrideView>>,
)
    requires
        fits_on_paths(views_of(old(assignments)@), ovs),
        ids_match(old(assignments)@, marks),
        forall|k: int|
            0 <= k < migrated@.len() ==> (#[trigger] migrated@[k]).0 < old(assignments)@.len(),
        forall|k: int|
            0 <= k < migrated@.len() ==> assignment_fits(
                views_of(old(assignments)@)[(#[trigger] migrated@[k]).0 as int],
            ),
        forall|i: int, j: int|
            0 <= i < j < migrated@.len() ==> (#[trigger] migrated@[i]).0 < (
            #[trigger] migrated@[j]).0,
    ensures
        views_of(final(assignments)@) == splice_migrated(
            views_of(old(assignments)@),
            migrated_view(migrated@),
        ),
        fits_on_paths(views_of(final(assignments)@), ovs),
        all_fit(views_of(old(assignments)@)) ==> all_fit(views_of(final(assignments)@)),
        ids_match(
            final(assignments)@,
            splice_migrated_marks(views_of(old(assignments)@), marks, migrated_view(migrated@)),
        ),
{
    let ghost ms = migrated_view(migrated@);
    let ghost start = views_of(assignments@);
    let ghost mut cur_marks = marks;
    let ghost fit0 = all_fit(start);
    let mut k: usize = migrated.len();
    assert(ms.take(k as int) =~= ms);
    while k > 0
        invariant
            0 <= k <= migrated.len(),
            ms == migrated_view(migrated@),
            splice_migrated(start, ms) == splice_migrated(views_of(assignments@), ms.take(k as int)),
            splice_migrated_marks(start, marks, ms) == splice_migrated_marks(
                views_of(assignments@),
                cur_marks,
                ms.take(k as int),
            ),
            ids_match(assignments@, cur_marks),
            fits_on_paths(views_of(assignments@), ovs),
            fit0 == all_fit(start),
            fit0 ==> all_fit(views_of(assignments@)),
            forall|j: int| 0 <= j < k ==> (#[trigger] migrated@[j]).0 < assignments@.len(),
            forall|j: int|
                0 <= j < k ==> views_of(assignments@)[(#[trigger] migrated@[j]).0 as int]
                    == start[migrated@[j].0 as int],
            forall|j: int|
                0 <= j < migrated@.len() ==> assignment_fits(
                    start[(#[trigger] migrated@[j]).0 as int],
                ),
            forall|i: int, j: int|
                0 <= i < j < migrated@.len() ==> (#[trigger] migrated@[i]).0 < (
                #[trigger] migrated@[j]).0,
        decreases k,
    {
        let idx = migrated[k - 1].0;
        let ghost cur = views_of(assignments@);
        assert(cur[idx as int] == start[migrated@[k - 1].0 as int]);
        materialize_at(assignments, idx, &migrated[k - 1].1, Ghost(cur_marks));
        proof {
            let sm = spec_materialize(cur[idx as int], migrated@[k - 1].1@);
            lemma_splice_paths(cur, idx as int, sm, ovs);
            if fit0 {
                lemma_splice_fits(cur, idx as int, sm);
            }
            assert forall|j: int| 0 <= j < k - 1 implies views_of(assignments@)[(
            #[trigger] migrated@[j]).0 as int] == start[migrated@[j].0 as int] by {
                assert(migrated@[j].0 < migrated@[k - 1].0);
                assert(splice(cur, idx as int, sm)[migrated@[j].0 as int] == cur[migrated@[j].0 as int]);
            }
            cur_marks = splice(
                cur_marks,
                idx as int,
                materialize_marks(cur[idx as int], cur_marks[idx as int], migrated@[k - 1].1@),
            );
            let t = ms.take(k as int);
            assert(t.last() == (idx as int, migrated@[k - 1].1@));
            assert(t.drop_last() =~= ms.take(k - 1));
            assert forall|j: int| 0 <= j < k - 1 implies (#[trigger] migrated@[j]).0
                < assignments@.len() by {
                assert(migrated@[j].0 < migrated@[k - 1].0);
            }
        }
        k -= 1;
    }
}

/// Apply all `overrides` to `assignments` in place, replacing each matched
/// anchor with its materialized sub-hunks.
///
/// Returns one outcome per input override, positionally aligned; the
/// caller updates the store from them.
pub fn apply_overrides_to_assignments(
    assignments: &mut Vec<HunkAssignment>,
    overrides: &[SubHunkOverride],
) -> (r: Vec<OverrideOutcome>)
    requires
        fits_on_paths(views_of(old(assignments)@), overrides_view(overrides@)),
    ensures
        (views_of(final(assignments)@), outcomes_view(r@)) == apply_all(
            views_of(old(assignments)@),
            overrides_view(overrides@),
            overrides@.len() as int,
        ),
        r@.len() == overrides@.len(),
        fits_on_paths(views_of(final(assignments)@), overrides_view(overrides@)),
        all_fit(views_of(old(assignments)@)) ==> all_fit(views_of(final(assignments)@)),
        ids_match(
            final(assignments)@,
            apply_all_marks(
                views_of(old(assignments)@),
                kept_marks(old(assignments)@),
                overrides_view(overrides@),
                overrides@.len() as int,
            ),
        ),
{
    let ghost start = views_of(assignments@);
    let ghost ovs = overrides_view(overrides@);
    let ghost init = kept_marks(assignments@);
    assert(ids_match(assignments@, init));
    let ghost fit0 = all_fit(start);
    let mut outcomes: Vec<OverrideOutcome> = Vec::new();
    let mut i: usize = 0;
    while i < overrides.len()
        invariant
            0 <= i <= overrides.len(),
            ovs == overrides_view(overrides@),
            (views_of(assignments@), outcomes_view(outcomes@)) == apply_all(start, ovs, i as int),
            outcomes@.len() == i,
            fits_on_paths(views_of(assignments@), ovs),
            fit0 == all_fit(start),
            fit0 ==> all_fit(views_of(assignments@)),
            ids_match(assignments@, apply_all_marks(start, init, ovs, i as int)),
        decreases overrides.len() - i,
    {
        let ov = &overrides[i];
        assert(ovs[i as int] == ov@);
        let ghost cur = views_of(assignments@);
        let ghost prev_out = outcomes_view(outcomes@);
        let ghost marks = apply_all_marks(start, init, ovs, i as int);
        let outcome = match find_anchor(assignments, ov) {
            Some(idx) => {
                proof {
                    lemma_first_anchor(cur, ov@, 0);
                    assert(is_anchor_of(cur[idx as int], ov@));
                    assert(cur[idx as int].path_bytes == ovs[i as int].path);
                }
                materialize_at(assignments, idx, ov, Ghost(marks));
                proof {
                    let sm = spec_materialize(cur[idx as int], ov@);
                    lemma_splice_paths(cur, idx as int, sm, ovs);
                    if fit0 {
                        lemma_splice_fits(cur, idx as int, sm);
                    }
                }
                OverrideOutcome::KeepAsIs
            },
            None => {
                assert forall|k: int|
                    0 <= k < assignments@.len() && (#[trigger] assignments@[k]).path_bytes@
                        == ov.path@ implies assignment_fits(assignments@[k]@) by {
                    assert(views_of(assignments@)[k] == assignments@[k]@);
                    assert(cur[k].path_bytes == ovs[i as int].path);
                }
                let migrated = migrate_override_multi(ov, assignments);
                if migrated.len() == 0 {
                    OverrideOutcome::Drop
                } else {
                    assert forall|k: int| 0 <= k < migrated@.len() implies assignment_fits(
                        cur[(#[trigger] migrated@[k]).0 as int],
                    ) by {
                        let x = migrated@[k].0 as int;
                        assert(cur[x] == assignments@[x]@);
                        assert(cur[x].path_bytes == ovs[i as int].path);
                    }
                    apply_migrated(assignments, &migrated, Ghost(marks), Ghost(ovs));
                    OverrideOutcome::Migrated(migrated_overrides(&migrated))
                }
            },
        };
        outcomes.push(outcome);
        assert(outcomes_view(outcomes@) =~= prev_out.push(outcome@));
        i += 1;
    }
    outcomes
}

} // verus!
