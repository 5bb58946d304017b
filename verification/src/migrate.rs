//! Migrating an override whose anchor changed shape onto the natural hunks
//! that now hold its rows, by an order-preserving content alignment.
use crate::body::{row_contents, row_contents_of};
use crate::hunks::HunkHeader;
use crate::lines::bytes_views;
use crate::model::{
    pairs_view, bytes_eq, copy_bytes, copy_vec, lookup_target, target_for, AssignmentView, HunkAssignment,
    HunkAssignmentTarget, OverrideView, SubHunkOverride, TargetView,
};
use crate::overrides::{assignment_fits, lemma_row_kinds_len, views_of};
use crate::partition::{
    materialize_residual_ranges, nonempty_sorted_by_start, spec_materialize_residuals,
};
use crate::rows::{
    parse_row_kinds, row_kinds_of, spec_trim, spec_validate, trim_context, validate_ranges_stored,
    RowKind, RowRange,
};
use crate::sorting::{
    ins_pos, isort, lemma_ins_pos, lemma_ins_pos_step, lemma_ins_pos_stop, lemma_isort,
};
use vstd::prelude::*;

verus! {

/// A natural hunk on the override's path that the override may migrate to.
pub struct Candidate {
    /// The index of its assignment.
    pub idx: usize,
    /// Its header.
    pub anchor: HunkHeader,
    /// Its diff body.
    pub diff: Vec<u8>,
    /// Its parsed rows.
    pub rows: Vec<RowKind>,
    /// The content of each of its rows.
    pub contents: Vec<Vec<u8>>,
}

/// The view of a candidate.
pub struct CandView {
    pub idx: int,
    pub anchor: HunkHeader,
    pub diff: Seq<u8>,
    pub rows: Seq<RowKind>,
    pub contents: Seq<Seq<u8>>,
}

impl View for Candidate {
    type V = CandView;

    open spec fn view(&self) -> CandView {
        CandView {
            idx: self.idx as int,
            anchor: self.anchor,
            diff: self.diff@,
            rows: self.rows@,
            contents: bytes_views(self.contents@),
        }
    }
}

/// The views of a sequence of candidates.
pub open spec fn cand_views(s: Seq<Candidate>) -> Seq<CandView> {
    s.map_values(|c: Candidate| c@)
}

/// Assignment `a` is a natural hunk on `path` with a header and a diff
/// whose rows and row contents agree in number.
pub open spec fn is_candidate(a: AssignmentView, path: Seq<u8>) -> bool {
    &&& a.path_bytes == path
    &&& a.sub_hunk_origin is None
    &&& a.hunk_header is Some
    &&& a.diff is Some
    &&& row_contents_of(a.diff.unwrap()).len() == row_kinds_of(a.diff.unwrap()).len()
}

/// The candidate that assignment `a` at index `idx` stands for.
pub open spec fn cand_view_of(a: AssignmentView, idx: int) -> CandView {
    let d = a.diff.unwrap();
    CandView {
        idx,
        anchor: a.hunk_header.unwrap(),
        diff: d,
        rows: row_kinds_of(d),
        contents: row_contents_of(d),
    }
}

/// The candidates among the first `n` assignments, in index order.
pub open spec fn candidates_upto(assigns: Seq<AssignmentView>, path: Seq<u8>, n: int) -> Seq<
    CandView,
>
    decreases n,
{
    if n <= 0 {
        seq![]
    } else {
        let prev = candidates_upto(assigns, path, n - 1);
        if is_candidate(assigns[n - 1], path) {
            prev.push(cand_view_of(assigns[n - 1], n - 1))
        } else {
            prev
        }
    }
}

/// Gather every natural-hunk candidate on `path`, in index order.
fn collect_candidates(path: &Vec<u8>, assignments: &Vec<HunkAssignment>) -> (r: Vec<Candidate>)
    requires
        forall|k: int|
            0 <= k < assignments@.len() && (#[trigger] assignments@[k]).path_bytes@ == path@
                ==> assignment_fits(assignments@[k]@),
    ensures
        cand_views(r@) == candidates_upto(views_of(assignments@), path@, assignments@.len() as int),
        forall|k: int| 0 <= k < r@.len() ==> (#[trigger] r@[k]).rows@.len() <= u32::MAX,
{
    let ghost av = views_of(assignments@);
    let mut out: Vec<Candidate> = Vec::new();
    let mut idx: usize = 0;
    while idx < assignments.len()
        invariant
            0 <= idx <= assignments.len(),
            av == views_of(assignments@),
            forall|k: int|
                0 <= k < assignments@.len() && (#[trigger] assignments@[k]).path_bytes@ == path@
                    ==> assignment_fits(assignments@[k]@),
            cand_views(out@) == candidates_upto(av, path@, idx as int),
            forall|k: int| 0 <= k < out@.len() ==> (#[trigger] out@[k]).rows@.len() <= u32::MAX,
        decreases assignments.len() - idx,
    {
        let a = &assignments[idx];
        assert(av[idx as int] == a@);
        let ghost before = out@;
        if bytes_eq(a.path_bytes.as_slice(), path.as_slice()) && a.sub_hunk_origin.is_none() {
            match (a.hunk_header, &a.diff) {
                (Some(anchor), Some(d)) => {
                    let rows = parse_row_kinds(d.as_slice());
                    let contents = row_contents(d.as_slice());
                    proof {
                        lemma_row_kinds_len(d@);
                    }
                    if contents.len() == rows.len() {
                        let c = Candidate { idx, anchor, diff: copy_bytes(d), rows, contents };
                        assert(c@ == cand_view_of(a@, idx as int));
                        out.push(c);
                        assert(cand_views(out@) =~= cand_views(before).push(c@));
                    }
                },
                _ => {},
            }
        }
        proof {
            i_step_candidates(av, path@, idx as int);
        }
        idx += 1;
    }
    out
}

/// One step of [`candidates_upto`] (unfolding helper).
proof fn i_step_candidates(av: Seq<AssignmentView>, path: Seq<u8>, idx: int)
    requires
        0 <= idx,
    ensures
        candidates_upto(av, path, idx + 1) == if is_candidate(av[idx], path) {
            candidates_upto(av, path, idx).push(cand_view_of(av[idx], idx))
        } else {
            candidates_upto(av, path, idx)
        },
{
}

/// The key candidates are sorted by: the new-side start of their header.
pub open spec fn cand_key() -> spec_fn(CandView) -> int {
    |c: CandView| c.anchor.new_start as int
}

impl Candidate {
    /// A copy of this candidate.
    fn duplicate(&self) -> (r: Candidate)
        ensures
            r@ == self@,
            r.rows@.len() == self.rows@.len(),
    {
        let mut contents: Vec<Vec<u8>> = Vec::new();
        let mut i: usize = 0;
        while i < self.contents.len()
            invariant
                0 <= i <= self.contents.len(),
                bytes_views(contents@) == bytes_views(self.contents@).take(i as int),
            decreases self.contents.len() - i,
        {
            let ghost before = contents@;
            contents.push(copy_bytes(&self.contents[i]));
            assert(bytes_views(contents@) =~= bytes_views(self.contents@).take(i + 1)) by {
                assert(bytes_views(before).len() == before.len());
                assert forall|k: int| 0 <= k < i + 1 implies #[trigger] bytes_views(contents@)[k]
                    == bytes_views(self.contents@).take(i + 1)[k] by {
                    if k < i {
                        assert(contents@[k] == before[k]);
                        assert(bytes_views(before)[k] == bytes_views(self.contents@).take(
                            i as int,
                        )[k]);
                    }
                }
            }
            i += 1;
        }
        assert(bytes_views(self.contents@).take(self.contents.len() as int) =~= bytes_views(
            self.contents@,
        ));
        Candidate {
            idx: self.idx,
            anchor: self.anchor,
            diff: copy_bytes(&self.diff),
            rows: copy_vec(&self.rows),
            contents,
        }
    }
}

/// Stably sort candidates by the new-side start of their header, so that
/// their rows follow the worktree's line order.
fn sort_candidates(cands: &Vec<Candidate>) -> (r: Vec<Candidate>)
    requires
        forall|k: int| 0 <= k < cands@.len() ==> (#[trigger] cands@[k]).rows@.len() <= u32::MAX,
    ensures
        cand_views(r@) == isort(cand_views(cands@), cand_key()),
        forall|k: int| 0 <= k < r@.len() ==> (#[trigger] r@[k]).rows@.len() <= u32::MAX,
{
    let ghost cv = cand_views(cands@);
    let mut sorted: Vec<Candidate> = Vec::new();
    let mut i: usize = 0;
    while i < cands.len()
        invariant
            0 <= i <= cands.len(),
            cv == cand_views(cands@),
            forall|k: int| 0 <= k < cands@.len() ==> (#[trigger] cands@[k]).rows@.len() <= u32::MAX,
            cand_views(sorted@) == isort(cv.take(i as int), cand_key()),
            forall|k: int| 0 <= k < sorted@.len() ==> (#[trigger] sorted@[k]).rows@.len() <= u32::MAX,
        decreases cands.len() - i,
    {
        let c = cands[i].duplicate();
        let ghost x = c@;
        assert(cv[i as int] == x);
        let ghost sv = cand_views(sorted@);
        let mut p: usize = sorted.len();
        proof {
            assert(sv.take(sv.len() as int) =~= sv);
        }
        while p > 0 && sorted[p - 1].anchor.new_start > c.anchor.new_start
            invariant
                0 <= p <= sorted@.len(),
                sv == cand_views(sorted@),
                x == c@,
                ins_pos(sv, x, cand_key()) == ins_pos(sv.take(p as int), x, cand_key()),
            decreases p,
        {
            proof {
                assert(sv[p - 1] == sorted@[p - 1]@);
                assert(sorted@[p - 1].anchor.new_start > c.anchor.new_start);
                assert(sv[p - 1].anchor.new_start > x.anchor.new_start);
                assert(cand_key()(sv[p - 1]) == sv[p - 1].anchor.new_start as int);
                assert(cand_key()(sv[p - 1]) > cand_key()(x));
                lemma_ins_pos_step(sv, x, cand_key(), p as int);
            }
            p -= 1;
        }
        proof {
            if p > 0 {
                assert(sv[p - 1] == sorted@[p - 1]@);
                assert(cand_key()(sv[p - 1]) <= cand_key()(x));
            }
            lemma_ins_pos_stop(sv, x, cand_key(), p as int);
            lemma_isort(cv.take(i as int), cand_key());
        }
        sorted.insert(p, c);
        proof {
            assert(cv.take(i + 1).drop_last() =~= cv.take(i as int));
            assert(cv.take(i + 1).last() == x);
            sv.insert_ensures(p as int, x);
            assert(cand_views(sorted@) =~= sv.insert(p as int, x)) by {
                assert forall|k: int| 0 <= k < sorted@.len() implies #[trigger] cand_views(
                    sorted@,
                )[k] == sv.insert(p as int, x)[k] by {
                    if k > p {
                        assert(sv[k - 1] == cand_views(sorted@)[k]);
                    }
                }
            }
        }
        i += 1;
    }
    assert(cv.take(cands.len() as int) =~= cv);
    sorted
}

/// Every row of the first `n` candidates as `(candidate position, row index)`,
/// in candidate order and row order.
pub open spec fn flat_upto(cands: Seq<CandView>, n: int) -> Seq<(usize, usize)>
    decreases n,
{
    if n <= 0 {
        seq![]
    } else {
        flat_upto(cands, n - 1) + Seq::new(
            cands[n - 1].rows.len(),
            |li: int| ((n - 1) as usize, li as usize),
        )
    }
}

/// Every row of every candidate, in candidate order and row order.
pub open spec fn flat_of(cands: Seq<CandView>) -> Seq<(usize, usize)> {
    flat_upto(cands, cands.len() as int)
}

/// Every entry of the flat row list names an existing row of an existing
/// candidate.
pub proof fn lemma_flat_valid(cands: Seq<CandView>, n: int)
    requires
        0 <= n <= cands.len() <= usize::MAX,
        forall|k: int| 0 <= k < cands.len() ==> (#[trigger] cands[k]).rows.len() <= usize::MAX,
    ensures
        forall|j: int|
            0 <= j < flat_upto(cands, n).len() ==> (#[trigger] flat_upto(cands, n)[j]).0 < n
                && flat_upto(cands, n)[j].1 < cands[flat_upto(cands, n)[j].0 as int].rows.len(),
    decreases n,
{
    if n > 0 {
        lemma_flat_valid(cands, n - 1);
        let prev = flat_upto(cands, n - 1);
        let f = flat_upto(cands, n);
        assert forall|j: int| 0 <= j < f.len() implies (#[trigger] f[j]).0 < n && f[j].1
            < cands[f[j].0 as int].rows.len() by {
            if j < prev.len() {
                assert(f[j] == prev[j]);
            } else {
                let g = Seq::new(cands[n - 1].rows.len(), |li: int| ((n - 1) as usize, li as usize));
                assert(f[j] == g[j - prev.len()]);
            }
        }
    }
}

/// The position found lies between the cursor and the end of the list.
proof fn lemma_find_from_bounds(
    cands: Seq<CandView>,
    flat: Seq<(usize, usize)>,
    cur: int,
    k: RowKind,
    content: Seq<u8>,
)
    requires
        0 <= cur,
    ensures
        cur <= find_from(cands, flat, cur, k, content) <= flat.len() || (cur > flat.len()
            && find_from(cands, flat, cur, k, content) == flat.len()),
    decreases flat.len() - cur,
{
    if cur < flat.len() && !entry_matches(cands, flat[cur], k, content) {
        lemma_find_from_bounds(cands, flat, cur + 1, k, content);
    }
}

/// Build the flat list of candidate rows.
fn build_flat(cands: &Vec<Candidate>) -> (r: Vec<(usize, usize)>)
    ensures
        r@ == flat_of(cand_views(cands@)),
{
    let ghost cv = cand_views(cands@);
    let mut out: Vec<(usize, usize)> = Vec::new();
    let mut cp: usize = 0;
    while cp < cands.len()
        invariant
            0 <= cp <= cands.len(),
            cv == cand_views(cands@),
            out@ == flat_upto(cv, cp as int),
        decreases cands.len() - cp,
    {
        let n = cands[cp].rows.len();
        assert(cv[cp as int].rows.len() == n);
        let ghost base = out@;
        let mut li: usize = 0;
        while li < n
            invariant
                0 <= li <= n,
                out@ == base + Seq::new(li as nat, |k: int| (cp, k as usize)),
            decreases n - li,
        {
            out.push((cp, li));
            assert(out@ =~= base + Seq::new((li + 1) as nat, |k: int| (cp, k as usize)));
            li += 1;
        }
        assert(out@ =~= flat_upto(cv, cp + 1));
        cp += 1;
    }
    out
}

/// Flat entry `e` is a row of kind `k` with content `content`.
pub open spec fn entry_matches(
    cands: Seq<CandView>,
    e: (usize, usize),
    k: RowKind,
    content: Seq<u8>,
) -> bool {
    cands[e.0 as int].rows[e.1 as int] == k && cands[e.0 as int].contents[e.1 as int] == content
}

/// The first flat position at or after `cur` whose row matches, or the
/// list's length if none does.
pub open spec fn find_from(
    cands: Seq<CandView>,
    flat: Seq<(usize, usize)>,
    cur: int,
    k: RowKind,
    content: Seq<u8>,
) -> int
    decreases flat.len() - cur,
{
    if cur < 0 || cur >= flat.len() {
        flat.len() as int
    } else if entry_matches(cands, flat[cur], k, content) {
        cur
    } else {
        find_from(cands, flat, cur + 1, k, content)
    }
}

/// The order-preserving alignment of the first `n` old rows: each
/// non-context old row is matched to the first flat row at or after the
/// cursor with the same kind and content, and the cursor moves past it;
/// context rows and rows without a match stay unmatched. Also yields the
/// final cursor.
pub open spec fn align_upto(
    rows: Seq<RowKind>,
    contents: Seq<Seq<u8>>,
    cands: Seq<CandView>,
    flat: Seq<(usize, usize)>,
    n: int,
) -> (Seq<Option<(usize, usize)>>, int)
    decreases n,
{
    if n <= 0 {
        (seq![], 0)
    } else {
        let (al, cur) = align_upto(rows, contents, cands, flat, n - 1);
        let k = rows[n - 1];
        if k == RowKind::Context {
            (al.push(None), cur)
        } else {
            let j = find_from(cands, flat, cur, k, contents[n - 1]);
            if j < flat.len() {
                (al.push(Some(flat[j])), j + 1)
            } else {
                (al.push(None), cur)
            }
        }
    }
}

/// The alignment of all old rows.
pub open spec fn spec_alignment(
    rows: Seq<RowKind>,
    contents: Seq<Seq<u8>>,
    cands: Seq<CandView>,
) -> Seq<Option<(usize, usize)>> {
    align_upto(rows, contents, cands, flat_of(cands), rows.len() as int).0
}

/// The cursor never passes the end of the flat list, and the alignment has
/// one entry per old row.
proof fn lemma_align_bounds(
    rows: Seq<RowKind>,
    contents: Seq<Seq<u8>>,
    cands: Seq<CandView>,
    flat: Seq<(usize, usize)>,
    n: int,
)
    requires
        0 <= n,
    ensures
        0 <= align_upto(rows, contents, cands, flat, n).1 <= flat.len(),
        align_upto(rows, contents, cands, flat, n).0.len() == n,
    decreases n,
{
    if n > 0 {
        lemma_align_bounds(rows, contents, cands, flat, n - 1);
        let (al, cur) = align_upto(rows, contents, cands, flat, n - 1);
        lemma_find_from_bounds(cands, flat, cur, rows[n - 1], contents[n - 1]);
    }
}

/// The candidates' rows and contents agree in number.
pub open spec fn cands_consistent(cands: Seq<CandView>) -> bool {
    forall|k: int| 0 <= k < cands.len() ==> (#[trigger] cands[k]).contents.len() == cands[k].rows.len()
}

/// Align the old override rows onto the candidates' rows.
fn align_rows(
    old_rows: &Vec<RowKind>,
    old_contents: &Vec<Vec<u8>>,
    cands: &Vec<Candidate>,
    flat: &Vec<(usize, usize)>,
) -> (r: Vec<Option<(usize, usize)>>)
    requires
        old_contents@.len() == old_rows@.len(),
        flat@ == flat_of(cand_views(cands@)),
        cands_consistent(cand_views(cands@)),
        forall|k: int| 0 <= k < cands@.len() ==> (#[trigger] cands@[k]).rows@.len() <= u32::MAX,
    ensures
        r@ == spec_alignment(old_rows@, bytes_views(old_contents@), cand_views(cands@)),
{
    let ghost cv = cand_views(cands@);
    let ghost oc = bytes_views(old_contents@);
    proof {
        assert forall|k: int| 0 <= k < cv.len() implies (#[trigger] cv[k]).rows.len() <= usize::MAX by {
            assert(cv[k] == cands@[k]@);
        }
        assert(cv.len() == cands.len());
        lemma_flat_valid(cv, cv.len() as int);
    }
    let mut out: Vec<Option<(usize, usize)>> = Vec::new();
    let mut cursor: usize = 0;
    let mut i: usize = 0;
    while i < old_rows.len()
        invariant
            0 <= i <= old_rows.len(),
            old_contents@.len() == old_rows@.len(),
            cv == cand_views(cands@),
            oc == bytes_views(old_contents@),
            flat@ == flat_of(cv),
            cands_consistent(cv),
            forall|j: int|
                0 <= j < flat@.len() ==> (#[trigger] flat@[j]).0 < cv.len() && flat@[j].1
                    < cv[flat@[j].0 as int].rows.len(),
            (out@, cursor as int) == align_upto(old_rows@, oc, cv, flat@, i as int),
            cursor <= flat@.len(),
        decreases old_rows.len() - i,
    {
        let k = old_rows[i];
        if k == RowKind::Context {
            out.push(None);
        } else {
            let mut j: usize = cursor;
            let mut found = false;
            while !found && j < flat.len()
                invariant
                    cursor <= j <= flat@.len(),
                    cv == cand_views(cands@),
                    oc == bytes_views(old_contents@),
                    cands_consistent(cv),
                    i < old_contents@.len(),
                    forall|t: int|
                        0 <= t < flat@.len() ==> (#[trigger] flat@[t]).0 < cv.len() && flat@[t].1
                            < cv[flat@[t].0 as int].rows.len(),
                    !found ==> find_from(cv, flat@, cursor as int, k, oc[i as int]) == find_from(
                        cv,
                        flat@,
                        j as int,
                        k,
                        oc[i as int],
                    ),
                    found ==> j < flat@.len() && find_from(cv, flat@, cursor as int, k, oc[i as int])
                        == j,
                decreases flat@.len() - j + if found {
                    0int
                } else {
                    1int
                },
            {
                let e = flat[j];
                let c = &cands[e.0];
                assert(cv[e.0 as int] == c@);
                assert(c@.contents[e.1 as int] == c.contents@[e.1 as int]@);
                assert(oc[i as int] == old_contents@[i as int]@);
                if c.rows[e.1] == k && bytes_eq(
                    c.contents[e.1].as_slice(),
                    old_contents[i].as_slice(),
                ) {
                    found = true;
                } else {
                    j += 1;
                }
            }
            if found {
                assert(j < flat.len());
                out.push(Some(flat[j]));
                cursor = j + 1;
            } else {
                assert(find_from(cv, flat@, j as int, k, oc[i as int]) == flat@.len());
                out.push(None);
            }
        }
        i += 1;
    }
    out
}

/// Every matched old row is matched to a row of the flat list.
proof fn lemma_align_from_flat(
    rows: Seq<RowKind>,
    contents: Seq<Seq<u8>>,
    cands: Seq<CandView>,
    flat: Seq<(usize, usize)>,
    n: int,
)
    requires
        0 <= n,
    ensures
        forall|i: int|
            0 <= i < align_upto(rows, contents, cands, flat, n).0.len() && (
            #[trigger] align_upto(rows, contents, cands, flat, n).0[i]) is Some ==> flat.contains(
                align_upto(rows, contents, cands, flat, n).0[i].unwrap(),
            ),
    decreases n,
{
    if n > 0 {
        lemma_align_from_flat(rows, contents, cands, flat, n - 1);
        let (al, cur) = align_upto(rows, contents, cands, flat, n - 1);
        lemma_align_bounds(rows, contents, cands, flat, n - 1);
        let now = align_upto(rows, contents, cands, flat, n).0;
        assert forall|i: int| 0 <= i < now.len() && (#[trigger] now[i]) is Some implies flat.contains(
            now[i].unwrap(),
        ) by {
            if i < al.len() {
                assert(now[i] == al[i]);
            } else {
                let j = find_from(cands, flat, cur, rows[n - 1], contents[n - 1]);
                lemma_find_from_bounds(cands, flat, cur, rows[n - 1], contents[n - 1]);
                assert(now[i] == Some(flat[j]));
            }
        }
    }
}

/// The smallest and largest row index matched into candidate `cp` among
/// the old rows `[s, i)`.
pub open spec fn bucket_upto(al: Seq<Option<(usize, usize)>>, s: int, i: int, cp: int) -> Option<
    (usize, usize),
>
    decreases i - s,
{
    if i <= s {
        None
    } else {
        let prev = bucket_upto(al, s, i - 1, cp);
        match al[i - 1] {
            Some(e) => if e.0 == cp {
                Some(
                    match prev {
                        None => (e.1, e.1),
                        Some(b) => (
                            if e.1 < b.0 {
                                e.1
                            } else {
                                b.0
                            },
                            if e.1 > b.1 {
                                e.1
                            } else {
                                b.1
                            },
                        ),
                    },
                )
            } else {
                prev
            },
            None => prev,
        }
    }
}

/// The bounds of a bucket are row indices that were matched into the
/// candidate.
proof fn lemma_bucket_from(al: Seq<Option<(usize, usize)>>, s: int, i: int, cp: int)
    requires
        0 <= s,
        i <= al.len(),
    ensures
        bucket_upto(al, s, i, cp) matches Some(b) ==> (exists|t: int|
            s <= t < i && al[t] == Some((cp as usize, b.0))) && (exists|t: int|
            s <= t < i && al[t] == Some((cp as usize, b.1))),
        bucket_upto(al, s, i, cp) matches Some(b) ==> b.0 <= b.1,
    decreases i - s,
{
    if i > s {
        lemma_bucket_from(al, s, i - 1, cp);
        let prev = bucket_upto(al, s, i - 1, cp);
        if let Some(e) = al[i - 1] {
            if e.0 == cp {
                if let Some(b) = prev {
                    let t0 = choose|t: int| s <= t < i - 1 && al[t] == Some((cp as usize, b.0));
                    let t1 = choose|t: int| s <= t < i - 1 && al[t] == Some((cp as usize, b.1));
                    assert(al[t0] == Some((cp as usize, b.0)));
                    assert(al[t1] == Some((cp as usize, b.1)));
                } else {
                    assert(al[i - 1] == Some((cp as usize, e.1)));
                }
            }
        }
    }
}

/// The rows `[s, e)` of the old anchor clamped to the alignment.
pub open spec fn clamp_to(x: u32, len: int) -> int {
    if (x as int) < len {
        x as int
    } else {
        len
    }
}

/// What old range `r` contributes to candidate `cp`: the trimmed span of
/// the rows matched into it, with the range's target; nothing when no row
/// matched or only context remains.
pub open spec fn entry_for(
    ov: OverrideView,
    al: Seq<Option<(usize, usize)>>,
    cands: Seq<CandView>,
    r: RowRange,
    cp: int,
) -> Seq<(RowRange, Option<TargetView>)> {
    match bucket_upto(al, clamp_to(r.start, al.len() as int), clamp_to(r.end, al.len() as int), cp) {
        Some(b) => match spec_trim(
            RowRange { start: b.0 as u32, end: (b.1 + 1) as u32 },
            cands[cp].rows,
        ) {
            Some(t) => seq![(t, target_for(ov.assignments, r))],
            None => seq![],
        },
        None => seq![],
    }
}

/// What the first `n` old ranges contribute to candidate `cp`, in range order.
pub open spec fn entries_upto(
    ov: OverrideView,
    al: Seq<Option<(usize, usize)>>,
    cands: Seq<CandView>,
    cp: int,
    n: int,
) -> Seq<(RowRange, Option<TargetView>)>
    decreases n,
{
    if n <= 0 {
        seq![]
    } else {
        entries_upto(ov, al, cands, cp, n - 1) + entry_for(ov, al, cands, ov.ranges[n - 1], cp)
    }
}

/// The view of migration entries.
pub open spec fn entries_view(v: Seq<(RowRange, Option<HunkAssignmentTarget>)>) -> Seq<
    (RowRange, Option<TargetView>),
> {
    v.map_values(
        |p: (RowRange, Option<HunkAssignmentTarget>)|
            (
                p.0,
                match p.1 {
                    Some(t) => Some(t@),
                    None => None,
                },
            ),
    )
}

/// The bucket of candidate `cp` over the old rows `[s, e)`.
fn bucket_for(al: &Vec<Option<(usize, usize)>>, s: usize, e: usize, cp: usize) -> (r: Option<
    (usize, usize),
>)
    requires
        e <= al@.len(),
    ensures
        r == bucket_upto(al@, s as int, e as int, cp as int),
{
    let mut b: Option<(usize, usize)> = None;
    if e <= s {
        return None;
    }
    let mut i: usize = s;
    while i < e
        invariant
            s <= i <= e <= al@.len(),
            b == bucket_upto(al@, s as int, i as int, cp as int),
        decreases e - i,
    {
        match al[i] {
            Some(en) => {
                if en.0 == cp {
                    b = Some(
                        match b {
                            None => (en.1, en.1),
                            Some(bb) => (
                                if en.1 < bb.0 {
                                    en.1
                                } else {
                                    bb.0
                                },
                                if en.1 > bb.1 {
                                    en.1
                                } else {
                                    bb.1
                                },
                            ),
                        },
                    );
                }
            },
            None => {},
        }
        i += 1;
    }
    b
}

/// What every old range contributes to candidate `cp`.
fn entries_for_candidate(
    ov: &SubHunkOverride,
    al: &Vec<Option<(usize, usize)>>,
    cands: &Vec<Candidate>,
    cp: usize,
    flat: Ghost<Seq<(usize, usize)>>,
) -> (r: Vec<(RowRange, Option<HunkAssignmentTarget>)>)
    requires
        cp < cands@.len(),
        cands@[cp as int].rows@.len() <= u32::MAX,
        forall|i: int|
            0 <= i < al@.len() && (#[trigger] al@[i]) is Some ==> flat@.contains(al@[i].unwrap()),
        forall|j: int|
            0 <= j < flat@.len() ==> (#[trigger] flat@[j]).0 < cands@.len() && flat@[j].1
                < cands@[flat@[j].0 as int].rows@.len(),
    ensures
        entries_view(r@) == entries_upto(
            ov@,
            al@,
            cand_views(cands@),
            cp as int,
            ov@.ranges.len() as int,
        ),
        forall|k: int| 0 <= k < r@.len() ==> (#[trigger] r@[k]).0.start < r@[k].0.end,
{
    let ghost cv = cand_views(cands@);
    let ghost ovv = ov@;
    let c = &cands[cp];
    assert(cv[cp as int] == c@);
    let mut out: Vec<(RowRange, Option<HunkAssignmentTarget>)> = Vec::new();
    let mut q: usize = 0;
    while q < ov.ranges.len()
        invariant
            0 <= q <= ov.ranges.len(),
            cv == cand_views(cands@),
            ovv == ov@,
            cp < cands@.len(),
            cv[cp as int] == c@,
            c.rows@.len() <= u32::MAX,
            forall|i: int|
                0 <= i < al@.len() && (#[trigger] al@[i]) is Some ==> flat@.contains(al@[i].unwrap()),
            forall|j: int|
                0 <= j < flat@.len() ==> (#[trigger] flat@[j]).0 < cands@.len() && flat@[j].1
                    < cands@[flat@[j].0 as int].rows@.len(),
            entries_view(out@) == entries_upto(ovv, al@, cv, cp as int, q as int),
            forall|k: int| 0 <= k < out@.len() ==> (#[trigger] out@[k]).0.start < out@[k].0.end,
        decreases ov.ranges.len() - q,
    {
        let r = ov.ranges[q];
        assert(ovv.ranges[q as int] == r);
        let s = if (r.start as usize) < al.len() {
            r.start as usize
        } else {
            al.len()
        };
        let e = if (r.end as usize) < al.len() {
            r.end as usize
        } else {
            al.len()
        };
        let b = bucket_for(al, s, e, cp);
        let ghost before = out@;
        match b {
            Some(bb) => {
                proof {
                    lemma_bucket_from(al@, s as int, e as int, cp as int);
                    let t = choose|t: int| s <= t < e && al@[t] == Some((cp, bb.1));
                    assert(flat@.contains(al@[t].unwrap()));
                    let j = choose|j: int| 0 <= j < flat@.len() && flat@[j] == (cp, bb.1);
                    assert(flat@[j].1 < cands@[cp as int].rows@.len());
                }
                let raw = RowRange { start: bb.0 as u32, end: (bb.1 as u32) + 1 };
                let trimmed = trim_context(raw, c.rows.as_slice());
                proof {
                    crate::rows::lemma_trim_shape(raw, c.rows@);
                }
                match trimmed {
                    Some(t) => {
                        let target = lookup_target(&ov.assignments, r);
                        out.push((t, target));
                        assert(entries_view(out@) =~= entries_view(before).push(
                            (t, target_for(ovv.assignments, r)),
                        ));
                    },
                    None => {},
                }
            },
            None => {},
        }
        assert(entries_upto(ovv, al@, cv, cp as int, q + 1) == entries_upto(
            ovv,
            al@,
            cv,
            cp as int,
            q as int,
        ) + entry_for(ovv, al@, cv, r, cp as int));
        q += 1;
    }
    out
}

/// The key migration entries are sorted by: the start of their range.
pub open spec fn entry_key() -> spec_fn((RowRange, Option<TargetView>)) -> int {
    |e: (RowRange, Option<TargetView>)| e.0.start as int
}

/// `s` without consecutive repeats.
pub open spec fn dedup_ranges(s: Seq<RowRange>) -> Seq<RowRange>
    decreases s.len(),
{
    if s.len() == 0 {
        seq![]
    } else {
        let d = dedup_ranges(s.drop_last());
        if d.len() > 0 && d.last() == s.last() {
            d
        } else {
            d.push(s.last())
        }
    }
}

/// The ranges of a sequence of entries.
pub open spec fn entry_ranges(s: Seq<(RowRange, Option<TargetView>)>) -> Seq<RowRange> {
    s.map_values(|e: (RowRange, Option<TargetView>)| e.0)
}

/// The index of the first pair for range `r`, or the number of pairs.
pub open spec fn key_index(pairs: Seq<(RowRange, TargetView)>, r: RowRange) -> int
    decreases pairs.len(),
{
    if pairs.len() == 0 {
        0
    } else if key_index(pairs.drop_last(), r) < pairs.len() - 1 {
        key_index(pairs.drop_last(), r)
    } else if pairs.last().0 == r {
        pairs.len() - 1
    } else {
        pairs.len() as int
    }
}

/// Map `r` to `t`: replace the pair for `r` if there is one, else append one.
pub open spec fn pairs_insert(pairs: Seq<(RowRange, TargetView)>, r: RowRange, t: TargetView) -> Seq<
    (RowRange, TargetView),
> {
    let i = key_index(pairs, r);
    if i < pairs.len() {
        pairs.update(i, (r, t))
    } else {
        pairs.push((r, t))
    }
}

/// The range-to-target map that entries spell out, later entries winning.
pub open spec fn pairs_from_entries(entries: Seq<(RowRange, Option<TargetView>)>) -> Seq<
    (RowRange, TargetView),
>
    decreases entries.len(),
{
    if entries.len() == 0 {
        seq![]
    } else {
        let prev = pairs_from_entries(entries.drop_last());
        match entries.last().1 {
            Some(t) => pairs_insert(prev, entries.last().0, t),
            None => prev,
        }
    }
}

/// The override migrated onto candidate `c` from its entries: the entries
/// sorted by start give the user ranges (repeats dropped), residuals are
/// re-materialized around them, and the result stands only if it is a
/// well-formed partition of the candidate's rows.
pub open spec fn spec_migrated_override(
    ov: OverrideView,
    c: CandView,
    entries: Seq<(RowRange, Option<TargetView>)>,
) -> Option<OverrideView> {
    let sorted = isort(entries, entry_key());
    let user = dedup_ranges(entry_ranges(sorted));
    let ranges = spec_materialize_residuals(user, c.rows);
    if spec_validate(ranges, c.rows.len() as u32, true) is Ok {
        Some(
            OverrideView {
                origin: ov.origin,
                path: ov.path,
                anchor: c.anchor,
                ranges,
                assignments: pairs_from_entries(sorted),
                rows: c.rows,
                anchor_diff: c.diff,
            },
        )
    } else {
        None
    }
}

/// Deduplication keeps non-empty ranges sorted by start and ends on the
/// input's last element.
proof fn lemma_dedup(s: Seq<RowRange>)
    requires
        nonempty_sorted_by_start(s),
    ensures
        nonempty_sorted_by_start(dedup_ranges(s)),
        s.len() > 0 ==> dedup_ranges(s).len() > 0 && dedup_ranges(s).last() == s.last(),
        s.len() == 0 ==> dedup_ranges(s).len() == 0,
    decreases s.len(),
{
    if s.len() > 0 {
        let t = s.drop_last();
        assert(nonempty_sorted_by_start(t)) by {
            assert forall|i: int, j: int| 0 <= i < j < t.len() implies #[trigger] t[i].start
                <= #[trigger] t[j].start by {
                assert(t[i] == s[i] && t[j] == s[j]);
            }
            assert forall|i: int| 0 <= i < t.len() implies #[trigger] t[i].start < t[i].end by {
                assert(t[i] == s[i]);
            }
        }
        lemma_dedup(t);
        let d = dedup_ranges(t);
        if !(d.len() > 0 && d.last() == s.last()) {
            let r = d.push(s.last());
            assert forall|i: int, j: int| 0 <= i < j < r.len() implies #[trigger] r[i].start
                <= #[trigger] r[j].start by {
                if j == r.len() - 1 && i < d.len() {
                    assert(r[i] == d[i]);
                    if i < d.len() - 1 {
                        assert(d[i].start <= d[d.len() - 1].start);
                    }
                    assert(d.last() == t.last());
                    assert(s[s.len() - 2].start <= s[s.len() - 1].start);
                } else {
                    assert(r[i] == d[i] && r[j] == d[j]);
                }
            }
            assert forall|i: int| 0 <= i < r.len() implies #[trigger] r[i].start < r[i].end by {
                if i < d.len() {
                    assert(r[i] == d[i]);
                } else {
                    assert(s[s.len() - 1].start < s[s.len() - 1].end);
                }
            }
        }
    }
}

/// A copy of a migration entry.
fn dup_entry(e: &(RowRange, Option<HunkAssignmentTarget>)) -> (r: (RowRange, Option<HunkAssignmentTarget>))
    ensures
        entries_view(seq![r]) == entries_view(seq![*e]),
{
    let t = match &e.1 {
        Some(t) => Some(t.duplicate()),
        None => None,
    };
    let r = (e.0, t);
    assert(entries_view(seq![r])[0] == entries_view(seq![*e])[0]);
    assert(entries_view(seq![r]) =~= entries_view(seq![*e]));
    r
}

/// Stably sort migration entries by the start of their range.
fn sort_entries(v: &Vec<(RowRange, Option<HunkAssignmentTarget>)>) -> (r: Vec<
    (RowRange, Option<HunkAssignmentTarget>),
>)
    ensures
        entries_view(r@) == isort(entries_view(v@), entry_key()),
{
    let ghost ev = entries_view(v@);
    let mut sorted: Vec<(RowRange, Option<HunkAssignmentTarget>)> = Vec::new();
    let mut i: usize = 0;
    while i < v.len()
        invariant
            0 <= i <= v.len(),
            ev == entries_view(v@),
            entries_view(sorted@) == isort(ev.take(i as int), entry_key()),
        decreases v.len() - i,
    {
        let e = dup_entry(&v[i]);
        let ghost x = entries_view(seq![e])[0];
        assert(ev[i as int] == entries_view(seq![v@[i as int]])[0]);
        assert(x == ev[i as int]);
        let ghost sv = entries_view(sorted@);
        let mut p: usize = sorted.len();
        proof {
            assert(sv.take(sv.len() as int) =~= sv);
        }
        while p > 0 && sorted[p - 1].0.start > e.0.start
            invariant
                0 <= p <= sorted@.len(),
                sv == entries_view(sorted@),
                x == entries_view(seq![e])[0],
                x.0 == e.0,
                ins_pos(sv, x, entry_key()) == ins_pos(sv.take(p as int), x, entry_key()),
            decreases p,
        {
            proof {
                assert(sv[p - 1].0 == sorted@[p - 1].0);
                assert(entry_key()(sv[p - 1]) > entry_key()(x));
                lemma_ins_pos_step(sv, x, entry_key(), p as int);
            }
            p -= 1;
        }
        proof {
            if p > 0 {
                assert(sv[p - 1].0 == sorted@[p - 1].0);
                assert(entry_key()(sv[p - 1]) <= entry_key()(x));
            }
            lemma_ins_pos_stop(sv, x, entry_key(), p as int);
        }
        sorted.insert(p, e);
        proof {
            assert(ev.take(i + 1).drop_last() =~= ev.take(i as int));
            assert(ev.take(i + 1).last() == x);
            sv.insert_ensures(p as int, x);
            assert(entries_view(sorted@) =~= sv.insert(p as int, x)) by {
                assert forall|k: int| 0 <= k < sorted@.len() implies #[trigger] entries_view(
                    sorted@,
                )[k] == sv.insert(p as int, x)[k] by {
                    if k > p {
                        assert(sv[k - 1] == entries_view(sorted@)[k]);
                    }
                }
            }
        }
        i += 1;
    }
    assert(ev.take(v.len() as int) =~= ev);
    sorted
}

/// The ranges of the entries with consecutive repeats dropped.
fn dedup_entry_ranges(v: &Vec<(RowRange, Option<HunkAssignmentTarget>)>) -> (r: Vec<RowRange>)
    ensures
        r@ == dedup_ranges(entry_ranges(entries_view(v@))),
{
    let ghost er = entry_ranges(entries_view(v@));
    let mut out: Vec<RowRange> = Vec::new();
    let mut i: usize = 0;
    while i < v.len()
        invariant
            0 <= i <= v.len(),
            er == entry_ranges(entries_view(v@)),
            out@ == dedup_ranges(er.take(i as int)),
        decreases v.len() - i,
    {
        let r = v[i].0;
        assert(er[i as int] == r);
        assert(er.take(i + 1).drop_last() =~= er.take(i as int));
        assert(er.take(i + 1).last() == r);
        if out.len() > 0 && out[out.len() - 1] == r {
        } else {
            out.push(r);
        }
        i += 1;
    }
    assert(er.take(v.len() as int) =~= er);
    out
}

/// Map range `r` to target `t` in the pairs.
pub(crate) fn insert_pair(pairs: &mut Vec<(RowRange, HunkAssignmentTarget)>, r: RowRange, t: HunkAssignmentTarget)
    ensures
        pairs_view(final(pairs)@) == pairs_insert(pairs_view(old(pairs)@), r, t@),
{
    let ghost pv = pairs_view(pairs@);
    let mut i: usize = 0;
    while i < pairs.len() && pairs[i].0 != r
        invariant
            0 <= i <= pairs@.len(),
            pv == pairs_view(pairs@),
            forall|k: int| 0 <= k < i ==> pv[k].0 != r,
        decreases pairs@.len() - i,
    {
        assert(pv[i as int].0 == pairs@[i as int].0);
        i += 1;
    }
    proof {
        lemma_key_index(pv, r);
        if i < pairs.len() {
            assert(pv[i as int].0 == r);
        }
    }
    if i < pairs.len() {
        pairs.set(i, (r, t));
        assert(pairs_view(pairs@) =~= pv.update(i as int, (r, t@)));
    } else {
        pairs.push((r, t));
        assert(pairs_view(pairs@) =~= pv.push((r, t@)));
    }
}

/// `key_index` finds the first pair for `r`, if there is one.
pub(crate) proof fn lemma_key_index(pairs: Seq<(RowRange, TargetView)>, r: RowRange)
    ensures
        0 <= key_index(pairs, r) <= pairs.len(),
        key_index(pairs, r) < pairs.len() ==> pairs[key_index(pairs, r)].0 == r,
        forall|k: int| 0 <= k < key_index(pairs, r) ==> pairs[k].0 != r,
    decreases pairs.len(),
{
    if pairs.len() > 0 {
        lemma_key_index(pairs.drop_last(), r);
        let i = key_index(pairs.drop_last(), r);
        assert forall|k: int| 0 <= k < key_index(pairs, r) implies pairs[k].0 != r by {
            if k < pairs.len() - 1 {
                assert(pairs.drop_last()[k] == pairs[k]);
            }
        }
        if i < pairs.len() - 1 {
            assert(pairs.drop_last()[i] == pairs[i]);
        }
    }
}

/// Build the override migrated onto candidate `c` from its entries.
fn build_migrated(
    ov: &SubHunkOverride,
    c: &Candidate,
    entries: &Vec<(RowRange, Option<HunkAssignmentTarget>)>,
) -> (r: Option<SubHunkOverride>)
    requires
        c.rows@.len() <= u32::MAX,
        forall|k: int| 0 <= k < entries@.len() ==> (#[trigger] entries@[k]).0.start < entries@[k].0.end,
    ensures
        r matches Some(o) ==> spec_migrated_override(ov@, c@, entries_view(entries@)) == Some(o@),
        r is None ==> spec_migrated_override(ov@, c@, entries_view(entries@)) is None,
{
    let sorted = sort_entries(entries);
    let ghost ev = entries_view(entries@);
    let ghost sev = entries_view(sorted@);
    proof {
        lemma_isort(ev, entry_key());
        assert(nonempty_sorted_by_start(entry_ranges(sev))) by {
            let er = entry_ranges(sev);
            assert forall|i: int, j: int| 0 <= i < j < er.len() implies #[trigger] er[i].start
                <= #[trigger] er[j].start by {
                assert(entry_key()(sev[i]) <= entry_key()(sev[j]));
            }
            assert forall|i: int| 0 <= i < er.len() implies #[trigger] er[i].start < er[i].end by {
                assert(ev.contains(sev[i]));
                let w = choose|w: int| 0 <= w < ev.len() && ev[w] == sev[i];
                assert(ev[w].0 == entries@[w].0);
            }
        }
        lemma_dedup(entry_ranges(sev));
    }
    let user = dedup_entry_ranges(&sorted);
    let ranges = materialize_residual_ranges(user.as_slice(), c.rows.as_slice());
    if validate_ranges_stored(ranges.as_slice(), c.rows.len() as u32).is_err() {
        return None;
    }
    let mut pairs: Vec<(RowRange, HunkAssignmentTarget)> = Vec::new();
    let mut i: usize = 0;
    assert(pairs_view(pairs@) =~= seq![]);
    while i < sorted.len()
        invariant
            0 <= i <= sorted.len(),
            sev == entries_view(sorted@),
            pairs_view(pairs@) == pairs_from_entries(sev.take(i as int)),
        decreases sorted.len() - i,
    {
        assert(sev.take(i + 1).drop_last() =~= sev.take(i as int));
        assert(sev.take(i + 1).last() == sev[i as int]);
        match &sorted[i].1 {
            Some(t) => {
                insert_pair(&mut pairs, sorted[i].0, t.duplicate());
            },
            None => {},
        }
        i += 1;
    }
    assert(sev.take(sorted.len() as int) =~= sev);
    Some(
        SubHunkOverride {
            origin: ov.origin.duplicate(),
            path: copy_bytes(&ov.path),
            anchor: c.anchor,
            ranges,
            assignments: pairs,
            rows: copy_vec(&c.rows),
            anchor_diff: copy_bytes(&c.diff),
        },
    )
}

/// The position of the candidate for assignment `idx` in `s`, or the length
/// of `s` if it is not there.
pub open spec fn pos_of(s: Seq<CandView>, idx: int) -> int
    decreases s.len(),
{
    if s.len() == 0 {
        0
    } else if pos_of(s.drop_last(), idx) < s.len() - 1 {
        pos_of(s.drop_last(), idx)
    } else if s.last().idx == idx {
        s.len() - 1
    } else {
        s.len() as int
    }
}

/// The migrations onto the first `m` candidates (in assignment order):
/// each candidate that received entries and yields a well-formed override
/// contributes `(its assignment index, that override)`.
pub open spec fn migrated_upto(
    ov: OverrideView,
    u: Seq<CandView>,
    s: Seq<CandView>,
    al: Seq<Option<(usize, usize)>>,
    m: int,
) -> Seq<(int, OverrideView)>
    decreases m,
{
    if m <= 0 {
        seq![]
    } else {
        let prev = migrated_upto(ov, u, s, al, m - 1);
        let cp = pos_of(s, u[m - 1].idx);
        if cp >= s.len() {
            prev
        } else {
            let entries = entries_upto(ov, al, s, cp, ov.ranges.len() as int);
            if entries.len() == 0 {
                prev
            } else {
                match spec_migrated_override(ov, s[cp], entries) {
                    Some(o) => prev.push((u[m - 1].idx, o)),
                    None => prev,
                }
            }
        }
    }
}

/// Where override `ov` migrates among the assignments `assigns`: nowhere
/// when its cached diff does not parse to as many row contents as it has
/// rows or no natural hunk on its path qualifies; otherwise the surviving
/// rows are aligned in worktree order onto the candidates and each candidate
/// that receives rows gets its own migrated override.
pub open spec fn spec_migrate(ov: OverrideView, assigns: Seq<AssignmentView>) -> Seq<
    (int, OverrideView),
> {
    let oc = row_contents_of(ov.anchor_diff);
    if oc.len() != ov.rows.len() {
        seq![]
    } else {
        let u = candidates_upto(assigns, ov.path, assigns.len() as int);
        if u.len() == 0 {
            seq![]
        } else {
            let s = isort(u, cand_key());
            migrated_upto(ov, u, s, spec_alignment(ov.rows, oc, s), u.len() as int)
        }
    }
}

/// The first `m` migrations keep the override's origin and path.
proof fn lemma_migrated_upto_origin(
    ov: OverrideView,
    u: Seq<CandView>,
    s: Seq<CandView>,
    al: Seq<Option<(usize, usize)>>,
    m: int,
)
    ensures
        forall|j: int|
            0 <= j < migrated_upto(ov, u, s, al, m).len() ==> (#[trigger] migrated_upto(
                ov,
                u,
                s,
                al,
                m,
            )[j]).1.origin == ov.origin && migrated_upto(ov, u, s, al, m)[j].1.path == ov.path,
    decreases m,
{
    if m > 0 {
        lemma_migrated_upto_origin(ov, u, s, al, m - 1);
    }
}

/// Migration keeps the override's origin and path: every migrated override
/// stays at the location and path of the override it came from, only on
/// another hunk.
pub proof fn lemma_migrate_keeps_origin(ov: OverrideView, assigns: Seq<AssignmentView>)
    ensures
        forall|j: int|
            0 <= j < spec_migrate(ov, assigns).len() ==> (#[trigger] spec_migrate(ov, assigns)[j]).1.origin
                == ov.origin && spec_migrate(ov, assigns)[j].1.path == ov.path,
{
    let oc = row_contents_of(ov.anchor_diff);
    if oc.len() == ov.rows.len() {
        let u = candidates_upto(assigns, ov.path, assigns.len() as int);
        if u.len() > 0 {
            let s = isort(u, cand_key());
            lemma_migrated_upto_origin(ov, u, s, spec_alignment(ov.rows, oc, s), u.len() as int);
        }
    }
}

/// The view of migration results.
pub open spec fn migrated_view(v: Seq<(usize, SubHunkOverride)>) -> Seq<(int, OverrideView)> {
    v.map_values(|p: (usize, SubHunkOverride)| (p.0 as int, p.1@))
}

/// Candidates come in increasing assignment order, point at existing
/// assignments, and have as many row contents as rows.
proof fn lemma_candidates(assigns: Seq<AssignmentView>, path: Seq<u8>, n: int)
    requires
        0 <= n <= assigns.len(),
    ensures
        forall|k: int|
            0 <= k < candidates_upto(assigns, path, n).len() ==> 0 <= (
            #[trigger] candidates_upto(assigns, path, n)[k]).idx < n && candidates_upto(
                assigns,
                path,
                n,
            )[k].contents.len() == candidates_upto(assigns, path, n)[k].rows.len()
                && assigns[candidates_upto(assigns, path, n)[k].idx].path_bytes == path
                && is_candidate(assigns[candidates_upto(assigns, path, n)[k].idx], path)
                && candidates_upto(assigns, path, n)[k] == cand_view_of(
                assigns[candidates_upto(assigns, path, n)[k].idx],
                candidates_upto(assigns, path, n)[k].idx,
            ),
        forall|i: int, j: int|
            0 <= i < j < candidates_upto(assigns, path, n).len() ==> (
            #[trigger] candidates_upto(assigns, path, n)[i]).idx < (
            #[trigger] candidates_upto(assigns, path, n)[j]).idx,
    decreases n,
{
    if n > 0 {
        lemma_candidates(assigns, path, n - 1);
        let prev = candidates_upto(assigns, path, n - 1);
        let now = candidates_upto(assigns, path, n);
        assert forall|k: int| 0 <= k < now.len() implies 0 <= (#[trigger] now[k]).idx < n
            && now[k].contents.len() == now[k].rows.len() && assigns[now[k].idx].path_bytes
            == path && is_candidate(assigns[now[k].idx], path) && now[k] == cand_view_of(
            assigns[now[k].idx],
            now[k].idx,
        ) by {
            if k < prev.len() {
                assert(now[k] == prev[k]);
            }
        }
        assert forall|i: int, j: int| 0 <= i < j < now.len() implies (#[trigger] now[i]).idx < (
        #[trigger] now[j]).idx by {
            assert(now[i] == prev[i]);
            if j < prev.len() {
                assert(now[j] == prev[j]);
            }
        }
    }
}

/// `pos_of` finds the first candidate with the index, if there is one.
proof fn lemma_pos_of(s: Seq<CandView>, idx: int)
    ensures
        0 <= pos_of(s, idx) <= s.len(),
        pos_of(s, idx) < s.len() ==> s[pos_of(s, idx)].idx == idx,
        forall|k: int| 0 <= k < pos_of(s, idx) ==> s[k].idx != idx,
    decreases s.len(),
{
    if s.len() > 0 {
        lemma_pos_of(s.drop_last(), idx);
        let p = pos_of(s.drop_last(), idx);
        assert forall|k: int| 0 <= k < pos_of(s, idx) implies s[k].idx != idx by {
            if k < s.len() - 1 {
                assert(s.drop_last()[k] == s[k]);
            }
        }
        if p < s.len() - 1 {
            assert(s.drop_last()[p] == s[p]);
        }
    }
}

/// The migrations come in increasing assignment order, at assignment
/// indices that candidates have.
proof fn lemma_migrated_order(
    ov: OverrideView,
    u: Seq<CandView>,
    s: Seq<CandView>,
    al: Seq<Option<(usize, usize)>>,
    m: int,
)
    requires
        0 <= m <= u.len(),
        forall|i: int, j: int| 0 <= i < j < u.len() ==> (#[trigger] u[i]).idx < (#[trigger] u[j]).idx,
    ensures
        forall|k: int|
            0 <= k < migrated_upto(ov, u, s, al, m).len() ==> exists|w: int|
                0 <= w < m && (#[trigger] migrated_upto(ov, u, s, al, m)[k]).0 == u[w].idx,
        forall|i: int, j: int|
            0 <= i < j < migrated_upto(ov, u, s, al, m).len() ==> (#[trigger] migrated_upto(
                ov,
                u,
                s,
                al,
                m,
            )[i]).0 < (#[trigger] migrated_upto(ov, u, s, al, m)[j]).0,
    decreases m,
{
    if m > 0 {
        lemma_migrated_order(ov, u, s, al, m - 1);
        let prev = migrated_upto(ov, u, s, al, m - 1);
        let now = migrated_upto(ov, u, s, al, m);
        assert forall|k: int| 0 <= k < now.len() implies exists|w: int|
            0 <= w < m && (#[trigger] now[k]).0 == u[w].idx by {
            if k < prev.len() {
                assert(now[k] == prev[k]);
                let w = choose|w: int| 0 <= w < m - 1 && prev[k].0 == u[w].idx;
                assert(now[k].0 == u[w].idx);
            } else {
                assert(now[k].0 == u[m - 1].idx);
            }
        }
        assert forall|i: int, j: int| 0 <= i < j < now.len() implies (#[trigger] now[i]).0 < (
        #[trigger] now[j]).0 by {
            assert(now[i] == prev[i]);
            if j < prev.len() {
                assert(now[j] == prev[j]);
            } else {
                let w = choose|w: int| 0 <= w < m - 1 && prev[i].0 == u[w].idx;
                assert(u[w].idx < u[m - 1].idx);
            }
        }
    }
}

/// Try to find the natural-hunk assignments that the override has migrated
/// to (because the anchor's row shape changed, e.g. after a partial commit).
///
/// Returns one `(index, override)` pair per surviving natural hunk the
/// override now spans, in increasing index order. An empty result means no
/// surviving range could be remapped onto any candidate.
pub fn migrate_override_multi(ov: &SubHunkOverride, assignments: &Vec<HunkAssignment>) -> (r: Vec<
    (usize, SubHunkOverride),
>)
    requires
        forall|k: int|
            0 <= k < assignments@.len() && (#[trigger] assignments@[k]).path_bytes@ == ov.path@
                ==> assignment_fits(assignments@[k]@),
    ensures
        migrated_view(r@) == spec_migrate(ov@, views_of(assignments@)),
        forall|k: int| 0 <= k < r@.len() ==> (#[trigger] r@[k]).0 < assignments@.len(),
        forall|k: int|
            0 <= k < r@.len() ==> assignments@[(#[trigger] r@[k]).0 as int].path_bytes@ == ov.path@,
        forall|i: int, j: int| 0 <= i < j < r@.len() ==> (#[trigger] r@[i]).0 < (#[trigger] r@[j]).0,
        forall|k: int| 0 <= k < r@.len() ==> migrated_wf((#[trigger] r@[k]).1@),
{
    let ghost av = views_of(assignments@);
    let ghost ovv = ov@;
    proof {
        assert forall|k: int|
            0 <= k < av.len() && (#[trigger] av[k]).path_bytes == ovv.path implies assignment_fits(
            av[k],
        ) by {
            assert(av[k] == assignments@[k]@);
        }
        lemma_migrate_wf(ovv, av);
    }
    let old_contents = row_contents(ov.anchor_diff.as_slice());
    if old_contents.len() != ov.rows.len() {
        let none: Vec<(usize, SubHunkOverride)> = Vec::new();
        assert(migrated_view(none@) =~= seq![]);
        return none;
    }
    let cands = collect_candidates(&ov.path, assignments);
    let ghost u = cand_views(cands@);
    proof {
        lemma_candidates(av, ovv.path, av.len() as int);
    }
    if cands.len() == 0 {
        let none: Vec<(usize, SubHunkOverride)> = Vec::new();
        assert(migrated_view(none@) =~= seq![]);
        return none;
    }
    let sorted = sort_candidates(&cands);
    let ghost s = cand_views(sorted@);
    proof {
        lemma_isort(u, cand_key());
        assert forall|k: int| 0 <= k < s.len() implies (#[trigger] s[k]).contents.len()
            == s[k].rows.len() by {
            assert(u.contains(s[k]));
            let w = choose|w: int| 0 <= w < u.len() && u[w] == s[k];
        }
    }
    let flat = build_flat(&sorted);
    let al = align_rows(&ov.rows, &old_contents, &sorted, &flat);
    proof {
        assert forall|k: int| 0 <= k < s.len() implies (#[trigger] s[k]).rows.len() <= usize::MAX by {
            assert(s[k] == sorted@[k]@);
        }
        assert(s.len() == sorted.len());
        lemma_flat_valid(s, s.len() as int);
        lemma_align_from_flat(
            ovv.rows,
            bytes_views(old_contents@),
            s,
            flat@,
            ovv.rows.len() as int,
        );
    }
    let mut by_cp: Vec<Vec<(RowRange, Option<HunkAssignmentTarget>)>> = Vec::new();
    let mut cp: usize = 0;
    while cp < sorted.len()
        invariant
            0 <= cp <= sorted.len(),
            s == cand_views(sorted@),
            ovv == ov@,
            flat@ == flat_of(s),
            al@ == spec_alignment(ovv.rows, bytes_views(old_contents@), s),
            forall|k: int| 0 <= k < sorted@.len() ==> (#[trigger] sorted@[k]).rows@.len() <= u32::MAX,
            forall|i: int|
                0 <= i < al@.len() && (#[trigger] al@[i]) is Some ==> flat@.contains(al@[i].unwrap()),
            forall|j: int|
                0 <= j < flat@.len() ==> (#[trigger] flat@[j]).0 < s.len() && flat@[j].1
                    < s[flat@[j].0 as int].rows.len(),
            by_cp@.len() == cp,
            forall|k: int|
                0 <= k < cp ==> entries_view((#[trigger] by_cp@[k])@) == entries_upto(
                    ovv,
                    al@,
                    s,
                    k,
                    ovv.ranges.len() as int,
                ),
            forall|k: int, t: int|
                0 <= k < cp && 0 <= t < by_cp@[k]@.len() ==> (#[trigger] by_cp@[k]@[t]).0.start
                    < by_cp@[k]@[t].0.end,
        decreases sorted.len() - cp,
    {
        proof {
            assert forall|j: int| 0 <= j < flat@.len() implies (#[trigger] flat@[j]).0
                < sorted@.len() && flat@[j].1 < sorted@[flat@[j].0 as int].rows@.len() by {
                assert(s[flat@[j].0 as int] == sorted@[flat@[j].0 as int]@);
            }
        }
        let entries = entries_for_candidate(ov, &al, &sorted, cp, Ghost(flat@));
        by_cp.push(entries);
        cp += 1;
    }
    let mut out: Vec<(usize, SubHunkOverride)> = Vec::new();
    let mut m: usize = 0;
    while m < cands.len()
        invariant
            0 <= m <= cands.len(),
            u == cand_views(cands@),
            s == cand_views(sorted@),
            ovv == ov@,
            by_cp@.len() == sorted@.len(),
            forall|k: int| 0 <= k < sorted@.len() ==> (#[trigger] sorted@[k]).rows@.len() <= u32::MAX,
            forall|k: int|
                0 <= k < by_cp@.len() ==> entries_view((#[trigger] by_cp@[k])@) == entries_upto(
                    ovv,
                    al@,
                    s,
                    k,
                    ovv.ranges.len() as int,
                ),
            forall|k: int, t: int|
                0 <= k < by_cp@.len() && 0 <= t < by_cp@[k]@.len() ==> (
                #[trigger] by_cp@[k]@[t]).0.start < by_cp@[k]@[t].0.end,
            migrated_view(out@) == migrated_upto(
                ovv,
                u,
                s,
                al@,
                m as int,
            ),
        decreases cands.len() - m,
    {
        let idx = cands[m].idx;
        assert(u[m as int].idx == idx);
        let mut p: usize = 0;
        while p < sorted.len() && sorted[p].idx != idx
            invariant
                0 <= p <= sorted@.len(),
                s == cand_views(sorted@),
                forall|k: int| 0 <= k < p ==> s[k].idx != idx,
            decreases sorted@.len() - p,
        {
            assert(s[p as int].idx == sorted@[p as int].idx);
            p += 1;
        }
        proof {
            lemma_pos_of(s, idx as int);
            if p < sorted.len() {
                assert(s[p as int].idx == idx);
                if pos_of(s, idx as int) < p {
                    assert(s[pos_of(s, idx as int)].idx == idx);
                }
            }
        }
        let ghost before = out@;
        if p < sorted.len() {
            let entries = &by_cp[p];
            if entries.len() > 0 {
                assert(s[p as int] == sorted@[p as int]@);
                match build_migrated(ov, &sorted[p], entries) {
                    Some(o) => {
                        out.push((idx, o));
                        assert(migrated_view(out@) =~= migrated_view(before).push(
                            (idx as int, o@),
                        ));
                    },
                    None => {},
                }
            }
        }
        m += 1;
    }
    proof {
        assert(av.len() == assignments@.len());
        lemma_migrated_order(ovv, u, s, al@, u.len() as int);
        assert forall|k: int| 0 <= k < out@.len() implies (#[trigger] out@[k]).0
            < assignments@.len() && assignments@[out@[k].0 as int].path_bytes@ == ov.path@ by {
            assert(migrated_view(out@)[k].0 == out@[k].0);
            let w = choose|w: int|
                0 <= w < u.len() && (#[trigger] migrated_upto(ovv, u, s, al@, u.len() as int)[k]).0
                    == u[w].idx;
            assert(av[u[w].idx] == assignments@[u[w].idx]@);
        }
        assert forall|i: int, j: int| 0 <= i < j < out@.len() implies (#[trigger] out@[i]).0 < (
        #[trigger] out@[j]).0 by {
            assert(migrated_view(out@)[i].0 == out@[i].0);
            assert(migrated_view(out@)[j].0 == out@[j].0);
        }
        assert forall|k: int| 0 <= k < out@.len() implies migrated_wf((#[trigger] out@[k]).1@) by {
            assert(migrated_view(out@)[k].1 == out@[k].1@);
            assert(migrated_wf(spec_migrate(ovv, av)[k].1));
        }
    }
    out
}

/// Starts that never decrease.
pub open spec fn starts_nondecreasing(v: Seq<RowRange>) -> bool {
    forall|i: int, j: int| 0 <= i < j < v.len() ==> #[trigger] v[i].start <= #[trigger] v[j].start
}

/// Dropping consecutive repeats keeps every range and adds none, leaves no
/// two equal neighbours, keeps a non-empty input non-empty and keeps starts
/// in order.
proof fn lemma_dedup_props(s: Seq<RowRange>)
    ensures
        forall|j: int| 0 <= j < s.len() ==> dedup_ranges(s).contains(#[trigger] s[j]),
        forall|j: int| 0 <= j < dedup_ranges(s).len() ==> s.contains(#[trigger] dedup_ranges(s)[j]),
        forall|i: int| 0 < i < dedup_ranges(s).len() ==> dedup_ranges(s)[i - 1] != #[trigger] dedup_ranges(s)[i],
        s.len() > 0 ==> dedup_ranges(s).len() > 0,
        starts_nondecreasing(s) ==> starts_nondecreasing(dedup_ranges(s)),
    decreases s.len(),
{
    if s.len() > 0 {
        let t = s.drop_last();
        lemma_dedup_props(t);
        let d = dedup_ranges(t);
        let r = dedup_ranges(s);
        assert forall|j: int| 0 <= j < s.len() implies r.contains(#[trigger] s[j]) by {
            if j < s.len() - 1 {
                assert(t[j] == s[j]);
                assert(d.contains(t[j]));
                let k = choose|k: int| 0 <= k < d.len() && d[k] == t[j];
                assert(r[k] == d[k]);
            } else if r == d {
                assert(r[d.len() - 1] == s.last());
            } else {
                assert(r[d.len() as int] == s.last());
            }
        }
        assert forall|j: int| 0 <= j < r.len() implies s.contains(#[trigger] r[j]) by {
            if j < d.len() {
                assert(r[j] == d[j]);
                assert(t.contains(d[j]));
                let k = choose|k: int| 0 <= k < t.len() && t[k] == d[j];
                assert(s[k] == t[k]);
            } else {
                assert(r[j] == s[s.len() - 1]);
            }
        }
        assert forall|i: int| 0 < i < r.len() implies r[i - 1] != #[trigger] r[i] by {
            if i < d.len() {
                assert(r[i - 1] == d[i - 1] && r[i] == d[i]);
            } else {
                assert(r[i - 1] == d[i - 1]);
            }
        }
        if starts_nondecreasing(s) {
            assert(starts_nondecreasing(t)) by {
                assert forall|i: int, j: int| 0 <= i < j < t.len() implies #[trigger] t[i].start
                    <= #[trigger] t[j].start by {
                    assert(t[i] == s[i] && t[j] == s[j]);
                }
            }
            assert forall|i: int, j: int| 0 <= i < j < r.len() implies #[trigger] r[i].start
                <= #[trigger] r[j].start by {
                assert(r[i] == d[i]);
                if j < d.len() {
                    assert(r[j] == d[j]);
                } else {
                    assert(t.contains(d[i]));
                    let k = choose|k: int| 0 <= k < t.len() && t[k] == d[i];
                    assert(s[k] == t[k]);
                    assert(s[k].start <= s[s.len() - 1].start);
                }
            }
        }
    }
}

/// Every pair that entries spell out names the range of one of them.
proof fn lemma_pairs_from_entries_keys(entries: Seq<(RowRange, Option<TargetView>)>)
    ensures
        forall|j: int|
            0 <= j < pairs_from_entries(entries).len() ==> entry_ranges(entries).contains(
                (#[trigger] pairs_from_entries(entries)[j]).0,
            ),
    decreases entries.len(),
{
    if entries.len() > 0 {
        let init = entries.drop_last();
        lemma_pairs_from_entries_keys(init);
        let prev = pairs_from_entries(init);
        let now = pairs_from_entries(entries);
        let er = entry_ranges(entries);
        assert forall|j: int| 0 <= j < now.len() implies er.contains((#[trigger] now[j]).0) by {
            assert(er[entries.len() - 1] == entries.last().0);
            match entries.last().1 {
                Some(t) => {
                    lemma_key_index(prev, entries.last().0);
                    if j < prev.len() {
                        if now[j].0 != entries.last().0 {
                            assert(now[j] == prev[j]);
                            assert(entry_ranges(init).contains(prev[j].0));
                            let k = choose|k: int| 0 <= k < entry_ranges(init).len() && entry_ranges(init)[k] == prev[j].0;
                            assert(er[k] == entry_ranges(init)[k]);
                        }
                    }
                },
                None => {
                    assert(entry_ranges(init).contains(prev[j].0));
                    let k = choose|k: int| 0 <= k < entry_ranges(init).len() && entry_ranges(init)[k] == prev[j].0;
                    assert(er[k] == entry_ranges(init)[k]);
                },
            }
        }
    }
}

/// A range with a target is named by one of the pairs.
proof fn lemma_target_named(pairs: Seq<(RowRange, TargetView)>, r: RowRange)
    ensures
        target_for(pairs, r) is Some ==> exists|j: int| 0 <= j < pairs.len() && (#[trigger] pairs[j]).0 == r,
    decreases pairs.len(),
{
    if pairs.len() > 0 {
        lemma_target_named(pairs.drop_last(), r);
        if target_for(pairs.drop_last(), r) is Some && pairs.last().0 != r {
            let j = choose|j: int| 0 <= j < pairs.drop_last().len() && (#[trigger] pairs.drop_last()[j]).0 == r;
            assert(pairs[j] == pairs.drop_last()[j]);
        }
        if pairs.last().0 == r {
            assert(pairs[pairs.len() - 1].0 == r);
        }
    }
}

/// An override migrated onto a candidate is a well-formed partition of the
/// candidate's rows that covers every row that is not context, and it
/// assigns targets only to its own ranges.
pub proof fn lemma_migrated_override_wf(
    ov: OverrideView,
    c: CandView,
    entries: Seq<(RowRange, Option<TargetView>)>,
)
    requires
        entries.len() > 0,
        c.rows.len() <= u32::MAX,
        spec_migrated_override(ov, c, entries) is Some,
    ensures
        spec_migrated_override(ov, c, entries)->0.rows == c.rows,
        crate::rows::ranges_well_formed(
            spec_migrated_override(ov, c, entries)->0.ranges,
            c.rows.len() as int,
        ),
        forall|idx: int|
            0 <= idx < c.rows.len() && c.rows[idx] != RowKind::Context ==> crate::partition::covers_row(
                spec_migrated_override(ov, c, entries)->0.ranges,
                idx,
            ),
        forall|r: RowRange|
            #[trigger] target_for(spec_migrated_override(ov, c, entries)->0.assignments, r) is Some
                ==> spec_migrated_override(ov, c, entries)->0.ranges.contains(r),
{
    let o = spec_migrated_override(ov, c, entries)->0;
    let sorted = isort(entries, entry_key());
    let er = entry_ranges(sorted);
    let user = dedup_ranges(er);
    let rows = c.rows;
    let ranges = spec_materialize_residuals(user, rows);
    let n = rows.len() as int;
    crate::rows::lemma_validate_stored_ok(ranges, rows.len() as u32);
    assert(crate::rows::ranges_well_formed(ranges, n));
    lemma_isort(entries, entry_key());
    assert(starts_nondecreasing(er)) by {
        assert forall|i: int, j: int| 0 <= i < j < er.len() implies #[trigger] er[i].start
            <= #[trigger] er[j].start by {
            assert(entry_key()(sorted[i]) <= entry_key()(sorted[j]));
        }
    }
    lemma_dedup_props(er);
    crate::partition::lemma_rp_contains(user, rows, user.len() as int);
    let rp = crate::partition::residual_prefix(user, rows, user.len() as int);
    assert forall|j: int| 0 <= j < user.len() implies ranges.contains(#[trigger] user[j]) by {
        assert(rp.contains(user[j]));
        let k = choose|k: int| 0 <= k < rp.len() && rp[k] == user[j];
        assert(ranges[k] == rp[k]);
    }
    assert(crate::rows::ranges_well_formed(user, n)) by {
        assert(user.len() > 0);
        assert forall|i: int| 0 <= i < user.len() implies #[trigger] user[i].start < user[i].end <= n by {
            assert(ranges.contains(user[i]));
            let p = choose|p: int| 0 <= p < ranges.len() && ranges[p] == user[i];
        }
        assert forall|i: int| 0 < i < user.len() implies user[i - 1].end <= #[trigger] user[i].start by {
            assert(ranges.contains(user[i - 1]));
            assert(ranges.contains(user[i]));
            let p = choose|p: int| 0 <= p < ranges.len() && ranges[p] == user[i - 1];
            let q = choose|q: int| 0 <= q < ranges.len() && ranges[q] == user[i];
            assert(user[i - 1] != user[i]);
            assert(user[i - 1].start <= user[i].start);
            if q < p {
                crate::api::lemma_well_formed_ordered(ranges, n, q, p);
            } else if p < q {
                crate::api::lemma_well_formed_ordered(ranges, n, p, q);
            }
        }
    }
    crate::partition::lemma_residuals_partition(user, rows);
    lemma_pairs_from_entries_keys(sorted);
    assert forall|r: RowRange| #[trigger] target_for(o.assignments, r) is Some implies ranges.contains(r) by {
        lemma_target_named(o.assignments, r);
        let j = choose|j: int| 0 <= j < o.assignments.len() && (#[trigger] o.assignments[j]).0 == r;
        assert(er.contains(r));
        let i = choose|i: int| 0 <= i < er.len() && er[i] == r;
        assert(user.contains(er[i]));
        let k = choose|k: int| 0 <= k < user.len() && user[k] == r;
        assert(ranges.contains(user[k]));
    }
}

/// What every migrated override keeps: a well-formed partition of its rows
/// that covers each row that is not context, with targets only on its own
/// ranges.
pub open spec fn migrated_wf(o: OverrideView) -> bool {
    &&& crate::rows::ranges_well_formed(o.ranges, o.rows.len() as int)
    &&& forall|idx: int|
        0 <= idx < o.rows.len() && o.rows[idx] != RowKind::Context ==> crate::partition::covers_row(
            o.ranges,
            idx,
        )
    &&& forall|r: RowRange| #[trigger] target_for(o.assignments, r) is Some ==> o.ranges.contains(r)
}

/// The first `m` migrations all keep [`migrated_wf`].
proof fn lemma_migrated_upto_wf(
    ov: OverrideView,
    u: Seq<CandView>,
    s: Seq<CandView>,
    al: Seq<Option<(usize, usize)>>,
    m: int,
)
    requires
        forall|cp: int| 0 <= cp < s.len() ==> (#[trigger] s[cp]).rows.len() <= u32::MAX,
    ensures
        forall|k: int|
            0 <= k < migrated_upto(ov, u, s, al, m).len() ==> migrated_wf(
                (#[trigger] migrated_upto(ov, u, s, al, m)[k]).1,
            ),
    decreases m,
{
    if m > 0 {
        lemma_migrated_upto_wf(ov, u, s, al, m - 1);
        let prev = migrated_upto(ov, u, s, al, m - 1);
        let now = migrated_upto(ov, u, s, al, m);
        let cp = pos_of(s, u[m - 1].idx);
        lemma_pos_of(s, u[m - 1].idx);
        if cp < s.len() {
            let entries = entries_upto(ov, al, s, cp, ov.ranges.len() as int);
            if entries.len() > 0 {
                if let Some(o) = spec_migrated_override(ov, s[cp], entries) {
                    lemma_migrated_override_wf(ov, s[cp], entries);
                    assert forall|k: int| 0 <= k < now.len() implies migrated_wf(
                        (#[trigger] now[k]).1,
                    ) by {
                        if k < prev.len() {
                            assert(now[k] == prev[k]);
                        }
                    }
                }
            }
        }
    }
}

/// Every override that migration produces is a well-formed partition of
/// the rows of the hunk it moved to, covers each of its rows that is not
/// context, and assigns targets only to its own ranges.
pub proof fn lemma_migrate_wf(ov: OverrideView, assigns: Seq<AssignmentView>)
    requires
        forall|k: int|
            0 <= k < assigns.len() && (#[trigger] assigns[k]).path_bytes == ov.path ==> assignment_fits(
                assigns[k],
            ),
    ensures
        forall|j: int|
            0 <= j < spec_migrate(ov, assigns).len() ==> migrated_wf(
                (#[trigger] spec_migrate(ov, assigns)[j]).1,
            ),
{
    let oc = crate::body::row_contents_of(ov.anchor_diff);
    let u = candidates_upto(assigns, ov.path, assigns.len() as int);
    if oc.len() == ov.rows.len() && u.len() > 0 {
        lemma_candidates(assigns, ov.path, assigns.len() as int);
        let s = isort(u, cand_key());
        lemma_isort(u, cand_key());
        assert forall|cp: int| 0 <= cp < s.len() implies (#[trigger] s[cp]).rows.len() <= u32::MAX by {
            assert(u.contains(s[cp]));
            let w = choose|w: int| 0 <= w < u.len() && u[w] == s[cp];
            let a = assigns[u[w].idx];
            assert(assignment_fits(a));
            lemma_row_kinds_len(a.diff->0);
        }
        lemma_migrated_upto_wf(ov, u, s, spec_alignment(ov.rows, oc, s), u.len() as int);
    }
}

} // verus!
