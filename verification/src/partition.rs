//! Partitions of an anchor's rows: filling in the residual ranges around a
//! user selection, and refining a stored partition with new selections.
use crate::rows::{is_stop, ranges_well_formed, spec_trim, trim_context, RowKind, RowRange};
use vstd::prelude::*;

verus! {

/// The range, if there is one, as a sequence of zero or one element.
pub open spec fn opt_seq(o: Option<RowRange>) -> Seq<RowRange> {
    match o {
        Some(r) => seq![r],
        None => seq![],
    }
}

/// The trimmed residual of the gap `[cursor, next)`, if the gap is non-empty
/// and holds a non-context row.
pub open spec fn gap_piece(cursor: int, next: int, kinds: Seq<RowKind>) -> Seq<RowRange> {
    if next > cursor {
        opt_seq(spec_trim(RowRange { start: cursor as u32, end: next as u32 }, kinds))
    } else {
        seq![]
    }
}

/// Where the gap before user range `i` starts: the end of the previous user
/// range, or row 0.
pub open spec fn cursor_at(user: Seq<RowRange>, i: int) -> int {
    if i <= 0 {
        0
    } else {
        user[i - 1].end as int
    }
}

/// The partition built from the first `i` user ranges: each preceded by the
/// trimmed residual of the gap before it.
pub open spec fn residual_prefix(user: Seq<RowRange>, kinds: Seq<RowKind>, i: int) -> Seq<RowRange>
    decreases i,
{
    if i <= 0 {
        seq![]
    } else {
        residual_prefix(user, kinds, i - 1) + gap_piece(
            cursor_at(user, i - 1),
            user[i - 1].start as int,
            kinds,
        ) + seq![user[i - 1]]
    }
}

/// The full-coverage partition of an anchor with rows `kinds` around the
/// user ranges: every user range, with the trimmed residual of each gap
/// before, between and after them.
pub open spec fn spec_materialize_residuals(user: Seq<RowRange>, kinds: Seq<RowKind>) -> Seq<
    RowRange,
> {
    residual_prefix(user, kinds, user.len() as int) + gap_piece(
        cursor_at(user, user.len() as int),
        kinds.len() as int,
        kinds,
    )
}

/// Every range is non-empty and their starts never decrease.
pub open spec fn nonempty_sorted_by_start(ranges: Seq<RowRange>) -> bool {
    &&& forall|i: int| 0 <= i < ranges.len() ==> #[trigger] ranges[i].start < ranges[i].end
    &&& forall|i: int, j: int|
        0 <= i < j < ranges.len() ==> #[trigger] ranges[i].start <= #[trigger] ranges[j].start
}

/// Materialize residuals into the user-supplied `ranges`, producing the
/// full-coverage form stored on an override.
///
/// Residual gaps that are pure-context are dropped. The result is ordered by
/// start.
pub fn materialize_residual_ranges(user_ranges: &[RowRange], kinds: &[RowKind]) -> (r: Vec<
    RowRange,
>)
    requires
        kinds.len() <= u32::MAX,
        nonempty_sorted_by_start(user_ranges@),
    ensures
        r@ == spec_materialize_residuals(user_ranges@, kinds@),
        nonempty_sorted_by_start(r@),
{
    let row_count = kinds.len() as u32;
    let mut out: Vec<RowRange> = Vec::new();
    let mut cursor: u32 = 0;
    let mut i: usize = 0;
    while i < user_ranges.len()
        invariant
            0 <= i <= user_ranges.len(),
            row_count == kinds.len(),
            nonempty_sorted_by_start(user_ranges@),
            cursor == cursor_at(user_ranges@, i as int),
            out@ == residual_prefix(user_ranges@, kinds@, i as int),
            nonempty_sorted_by_start(out@),
            i > 0 ==> out@.len() > 0 && out@.last() == user_ranges@[i - 1],
            i > 0 ==> forall|k: int|
                0 <= k < out@.len() ==> #[trigger] out@[k].start <= user_ranges@[i - 1].start,
        decreases user_ranges.len() - i,
    {
        let r = user_ranges[i];
        let ghost before = out@;
        if r.start > cursor {
            let gap = RowRange { start: cursor, end: r.start };
            let t = trim_context(gap, kinds);
            proof {
                crate::rows::lemma_trim_shape(gap, kinds@);
            }
            if let Some(trimmed) = t {
                out.push(trimmed);
            }
        }
        assert(out@ == before + gap_piece(cursor as int, r.start as int, kinds@));
        out.push(r);
        proof {
            assert(out@ == residual_prefix(user_ranges@, kinds@, i + 1));
            assert forall|k: int| 0 <= k < out@.len() implies #[trigger] out@[k].start
                <= user_ranges@[i as int].start by {
                if k < before.len() && i > 0 {
                    assert(before[k].start <= user_ranges@[i - 1].start);
                    assert(user_ranges@[i - 1].start <= user_ranges@[i as int].start);
                }
            }
            assert forall|a: int, b: int| 0 <= a < b < out@.len() implies #[trigger] out@[a].start
                <= #[trigger] out@[b].start by {
                if b >= before.len() && a < before.len() && i > 0 {
                    assert(before[a].start <= user_ranges@[i - 1].start);
                    assert(user_ranges@[i - 1].start < user_ranges@[i - 1].end);
                }
            }
        }
        cursor = r.end;
        i += 1;
    }
    let ghost before = out@;
    if cursor < row_count {
        let gap = RowRange { start: cursor, end: row_count };
        let t = trim_context(gap, kinds);
        proof {
            crate::rows::lemma_trim_shape(gap, kinds@);
        }
        if let Some(trimmed) = t {
            out.push(trimmed);
            proof {
                assert forall|a: int, b: int| 0 <= a < b < out@.len() implies #[trigger] out@[a].start
                    <= #[trigger] out@[b].start by {
                    if b == before.len() && i > 0 {
                        assert(before[a].start <= user_ranges@[i - 1].start);
                        assert(user_ranges@[i - 1].start < user_ranges@[i - 1].end);
                    }
                }
            }
        }
    }
    assert(out@ == before + gap_piece(cursor as int, kinds.len() as int, kinds@));
    out
}

/// The segment between breakpoints `p` and `p + 1`.
pub open spec fn seg_at(pts: Seq<u32>, p: int) -> RowRange {
    RowRange { start: pts[p], end: pts[p + 1] }
}

/// `s` is the segment between two consecutive breakpoints before `k`.
pub open spec fn from_segment(pts: Seq<u32>, k: int, s: RowRange) -> bool {
    exists|p: int| 0 <= p < k && s == #[trigger] seg_at(pts, p)
}

/// The range `[a, b)`.
pub open spec fn mk_range(a: u32, b: u32) -> RowRange {
    RowRange { start: a, end: b }
}

/// `x` is the start or the end of range `i`.
pub open spec fn endpoint_at(ranges: Seq<RowRange>, i: int, x: int) -> bool {
    ranges[i].start == x || ranges[i].end == x
}

/// `x` is a start or end of one of the first `n` ranges.
pub open spec fn is_endpoint_before(ranges: Seq<RowRange>, n: int, x: int) -> bool {
    exists|i: int| 0 <= i < n && #[trigger] endpoint_at(ranges, i, x)
}

/// `x` is a start or end of one of `ranges`.
pub open spec fn is_endpoint_of(ranges: Seq<RowRange>, x: int) -> bool {
    is_endpoint_before(ranges, ranges.len() as int, x)
}

/// `x` is a breakpoint of the merge: an endpoint of an existing or a new range.
pub open spec fn is_breakpoint(existing: Seq<RowRange>, new_ranges: Seq<RowRange>, x: int) -> bool {
    is_endpoint_of(existing, x) || is_endpoint_of(new_ranges, x)
}

/// `[a, b)` lies between two consecutive breakpoints.
pub open spec fn is_elementary(existing: Seq<RowRange>, new_ranges: Seq<RowRange>, a: int, b: int) -> bool {
    &&& a < b
    &&& is_breakpoint(existing, new_ranges, a)
    &&& is_breakpoint(existing, new_ranges, b)
    &&& forall|c: int| a < c < b ==> !is_breakpoint(existing, new_ranges, c)
}

/// `seg` lies inside one of the existing ranges.
pub open spec fn inside_some(existing: Seq<RowRange>, seg: RowRange) -> bool {
    exists|i: int|
        0 <= i < existing.len() && #[trigger] existing[i].start <= seg.start && seg.end
            <= existing[i].end
}

/// The values strictly increase.
pub open spec fn strictly_increasing(v: Seq<u32>) -> bool {
    forall|i: int, j: int| 0 <= i < j < v.len() ==> #[trigger] v[i] < #[trigger] v[j]
}

/// The starts of the ranges strictly increase.
pub open spec fn starts_strictly_increasing(v: Seq<RowRange>) -> bool {
    forall|i: int, j: int| 0 <= i < j < v.len() ==> #[trigger] v[i].start < #[trigger] v[j].start
}

/// `r` is the partition `existing` refined by the endpoints of
/// `new_ranges`: with no new range, `existing` itself; otherwise, in order
/// of start, exactly the segments between consecutive endpoints of either
/// list that lie inside an existing range.
pub open spec fn is_merged_partition(existing: Seq<RowRange>, new_ranges: Seq<RowRange>, r: Seq<RowRange>) -> bool {
    &&& new_ranges.len() == 0 ==> r == existing
    &&& new_ranges.len() > 0 ==> {
        &&& starts_strictly_increasing(r)
        &&& forall|k: int|
            0 <= k < r.len() ==> is_elementary(
                existing,
                new_ranges,
                #[trigger] r[k].start as int,
                r[k].end as int,
            ) && inside_some(existing, r[k])
        &&& forall|a: u32, b: u32|
            is_elementary(existing, new_ranges, a as int, b as int) && inside_some(
                existing,
                mk_range(a, b),
            ) ==> r.contains(mk_range(a, b))
    }
}

/// Insert `x` into a strictly increasing vector, keeping it strictly
/// increasing and without duplicates.
fn insert_point(v: &mut Vec<u32>, x: u32)
    requires
        strictly_increasing(old(v)@),
    ensures
        strictly_increasing(final(v)@),
        forall|y: u32| #[trigger] final(v)@.contains(y) <==> (old(v)@.contains(y) || y == x),
{
    let mut p: usize = 0;
    while p < v.len() && v[p] < x
        invariant
            0 <= p <= v.len(),
            forall|k: int| 0 <= k < p ==> #[trigger] v@[k] < x,
        decreases v.len() - p,
    {
        p += 1;
    }
    if p < v.len() && v[p] == x {
        assert(v@.contains(x));
        return;
    }
    let ghost before = v@;
    v.insert(p, x);
    proof {
        assert forall|y: u32| #[trigger] v@.contains(y) <==> (before.contains(y) || y == x) by {
            if v@.contains(y) {
                let k = choose|k: int| 0 <= k < v@.len() && v@[k] == y;
                if k < p {
                    assert(before[k] == y);
                } else if k > p {
                    assert(before[k - 1] == y);
                }
            }
            if before.contains(y) {
                let k = choose|k: int| 0 <= k < before.len() && before[k] == y;
                if k < p {
                    assert(v@[k] == y);
                } else {
                    assert(v@[k + 1] == y);
                }
            }
            if y == x {
                assert(v@[p as int] == x);
            }
        }
    }
}

/// Add the starts and ends of `ranges` to the breakpoint vector.
fn add_endpoints(points: &mut Vec<u32>, ranges: &[RowRange])
    requires
        strictly_increasing(old(points)@),
    ensures
        strictly_increasing(final(points)@),
        forall|y: u32|
            #[trigger] final(points)@.contains(y) <==> (old(points)@.contains(y) || is_endpoint_of(
                ranges@,
                y as int,
            )),
{
    let ghost orig = points@;
    let mut i: usize = 0;
    while i < ranges.len()
        invariant
            0 <= i <= ranges.len(),
            strictly_increasing(points@),
            forall|y: u32|
                #[trigger] points@.contains(y) <==> (orig.contains(y) || is_endpoint_before(
                    ranges@,
                    i as int,
                    y as int,
                )),
        decreases ranges.len() - i,
    {
        let r = ranges[i];
        let ghost mid = points@;
        insert_point(points, r.start);
        let ghost v1 = points@;
        insert_point(points, r.end);
        proof {
            assert forall|y: u32|
                points@.contains(y) <==> (orig.contains(y) || is_endpoint_before(
                    ranges@,
                    i + 1,
                    y as int,
                )) by {
                assert(v1.contains(y) <==> (mid.contains(y) || y == r.start));
                assert(points@.contains(y) <==> (v1.contains(y) || y == r.end));
                assert(mid.contains(y) <==> (orig.contains(y) || is_endpoint_before(ranges@, i as int, y as int)));
                if is_endpoint_before(ranges@, i as int, y as int) {
                    let k = choose|k: int| 0 <= k < i && #[trigger] endpoint_at(ranges@, k, y as int);
                    assert(endpoint_at(ranges@, k, y as int));
                }
                if is_endpoint_before(ranges@, i + 1, y as int) {
                    let k = choose|k: int| 0 <= k < i + 1 && #[trigger] endpoint_at(ranges@, k, y as int);
                    if k < i {
                        assert(is_endpoint_before(ranges@, i as int, y as int));
                    }
                }
                if y == r.start || y == r.end {
                    assert(endpoint_at(ranges@, i as int, y as int));
                }
            }
        }
        i += 1;
    }
}

/// Copy a slice of ranges into a vector.
fn copy_ranges(ranges: &[RowRange]) -> (r: Vec<RowRange>)
    ensures
        r@ == ranges@,
{
    let mut out: Vec<RowRange> = Vec::new();
    let mut i: usize = 0;
    while i < ranges.len()
        invariant
            0 <= i <= ranges.len(),
            out@ == ranges@.take(i as int),
        decreases ranges.len() - i,
    {
        out.push(ranges[i]);
        assert(out@ =~= ranges@.take(i + 1));
        i += 1;
    }
    assert(ranges@.take(ranges.len() as int) =~= ranges@);
    out
}

/// Insert one or more user-selected ranges into an existing override's
/// partition, splitting any existing range that contains a new range at its
/// boundaries.
///
/// The result consists of the pieces between consecutive boundaries of the
/// existing and the new ranges that lie inside an existing range, in order;
/// with no new ranges it is the existing partition unchanged.
pub fn merge_user_ranges_into_partition(existing: &[RowRange], new_user_ranges: &[RowRange]) -> (r:
    Vec<RowRange>)
    ensures
        is_merged_partition(existing@, new_user_ranges@, r@),
{
    if new_user_ranges.len() == 0 {
        return copy_ranges(existing);
    }
    let mut points: Vec<u32> = Vec::new();
    let ghost p0 = points@;
    assert(forall|y: u32| !p0.contains(y));
    add_endpoints(&mut points, existing);
    let ghost p1 = points@;
    add_endpoints(&mut points, new_user_ranges);
    let ghost pts = points@;
    assert forall|y: u32| pts.contains(y) <==> is_breakpoint(existing@, new_user_ranges@, y as int) by {
        assert(!p0.contains(y));
        assert(p1.contains(y) <==> is_endpoint_of(existing@, y as int));
        assert(pts.contains(y) <==> (p1.contains(y) || is_endpoint_of(new_user_ranges@, y as int)));
    }
    let mut out: Vec<RowRange> = Vec::new();
    let mut k: usize = 0;
    while k < points.len() && k + 1 < points.len()
        invariant
            points@ == pts,
            strictly_increasing(pts),
            forall|y: u32| pts.contains(y) <==> is_breakpoint(existing@, new_user_ranges@, y as int),
            0 <= k <= pts.len(),
            pts.len() == 0 || k < pts.len(),
            forall|t: int| 0 <= t < out@.len() ==> from_segment(pts, k as int, #[trigger] out@[t]),
            forall|t: int| 0 <= t < out@.len() ==> inside_some(existing@, #[trigger] out@[t]),
            forall|t: int|
                0 <= t < out@.len() ==> k > 0 && #[trigger] out@[t].start <= pts[k - 1],
            starts_strictly_increasing(out@),
            forall|p: int|
                0 <= p < k && p + 1 < pts.len() && inside_some(
                    existing@,
                    seg_at(pts, p),
                ) ==> out@.contains(seg_at(pts, p)),
        decreases pts.len() - k,
    {
        let seg = RowRange { start: points[k], end: points[k + 1] };
        let mut inside = false;
        let mut j: usize = 0;
        while j < existing.len()
            invariant
                0 <= j <= existing.len(),
                inside == exists|q: int|
                    0 <= q < j && #[trigger] existing@[q].start <= seg.start && seg.end
                        <= existing@[q].end,
            decreases existing.len() - j,
        {
            let e = existing[j];
            if e.start <= seg.start && seg.end <= e.end {
                inside = true;
            }
            j += 1;
        }
        let ghost before = out@;
        if inside {
            out.push(seg);
        }
        proof {
            assert forall|t: int| 0 <= t < out@.len() implies from_segment(pts, k + 1, #[trigger] out@[t]) by {
                if t == before.len() {
                    assert(out@[t] == seg_at(pts, k as int));
                } else {
                    assert(out@[t] == before[t]);
                    assert(from_segment(pts, k as int, before[t]));
                    let p = choose|p: int| 0 <= p < k && before[t] == #[trigger] seg_at(pts, p);
                    assert(out@[t] == seg_at(pts, p));
                }
            }
            assert forall|t: int| 0 <= t < out@.len() implies inside_some(existing@, #[trigger] out@[t]) by {
                if t < before.len() {
                    assert(out@[t] == before[t]);
                }
            }
        }
        proof {
            assert forall|t: int| 0 <= t < out@.len() implies k + 1 > 0 && #[trigger] out@[t].start
                <= pts[k as int] by {
                if t < before.len() {
                    assert(before[t] == out@[t]);
                    assert(pts[k - 1] < pts[k as int]);
                }
            }
            assert forall|a: int, b: int| 0 <= a < b < out@.len() implies #[trigger] out@[a].start
                < #[trigger] out@[b].start by {
                if b == before.len() {
                    assert(before[a] == out@[a]);
                    assert(pts[k - 1] < pts[k as int]);
                }
            }
            assert forall|p: int|
                0 <= p < k + 1 && p + 1 < pts.len() && inside_some(
                    existing@,
                    seg_at(pts, p),
                ) implies out@.contains(seg_at(pts, p)) by {
                if p < k {
                    let t = choose|t: int|
                        0 <= t < before.len() && before[t] == seg_at(pts, p);
                    assert(out@[t] == before[t]);
                } else {
                    assert(out@[before.len() as int] == seg);
                }
            }
        }
        k += 1;
    }
    proof {
        assert forall|t: int| 0 <= t < out@.len() implies is_elementary(
            existing@,
            new_user_ranges@,
            #[trigger] out@[t].start as int,
            out@[t].end as int,
        ) && inside_some(existing@, out@[t]) by {
            assert(from_segment(pts, k as int, out@[t]));
            let p = choose|p: int| 0 <= p < k && out@[t] == #[trigger] seg_at(pts, p);
            assert(pts.contains(pts[p]));
            assert(pts.contains(pts[p + 1]));
            assert forall|c: int| pts[p] < c < pts[p + 1] implies !is_breakpoint(
                existing@,
                new_user_ranges@,
                c,
            ) by {
                if is_breakpoint(existing@, new_user_ranges@, c) {
                    assert(is_breakpoint(existing@, new_user_ranges@, (c as u32) as int));
                    assert(pts.contains(c as u32));
                    let q = choose|q: int| 0 <= q < pts.len() && pts[q] == c as u32;
                    if q <= p {
                        if q < p {
                            assert(pts[q] < pts[p]);
                        }
                    } else if q >= p + 1 {
                        if q > p + 1 {
                            assert(pts[p + 1] < pts[q]);
                        }
                    }
                }
            }
        }
        assert forall|a: u32, b: u32|
            is_elementary(existing@, new_user_ranges@, a as int, b as int) && inside_some(
                existing@,
                mk_range(a, b),
            ) implies out@.contains(mk_range(a, b)) by {
            assert(pts.contains(a));
            assert(pts.contains(b));
            let p = choose|p: int| 0 <= p < pts.len() && pts[p] == a;
            let q = choose|q: int| 0 <= q < pts.len() && pts[q] == b;
            if q <= p {
                if q < p {
                    assert(pts[q] < pts[p]);
                }
            }
            if q > p + 1 {
                assert(pts[p] < pts[p + 1] < pts[q]);
                assert(pts.contains(pts[p + 1]));
                assert(is_breakpoint(existing@, new_user_ranges@, pts[p + 1] as int));
            }
            assert(q == p + 1);
            assert(seg_at(pts, p) == mk_range(a, b));
            assert(p < k);
        }
    }
    out
}

/// Non-empty ranges inside `[lo, hi]`, each ending before the next starts.
pub open spec fn chain(s: Seq<RowRange>, lo: int, hi: int) -> bool {
    &&& forall|i: int| 0 <= i < s.len() ==> lo <= (#[trigger] s[i]).start < s[i].end <= hi
    &&& forall|i: int| 0 < i < s.len() ==> s[i - 1].end <= (#[trigger] s[i]).start
}

/// Row `idx` lies in one of the ranges.
pub open spec fn covers_row(s: Seq<RowRange>, idx: int) -> bool {
    exists|k: int| 0 <= k < s.len() && (#[trigger] s[k]).start <= idx < s[k].end
}

/// Chains one after the other form a chain.
proof fn lemma_chain_concat(a: Seq<RowRange>, b: Seq<RowRange>, lo: int, mid: int, hi: int)
    requires
        lo <= mid <= hi,
        chain(a, lo, mid),
        chain(b, mid, hi),
    ensures
        chain(a + b, lo, hi),
{
    let c = a + b;
    assert forall|i: int| 0 <= i < c.len() implies lo <= (#[trigger] c[i]).start < c[i].end <= hi by {
        if i < a.len() {
            assert(c[i] == a[i]);
        } else {
            assert(c[i] == b[i - a.len()]);
        }
    }
    assert forall|i: int| 0 < i < c.len() implies c[i - 1].end <= (#[trigger] c[i]).start by {
        if i < a.len() {
            assert(c[i] == a[i] && c[i - 1] == a[i - 1]);
        } else if i == a.len() {
            assert(c[i] == b[0] && c[i - 1] == a[i - 1]);
        } else {
            assert(c[i] == b[i - a.len()] && c[i - 1] == b[i - 1 - a.len()]);
        }
    }
}

/// The residual of a gap lies in the gap and covers its non-context rows.
proof fn lemma_gap_piece(cursor: int, next: int, kinds: Seq<RowKind>)
    requires
        0 <= cursor <= next <= kinds.len() <= u32::MAX,
    ensures
        chain(gap_piece(cursor, next, kinds), cursor, next),
        forall|idx: int|
            cursor <= idx < next && kinds[idx] != RowKind::Context ==> covers_row(
                gap_piece(cursor, next, kinds),
                idx,
            ),
{
    if next > cursor {
        let r = RowRange { start: cursor as u32, end: next as u32 };
        crate::rows::lemma_trim_shape(r, kinds);
        let g = gap_piece(cursor, next, kinds);
        assert forall|idx: int| cursor <= idx < next && kinds[idx] != RowKind::Context implies covers_row(
            g,
            idx,
        ) by {
            assert(is_stop(kinds, idx));
            let t = spec_trim(r, kinds)->0;
            assert(g[0] == t);
        }
    }
}

/// The gap before user range `i` is ordered: it starts at or after row 0
/// and ends where the range starts.
proof fn lemma_cursor(user: Seq<RowRange>, kinds: Seq<RowKind>, i: int)
    requires
        ranges_well_formed(user, kinds.len() as int),
        0 <= i < user.len(),
    ensures
        0 <= cursor_at(user, i) <= user[i].start < user[i].end <= kinds.len(),
{
    if i > 0 {
        assert(user[i - 1].end <= user[i].start);
    }
}

/// The partition built from the first `i` user ranges is a chain up to the
/// end of the last of them.
proof fn lemma_rp_chain(user: Seq<RowRange>, kinds: Seq<RowKind>, i: int)
    requires
        ranges_well_formed(user, kinds.len() as int),
        kinds.len() <= u32::MAX,
        0 <= i <= user.len(),
    ensures
        chain(residual_prefix(user, kinds, i), 0, cursor_at(user, i)),
    decreases i,
{
    if i > 0 {
        lemma_rp_chain(user, kinds, i - 1);
        lemma_cursor(user, kinds, i - 1);
        let prev = residual_prefix(user, kinds, i - 1);
        let c = cursor_at(user, i - 1);
        let u = user[i - 1];
        lemma_gap_piece(c, u.start as int, kinds);
        let g = gap_piece(c, u.start as int, kinds);
        lemma_chain_concat(prev, g, 0, c, u.start as int);
        assert(chain(seq![u], u.start as int, u.end as int));
        lemma_chain_concat(prev + g, seq![u], 0, u.start as int, u.end as int);
    }
}

/// The partition built from the first `i` user ranges holds each of them.
pub(crate) proof fn lemma_rp_contains(user: Seq<RowRange>, kinds: Seq<RowKind>, i: int)
    requires
        0 <= i <= user.len(),
    ensures
        forall|j: int| 0 <= j < i ==> residual_prefix(user, kinds, i).contains(#[trigger] user[j]),
    decreases i,
{
    if i > 0 {
        lemma_rp_contains(user, kinds, i - 1);
        let prev = residual_prefix(user, kinds, i - 1);
        let now = residual_prefix(user, kinds, i);
        let g = gap_piece(cursor_at(user, i - 1), user[i - 1].start as int, kinds);
        assert(now == prev + g + seq![user[i - 1]]);
        assert forall|j: int| 0 <= j < i implies now.contains(#[trigger] user[j]) by {
            if j < i - 1 {
                let k = choose|k: int| 0 <= k < prev.len() && prev[k] == user[j];
                assert(now[k] == prev[k]);
            } else {
                assert(now[now.len() - 1] == user[i - 1]);
            }
        }
    }
}

/// The partition built from the first `i` user ranges covers every
/// non-context row before the end of the last of them.
proof fn lemma_rp_covers(user: Seq<RowRange>, kinds: Seq<RowKind>, i: int)
    requires
        ranges_well_formed(user, kinds.len() as int),
        kinds.len() <= u32::MAX,
        0 <= i <= user.len(),
    ensures
        forall|idx: int|
            0 <= idx < cursor_at(user, i) && kinds[idx] != RowKind::Context ==> covers_row(
                residual_prefix(user, kinds, i),
                idx,
            ),
    decreases i,
{
    if i > 0 {
        lemma_rp_covers(user, kinds, i - 1);
        lemma_cursor(user, kinds, i - 1);
        let prev = residual_prefix(user, kinds, i - 1);
        let c = cursor_at(user, i - 1);
        let u = user[i - 1];
        lemma_gap_piece(c, u.start as int, kinds);
        let g = gap_piece(c, u.start as int, kinds);
        let now = residual_prefix(user, kinds, i);
        assert(now == prev + g + seq![u]);
        assert forall|idx: int|
            0 <= idx < cursor_at(user, i) && kinds[idx] != RowKind::Context implies covers_row(
            now,
            idx,
        ) by {
            if idx < c {
                let k = choose|k: int|
                    0 <= k < prev.len() && (#[trigger] prev[k]).start <= idx < prev[k].end;
                assert(now[k] == prev[k]);
            } else if idx < u.start {
                let k = choose|k: int| 0 <= k < g.len() && (#[trigger] g[k]).start <= idx < g[k].end;
                assert(now[prev.len() + k] == g[k]);
            } else {
                assert(now[now.len() - 1] == u);
            }
        }
    }
}

/// The residual partition of a well-formed selection is itself a well-formed
/// partition of the anchor's rows: sorted, disjoint and non-empty ranges
/// inside the rows, holding every selected range and covering every row that
/// is not context.
pub proof fn lemma_residuals_partition(user: Seq<RowRange>, kinds: Seq<RowKind>)
    requires
        ranges_well_formed(user, kinds.len() as int),
        kinds.len() <= u32::MAX,
    ensures
        ranges_well_formed(spec_materialize_residuals(user, kinds), kinds.len() as int),
        forall|j: int|
            0 <= j < user.len() ==> spec_materialize_residuals(user, kinds).contains(#[trigger] user[j]),
        forall|idx: int|
            0 <= idx < kinds.len() && kinds[idx] != RowKind::Context ==> covers_row(
                spec_materialize_residuals(user, kinds),
                idx,
            ),
{
    let n = user.len() as int;
    lemma_rp_chain(user, kinds, n);
    lemma_rp_contains(user, kinds, n);
    lemma_rp_covers(user, kinds, n);
    let prev = residual_prefix(user, kinds, n);
    let c = cursor_at(user, n);
    assert(user[n - 1].end <= kinds.len());
    lemma_gap_piece(c, kinds.len() as int, kinds);
    let g = gap_piece(c, kinds.len() as int, kinds);
    let r = spec_materialize_residuals(user, kinds);
    assert(r == prev + g);
    lemma_chain_concat(prev, g, 0, c, kinds.len() as int);
    assert(r.len() > 0) by {
        assert(prev.contains(user[0]));
    }
    assert forall|j: int| 0 <= j < user.len() implies r.contains(#[trigger] user[j]) by {
        let k = choose|k: int| 0 <= k < prev.len() && prev[k] == user[j];
        assert(r[k] == prev[k]);
    }
    assert forall|idx: int| 0 <= idx < kinds.len() && kinds[idx] != RowKind::Context implies covers_row(
        r,
        idx,
    ) by {
        if idx < c {
            let k = choose|k: int| 0 <= k < prev.len() && (#[trigger] prev[k]).start <= idx < prev[k].end;
            assert(r[k] == prev[k]);
        } else {
            let k = choose|k: int| 0 <= k < g.len() && (#[trigger] g[k]).start <= idx < g[k].end;
            assert(r[prev.len() + k] == g[k]);
        }
    }
}

/// The starts and ends of the ranges, in order.
pub open spec fn endpoints(ranges: Seq<RowRange>) -> Seq<int>
    decreases ranges.len(),
{
    if ranges.len() == 0 {
        seq![]
    } else {
        endpoints(ranges.drop_last()) + seq![ranges.last().start as int, ranges.last().end as int]
    }
}

/// The endpoints list holds exactly the endpoints of the ranges.
proof fn lemma_endpoints(ranges: Seq<RowRange>)
    ensures
        forall|x: int| #[trigger] endpoints(ranges).contains(x) <==> is_endpoint_of(ranges, x),
        forall|k: int| 0 <= k < endpoints(ranges).len() ==> 0 <= #[trigger] endpoints(ranges)[k] <= u32::MAX,
    decreases ranges.len(),
{
    if ranges.len() > 0 {
        let init = ranges.drop_last();
        lemma_endpoints(init);
        let e = endpoints(ranges);
        let ei = endpoints(init);
        let l = ranges.last();
        assert(e == ei + seq![l.start as int, l.end as int]);
        assert forall|x: int| #[trigger] e.contains(x) <==> is_endpoint_of(ranges, x) by {
            if e.contains(x) {
                let k = choose|k: int| 0 <= k < e.len() && e[k] == x;
                if k < ei.len() {
                    assert(ei[k] == x);
                    assert(ei.contains(x));
                    let i = choose|i: int| 0 <= i < init.len() && #[trigger] endpoint_at(init, i, x);
                    assert(endpoint_at(ranges, i, x));
                } else {
                    assert(endpoint_at(ranges, ranges.len() - 1, x));
                }
            }
            if is_endpoint_of(ranges, x) {
                let i = choose|i: int| 0 <= i < ranges.len() && #[trigger] endpoint_at(ranges, i, x);
                if i < init.len() {
                    assert(endpoint_at(init, i, x));
                    assert(is_endpoint_of(init, x));
                    assert(endpoints(init).contains(x));
                    let k = choose|k: int| 0 <= k < ei.len() && ei[k] == x;
                    assert(e[k] == x);
                } else if l.start == x {
                    assert(e[ei.len() as int] == x);
                } else {
                    assert(e[ei.len() as int + 1] == x);
                }
            }
        }
        assert forall|k: int| 0 <= k < e.len() implies 0 <= #[trigger] e[k] <= u32::MAX by {
            if k < ei.len() {
                assert(e[k] == ei[k]);
            }
        }
    }
}

/// The greatest element of `pts` at most `x`, or -1 if there is none.
pub open spec fn max_le(pts: Seq<int>, x: int) -> int
    decreases pts.len(),
{
    if pts.len() == 0 {
        -1
    } else {
        let m = max_le(pts.drop_last(), x);
        if pts.last() <= x && pts.last() > m {
            pts.last()
        } else {
            m
        }
    }
}

/// The least element of `pts` above `x`, or `x` if there is none.
pub open spec fn min_gt(pts: Seq<int>, x: int) -> int
    decreases pts.len(),
{
    if pts.len() == 0 {
        x
    } else {
        let m = min_gt(pts.drop_last(), x);
        if pts.last() > x && (m == x || pts.last() < m) {
            pts.last()
        } else {
            m
        }
    }
}

/// `max_le` finds the greatest element at most `x` when the elements are
/// not negative.
proof fn lemma_max_le(pts: Seq<int>, x: int)
    requires
        forall|k: int| 0 <= k < pts.len() ==> #[trigger] pts[k] >= 0,
    ensures
        max_le(pts, x) == -1 || (pts.contains(max_le(pts, x)) && max_le(pts, x) <= x),
        forall|k: int| 0 <= k < pts.len() && #[trigger] pts[k] <= x ==> pts[k] <= max_le(pts, x),
    decreases pts.len(),
{
    if pts.len() > 0 {
        let init = pts.drop_last();
        lemma_max_le(init, x);
        let m = max_le(init, x);
        if m != -1 {
            let k = choose|k: int| 0 <= k < init.len() && init[k] == m;
            assert(pts[k] == m);
        }
        assert(pts[pts.len() - 1] == pts.last());
        assert forall|k: int| 0 <= k < pts.len() && #[trigger] pts[k] <= x implies pts[k] <= max_le(pts, x) by {
            if k < init.len() {
                assert(init[k] == pts[k]);
            }
        }
    }
}

/// `min_gt` finds the least element above `x`.
proof fn lemma_min_gt(pts: Seq<int>, x: int)
    ensures
        min_gt(pts, x) == x || (pts.contains(min_gt(pts, x)) && min_gt(pts, x) > x),
        forall|k: int| 0 <= k < pts.len() && #[trigger] pts[k] > x ==> min_gt(pts, x) > x && min_gt(pts, x) <= pts[k],
    decreases pts.len(),
{
    if pts.len() > 0 {
        let init = pts.drop_last();
        lemma_min_gt(init, x);
        let m = min_gt(init, x);
        if m != x {
            let k = choose|k: int| 0 <= k < init.len() && init[k] == m;
            assert(pts[k] == m);
        }
        assert(pts[pts.len() - 1] == pts.last());
        assert forall|k: int| 0 <= k < pts.len() && #[trigger] pts[k] > x implies min_gt(pts, x) > x
            && min_gt(pts, x) <= pts[k] by {
            if k < init.len() {
                assert(init[k] == pts[k]);
            }
        }
    }
}

/// Refining a partition keeps its coverage, makes every new range a union
/// of pieces (no piece straddles a new range's boundary), and gives sorted,
/// disjoint, non-empty pieces.
pub proof fn lemma_merge_partition(existing: Seq<RowRange>, new_ranges: Seq<RowRange>, r: Seq<RowRange>)
    requires
        is_merged_partition(existing, new_ranges, r),
        new_ranges.len() > 0,
    ensures
        forall|idx: int| covers_row(r, idx) <==> covers_row(existing, idx),
        forall|k: int, n: int|
            0 <= k < r.len() && 0 <= n < new_ranges.len() && (#[trigger] r[k]).start < (
            #[trigger] new_ranges[n]).end && new_ranges[n].start < r[k].end ==> new_ranges[n].start
                <= r[k].start && r[k].end <= new_ranges[n].end,
        forall|k: int| 0 <= k < r.len() ==> (#[trigger] r[k]).start < r[k].end,
        forall|k: int| 0 < k < r.len() ==> r[k - 1].end <= (#[trigger] r[k]).start,
{
    assert forall|k: int, n: int|
        0 <= k < r.len() && 0 <= n < new_ranges.len() && (#[trigger] r[k]).start < (
        #[trigger] new_ranges[n]).end && new_ranges[n].start < r[k].end implies new_ranges[n].start
        <= r[k].start && r[k].end <= new_ranges[n].end by {
        let a = r[k].start as int;
        let b = r[k].end as int;
        assert(is_elementary(existing, new_ranges, a, b));
        let c = new_ranges[n].start as int;
        let d = new_ranges[n].end as int;
        assert(endpoint_at(new_ranges, n, c));
        assert(endpoint_at(new_ranges, n, d));
        assert(is_breakpoint(existing, new_ranges, c));
        assert(is_breakpoint(existing, new_ranges, d));
    }
    assert forall|k: int| 0 < k < r.len() implies r[k - 1].end <= (#[trigger] r[k]).start by {
        let a = r[k - 1].start as int;
        let b = r[k - 1].end as int;
        assert(is_elementary(existing, new_ranges, a, b));
        assert(is_elementary(existing, new_ranges, r[k].start as int, r[k].end as int));
        assert(r[k - 1].start < r[k].start);
    }
    assert forall|k: int| 0 <= k < r.len() implies (#[trigger] r[k]).start < r[k].end by {
        assert(is_elementary(existing, new_ranges, r[k].start as int, r[k].end as int));
    }
    let pts = endpoints(existing) + endpoints(new_ranges);
    lemma_endpoints(existing);
    lemma_endpoints(new_ranges);
    assert forall|x: int| #[trigger] pts.contains(x) <==> is_breakpoint(existing, new_ranges, x) by {
        if pts.contains(x) {
            let k = choose|k: int| 0 <= k < pts.len() && pts[k] == x;
            if k < endpoints(existing).len() {
                assert(endpoints(existing)[k] == x);
                assert(endpoints(existing).contains(x));
            } else {
                assert(endpoints(new_ranges)[k - endpoints(existing).len()] == x);
                assert(endpoints(new_ranges).contains(x));
            }
        }
        if is_endpoint_of(existing, x) {
            assert(endpoints(existing).contains(x));
            let k = choose|k: int| 0 <= k < endpoints(existing).len() && endpoints(existing)[k] == x;
            assert(pts[k] == x);
        }
        if is_endpoint_of(new_ranges, x) {
            assert(endpoints(new_ranges).contains(x));
            let k = choose|k: int| 0 <= k < endpoints(new_ranges).len() && endpoints(new_ranges)[k] == x;
            assert(pts[endpoints(existing).len() + k] == x);
        }
    }
    assert forall|k: int| 0 <= k < pts.len() implies 0 <= #[trigger] pts[k] <= u32::MAX by {
        if k < endpoints(existing).len() {
            assert(pts[k] == endpoints(existing)[k]);
        } else {
            assert(pts[k] == endpoints(new_ranges)[k - endpoints(existing).len()]);
        }
    }
    assert forall|idx: int| covers_row(r, idx) <==> covers_row(existing, idx) by {
        if covers_row(r, idx) {
            let k = choose|k: int| 0 <= k < r.len() && (#[trigger] r[k]).start <= idx < r[k].end;
            assert(inside_some(existing, r[k]));
            let i = choose|i: int|
                0 <= i < existing.len() && #[trigger] existing[i].start <= r[k].start && r[k].end
                    <= existing[i].end;
            assert(existing[i].start <= idx < existing[i].end);
        }
        if covers_row(existing, idx) {
            let i = choose|i: int| 0 <= i < existing.len() && (#[trigger] existing[i]).start <= idx < existing[i].end;
            let s0 = existing[i].start as int;
            let e0 = existing[i].end as int;
            assert(endpoint_at(existing, i, s0));
            assert(endpoint_at(existing, i, e0));
            assert(pts.contains(s0) && pts.contains(e0));
            lemma_max_le(pts, idx);
            lemma_min_gt(pts, idx);
            let ks = choose|k: int| 0 <= k < pts.len() && pts[k] == s0;
            let ke = choose|k: int| 0 <= k < pts.len() && pts[k] == e0;
            let a = max_le(pts, idx);
            let b = min_gt(pts, idx);
            assert(s0 <= a <= idx);
            assert(idx < b <= e0);
            let ka = choose|k: int| 0 <= k < pts.len() && pts[k] == a;
            let kb = choose|k: int| 0 <= k < pts.len() && pts[k] == b;
            assert(0 <= a <= u32::MAX);
            assert(0 <= b <= u32::MAX);
            assert forall|c: int| a < c < b implies !is_breakpoint(existing, new_ranges, c) by {
                if is_breakpoint(existing, new_ranges, c) {
                    assert(pts.contains(c));
                    let kc = choose|k: int| 0 <= k < pts.len() && pts[k] == c;
                    if c <= idx {
                        assert(pts[kc] <= a);
                    } else {
                        assert(b <= pts[kc]);
                    }
                }
            }
            assert(is_elementary(existing, new_ranges, (a as u32) as int, (b as u32) as int));
            assert(inside_some(existing, mk_range(a as u32, b as u32)));
            assert(r.contains(mk_range(a as u32, b as u32)));
            let k = choose|k: int| 0 <= k < r.len() && r[k] == mk_range(a as u32, b as u32);
            assert(r[k].start <= idx < r[k].end);
        }
    }
}

/// Two lists of ranges whose starts strictly increase and that hold the
/// same ranges are the same list.
proof fn lemma_sorted_same_members(a: Seq<RowRange>, b: Seq<RowRange>)
    requires
        starts_strictly_increasing(a),
        starts_strictly_increasing(b),
        forall|x: RowRange| a.contains(x) <==> b.contains(x),
    ensures
        a == b,
    decreases a.len(),
{
    if a.len() == 0 {
        if b.len() > 0 {
            assert(b.contains(b[0]));
        }
        assert(a =~= b);
    } else {
        assert(a.contains(a[0]));
        assert(b.contains(a[0]));
        let j = choose|j: int| 0 <= j < b.len() && b[j] == a[0];
        assert(b.contains(b[0]));
        assert(a.contains(b[0]));
        let i = choose|i: int| 0 <= i < a.len() && a[i] == b[0];
        if i > 0 {
            assert(a[0].start < a[i].start);
            assert(b[0].start <= b[j].start);
        }
        assert(i == 0);
        assert(b[0] == a[0]);
        let a2 = a.drop_first();
        let b2 = b.drop_first();
        assert forall|x: RowRange| a2.contains(x) <==> b2.contains(x) by {
            if a2.contains(x) {
                let k = choose|k: int| 0 <= k < a2.len() && a2[k] == x;
                assert(a[k + 1] == x);
                assert(a[0].start < a[k + 1].start);
                assert(b.contains(x));
                let m = choose|m: int| 0 <= m < b.len() && b[m] == x;
                assert(m != 0);
                assert(b2[m - 1] == x);
            }
            if b2.contains(x) {
                let k = choose|k: int| 0 <= k < b2.len() && b2[k] == x;
                assert(b[k + 1] == x);
                assert(b[0].start < b[k + 1].start);
                assert(a.contains(x));
                let m = choose|m: int| 0 <= m < a.len() && a[m] == x;
                assert(m != 0);
                assert(a2[m - 1] == x);
            }
        }
        assert(starts_strictly_increasing(a2)) by {
            assert forall|p: int, q: int| 0 <= p < q < a2.len() implies #[trigger] a2[p].start
                < #[trigger] a2[q].start by {
                assert(a[p + 1].start < a[q + 1].start);
            }
        }
        assert(starts_strictly_increasing(b2)) by {
            assert forall|p: int, q: int| 0 <= p < q < b2.len() implies #[trigger] b2[p].start
                < #[trigger] b2[q].start by {
                assert(b[p + 1].start < b[q + 1].start);
            }
        }
        lemma_sorted_same_members(a2, b2);
        assert(a =~= seq![a[0]] + a2);
        assert(b =~= seq![b[0]] + b2);
    }
}

/// The refinement of a partition by given ranges is unique: two results of
/// merging the same ranges into the same partition are equal.
pub proof fn lemma_merge_unique(
    existing: Seq<RowRange>,
    new_ranges: Seq<RowRange>,
    r1: Seq<RowRange>,
    r2: Seq<RowRange>,
)
    requires
        is_merged_partition(existing, new_ranges, r1),
        is_merged_partition(existing, new_ranges, r2),
    ensures
        r1 == r2,
{
    if new_ranges.len() > 0 {
        assert forall|x: RowRange| r1.contains(x) <==> r2.contains(x) by {
            assert(mk_range(x.start, x.end) == x);
            if r1.contains(x) {
                let k = choose|k: int| 0 <= k < r1.len() && r1[k] == x;
                assert(is_elementary(existing, new_ranges, r1[k].start as int, r1[k].end as int));
                assert(inside_some(existing, r1[k]));
            }
            if r2.contains(x) {
                let k = choose|k: int| 0 <= k < r2.len() && r2[k] == x;
                assert(is_elementary(existing, new_ranges, r2[k].start as int, r2[k].end as int));
                assert(inside_some(existing, r2[k]));
            }
        }
        lemma_sorted_same_members(r1, r2);
    }
}

/// Non-empty ranges, each ending no later than the next one starts.
pub open spec fn sorted_disjoint(v: Seq<RowRange>) -> bool {
    &&& forall|k: int| 0 <= k < v.len() ==> (#[trigger] v[k]).start < v[k].end
    &&& forall|i: int, j: int| 0 <= i < j < v.len() ==> (#[trigger] v[i]).end <= (#[trigger] v[j]).start
}

/// An endpoint of a sorted, disjoint partition lies strictly inside none of
/// its ranges.
proof fn lemma_endpoint_not_inside(v: Seq<RowRange>, k: int, c: int)
    requires
        sorted_disjoint(v),
        0 <= k < v.len(),
        is_endpoint_of(v, c),
    ensures
        !(v[k].start < c < v[k].end),
{
    let j = choose|j: int| 0 <= j < v.len() && #[trigger] endpoint_at(v, j, c);
    if j < k {
        assert(v[j].end <= v[k].start);
    } else if j > k {
        assert(v[k].end <= v[j].start);
    }
}

/// Merging ranges whose every endpoint is already an endpoint of a sorted,
/// disjoint partition leaves that partition as it is.
pub proof fn lemma_merge_aligned_noop(
    existing: Seq<RowRange>,
    new_ranges: Seq<RowRange>,
    r: Seq<RowRange>,
)
    requires
        is_merged_partition(existing, new_ranges, r),
        sorted_disjoint(existing),
        forall|x: int| is_endpoint_of(new_ranges, x) ==> is_endpoint_of(existing, x),
    ensures
        r == existing,
{
    if new_ranges.len() > 0 {
        let e = existing;
        assert forall|c: int| #[trigger] is_breakpoint(e, new_ranges, c) implies is_endpoint_of(e, c) by {}
        assert(starts_strictly_increasing(e)) by {
            assert forall|i: int, j: int| 0 <= i < j < e.len() implies #[trigger] e[i].start
                < #[trigger] e[j].start by {
                assert(e[i].start < e[i].end);
                assert(e[i].end <= e[j].start);
            }
        }
        assert forall|k: int| 0 <= k < e.len() implies is_elementary(
            e,
            new_ranges,
            #[trigger] e[k].start as int,
            e[k].end as int,
        ) && inside_some(e, e[k]) by {
            assert(endpoint_at(e, k, e[k].start as int));
            assert(endpoint_at(e, k, e[k].end as int));
            assert forall|c: int| e[k].start < c < e[k].end implies !is_breakpoint(e, new_ranges, c) by {
                if is_breakpoint(e, new_ranges, c) {
                    lemma_endpoint_not_inside(e, k, c);
                }
            }
        }
        assert forall|a: u32, b: u32|
            is_elementary(e, new_ranges, a as int, b as int) && inside_some(
                e,
                mk_range(a, b),
            ) implies e.contains(mk_range(a, b)) by {
            let i = choose|i: int|
                0 <= i < e.len() && #[trigger] e[i].start <= mk_range(a, b).start && mk_range(a, b).end
                    <= e[i].end;
            assert(is_breakpoint(e, new_ranges, a as int));
            assert(is_breakpoint(e, new_ranges, b as int));
            lemma_endpoint_not_inside(e, i, a as int);
            lemma_endpoint_not_inside(e, i, b as int);
            assert(mk_range(a, b) == e[i]);
        }
        assert(is_merged_partition(e, new_ranges, e));
        lemma_merge_unique(e, new_ranges, r, e);
    }
}

/// Merging the same ranges twice changes nothing the second time: when the
/// new ranges are non-empty and lie within the rows the partition covers,
/// merging them into the merged partition gives the merged partition back.
/// With no new ranges, merging gives the partition unchanged.
pub proof fn lemma_merge_idempotent(
    existing: Seq<RowRange>,
    new_ranges: Seq<RowRange>,
    r: Seq<RowRange>,
    r2: Seq<RowRange>,
)
    requires
        is_merged_partition(existing, new_ranges, r),
        is_merged_partition(r, new_ranges, r2),
        forall|k: int| 0 <= k < new_ranges.len() ==> (#[trigger] new_ranges[k]).start < new_ranges[k].end,
        forall|idx: int| #[trigger] covers_row(new_ranges, idx) ==> covers_row(existing, idx),
    ensures
        r2 == r,
        new_ranges.len() == 0 ==> r == existing,
{
    if new_ranges.len() > 0 {
        lemma_merge_partition(existing, new_ranges, r);
        assert(sorted_disjoint(r)) by {
            assert forall|i: int, j: int| 0 <= i < j < r.len() implies (#[trigger] r[i]).end
                <= (#[trigger] r[j]).start by {
                assert(r[i].start < r[j].start);
                assert(is_elementary(existing, new_ranges, r[i].start as int, r[i].end as int));
                assert(is_elementary(existing, new_ranges, r[j].start as int, r[j].end as int));
            }
        }
        assert forall|x: int| is_endpoint_of(new_ranges, x) implies is_endpoint_of(r, x) by {
            let k = choose|k: int| 0 <= k < new_ranges.len() && #[trigger] endpoint_at(new_ranges, k, x);
            assert(is_breakpoint(existing, new_ranges, x));
            let idx = if x == new_ranges[k].start { x } else { x - 1 };
            assert(new_ranges[k].start <= idx < new_ranges[k].end);
            assert(covers_row(new_ranges, idx));
            assert(covers_row(existing, idx));
            assert(covers_row(r, idx));
            let m = choose|m: int| 0 <= m < r.len() && (#[trigger] r[m]).start <= idx < r[m].end;
            assert(is_elementary(existing, new_ranges, r[m].start as int, r[m].end as int));
            assert(endpoint_at(r, m, x));
        }
        lemma_merge_aligned_noop(r, new_ranges, r2);
    }
}

} // verus!
