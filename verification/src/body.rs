//! The text of a hunk body: slicing it to a row range, and the content of
//! each row.
use crate::lines::{
    bytes_views, first_line_len, lemma_split_lines_wt_count, lines, lines_with_terminator,
    split_lines, split_lines_wt,
};
use crate::rows::{in_range, RowRange};
use vstd::prelude::*;

verus! {

/// A body line is a row unless it is empty, an `@@` header or a `\` marker.
pub open spec fn is_row_line(line: Seq<u8>) -> bool {
    line.len() > 0 && line[0] != 64u8 && line[0] != 92u8
}

/// A `\ No newline at end of file` marker line.
pub open spec fn is_marker_line(line: Seq<u8>) -> bool {
    line.len() > 0 && line[0] == 92u8
}

/// The slice of the first `n` lines that belongs to the rows `range`, and the
/// number of rows among those lines: a row line is kept when its row lies in
/// the range, and a marker line travels with the row before it.
pub open spec fn sub_body_prefix(lines: Seq<Seq<u8>>, range: RowRange, n: int) -> (Seq<u8>, int)
    decreases n,
{
    if n <= 0 {
        (seq![], 0)
    } else {
        let (acc, idx) = sub_body_prefix(lines, range, n - 1);
        let line = lines[n - 1];
        if is_row_line(line) {
            (if in_range(range, idx) {
                acc + line
            } else {
                acc
            }, idx + 1)
        } else if is_marker_line(line) {
            (if idx > 0 && in_range(range, idx - 1) {
                acc + line
            } else {
                acc
            }, idx)
        } else {
            (acc, idx)
        }
    }
}

/// The lines of `diff` that belong to the rows `range`, with their terminators.
pub open spec fn spec_sub_diff_body(diff: Seq<u8>, range: RowRange) -> Seq<u8> {
    let ls = split_lines_wt(diff);
    sub_body_prefix(ls, range, ls.len() as int).0
}

/// Append `src` to `out`.
pub fn append_bytes(out: &mut Vec<u8>, src: &[u8])
    ensures
        final(out)@ == old(out)@ + src@,
{
    let ghost orig = out@;
    let mut i: usize = 0;
    while i < src.len()
        invariant
            0 <= i <= src.len(),
            out@ == orig + src@.take(i as int),
        decreases src.len() - i,
    {
        out.push(src[i]);
        assert(out@ =~= orig + src@.take(i + 1));
        i += 1;
    }
    assert(src@.take(src.len() as int) =~= src@);
}

/// Slice the unified-diff body of `anchor_diff` to just the rows in `range`.
///
/// The result has no `@@` header; trailing "no newline" markers travel with
/// the row before them.
pub fn sub_diff_body(anchor_diff: &[u8], range: RowRange) -> (r: Vec<u8>)
    requires
        crate::rows::row_kinds_of(anchor_diff@).len() <= u32::MAX,
    ensures
        r@ == spec_sub_diff_body(anchor_diff@, range),
{
    let ls = lines_with_terminator(anchor_diff);
    let ghost views = bytes_views(ls@);
    proof {
        lemma_row_count_total(anchor_diff@, range);
    }
    let mut out: Vec<u8> = Vec::new();
    let mut row_idx: u32 = 0;
    let mut i: usize = 0;
    while i < ls.len()
        invariant
            0 <= i <= ls.len(),
            views == bytes_views(ls@),
            views == split_lines_wt(anchor_diff@),
            sub_body_prefix(views, range, views.len() as int).1 <= u32::MAX,
            (out@, row_idx as int) == sub_body_prefix(views, range, i as int),
        decreases ls.len() - i,
    {
        let line = &ls[i];
        assert(views[i as int] == line@);
        proof {
            lemma_prefix_count_monotone(views, range, i + 1, views.len() as int);
        }
        if line.len() > 0 && line[0] != 64u8 && line[0] != 92u8 {
            if row_idx >= range.start && row_idx < range.end {
                append_bytes(&mut out, line.as_slice());
            }
            row_idx += 1;
        } else if line.len() > 0 && line[0] == 92u8 {
            if row_idx > 0 && row_idx - 1 >= range.start && row_idx - 1 < range.end {
                append_bytes(&mut out, line.as_slice());
            }
        }
        i += 1;
    }
    out
}

/// The content of each row line of `lines`: the line without its first
/// byte, or nothing for an empty line.
pub open spec fn contents_of_lines(lines: Seq<Seq<u8>>) -> Seq<Seq<u8>>
    decreases lines.len(),
{
    if lines.len() == 0 {
        seq![]
    } else {
        let rest = contents_of_lines(lines.drop_last());
        let line = lines.last();
        if line.len() == 0 {
            rest.push(seq![])
        } else if line[0] == 64u8 || line[0] == 92u8 {
            rest
        } else {
            rest.push(line.subrange(1, line.len() as int))
        }
    }
}

/// The content of each row of the unified-diff text `diff`.
pub open spec fn row_contents_of(diff: Seq<u8>) -> Seq<Seq<u8>> {
    contents_of_lines(split_lines(diff))
}

/// Copy `src[start..]` into a new vector.
pub fn copy_tail(src: &[u8], start: usize) -> (r: Vec<u8>)
    requires
        start <= src@.len(),
    ensures
        r@ == src@.subrange(start as int, src@.len() as int),
{
    let mut out: Vec<u8> = Vec::new();
    let mut i: usize = start;
    while i < src.len()
        invariant
            start <= i <= src.len(),
            out@ == src@.subrange(start as int, i as int),
        decreases src.len() - i,
    {
        out.push(src[i]);
        assert(out@ =~= src@.subrange(start as int, i + 1));
        i += 1;
    }
    out
}

/// Compute, for each row of `diff`, the full line content: the row's text
/// without its `+`/`-`/space prefix and without its trailing newline.
pub fn row_contents(diff: &[u8]) -> (r: Vec<Vec<u8>>)
    ensures
        bytes_views(r@) == row_contents_of(diff@),
{
    let ls = lines(diff);
    let ghost views = bytes_views(ls@);
    let mut out: Vec<Vec<u8>> = Vec::new();
    let mut i: usize = 0;
    while i < ls.len()
        invariant
            0 <= i <= ls.len(),
            views == bytes_views(ls@),
            views == split_lines(diff@),
            bytes_views(out@) == contents_of_lines(views.take(i as int)),
        decreases ls.len() - i,
    {
        let line = &ls[i];
        assert(views[i as int] == line@);
        assert(views.take(i + 1).drop_last() =~= views.take(i as int));
        assert(views.take(i + 1).last() == line@);
        let ghost before = out@;
        if line.len() == 0 {
            out.push(Vec::new());
            assert(bytes_views(out@) =~= bytes_views(before).push(seq![]));
        } else if line[0] == 64u8 || line[0] == 92u8 {
        } else {
            let c = copy_tail(line.as_slice(), 1);
            out.push(c);
            assert(bytes_views(out@) =~= bytes_views(before).push(
                line@.subrange(1, line@.len() as int),
            ));
        }
        i += 1;
    }
    assert(views.take(ls.len() as int) =~= views);
    out
}

/// The concatenation of lines.
pub open spec fn concat_lines(s: Seq<Seq<u8>>) -> Seq<u8>
    decreases s.len(),
{
    if s.len() == 0 {
        seq![]
    } else {
        s[0] + concat_lines(s.drop_first())
    }
}

/// A line: non-empty, with a `\n` at most as its last byte.
pub open spec fn line_ok(l: Seq<u8>) -> bool {
    l.len() > 0 && forall|k: int| 0 <= k < l.len() - 1 ==> l[k] != 10u8
}

/// The line ends with `\n`.
pub open spec fn terminated(l: Seq<u8>) -> bool {
    l.len() > 0 && l.last() == 10u8
}

/// Lines that split back into themselves: each is a line, and all but the
/// last are terminated.
pub open spec fn lines_ok(s: Seq<Seq<u8>>) -> bool {
    &&& forall|j: int| 0 <= j < s.len() ==> line_ok(#[trigger] s[j])
    &&& forall|j: int| 0 <= j < s.len() - 1 ==> terminated(#[trigger] s[j])
}

/// Appending a line appends its bytes.
pub proof fn lemma_concat_push(s: Seq<Seq<u8>>, x: Seq<u8>)
    ensures
        concat_lines(s.push(x)) == concat_lines(s) + x,
    decreases s.len(),
{
    let t = s.push(x);
    assert(t[0] == if s.len() == 0 { x } else { s[0] });
    if s.len() == 0 {
        assert(t.drop_first() =~= Seq::<Seq<u8>>::empty());
        assert(concat_lines(t.drop_first()) =~= Seq::<u8>::empty());
        assert(concat_lines(t) =~= x);
    } else {
        assert(t.drop_first() =~= s.drop_first().push(x));
        lemma_concat_push(s.drop_first(), x);
        assert(concat_lines(s.push(x)) =~= concat_lines(s) + x);
    }
}

/// The first line of `s` ends at its first `\n`, or at its end.
proof fn lemma_first_line_props(s: Seq<u8>)
    ensures
        forall|k: int| 0 <= k < first_line_len(s) - 1 ==> s[k] != 10u8,
        s.len() > 0 ==> (s[first_line_len(s) - 1] == 10u8 || first_line_len(s) == s.len()),
    decreases s.len(),
{
    crate::lines::lemma_first_line_len_bounds(s);
    if s.len() > 0 && s[0] != 10u8 {
        lemma_first_line_props(s.drop_first());
        crate::lines::lemma_first_line_len_bounds(s.drop_first());
        assert forall|k: int| 0 <= k < first_line_len(s) - 1 implies s[k] != 10u8 by {
            if k > 0 {
                assert(s.drop_first()[k - 1] == s[k]);
            }
        }
        if s.drop_first().len() > 0 {
            assert(s.drop_first()[first_line_len(s.drop_first()) - 1] == s[first_line_len(s) - 1]);
        }
    }
}

/// The first line of a line followed by more text is that line, when the
/// line is terminated or nothing follows.
proof fn lemma_first_line_of_concat(a: Seq<u8>, b: Seq<u8>)
    requires
        line_ok(a),
        terminated(a) || b.len() == 0,
    ensures
        first_line_len(a + b) == a.len(),
    decreases a.len(),
{
    assert((a + b)[0] == a[0]);
    if a.len() == 1 {
        if a[0] == 10u8 {
        } else {
            assert(b.len() == 0);
            assert((a + b).drop_first() =~= Seq::<u8>::empty());
            assert(first_line_len((a + b).drop_first()) == 0);
        }
    } else {
        assert(a[0] != 10u8);
        assert((a + b)[0] == a[0]);
        let a2 = a.drop_first();
        assert(line_ok(a2)) by {
            assert forall|k: int| 0 <= k < a2.len() - 1 implies a2[k] != 10u8 by {
                assert(a2[k] == a[k + 1]);
            }
        }
        if terminated(a) {
            assert(a2.last() == a.last());
        }
        lemma_first_line_of_concat(a2, b);
        assert((a + b).drop_first() =~= a2 + b);
    }
}

/// Concatenated lines split back into the same lines.
pub proof fn lemma_split_concat(s: Seq<Seq<u8>>)
    requires
        lines_ok(s),
    ensures
        split_lines_wt(concat_lines(s)) == s,
    decreases s.len(),
{
    if s.len() == 0 {
        assert(split_lines_wt(concat_lines(s)) =~= s);
    } else {
        let rest = s.drop_first();
        assert(lines_ok(rest)) by {
            assert forall|j: int| 0 <= j < rest.len() implies line_ok(#[trigger] rest[j]) by {
                assert(rest[j] == s[j + 1]);
            }
            assert forall|j: int| 0 <= j < rest.len() - 1 implies terminated(#[trigger] rest[j]) by {
                assert(rest[j] == s[j + 1]);
            }
        }
        lemma_split_concat(rest);
        let c = concat_lines(s);
        assert(line_ok(s[0]));
        if s.len() > 1 {
            assert(terminated(s[0]));
        } else {
            assert(concat_lines(rest) =~= Seq::<u8>::empty());
        }
        lemma_first_line_of_concat(s[0], concat_lines(rest));
        assert(c.take(s[0].len() as int) =~= s[0]);
        assert(c.skip(s[0].len() as int) =~= concat_lines(rest));
        assert(split_lines_wt(c) =~= seq![s[0]] + rest);
        assert(seq![s[0]] + rest =~= s);
    }
}

/// The lines of any text are lines that concatenate back to it.
pub proof fn lemma_split_props(d: Seq<u8>)
    ensures
        lines_ok(split_lines_wt(d)),
        concat_lines(split_lines_wt(d)) == d,
    decreases d.len(),
{
    if d.len() == 0 {
        assert(concat_lines(split_lines_wt(d)) =~= d);
    } else {
        crate::lines::lemma_first_line_len_bounds(d);
        lemma_first_line_props(d);
        let n = first_line_len(d);
        let line = d.take(n as int);
        let rest = d.skip(n as int);
        lemma_split_props(rest);
        let rl = split_lines_wt(rest);
        let l = split_lines_wt(d);
        assert(l == seq![line] + rl);
        assert(line_ok(line));
        if n < d.len() {
            assert(terminated(line));
            crate::lines::lemma_split_lines_wt_count(rest);
            crate::lines::lemma_first_line_len_bounds(rest);
            assert(rl.len() > 0);
        } else {
            assert(rest.len() == 0);
        }
        assert forall|j: int| 0 <= j < l.len() implies line_ok(#[trigger] l[j]) by {
            if j > 0 {
                assert(l[j] == rl[j - 1]);
            }
        }
        assert forall|j: int| 0 <= j < l.len() - 1 implies terminated(#[trigger] l[j]) by {
            if j > 0 {
                assert(l[j] == rl[j - 1]);
            }
        }
        assert(l.drop_first() =~= rl);
        assert(concat_lines(l) =~= line + rest);
        assert(line + rest =~= d);
    }
}

/// The lines that [`sub_body_prefix`] keeps of the first `n` lines.
pub open spec fn selected_lines(lines: Seq<Seq<u8>>, range: RowRange, n: int) -> Seq<Seq<u8>>
    decreases n,
{
    if n <= 0 {
        seq![]
    } else {
        let prev = selected_lines(lines, range, n - 1);
        let idx = sub_body_prefix(lines, range, n - 1).1;
        let line = lines[n - 1];
        if is_row_line(line) {
            if in_range(range, idx) {
                prev.push(line)
            } else {
                prev
            }
        } else if is_marker_line(line) {
            if idx > 0 && in_range(range, idx - 1) {
                prev.push(line)
            } else {
                prev
            }
        } else {
            prev
        }
    }
}

/// The rows that the first `n` lines stand for.
pub open spec fn prefix_kinds(lines: Seq<Seq<u8>>, n: int) -> Seq<crate::rows::RowKind> {
    crate::rows::kinds_of_lines(lines.take(n).map_values(|l: Seq<u8>| crate::lines::trim_terminator(l)))
}

/// A line stands for a row exactly when it is a row line.
proof fn lemma_row_line_kind(l: Seq<u8>)
    requires
        l.len() > 0,
    ensures
        crate::rows::line_kind(crate::lines::trim_terminator(l)) is Some <==> is_row_line(l),
{
    let t = crate::lines::trim_terminator(l);
    if t.len() > 0 {
        assert(t[0] == l[0]);
    } else {
        assert(l[0] == 10u8 || l[0] == 13u8);
    }
}

/// The selection is the concatenation of the selected lines; the rows of the
/// selected lines are the rows of the range among those seen so far.
proof fn lemma_selected(lines: Seq<Seq<u8>>, range: RowRange, n: int)
    requires
        0 <= n <= lines.len(),
        range.start <= range.end,
        forall|j: int| 0 <= j < lines.len() ==> #[trigger] lines[j].len() > 0,
    ensures
        sub_body_prefix(lines, range, n).0 == concat_lines(selected_lines(lines, range, n)),
        sub_body_prefix(lines, range, n).1 == prefix_kinds(lines, n).len(),
        crate::rows::kinds_of_lines(
            selected_lines(lines, range, n).map_values(|l: Seq<u8>| crate::lines::trim_terminator(l)),
        ) == prefix_kinds(lines, n).subrange(
            crate::headers::min_int(range.start as int, prefix_kinds(lines, n).len() as int),
            crate::headers::min_int(range.end as int, prefix_kinds(lines, n).len() as int),
        ),
        forall|j: int|
            0 <= j < selected_lines(lines, range, n).len() ==> exists|k: int|
                0 <= k < n && #[trigger] selected_lines(lines, range, n)[j] == lines[k],
        forall|j: int|
            0 <= j < selected_lines(lines, range, n).len() - 1 ==> exists|k: int|
                0 <= k < n - 1 && #[trigger] selected_lines(lines, range, n)[j] == lines[k],
    decreases n,
{
    let f = |l: Seq<u8>| crate::lines::trim_terminator(l);
    if n == 0 {
        assert(lines.take(0).map_values(f) =~= Seq::<Seq<u8>>::empty());
        assert(selected_lines(lines, range, 0).map_values(f) =~= Seq::<Seq<u8>>::empty());
        assert(concat_lines(selected_lines(lines, range, 0)) =~= Seq::<u8>::empty());
    } else {
        lemma_selected(lines, range, n - 1);
        let prev = selected_lines(lines, range, n - 1);
        let (acc, idx) = sub_body_prefix(lines, range, n - 1);
        let line = lines[n - 1];
        let k0 = prefix_kinds(lines, n - 1);
        let k1 = prefix_kinds(lines, n);
        assert(lines.take(n).map_values(f).drop_last() =~= lines.take(n - 1).map_values(f));
        assert(lines.take(n).map_values(f).last() == f(line));
        lemma_row_line_kind(line);
        lemma_concat_push(prev, line);
        let now = selected_lines(lines, range, n);
        assert(prev.push(line).map_values(f) =~= prev.map_values(f).push(f(line)));
        assert(prev.push(line).map_values(f).drop_last() =~= prev.map_values(f));
        let lo0 = crate::headers::min_int(range.start as int, k0.len() as int);
        let hi0 = crate::headers::min_int(range.end as int, k0.len() as int);
        let lo1 = crate::headers::min_int(range.start as int, k1.len() as int);
        let hi1 = crate::headers::min_int(range.end as int, k1.len() as int);
        if is_row_line(line) {
            let kk = crate::rows::line_kind(f(line)).unwrap();
            assert(k1 == k0.push(kk));
            if in_range(range, idx) {
                assert(k1.subrange(lo1, hi1) =~= k0.subrange(lo0, hi0).push(kk));
            } else {
                assert(k1.subrange(lo1, hi1) =~= k0.subrange(lo0, hi0));
            }
        } else {
            assert(k1 == k0);
        }
        assert forall|j: int| 0 <= j < now.len() implies exists|k: int|
            0 <= k < n && #[trigger] now[j] == lines[k] by {
            if j < prev.len() {
                assert(now[j] == prev[j]);
                let k = choose|k: int| 0 <= k < n - 1 && prev[j] == lines[k];
                assert(now[j] == lines[k]);
            } else {
                assert(now[j] == lines[n - 1]);
            }
        }
        assert forall|j: int| 0 <= j < now.len() - 1 implies exists|k: int|
            0 <= k < n - 1 && #[trigger] now[j] == lines[k] by {
            assert(now[j] == prev[j]);
            let k = choose|k: int| 0 <= k < n - 1 && prev[j] == lines[k];
            assert(now[j] == lines[k]);
        }
    }
}

/// The sub-hunk body of a range holds exactly the rows of that range: its
/// rows are the anchor's rows from the range's start to its end, clamped to
/// the rows there are; and it is no longer than the anchor's diff.
pub proof fn lemma_sub_body_rows(d: Seq<u8>, range: RowRange)
    requires
        range.start <= range.end,
    ensures
        crate::rows::row_kinds_of(spec_sub_diff_body(d, range)) == crate::rows::row_kinds_of(
            d,
        ).subrange(
            crate::headers::min_int(range.start as int, crate::rows::row_kinds_of(d).len() as int),
            crate::headers::min_int(range.end as int, crate::rows::row_kinds_of(d).len() as int),
        ),
        spec_sub_diff_body(d, range).len() <= d.len(),
{
    let l = split_lines_wt(d);
    let f = |x: Seq<u8>| crate::lines::trim_terminator(x);
    lemma_split_props(d);
    crate::lines::lemma_split_lines_wt_count(d);
    lemma_selected(l, range, l.len() as int);
    let sel = selected_lines(l, range, l.len() as int);
    assert(lines_ok(sel)) by {
        assert forall|j: int| 0 <= j < sel.len() implies line_ok(#[trigger] sel[j]) by {
            let k = choose|k: int| 0 <= k < l.len() && sel[j] == l[k];
            assert(line_ok(l[k]));
        }
        assert forall|j: int| 0 <= j < sel.len() - 1 implies terminated(#[trigger] sel[j]) by {
            let k = choose|k: int| 0 <= k < l.len() - 1 && sel[j] == l[k];
            assert(terminated(l[k]));
        }
    }
    lemma_split_concat(sel);
    assert(l.take(l.len() as int) =~= l);
    assert(split_lines(spec_sub_diff_body(d, range)) == sel.map_values(f));
    assert(split_lines(d) == l.map_values(f));
    lemma_selected_len(l, range, l.len() as int);
}

/// The selection is no longer than the lines it is drawn from.
proof fn lemma_selected_len(lines: Seq<Seq<u8>>, range: RowRange, n: int)
    requires
        0 <= n <= lines.len(),
    ensures
        sub_body_prefix(lines, range, n).0.len() <= concat_lines(lines.take(n)).len(),
    decreases n,
{
    if n > 0 {
        lemma_selected_len(lines, range, n - 1);
        assert(lines.take(n) =~= lines.take(n - 1).push(lines[n - 1]));
        lemma_concat_push(lines.take(n - 1), lines[n - 1]);
    }
}

/// The row count after the first `n` lines does not depend on the range.
proof fn lemma_prefix_count_indep(lines: Seq<Seq<u8>>, r1: RowRange, r2: RowRange, n: int)
    ensures
        sub_body_prefix(lines, r1, n).1 == sub_body_prefix(lines, r2, n).1,
    decreases n,
{
    if n > 0 {
        lemma_prefix_count_indep(lines, r1, r2, n - 1);
    }
}

/// Over the first `n` lines, the slice for rows `[a, c)` is the slice for
/// `[a, b)` followed by the slice for `[b, c)`; and the latter holds a line
/// only once a row at or after `b` has been seen.
proof fn lemma_prefix_concat(lines: Seq<Seq<u8>>, a: u32, b: u32, c: u32, n: int)
    requires
        a <= b <= c,
        0 <= n <= lines.len(),
    ensures
        sub_body_prefix(lines, RowRange { start: a, end: c }, n).0 == sub_body_prefix(
            lines,
            RowRange { start: a, end: b },
            n,
        ).0 + sub_body_prefix(lines, RowRange { start: b, end: c }, n).0,
        sub_body_prefix(lines, RowRange { start: b, end: c }, n).0.len() > 0 ==> sub_body_prefix(
            lines,
            RowRange { start: b, end: c },
            n,
        ).1 > b,
    decreases n,
{
    let ac = RowRange { start: a, end: c };
    let ab = RowRange { start: a, end: b };
    let bc = RowRange { start: b, end: c };
    if n > 0 {
        lemma_prefix_concat(lines, a, b, c, n - 1);
        lemma_prefix_count_indep(lines, ac, ab, n - 1);
        lemma_prefix_count_indep(lines, ac, bc, n - 1);
        let (p_ac, idx) = sub_body_prefix(lines, ac, n - 1);
        let p_ab = sub_body_prefix(lines, ab, n - 1).0;
        let p_bc = sub_body_prefix(lines, bc, n - 1).0;
        let line = lines[n - 1];
        if is_row_line(line) {
            if in_range(ab, idx) {
                assert(p_bc.len() == 0);
                assert(p_bc =~= Seq::<u8>::empty());
                assert(p_ab + line + p_bc =~= (p_ab + p_bc) + line);
            } else if in_range(bc, idx) {
                assert((p_ab + p_bc) + line =~= p_ab + (p_bc + line));
            }
        } else if is_marker_line(line) {
            if idx > 0 && in_range(ab, idx - 1) {
                assert(p_bc.len() == 0);
                assert(p_bc =~= Seq::<u8>::empty());
                assert(p_ab + line + p_bc =~= (p_ab + p_bc) + line);
            } else if idx > 0 && in_range(bc, idx - 1) {
                assert((p_ab + p_bc) + line =~= p_ab + (p_bc + line));
            }
        }
    }
}

/// Slicing a body to adjoining row ranges and joining the slices gives the
/// slice to their union: for `a <= b <= c`, the body of rows `[a, c)` is the
/// body of `[a, b)` followed by the body of `[b, c)`.
pub proof fn lemma_sub_body_concat(d: Seq<u8>, a: u32, b: u32, c: u32)
    requires
        a <= b <= c,
    ensures
        spec_sub_diff_body(d, RowRange { start: a, end: c }) == spec_sub_diff_body(
            d,
            RowRange { start: a, end: b },
        ) + spec_sub_diff_body(d, RowRange { start: b, end: c }),
{
    let ls = split_lines_wt(d);
    lemma_prefix_concat(ls, a, b, c, ls.len() as int);
}

/// The lines kept of the first `n` lines are row lines and marker lines.
proof fn lemma_selected_line_kinds(lines: Seq<Seq<u8>>, range: RowRange, n: int)
    ensures
        forall|j: int|
            0 <= j < selected_lines(lines, range, n).len() ==> is_row_line(
                #[trigger] selected_lines(lines, range, n)[j],
            ) || is_marker_line(selected_lines(lines, range, n)[j]),
    decreases n,
{
    if n > 0 {
        lemma_selected_line_kinds(lines, range, n - 1);
        let prev = selected_lines(lines, range, n - 1);
        let now = selected_lines(lines, range, n);
        assert forall|j: int| 0 <= j < now.len() implies is_row_line(#[trigger] now[j])
            || is_marker_line(now[j]) by {
            if j < prev.len() {
                assert(now[j] == prev[j]);
            }
        }
    }
}

/// A sub-hunk body holds no `@@` header and no other non-row line: each of
/// its lines is a row (`' '`, `'+'`, `'-'`, ...) or a `\` marker.
pub proof fn lemma_sub_body_lines(d: Seq<u8>, range: RowRange)
    requires
        range.start <= range.end,
    ensures
        forall|j: int|
            0 <= j < split_lines_wt(spec_sub_diff_body(d, range)).len() ==> is_row_line(
                #[trigger] split_lines_wt(spec_sub_diff_body(d, range))[j],
            ) || is_marker_line(split_lines_wt(spec_sub_diff_body(d, range))[j]),
        forall|j: int|
            0 <= j < split_lines_wt(spec_sub_diff_body(d, range)).len() ==> (#[trigger] split_lines_wt(
                spec_sub_diff_body(d, range),
            )[j])[0] != 64u8,
{
    let l = split_lines_wt(d);
    lemma_split_props(d);
    lemma_selected(l, range, l.len() as int);
    lemma_selected_line_kinds(l, range, l.len() as int);
    let sel = selected_lines(l, range, l.len() as int);
    assert(lines_ok(sel)) by {
        assert forall|j: int| 0 <= j < sel.len() implies line_ok(#[trigger] sel[j]) by {
            let k = choose|k: int| 0 <= k < l.len() && sel[j] == l[k];
            assert(line_ok(l[k]));
        }
        assert forall|j: int| 0 <= j < sel.len() - 1 implies terminated(#[trigger] sel[j]) by {
            let k = choose|k: int| 0 <= k < l.len() - 1 && sel[j] == l[k];
            assert(terminated(l[k]));
        }
    }
    lemma_split_concat(sel);
    assert forall|j: int| 0 <= j < sel.len() implies (#[trigger] sel[j])[0] != 64u8 by {
        assert(is_row_line(sel[j]) || is_marker_line(sel[j]));
    }
}

/// The row count only grows as more lines are read.
proof fn lemma_prefix_count_monotone(lines: Seq<Seq<u8>>, range: RowRange, i: int, j: int)
    requires
        i <= j,
    ensures
        sub_body_prefix(lines, range, i).1 <= sub_body_prefix(lines, range, j).1,
    decreases j - i,
{
    if i < j {
        lemma_prefix_count_monotone(lines, range, i, j - 1);
    }
}

/// Reading all the lines of `d` counts its rows.
proof fn lemma_row_count_total(d: Seq<u8>, range: RowRange)
    ensures
        sub_body_prefix(split_lines_wt(d), range, split_lines_wt(d).len() as int).1
            == crate::rows::row_kinds_of(d).len(),
{
    let l = split_lines_wt(d);
    let f = |x: Seq<u8>| crate::lines::trim_terminator(x);
    let r0 = RowRange { start: 0, end: 0 };
    lemma_split_props(d);
    lemma_prefix_count_indep(l, range, r0, l.len() as int);
    lemma_selected(l, r0, l.len() as int);
    assert(l.take(l.len() as int) =~= l);
    assert(split_lines(d) == l.map_values(f));
}

} // verus!
