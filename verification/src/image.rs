//! Applying selected hunks of a new file image onto the old image.
use crate::body::{append_bytes, concat_lines};
use crate::hunks::HunkHeader;
use crate::lines::{bytes_views, lines_with_terminator, split_lines_wt};
use vstd::prelude::*;

verus! {

/// Why hunks cannot be applied.
#[derive(Debug, Clone, PartialEq, Eq)]
pub enum ApplyError {
    /// A hunk starts on the old side before the line the previous hunks
    /// have already reached (`cursor`, 1-based).
    OldSkipsNegative { start: u32, cursor: u64, hunk: HunkHeader },
    /// A hunk starts on the new side before the line the previous hunks
    /// have already reached: hunks for new lines must be in order.
    NewHunksOutOfOrder,
}

/// Where the application stands: the next unread line of each image (an
/// index into its lines), the 1-based line each side's cursor is at, and the
/// image built so far.
pub struct ApplyState {
    pub old_pos: int,
    pub new_pos: int,
    pub old_cursor: int,
    pub new_cursor: int,
    pub out: Seq<u8>,
}

/// `min(a, b)` over integers.
pub open spec fn min_of(a: int, b: int) -> int {
    if a <= b {
        a
    } else {
        b
    }
}

/// Apply one selected hunk: copy the old lines up to its old start, skip its
/// old lines, skip the new lines up to its new start and copy its new lines;
/// reading past the end of an image reads nothing.
pub open spec fn apply_step(ol: Seq<Seq<u8>>, nl: Seq<Seq<u8>>, st: ApplyState, h: HunkHeader) -> Result<
    ApplyState,
    ApplyError,
> {
    if (h.old_start as int) < st.old_cursor {
        Err(ApplyError::OldSkipsNegative { start: h.old_start, cursor: st.old_cursor as u64, hunk: h })
    } else {
        let old_skips = h.old_start - st.old_cursor;
        let copy_end = min_of(st.old_pos + old_skips, ol.len() as int);
        let out1 = st.out + concat_lines(ol.subrange(st.old_pos, copy_end));
        let old_pos = min_of(copy_end + h.old_lines, ol.len() as int);
        let old_cursor = st.old_cursor + old_skips + h.old_lines;
        if (h.new_start as int) < st.new_cursor {
            Err(ApplyError::NewHunksOutOfOrder)
        } else {
            let new_skips = h.new_start - st.new_cursor;
            let skipped = min_of(st.new_pos + new_skips, nl.len() as int);
            let new_cursor = st.new_cursor + new_skips + h.new_lines;
            if h.new_lines == 0 {
                Ok(ApplyState { old_pos, new_pos: skipped, old_cursor, new_cursor, out: out1 })
            } else {
                let taken = min_of(skipped + h.new_lines, nl.len() as int);
                Ok(
                    ApplyState {
                        old_pos,
                        new_pos: taken,
                        old_cursor,
                        new_cursor,
                        out: out1 + concat_lines(nl.subrange(skipped, taken)),
                    },
                )
            }
        }
    }
}

/// The first `n` hunks applied in turn from the start of both images.
pub open spec fn apply_upto(ol: Seq<Seq<u8>>, nl: Seq<Seq<u8>>, hunks: Seq<HunkHeader>, n: int) -> Result<
    ApplyState,
    ApplyError,
>
    decreases n,
{
    if n <= 0 {
        Ok(ApplyState { old_pos: 0, new_pos: 0, old_cursor: 1, new_cursor: 1, out: seq![] })
    } else {
        match apply_upto(ol, nl, hunks, n - 1) {
            Ok(st) => apply_step(ol, nl, st, hunks[n - 1]),
            Err(e) => Err(e),
        }
    }
}

/// The image that applying `hunks` of `new_image` onto `old_image` builds:
/// every hunk in turn, then the old lines that remain.
pub open spec fn spec_apply_hunks(old_image: Seq<u8>, new_image: Seq<u8>, hunks: Seq<HunkHeader>) -> Result<
    Seq<u8>,
    ApplyError,
> {
    let ol = split_lines_wt(old_image);
    let nl = split_lines_wt(new_image);
    match apply_upto(ol, nl, hunks, hunks.len() as int) {
        Ok(st) => Ok(st.out + concat_lines(ol.subrange(st.old_pos, ol.len() as int))),
        Err(e) => Err(e),
    }
}

/// An error stays: once some hunk fails, applying more fails the same way.
proof fn lemma_error_stays(ol: Seq<Seq<u8>>, nl: Seq<Seq<u8>>, hunks: Seq<HunkHeader>, k: int, n: int)
    requires
        0 <= k <= n,
        apply_upto(ol, nl, hunks, k) is Err,
    ensures
        apply_upto(ol, nl, hunks, n) == apply_upto(ol, nl, hunks, k),
    decreases n - k,
{
    if k < n {
        lemma_error_stays(ol, nl, hunks, k, n - 1);
    }
}

/// Append the lines `lines[from..to]` to `out`.
fn append_lines(out: &mut Vec<u8>, lines: &Vec<Vec<u8>>, from: usize, to: usize)
    requires
        from <= to <= lines@.len(),
    ensures
        final(out)@ == old(out)@ + concat_lines(bytes_views(lines@).subrange(from as int, to as int)),
{
    let ghost lv = bytes_views(lines@);
    let ghost start = out@;
    let mut i: usize = from;
    assert(lv.subrange(from as int, from as int) =~= Seq::<Seq<u8>>::empty());
    while i < to
        invariant
            from <= i <= to <= lines@.len(),
            lv == bytes_views(lines@),
            out@ == start + concat_lines(lv.subrange(from as int, i as int)),
        decreases to - i,
    {
        assert(lv[i as int] == lines@[i as int]@);
        append_bytes(out, lines[i].as_slice());
        proof {
            crate::body::lemma_concat_push(lv.subrange(from as int, i as int), lv[i as int]);
            assert(lv.subrange(from as int, i + 1) =~= lv.subrange(from as int, i as int).push(
                lv[i as int],
            ));
        }
        i += 1;
    }
}

/// Given an `old_image` and a `new_image`, along with `hunks` that select
/// parts of `new_image`, apply these hunks to `old_image` and return the new
/// image: the selected new lines are laid over the old image in place of
/// the old lines the hunks cover.
///
/// Both images are taken as text whose lines the hunks count.
pub fn apply_hunks(old_image: &[u8], new_image: &[u8], hunks: &[HunkHeader]) -> (r: Result<
    Vec<u8>,
    ApplyError,
>)
    ensures
        r matches Ok(v) ==> spec_apply_hunks(old_image@, new_image@, hunks@) == Ok::<
            Seq<u8>,
            ApplyError,
        >(v@),
        r matches Err(e) ==> spec_apply_hunks(old_image@, new_image@, hunks@) == Err::<
            Seq<u8>,
            ApplyError,
        >(e),
        r is Ok <==> hunks_in_order(hunks@, hunks@.len() as int),
        r matches Ok(v) ==> v@ == laid_over(
            split_lines_wt(old_image@),
            split_lines_wt(new_image@),
            hunks@,
            hunks@.len() as int,
        ) + lines_between(
            split_lines_wt(old_image@),
            old_end_before(hunks@, hunks@.len() as int),
            split_lines_wt(old_image@).len() as int,
        ),
{
    proof {
        lemma_apply_hunks_by_lines(old_image@, new_image@, hunks@);
    }
    let old_lines = lines_with_terminator(old_image);
    let new_lines = lines_with_terminator(new_image);
    let ghost ol = bytes_views(old_lines@);
    let ghost nl = bytes_views(new_lines@);
    let mut old_pos: usize = 0;
    let mut new_pos: usize = 0;
    let mut old_cursor: u64 = 1;
    let mut new_cursor: u64 = 1;
    let mut result: Vec<u8> = Vec::new();
    let mut i: usize = 0;
    while i < hunks.len()
        invariant
            0 <= i <= hunks@.len(),
            ol == bytes_views(old_lines@),
            nl == bytes_views(new_lines@),
            ol == split_lines_wt(old_image@),
            nl == split_lines_wt(new_image@),
            old_pos <= old_lines@.len(),
            new_pos <= new_lines@.len(),
            old_cursor <= 2 * (u32::MAX as int) + 1,
            new_cursor <= 2 * (u32::MAX as int) + 1,
            apply_upto(ol, nl, hunks@, i as int) == Ok::<ApplyState, ApplyError>(
                ApplyState {
                    old_pos: old_pos as int,
                    new_pos: new_pos as int,
                    old_cursor: old_cursor as int,
                    new_cursor: new_cursor as int,
                    out: result@,
                },
            ),
        decreases hunks.len() - i,
    {
        let h = hunks[i];
        if (h.old_start as u64) < old_cursor {
            proof {
                lemma_error_stays(ol, nl, hunks@, i + 1, hunks@.len() as int);
            }
            return Err(ApplyError::OldSkipsNegative { start: h.old_start, cursor: old_cursor, hunk: h });
        }
        let old_skips: u64 = h.old_start as u64 - old_cursor;
        let room: u64 = (old_lines.len() - old_pos) as u64;
        let copy_end: usize = if old_skips < room {
            old_pos + old_skips as usize
        } else {
            old_lines.len()
        };
        append_lines(&mut result, &old_lines, old_pos, copy_end);
        let room2: u64 = (old_lines.len() - copy_end) as u64;
        old_pos = if (h.old_lines as u64) < room2 {
            copy_end + h.old_lines as usize
        } else {
            old_lines.len()
        };
        old_cursor = h.old_start as u64 + h.old_lines as u64;
        if (h.new_start as u64) < new_cursor {
            proof {
                lemma_error_stays(ol, nl, hunks@, i + 1, hunks@.len() as int);
            }
            return Err(ApplyError::NewHunksOutOfOrder);
        }
        let new_skips: u64 = h.new_start as u64 - new_cursor;
        let nroom: u64 = (new_lines.len() - new_pos) as u64;
        let skipped: usize = if new_skips < nroom {
            new_pos + new_skips as usize
        } else {
            new_lines.len()
        };
        if h.new_lines == 0 {
            new_pos = skipped;
        } else {
            let nroom2: u64 = (new_lines.len() - skipped) as u64;
            let taken: usize = if (h.new_lines as u64) < nroom2 {
                skipped + h.new_lines as usize
            } else {
                new_lines.len()
            };
            append_lines(&mut result, &new_lines, skipped, taken);
            new_pos = taken;
        }
        new_cursor = h.new_start as u64 + h.new_lines as u64;
        i += 1;
    }
    append_lines(&mut result, &old_lines, old_pos, old_lines.len());
    Ok(result)
}

/// `x` clamped to `[0, len]`.
pub open spec fn clamp_to(x: int, len: int) -> int {
    if x < 0 {
        0
    } else if x > len {
        len
    } else {
        x
    }
}

/// Where the old side of hunk `k - 1` ends, 0-based (0 before any hunk).
pub open spec fn old_end_before(hunks: Seq<HunkHeader>, k: int) -> int {
    if k <= 0 {
        0
    } else {
        hunks[k - 1].old_start - 1 + hunks[k - 1].old_lines
    }
}

/// Where the new side of hunk `k - 1` ends, 0-based (0 before any hunk).
pub open spec fn new_end_before(hunks: Seq<HunkHeader>, k: int) -> int {
    if k <= 0 {
        0
    } else {
        hunks[k - 1].new_start - 1 + hunks[k - 1].new_lines
    }
}

/// The lines `[from, to)` of `lines`, both ends clamped to the lines there
/// are.
pub open spec fn lines_between(lines: Seq<Seq<u8>>, from: int, to: int) -> Seq<u8> {
    let a = clamp_to(from, lines.len() as int);
    let b = clamp_to(to, lines.len() as int);
    if a <= b {
        concat_lines(lines.subrange(a, b))
    } else {
        seq![]
    }
}

/// The image of the first `n` hunks by absolute line numbers: for each
/// hunk, the old lines since the previous hunk's old side up to the line
/// before its 1-based `old_start`, then the new lines `new_start ..
/// new_start + new_lines - 1` (1-based) of the new image.
pub open spec fn laid_over(ol: Seq<Seq<u8>>, nl: Seq<Seq<u8>>, hunks: Seq<HunkHeader>, n: int) -> Seq<u8>
    decreases n,
{
    if n <= 0 {
        seq![]
    } else {
        let h = hunks[n - 1];
        laid_over(ol, nl, hunks, n - 1) + lines_between(ol, old_end_before(hunks, n - 1), h.old_start - 1)
            + lines_between(nl, h.new_start - 1, h.new_start - 1 + h.new_lines)
    }
}

/// The hunks are in order on both sides: each starts at or after the line
/// where the one before ended.
pub open spec fn hunks_in_order(hunks: Seq<HunkHeader>, n: int) -> bool {
    forall|k: int|
        0 <= k < n ==> old_end_before(hunks, k) + 1 <= (#[trigger] hunks[k]).old_start
            && new_end_before(hunks, k) + 1 <= hunks[k].new_start
}

/// After each successful step the readers stand where the hunks put them:
/// each image's read position is its cursor (one past the last line the
/// hunks reached, 1-based) clamped to its lines, and the image so far is
/// [`laid_over`].
proof fn lemma_apply_upto_positions(ol: Seq<Seq<u8>>, nl: Seq<Seq<u8>>, hunks: Seq<HunkHeader>, n: int)
    requires
        0 <= n <= hunks.len(),
    ensures
        apply_upto(ol, nl, hunks, n) is Ok <==> hunks_in_order(hunks, n),
        hunks_in_order(hunks, n) ==> old_end_before(hunks, n) >= 0 && new_end_before(hunks, n) >= 0,
        apply_upto(ol, nl, hunks, n) matches Ok(st) ==> {
            &&& st.old_cursor == old_end_before(hunks, n) + 1
            &&& st.new_cursor == new_end_before(hunks, n) + 1
            &&& st.old_pos == clamp_to(st.old_cursor - 1, ol.len() as int)
            &&& st.new_pos == clamp_to(st.new_cursor - 1, nl.len() as int)
            &&& st.out == laid_over(ol, nl, hunks, n)
        },
    decreases n,
{
    if n > 0 {
        lemma_apply_upto_positions(ol, nl, hunks, n - 1);
        let h = hunks[n - 1];
        if hunks_in_order(hunks, n) {
            assert(old_end_before(hunks, n - 1) + 1 <= hunks[n - 1].old_start);
            assert(hunks_in_order(hunks, n - 1));
        }
        if hunks_in_order(hunks, n - 1) && !hunks_in_order(hunks, n) {
            let k = choose|k: int|
                0 <= k < n && !(old_end_before(hunks, k) + 1 <= (#[trigger] hunks[k]).old_start
                    && new_end_before(hunks, k) + 1 <= hunks[k].new_start);
            assert(k == n - 1);
        }
        if hunks_in_order(hunks, n - 1) && apply_upto(ol, nl, hunks, n - 1) is Ok {
            let st = apply_upto(ol, nl, hunks, n - 1)->Ok_0;
            let lo = ol.len() as int;
            let ln = nl.len() as int;
            assert(st.old_cursor == old_end_before(hunks, n - 1) + 1);
            assert(st.new_cursor == new_end_before(hunks, n - 1) + 1);
            assert(st.old_pos == clamp_to(st.old_cursor - 1, lo));
            assert(st.new_pos == clamp_to(st.new_cursor - 1, ln));
            assert(st.out == laid_over(ol, nl, hunks, n - 1));
            assert(old_end_before(hunks, n - 1) >= 0 && new_end_before(hunks, n - 1) >= 0);
            if (h.old_start as int) >= st.old_cursor && (h.new_start as int) >= st.new_cursor {
                let old_skips = h.old_start - st.old_cursor;
                let copy_end = min_of(st.old_pos + old_skips, lo);
                assert(copy_end == clamp_to(h.old_start - 1, lo));
                let new_skips = h.new_start - st.new_cursor;
                let skipped = min_of(st.new_pos + new_skips, ln);
                assert(skipped == clamp_to(h.new_start - 1, ln));
                let nxt = apply_upto(ol, nl, hunks, n)->Ok_0;
                assert(nxt.old_pos == clamp_to(h.old_start - 1 + h.old_lines, lo));
                assert(lines_between(ol, old_end_before(hunks, n - 1), h.old_start - 1) == concat_lines(
                    ol.subrange(st.old_pos, copy_end),
                ));
                if h.new_lines == 0 {
                    assert(lines_between(nl, h.new_start - 1, h.new_start - 1 + h.new_lines)
                        =~= Seq::<u8>::empty()) by {
                        assert(nl.subrange(skipped, skipped) =~= Seq::<Seq<u8>>::empty());
                    }
                    assert(nxt.out =~= laid_over(ol, nl, hunks, n));
                } else {
                    let taken = min_of(skipped + h.new_lines, ln);
                    assert(taken == clamp_to(h.new_start - 1 + h.new_lines, ln));
                    assert(lines_between(nl, h.new_start - 1, h.new_start - 1 + h.new_lines)
                        == concat_lines(nl.subrange(skipped, taken)));
                    assert(nxt.out =~= laid_over(ol, nl, hunks, n));
                }
            }
        }
    }
}

/// What applying hunks does, by absolute line numbers: it succeeds exactly
/// when the hunks are in order on both sides, and then the result keeps
/// every old line that no hunk covers, in place, and puts in for each hunk
/// the new lines `new_start .. new_start + new_lines - 1` (1-based) of the
/// new image, ending with the old lines after the last hunk.
pub proof fn lemma_apply_hunks_by_lines(old_image: Seq<u8>, new_image: Seq<u8>, hunks: Seq<HunkHeader>)
    ensures
        spec_apply_hunks(old_image, new_image, hunks) is Ok <==> hunks_in_order(hunks, hunks.len() as int),
        spec_apply_hunks(old_image, new_image, hunks) is Ok ==> spec_apply_hunks(
            old_image,
            new_image,
            hunks,
        )->Ok_0 == laid_over(
            split_lines_wt(old_image),
            split_lines_wt(new_image),
            hunks,
            hunks.len() as int,
        ) + lines_between(
            split_lines_wt(old_image),
            old_end_before(hunks, hunks.len() as int),
            split_lines_wt(old_image).len() as int,
        ),
{
    let ol = split_lines_wt(old_image);
    let nl = split_lines_wt(new_image);
    lemma_apply_upto_positions(ol, nl, hunks, hunks.len() as int);
}

} // verus!
