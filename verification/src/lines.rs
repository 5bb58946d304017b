//! Splitting diff text into lines, as `bstr` does it.
use bstr::ByteSlice;
use vstd::prelude::*;

verus! {

/// The length of the first line of `s` including its `\n` terminator, or
/// all of `s` when it holds no `\n`.
pub open spec fn first_line_len(s: Seq<u8>) -> nat
    decreases s.len(),
{
    if s.len() == 0 {
        0
    } else if s[0] == 10u8 {
        1
    } else {
        1 + first_line_len(s.drop_first())
    }
}

/// The lines of `s`, each with its `\n` terminator where it has one; the
/// concatenation of all lines is `s`, and no line is empty.
pub open spec fn split_lines_wt(s: Seq<u8>) -> Seq<Seq<u8>>
    decreases s.len(),
{
    if s.len() == 0 {
        seq![]
    } else {
        let n = first_line_len(s);
        proof {
            lemma_first_line_len_bounds(s);
        }
        seq![s.take(n as int)] + split_lines_wt(s.skip(n as int))
    }
}

/// `line` without a trailing `\n`, and then without a trailing `\r` if the
/// `\n` was there.
pub open spec fn trim_terminator(line: Seq<u8>) -> Seq<u8> {
    if line.len() > 0 && line.last() == 10u8 {
        let l = line.drop_last();
        if l.len() > 0 && l.last() == 13u8 {
            l.drop_last()
        } else {
            l
        }
    } else {
        line
    }
}

/// The lines of `s` with their terminators removed.
pub open spec fn split_lines(s: Seq<u8>) -> Seq<Seq<u8>> {
    split_lines_wt(s).map_values(|l: Seq<u8>| trim_terminator(l))
}

/// The byte views of a vector of byte vectors.
pub open spec fn bytes_views(v: Seq<Vec<u8>>) -> Seq<Seq<u8>> {
    v.map_values(|l: Vec<u8>| l@)
}

/// `bstr::ByteSlice::lines_with_terminator`, collected into owned lines.
///
/// Claimed of bstr: the iterator yields, front to back, each line up to and
/// including the next `\n`, and then the rest if it is non-empty; nothing for
/// empty input.
#[verifier::external_body]
pub(crate) fn lines_with_terminator(bytes: &[u8]) -> (r: Vec<Vec<u8>>)
    ensures
        bytes_views(r@) == split_lines_wt(bytes@),
{
    bytes.lines_with_terminator().map(|l| l.to_vec()).collect()
}

/// `bstr::ByteSlice::lines`, collected into owned lines.
///
/// Claimed of bstr: the same lines as `lines_with_terminator`, each with a
/// trailing `\n` removed and then, only in that case, a trailing `\r`.
#[verifier::external_body]
pub(crate) fn lines(bytes: &[u8]) -> (r: Vec<Vec<u8>>)
    ensures
        bytes_views(r@) == split_lines(bytes@),
{
    bytes.lines().map(|l| l.to_vec()).collect()
}

/// A non-empty input has a first line of at least one and at most all bytes.
pub proof fn lemma_first_line_len_bounds(s: Seq<u8>)
    ensures
        first_line_len(s) <= s.len(),
        s.len() > 0 ==> first_line_len(s) >= 1,
    decreases s.len(),
{
    if s.len() > 0 && s[0] != 10u8 {
        lemma_first_line_len_bounds(s.drop_first());
    }
}

/// There are no more lines than bytes, and every line is non-empty.
pub proof fn lemma_split_lines_wt_count(s: Seq<u8>)
    ensures
        split_lines_wt(s).len() <= s.len(),
        forall|i: int| 0 <= i < split_lines_wt(s).len() ==> #[trigger] split_lines_wt(s)[i].len() > 0,
    decreases s.len(),
{
    if s.len() > 0 {
        lemma_first_line_len_bounds(s);
        let n = first_line_len(s);
        lemma_split_lines_wt_count(s.skip(n as int));
        let rest = split_lines_wt(s.skip(n as int));
        assert(split_lines_wt(s) == seq![s.take(n as int)] + rest);
        assert forall|i: int| 0 <= i < split_lines_wt(s).len() implies #[trigger] split_lines_wt(
            s,
        )[i].len() > 0 by {
            if i > 0 {
                assert(split_lines_wt(s)[i] == rest[i - 1]);
            }
        }
    }
}

/// The lines of `s` without terminators are as many as with them.
pub proof fn lemma_split_lines_count(s: Seq<u8>)
    ensures
        split_lines(s).len() <= s.len(),
{
    lemma_split_lines_wt_count(s);
}

} // verus!
