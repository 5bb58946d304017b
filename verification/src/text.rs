//! Decimal renderings of numbers, the `@@` header line of a hunk, and the
//! messages of range errors.
use crate::hunks::HunkHeader;
use crate::rows::RangeError;
use vstd::prelude::*;
use vstd::string::StringExecFns;

verus! {

/// The ASCII digit of `d`, for `d < 10`.
pub open spec fn digit_byte(d: nat) -> u8 {
    (48 + d) as u8
}

/// The decimal digits of `n`, most significant first, without leading
/// zeros (`0` is the single digit `0`).
pub open spec fn dec_bytes(n: nat) -> Seq<u8>
    decreases n,
{
    if n < 10 {
        seq![digit_byte(n)]
    } else {
        dec_bytes(n / 10).push(digit_byte(n % 10))
    }
}

/// The decimal digits of `n` as characters.
pub open spec fn dec_chars(n: nat) -> Seq<char>
    decreases n,
{
    if n < 10 {
        seq![(48 + n) as char]
    } else {
        dec_chars(n / 10).push((48 + n % 10) as char)
    }
}

/// Append the decimal digits of `n` to `out`.
pub fn push_decimal(out: &mut Vec<u8>, n: u64)
    ensures
        final(out)@ == old(out)@ + dec_bytes(n as nat),
    decreases n,
{
    let ghost before = out@;
    if n >= 10 {
        push_decimal(out, n / 10);
    }
    let d: u8 = (n % 10) as u8;
    out.push(48u8 + d);
    assert(out@ =~= before + dec_bytes(n as nat));
}

/// The one-character string of digit `d`.
fn digit_str(d: u64) -> (r: &'static str)
    requires
        d < 10,
    ensures
        r@ == seq![(48 + d) as char],
{
    match d {
        0 => {
            proof {
                reveal_strlit("0");
            }
            "0"
        },
        1 => {
            proof {
                reveal_strlit("1");
            }
            "1"
        },
        2 => {
            proof {
                reveal_strlit("2");
            }
            "2"
        },
        3 => {
            proof {
                reveal_strlit("3");
            }
            "3"
        },
        4 => {
            proof {
                reveal_strlit("4");
            }
            "4"
        },
        5 => {
            proof {
                reveal_strlit("5");
            }
            "5"
        },
        6 => {
            proof {
                reveal_strlit("6");
            }
            "6"
        },
        7 => {
            proof {
                reveal_strlit("7");
            }
            "7"
        },
        8 => {
            proof {
                reveal_strlit("8");
            }
            "8"
        },
        _ => {
            proof {
                reveal_strlit("9");
            }
            "9"
        },
    }
}

/// Append the decimal digits of `n` to `out`.
pub fn append_decimal(out: &mut String, n: u64)
    ensures
        final(out)@ == old(out)@ + dec_chars(n as nat),
    decreases n,
{
    let ghost before = out@;
    if n >= 10 {
        append_decimal(out, n / 10);
    }
    out.append(digit_str(n % 10));
    assert(out@ =~= before + dec_chars(n as nat));
}

/// The `@@ -a,b +c,d @@` line of a hunk header, with its newline.
pub open spec fn header_line(h: HunkHeader) -> Seq<u8> {
    seq![64u8, 64u8, 32u8, 45u8] + dec_bytes(h.old_start as nat) + seq![44u8] + dec_bytes(
        h.old_lines as nat,
    ) + seq![32u8, 43u8] + dec_bytes(h.new_start as nat) + seq![44u8] + dec_bytes(
        h.new_lines as nat,
    ) + seq![32u8, 64u8, 64u8, 10u8]
}

/// Render the `@@ -a,b +c,d @@` line of `h`, with its newline.
pub fn render_header_line(h: &HunkHeader) -> (r: Vec<u8>)
    ensures
        r@ == header_line(*h),
{
    let mut out: Vec<u8> = Vec::new();
    out.push(64u8);
    out.push(64u8);
    out.push(32u8);
    out.push(45u8);
    push_decimal(&mut out, h.old_start as u64);
    out.push(44u8);
    push_decimal(&mut out, h.old_lines as u64);
    out.push(32u8);
    out.push(43u8);
    push_decimal(&mut out, h.new_start as u64);
    out.push(44u8);
    push_decimal(&mut out, h.new_lines as u64);
    out.push(32u8);
    out.push(64u8);
    out.push(64u8);
    out.push(10u8);
    assert(out@ =~= header_line(*h));
    out
}

/// The message of a range error.
pub open spec fn range_error_message(e: RangeError) -> Seq<char> {
    match e {
        RangeError::NoRanges => "split requires at least one range"@,
        RangeError::EmptyRange { index } => "range "@ + dec_chars(index as nat) + " is empty"@,
        RangeError::OutOfBounds { index, start, end, row_count } => "range "@ + dec_chars(
            index as nat,
        ) + " ("@ + dec_chars(start as nat) + ", "@ + dec_chars(end as nat)
            + ") exceeds anchor row count "@ + dec_chars(row_count as nat),
        RangeError::Overlap { index } => "range "@ + dec_chars(index as nat)
            + " overlaps or is not sorted relative to range "@ + dec_chars((index - 1) as nat),
        RangeError::FullCoverage => "ranges cover the entire anchor; nothing to split out"@,
    }
}

impl RangeError {
    /// The human-readable message of this error.
    pub fn to_string(&self) -> (r: String)
        requires
            self matches RangeError::Overlap { index } ==> index > 0,
        ensures
            r@ == range_error_message(*self),
    {
        match self {
            RangeError::NoRanges => String::from_str("split requires at least one range"),
            RangeError::EmptyRange { index } => {
                let mut s = String::from_str("range ");
                append_decimal(&mut s, *index as u64);
                s.append(" is empty");
                s
            },
            RangeError::OutOfBounds { index, start, end, row_count } => {
                let mut s = String::from_str("range ");
                append_decimal(&mut s, *index as u64);
                s.append(" (");
                append_decimal(&mut s, *start as u64);
                s.append(", ");
                append_decimal(&mut s, *end as u64);
                s.append(") exceeds anchor row count ");
                append_decimal(&mut s, *row_count as u64);
                s
            },
            RangeError::Overlap { index } => {
                let mut s = String::from_str("range ");
                append_decimal(&mut s, *index as u64);
                s.append(" overlaps or is not sorted relative to range ");
                append_decimal(&mut s, (*index - 1) as u64);
                s
            },
            RangeError::FullCoverage => String::from_str(
                "ranges cover the entire anchor; nothing to split out",
            ),
        }
    }
}

} // verus!
