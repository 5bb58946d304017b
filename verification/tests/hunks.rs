use hunk_split::hunks::{HunkHeader, HunkRange};
use hunk_split::image::{apply_hunks, ApplyError};

#[test]
fn contains_returns_true_if_a_smaller_range_is_inside_a_larger_range() {
    let larger = HunkRange { start: 1, lines: 10 };
    let smaller = HunkRange { start: 2, lines: 5 };
    assert!(larger.contains(smaller));
    assert!(!smaller.contains(larger));
}

#[test]
fn contains_returns_true_if_two_equal_ranges() {
    let range = HunkRange { start: 1, lines: 10 };
    assert!(range.contains(range));

    let zero_range = HunkRange { start: 1, lines: 0 };
    assert!(zero_range.contains(zero_range));
}

#[test]
fn a_zero_range_does_not_contain_zero_range_next_to_it() {
    let zero_range = HunkRange { start: 1, lines: 0 };
    let next_to_zero_range = HunkRange { start: 2, lines: 0 };
    assert!(!zero_range.contains(next_to_zero_range));
    assert!(!next_to_zero_range.contains(zero_range));
}

#[test]
fn a_one_range_contains_a_zero_range() {
    let one_range = HunkRange { start: 1, lines: 1 };
    let zero_range = HunkRange { start: 1, lines: 0 };
    assert!(one_range.contains(zero_range));
    assert!(!zero_range.contains(one_range));
}

#[test]
fn intersects_returns_true_if_a_smaller_range_is_inside_a_larger_range() {
    let larger = HunkRange { start: 1, lines: 10 };
    let smaller = HunkRange { start: 2, lines: 5 };
    assert!(larger.intersects(smaller));
    assert!(smaller.intersects(larger));
}

#[test]
fn intersects_returns_true_if_two_equal_ranges() {
    let range = HunkRange { start: 1, lines: 10 };
    assert!(range.intersects(range));

    let zero_range = HunkRange { start: 1, lines: 0 };
    assert!(zero_range.intersects(zero_range));
}

#[test]
fn a_zero_range_does_not_intersects_zero_range_next_to_it() {
    let zero_range = HunkRange { start: 1, lines: 0 };
    let next_to_zero_range = HunkRange { start: 2, lines: 0 };
    assert!(!zero_range.intersects(next_to_zero_range));
    assert!(!next_to_zero_range.intersects(zero_range));
}

#[test]
fn a_one_range_intersects_a_zero_range() {
    let one_range = HunkRange { start: 1, lines: 1 };
    let zero_range = HunkRange { start: 1, lines: 0 };
    assert!(one_range.intersects(zero_range));
    assert!(zero_range.intersects(one_range));
}

#[test]
fn a_one_range_intersects_a_zero_range_next_to_it() {
    let one_range = HunkRange { start: 1, lines: 1 };
    let zero_range = HunkRange { start: 2, lines: 0 };
    assert!(!one_range.intersects(zero_range));
    assert!(!zero_range.intersects(one_range));
}

#[test]
fn a_one_range_intersects_a_zero_range_before_it() {
    let one_range = HunkRange { start: 1, lines: 1 };
    let zero_range = HunkRange { start: 0, lines: 0 };
    assert!(!one_range.intersects(zero_range));
    assert!(!zero_range.intersects(one_range));
}

#[test]
fn ranges_that_are_not_fully_contained_in_each_other_intersects() {
    let left = HunkRange { start: 1, lines: 10 };
    let right = HunkRange { start: 10, lines: 10 };
    assert!(left.intersects(right));
    assert!(right.intersects(left));
}

#[test]
fn ranges_that_are_next_to_each_other_but_not_intersecting() {
    let left = HunkRange { start: 1, lines: 10 };
    let right = HunkRange { start: 11, lines: 10 };
    assert!(!left.intersects(right));
    assert!(!right.intersects(left));
}

#[test]
fn range_end_and_last_line() {
    let r = HunkRange { start: 5, lines: 3 };
    assert_eq!(r.end(), 8);
    assert_eq!(r.last_line(), 7);
    let zero = HunkRange { start: 5, lines: 0 };
    assert_eq!(zero.end(), 5);
    assert_eq!(zero.last_line(), 5);
}

#[test]
fn null_range_only_at_zero() {
    assert!(HunkRange { start: 0, lines: 0 }.is_null());
    assert!(!HunkRange { start: 1, lines: 0 }.is_null());
    assert!(!HunkRange { start: 0, lines: 1 }.is_null());
}

#[test]
fn header_sides_and_containment() {
    let outer = HunkHeader { old_start: 1, old_lines: 10, new_start: 3, new_lines: 8 };
    assert_eq!(outer.old_range(), HunkRange { start: 1, lines: 10 });
    assert_eq!(outer.new_range(), HunkRange { start: 3, lines: 8 });
    let inner = HunkHeader { old_start: 2, old_lines: 2, new_start: 4, new_lines: 1 };
    assert!(outer.contains(inner));
    assert!(!inner.contains(outer));
    let new_side_outside = HunkHeader { old_start: 2, old_lines: 2, new_start: 1, new_lines: 1 };
    assert!(!outer.contains(new_side_outside));
}

#[test]
fn intersection_is_symmetric_on_samples() {
    let samples = [
        HunkRange { start: 0, lines: 0 },
        HunkRange { start: 1, lines: 0 },
        HunkRange { start: 1, lines: 1 },
        HunkRange { start: 2, lines: 3 },
        HunkRange { start: 4, lines: 2 },
        HunkRange { start: 6, lines: 0 },
    ];
    for a in samples {
        assert!(a.contains(a));
        for b in samples {
            assert_eq!(a.intersects(b), b.intersects(a));
        }
    }
}

fn h(old_start: u32, old_lines: u32, new_start: u32, new_lines: u32) -> HunkHeader {
    HunkHeader { old_start, old_lines, new_start, new_lines }
}

#[test]
fn apply_hunks_adds_after_existing_old_row() {
    let old = b"X\n";
    let new = b"X\nB\n";
    let result = apply_hunks(old, new, &[h(2, 0, 2, 1)]).unwrap();
    assert_eq!(result, b"X\nB\n".to_vec());
}

#[test]
fn apply_hunks_interleaves_additions_around_shared_rows() {
    let old = b"X\nY\n";
    let new = b"A\nX\nB\nY\nC\n";
    let result = apply_hunks(old, new, &[h(1, 0, 1, 1), h(2, 0, 3, 1), h(3, 0, 5, 1)]).unwrap();
    assert_eq!(result, b"A\nX\nB\nY\nC\n".to_vec());
}

#[test]
fn apply_hunks_replaces_old_lines_with_new_ones() {
    let old = b"a\nb\nc\n";
    let new = b"a\nB\nc\n";
    let result = apply_hunks(old, new, &[h(2, 1, 2, 1)]).unwrap();
    assert_eq!(result, b"a\nB\nc\n".to_vec());
    let removal = apply_hunks(old, b"a\nc\n", &[h(2, 1, 2, 0)]).unwrap();
    assert_eq!(removal, b"a\nc\n".to_vec());
}

#[test]
fn apply_hunks_without_hunks_keeps_the_old_image() {
    let old = b"one\ntwo";
    let result = apply_hunks(old, b"whatever\n", &[]).unwrap();
    assert_eq!(result, old.to_vec());
}

#[test]
fn apply_hunks_rejects_hunks_out_of_order() {
    let err = apply_hunks(b"a\nb\n", b"a\nb\n", &[h(2, 1, 2, 1), h(1, 1, 1, 1)]).unwrap_err();
    assert_eq!(
        err,
        ApplyError::OldSkipsNegative { start: 1, cursor: 3, hunk: h(1, 1, 1, 1) }
    );
    let err = apply_hunks(b"a\nb\n", b"a\nb\n", &[h(1, 0, 2, 1), h(1, 0, 1, 1)]).unwrap_err();
    assert_eq!(err, ApplyError::NewHunksOutOfOrder);
}

// The five cases below feed `apply_hunks` the additive hunks that the
// selection of pure additions (`-0,0 +n,k`) becomes once anchored on the old
// side: a pure addition lands before the old row that follows it.

#[test]
fn pure_add_after_existing_old_row_lands_after_old() {
    let old = b"X\n";
    let new = b"X\nB\n";
    // `-0,0 +2,1` anchored after the shared row `X`.
    let result = apply_hunks(old, new, &[h(2, 0, 2, 1)]).unwrap();
    assert_eq!(result, b"X\nB\n".to_vec(), "B should land after X, not before");
}

#[test]
fn two_pure_adds_straddling_shared_old_row() {
    let old = b"X\n";
    let new = b"A\nX\nB\n";
    let result = apply_hunks(old, new, &[h(1, 0, 1, 1), h(2, 0, 3, 1)]).unwrap();
    assert_eq!(result, b"A\nX\nB\n".to_vec(), "A goes before X, B goes after X (interleaved)");
}

#[test]
fn three_pure_adds_around_two_shared_rows() {
    let old = b"X\nY\n";
    let new = b"A\nX\nB\nY\nC\n";
    let result = apply_hunks(old, new, &[h(1, 0, 1, 1), h(2, 0, 3, 1), h(3, 0, 5, 1)]).unwrap();
    assert_eq!(
        result,
        b"A\nX\nB\nY\nC\n".to_vec(),
        "each pure-add slots between the two shared rows correctly"
    );
}

#[test]
fn commit_alpha_lines_when_only_section_b_is_in_head() {
    let old = b"\n## Section B\n- beta line one\n- beta line two\n- beta line three\n\n";
    let new = b"# split test\n\nthis whole file is uncommitted\npure-add hunk\n\n## Section A\n- alpha line one\n- alpha line two\n- alpha line three\n\n## Section B\n- beta line one\n- beta line two\n- beta line three\n\n## Section C\n- gamma line one\n- gamma line two\n- gamma line three\n";
    // Rows 7-8 of the new image, placed above the first old row.
    let result = apply_hunks(old, new, &[h(1, 0, 7, 2)]).unwrap();
    assert_eq!(
        result,
        b"- alpha line one\n- alpha line two\n\n## Section B\n- beta line one\n- beta line two\n- beta line three\n\n".to_vec(),
        "alpha lines must land above HEAD's existing Section B, not appended after it"
    );
}

#[test]
fn commit_section_a_above_existing_section_b() {
    let old = b"\n## Section B\n- beta one\n";
    let new = b"## Section A\n- alpha one\n\n## Section B\n- beta one\n## Section C\n- gamma one\n";
    let result = apply_hunks(old, new, &[h(1, 0, 1, 2)]).unwrap();
    assert_eq!(
        result,
        b"## Section A\n- alpha one\n\n## Section B\n- beta one\n".to_vec(),
        "Section A inserted on top; existing baseline preserved verbatim"
    );
}
