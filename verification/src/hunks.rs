//! Hunk headers and the 1-based line ranges they describe.
use vstd::prelude::*;

verus! {

/// The numbers of a unified-diff hunk header `@@ -old_start,old_lines +new_start,new_lines @@`.
#[derive(Clone, Copy, Debug, PartialEq, Eq, Structural, Hash)]
pub struct HunkHeader {
    /// The 1-based first line of the hunk in the old image.
    pub old_start: u32,
    /// The number of old-image lines in the hunk.
    pub old_lines: u32,
    /// The 1-based first line of the hunk in the new image.
    pub new_start: u32,
    /// The number of new-image lines in the hunk.
    pub new_lines: u32,
}

/// The range of a hunk as denoted by a 1-based starting line, and the amount of lines from there.
#[derive(Clone, Copy, Debug, PartialEq, Eq, Structural, Hash)]
pub struct HunkRange {
    /// The number of the first line in the hunk, 1 based.
    pub start: u32,
    /// The amount of lines in the range; `0` denotes an empty hunk.
    pub lines: u32,
}

/// The first excluded line of `r` is representable as a `u32`.
pub open spec fn range_fits(r: HunkRange) -> bool {
    r.start + r.lines <= u32::MAX
}

/// One past the last line of `r`.
pub open spec fn spec_end(r: HunkRange) -> int {
    r.start + r.lines
}

/// The last line of `r`; an empty range sits on its start line.
pub open spec fn spec_last_line(r: HunkRange) -> int {
    if r.lines == 0 {
        r.start as int
    } else {
        r.start + r.lines - 1
    }
}

/// `other` lies fully inside `outer`.
pub open spec fn spec_contains(outer: HunkRange, other: HunkRange) -> bool {
    other.start >= outer.start && spec_end(other) <= spec_end(outer)
}

/// The closed line spans `[start, last_line]` of both ranges overlap.
pub open spec fn spec_intersects(a: HunkRange, b: HunkRange) -> bool {
    a.start <= spec_last_line(b) && b.start <= spec_last_line(a)
}

/// The old side of `h` as a range.
pub open spec fn old_range_of(h: HunkHeader) -> HunkRange {
    HunkRange { start: h.old_start, lines: h.old_lines }
}

/// The new side of `h` as a range.
pub open spec fn new_range_of(h: HunkHeader) -> HunkRange {
    HunkRange { start: h.new_start, lines: h.new_lines }
}

/// Both sides of `h` end within `u32`.
pub open spec fn header_fits(h: HunkHeader) -> bool {
    range_fits(old_range_of(h)) && range_fits(new_range_of(h))
}

/// Both sides of `other` lie inside the respective sides of `outer`.
pub open spec fn spec_header_contains(outer: HunkHeader, other: HunkHeader) -> bool {
    spec_contains(old_range_of(outer), old_range_of(other)) && spec_contains(
        new_range_of(outer),
        new_range_of(other),
    )
}

impl HunkHeader {
    /// Return our old-range as self-contained structure.
    pub fn old_range(&self) -> (r: HunkRange)
        ensures
            r == old_range_of(*self),
    {
        HunkRange { start: self.old_start, lines: self.old_lines }
    }

    /// Return our new-range as self-contained structure.
    pub fn new_range(&self) -> (r: HunkRange)
        ensures
            r == new_range_of(*self),
    {
        HunkRange { start: self.new_start, lines: self.new_lines }
    }

    /// Return `true` if `other` is fully contained in this hunk, on both sides.
    pub fn contains(self, other: HunkHeader) -> (r: bool)
        requires
            header_fits(self),
            header_fits(other),
        ensures
            r == spec_header_contains(self, other),
    {
        self.old_range().contains(other.old_range()) && self.new_range().contains(
            other.new_range(),
        )
    }
}

impl HunkRange {
    /// Calculate the line number that is one past of what we include, i.e. the first excluded line number.
    pub fn end(&self) -> (r: u32)
        requires
            range_fits(*self),
        ensures
            r == spec_end(*self),
    {
        self.start + self.lines
    }

    /// Calculate line number of the last line.
    pub fn last_line(&self) -> (r: u32)
        requires
            range_fits(*self),
        ensures
            r == spec_last_line(*self),
    {
        if self.lines == 0 {
            return self.start;
        }
        self.start + self.lines - 1
    }

    /// Return `true` if a hunk with `start` and `lines` is fully contained in this hunk.
    pub fn contains(self, other: HunkRange) -> (r: bool)
        requires
            range_fits(self),
            range_fits(other),
        ensures
            r == spec_contains(self, other),
    {
        other.start >= self.start && other.end() <= self.end()
    }

    /// Return `true` if this range is equal to or intersects with the other range.
    pub fn intersects(self, other: HunkRange) -> (r: bool)
        requires
            range_fits(self),
            range_fits(other),
        ensures
            r == spec_intersects(self, other),
    {
        if self.start <= other.start && other.start <= self.last_line() {
            return true;
        }
        if self.start <= other.last_line() && other.last_line() <= self.last_line() {
            return true;
        }
        if other.start <= self.start && self.start <= other.last_line() {
            return true;
        }
        if other.start <= self.last_line() && self.last_line() <= other.last_line() {
            return true;
        }
        false
    }

    /// Return `true` if this range is a null-range, a marker value that doesn't happen.
    pub fn is_null(&self) -> (r: bool)
        ensures
            r == (self.start == 0 && self.lines == 0),
    {
        self.start == 0 && self.lines == 0
    }
}

/// Intersection does not depend on the order of its operands.
pub proof fn lemma_intersects_symmetric(a: HunkRange, b: HunkRange)
    ensures
        spec_intersects(a, b) == spec_intersects(b, a),
{
}

/// Every range contains itself and intersects itself.
pub proof fn lemma_range_reflexive(a: HunkRange)
    ensures
        spec_contains(a, a),
        spec_intersects(a, a),
{
}

/// Containment is transitive.
pub proof fn lemma_contains_transitive(a: HunkRange, b: HunkRange, c: HunkRange)
    requires
        spec_contains(a, b),
        spec_contains(b, c),
    ensures
        spec_contains(a, c),
{
}

/// A non-empty range that lies inside another one intersects it.
pub proof fn lemma_contained_nonempty_intersects(outer: HunkRange, inner: HunkRange)
    requires
        spec_contains(outer, inner),
        inner.lines > 0,
    ensures
        spec_intersects(outer, inner),
        spec_intersects(inner, outer),
{
}

/// Two ranges that end and start on adjacent lines do not intersect when
/// both are non-empty.
pub proof fn lemma_adjacent_ranges_disjoint(a: HunkRange, b: HunkRange)
    requires
        a.lines > 0,
        b.lines > 0,
        b.start == spec_end(a),
    ensures
        !spec_intersects(a, b),
{
}

} // verus!
