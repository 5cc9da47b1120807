use vstd::prelude::*;

verus! {

/// A position in a text: a line index and a byte offset within that line.
#[derive(Clone, Copy, Debug, PartialEq, Eq, Structural)]
pub struct Point {
    pub line: usize,
    pub byte: usize,
}

/// The extent of a piece of text: how many line breaks it spans, and how many
/// bytes follow the last of them.
#[derive(Clone, Copy, Debug, PartialEq, Eq, Structural)]
pub struct Length {
    pub line_count: usize,
    pub byte_count: usize,
}

/// A half-open range `[start, end)` between two points, with `start <= end`.
#[derive(Clone, Copy, Debug, PartialEq, Eq, Structural)]
pub struct Range {
    pub start: Point,
    pub end: Point,
}

/// `a` comes strictly before `b` in (line, byte) order.
pub open spec fn point_lt(a: Point, b: Point) -> bool {
    a.line < b.line || (a.line == b.line && a.byte < b.byte)
}

/// `a` comes at or before `b` in (line, byte) order.
pub open spec fn point_le(a: Point, b: Point) -> bool {
    a.line < b.line || (a.line == b.line && a.byte <= b.byte)
}

pub open spec fn point_min(a: Point, b: Point) -> Point {
    if point_le(a, b) { a } else { b }
}

pub open spec fn point_max(a: Point, b: Point) -> Point {
    if point_le(a, b) { b } else { a }
}

/// The point reached by moving past a piece of text of extent `len`, starting at `p`.
pub open spec fn add_length(p: Point, len: Length) -> Point {
    if len.line_count == 0 {
        Point { line: p.line, byte: (p.byte + len.byte_count) as usize }
    } else {
        Point { line: (p.line + len.line_count) as usize, byte: len.byte_count }
    }
}

/// The extent of the text between `b` and `a`, for `b <= a`.
pub open spec fn sub_points(a: Point, b: Point) -> Length {
    if a.line == b.line {
        Length { line_count: 0, byte_count: (a.byte - b.byte) as usize }
    } else {
        Length { line_count: (a.line - b.line) as usize, byte_count: a.byte }
    }
}

pub open spec fn add_length_fits(p: Point, len: Length) -> bool {
    if len.line_count == 0 {
        p.byte + len.byte_count <= usize::MAX
    } else {
        p.line + len.line_count <= usize::MAX
    }
}

impl Point {
    pub fn zero() -> (r: Point)
        ensures
            r == (Point { line: 0, byte: 0 }),
    {
        Point { line: 0, byte: 0 }
    }

    pub fn lt(&self, other: &Point) -> (r: bool)
        ensures
            r == point_lt(*self, *other),
    {
        self.line < other.line || (self.line == other.line && self.byte < other.byte)
    }

    pub fn le(&self, other: &Point) -> (r: bool)
        ensures
            r == point_le(*self, *other),
    {
        self.line < other.line || (self.line == other.line && self.byte <= other.byte)
    }

    pub fn min(self, other: Point) -> (r: Point)
        ensures
            r == point_min(self, other),
    {
        if self.le(&other) { self } else { other }
    }

    pub fn max(self, other: Point) -> (r: Point)
        ensures
            r == point_max(self, other),
    {
        if self.le(&other) { other } else { self }
    }

    /// Moves past a piece of text of extent `len`.
    pub fn add_length(self, len: Length) -> (r: Point)
        requires
            add_length_fits(self, len),
        ensures
            r == add_length(self, len),
    {
        if len.line_count == 0 {
            Point { line: self.line, byte: self.byte + len.byte_count }
        } else {
            Point { line: self.line + len.line_count, byte: len.byte_count }
        }
    }

    /// The extent of the text from `other` up to `self`.
    pub fn sub(self, other: Point) -> (r: Length)
        requires
            point_le(other, self),
        ensures
            r == sub_points(self, other),
    {
        if self.line == other.line {
            Length { line_count: 0, byte_count: self.byte - other.byte }
        } else {
            Length { line_count: self.line - other.line, byte_count: self.byte }
        }
    }
}

impl Length {
    pub fn zero() -> (r: Length)
        ensures
            r == (Length { line_count: 0, byte_count: 0 }),
    {
        Length { line_count: 0, byte_count: 0 }
    }
}

impl Range {
    pub open spec fn start_spec(&self) -> Point {
        self.start
    }

    pub open spec fn end_spec(&self) -> Point {
        self.end
    }

    pub open spec fn wf(&self) -> bool {
        point_le(self.start, self.end)
    }

    pub fn new(start: Point, end: Point) -> (r: Range)
        requires
            point_le(start, end),
        ensures
            r.start_spec() == start,
            r.end_spec() == end,
            r.wf(),
    {
        Range { start, end }
    }

    /// The range that starts at `start` and covers text of extent `len`.
    pub fn from_start_and_extent(start: Point, len: Length) -> (r: Range)
        requires
            add_length_fits(start, len),
        ensures
            r.start_spec() == start,
            r.end_spec() == add_length(start, len),
            r.wf(),
    {
        Range { start, end: start.add_length(len) }
    }

    #[verifier::when_used_as_spec(start_spec)]
    pub fn start(&self) -> (r: Point)
        ensures
            r == self.start_spec(),
    {
        self.start
    }

    #[verifier::when_used_as_spec(end_spec)]
    pub fn end(&self) -> (r: Point)
        ensures
            r == self.end_spec(),
    {
        self.end
    }

    pub fn is_empty(&self) -> (r: bool)
        ensures
            r == (self.start_spec() == self.end_spec()),
    {
        self.start == self.end
    }

    pub fn extent(&self) -> (r: Length)
        requires
            self.wf(),
        ensures
            r == sub_points(self.end_spec(), self.start_spec()),
    {
        self.end.sub(self.start)
    }
}

} // verus!
