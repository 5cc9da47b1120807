use vstd::prelude::*;
use crate::point::{Point, Length, Range, point_lt, point_le};
use crate::text::{Text, lines_wf, valid_point, valid_range, insert_lines, delete_lines, extent_of};

verus! {

/// How a position that coincides exactly with an insertion point is resolved:
/// `Before` puts the inserted text before it (the position moves past the
/// insertion), `After` puts the inserted text after it (the position stays).
#[derive(Clone, Copy, Debug, PartialEq, Eq, Structural)]
pub enum Drift {
    Before,
    After,
}

/// What a change does to the text.
#[derive(Clone, Debug)]
pub enum ChangeKind {
    Insert(Point, Text),
    Delete(Range),
}

/// One atomic edit of a text.
#[derive(Clone, Debug)]
pub struct Change {
    pub drift: Drift,
    pub kind: ChangeKind,
}

/// The mathematical content of a change.
pub enum ChangeModel {
    Insert(Drift, Point, Seq<Seq<u8>>),
    Delete(Drift, Range),
}

impl Change {
    pub open spec fn view(&self) -> ChangeModel {
        match self.kind {
            ChangeKind::Insert(p, t) => ChangeModel::Insert(self.drift, p, t.view()),
            ChangeKind::Delete(r) => ChangeModel::Delete(self.drift, r),
        }
    }

    pub open spec fn wf(&self) -> bool {
        change_model_wf(self.view())
    }

    /// A copy of this change.
    pub fn copy(&self) -> (r: Change)
        ensures
            r.view() == self.view(),
            r.wf() == self.wf(),
    {
        match &self.kind {
            ChangeKind::Insert(p, t) => Change { drift: self.drift, kind: ChangeKind::Insert(*p, t.copy()) },
            ChangeKind::Delete(r) => Change { drift: self.drift, kind: ChangeKind::Delete(*r) },
        }
    }
}

/// An insertion brings well-formed lines; a deletion's range is ordered.
pub open spec fn change_model_wf(c: ChangeModel) -> bool {
    match c {
        ChangeModel::Insert(_, _, t) => lines_wf(t),
        ChangeModel::Delete(_, r) => point_le(r.start, r.end),
    }
}

/// The change can be applied to the lines `ls`.
pub open spec fn change_applies(ls: Seq<Seq<u8>>, c: ChangeModel) -> bool {
    match c {
        ChangeModel::Insert(_, p, t) => valid_point(ls, p) && lines_wf(t),
        ChangeModel::Delete(_, r) => valid_range(ls, r),
    }
}

/// The lines that result from applying `c` to `ls`.
pub open spec fn apply_change_lines(ls: Seq<Seq<u8>>, c: ChangeModel) -> Seq<Seq<u8>> {
    match c {
        ChangeModel::Insert(_, p, t) => insert_lines(ls, p, t),
        ChangeModel::Delete(_, r) => delete_lines(ls, r),
    }
}

/// The lines that result from applying the changes `cs` to `ls`, in order.
pub open spec fn apply_changes_lines(ls: Seq<Seq<u8>>, cs: Seq<ChangeModel>) -> Seq<Seq<u8>>
    decreases cs.len(),
{
    if cs.len() == 0 {
        ls
    } else {
        apply_change_lines(apply_changes_lines(ls, cs.drop_last()), cs.last())
    }
}

/// Where a position `q` goes when the text of extent `len` is inserted at `p`.
pub open spec fn point_after_insert(q: Point, drift: Drift, p: Point, len: Length) -> Point {
    if point_lt(q, p) || (q == p && drift == Drift::After) {
        q
    } else if q.line == p.line {
        if len.line_count == 0 {
            Point { line: q.line, byte: (q.byte + len.byte_count) as usize }
        } else {
            Point { line: (q.line + len.line_count) as usize, byte: (q.byte - p.byte + len.byte_count) as usize }
        }
    } else {
        Point { line: (q.line + len.line_count) as usize, byte: q.byte }
    }
}

/// Where a position `q` goes when the text in `r` is removed.
pub open spec fn point_after_delete(q: Point, r: Range) -> Point {
    if point_le(q, r.start) {
        q
    } else if point_le(q, r.end) {
        r.start
    } else if q.line == r.end.line {
        Point { line: r.start.line, byte: (r.start.byte + (q.byte - r.end.byte)) as usize }
    } else {
        Point { line: (q.line - (r.end.line - r.start.line)) as usize, byte: q.byte }
    }
}

/// Where a position `q` goes under the change `c`.
pub open spec fn point_after_change(q: Point, c: ChangeModel) -> Point {
    match c {
        ChangeModel::Insert(drift, p, t) => point_after_insert(q, drift, p, extent_of(t)),
        ChangeModel::Delete(_, r) => point_after_delete(q, r),
    }
}

/// The arithmetic of moving `q` through `c` cannot overflow.
pub open spec fn point_change_fits(q: Point, c: ChangeModel) -> bool {
    match c {
        ChangeModel::Insert(_, p, t) => {
            let len = extent_of(t);
            q.line + len.line_count <= usize::MAX && q.byte + len.byte_count <= usize::MAX
        },
        ChangeModel::Delete(_, r) => point_le(r.start, r.end) && r.start.byte + q.byte <= usize::MAX,
    }
}

/// Moving through a change keeps the order of positions.
pub proof fn lemma_point_after_change_monotone(a: Point, b: Point, c: ChangeModel)
    requires
        point_le(a, b),
        point_change_fits(a, c),
        point_change_fits(b, c),
    ensures
        point_le(point_after_change(a, c), point_after_change(b, c)),
{
    match c {
        ChangeModel::Insert(drift, p, t) => {
            let len = extent_of(t);
            let a2 = point_after_insert(a, drift, p, len);
            let b2 = point_after_insert(b, drift, p, len);
            assert(point_le(a2, b2));
        },
        ChangeModel::Delete(_, r) => {
            let a2 = point_after_delete(a, r);
            let b2 = point_after_delete(b, r);
            assert(point_le(a2, b2));
        },
    }
}

impl Point {
    /// This position moved through the change `c`.
    pub fn apply_change(self, c: &Change) -> (r: Point)
        requires
            c.wf(),
            point_change_fits(self, c.view()),
        ensures
            r == point_after_change(self, c.view()),
    {
        match &c.kind {
            ChangeKind::Insert(p, t) => {
                let len = t.extent();
                if self.lt(p) || (self == *p && c.drift == Drift::After) {
                    self
                } else if self.line == p.line {
                    if len.line_count == 0 {
                        Point { line: self.line, byte: self.byte + len.byte_count }
                    } else {
                        Point { line: self.line + len.line_count, byte: self.byte - p.byte + len.byte_count }
                    }
                } else {
                    Point { line: self.line + len.line_count, byte: self.byte }
                }
            },
            ChangeKind::Delete(r) => {
                if self.le(&r.start) {
                    self
                } else if self.le(&r.end) {
                    r.start
                } else if self.line == r.end.line {
                    Point { line: r.start.line, byte: r.start.byte + (self.byte - r.end.byte) }
                } else {
                    Point { line: self.line - (r.end.line - r.start.line), byte: self.byte }
                }
            },
        }
    }
}

impl Text {
    /// Applies the change `c` to this text.
    pub fn apply_change(&mut self, c: &Change)
        requires
            old(self).wf(),
            c.wf(),
            change_applies(old(self).view(), c.view()),
        ensures
            final(self).view() == apply_change_lines(old(self).view(), c.view()),
            final(self).wf(),
    {
        match &c.kind {
            ChangeKind::Insert(p, t) => self.insert(*p, t),
            ChangeKind::Delete(r) => self.delete(*r),
        }
    }
}

} // verus!
