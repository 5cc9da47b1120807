use vstd::prelude::*;
use crate::point::{Point, Range, point_le, point_lt, point_min, point_max};
use crate::change::{Change, ChangeModel, point_after_change, point_change_fits, lemma_point_after_change_monotone};

verus! {

/// Which side of a wrap or fold boundary a caret is drawn on.
#[derive(Clone, Copy, Debug, PartialEq, Eq, Structural)]
pub enum Affinity {
    Before,
    After,
}

/// A selection: the text between an anchor and a cursor.
#[derive(Clone, Copy, Debug, PartialEq, Eq, Structural)]
pub struct Selection {
    pub anchor: Point,
    pub cursor: Point,
    pub affinity: Affinity,
}

pub open spec fn sel_start(s: Selection) -> Point {
    point_min(s.anchor, s.cursor)
}

pub open spec fn sel_end(s: Selection) -> Point {
    point_max(s.anchor, s.cursor)
}

/// Two selections merge when their ranges overlap or touch.
pub open spec fn sel_should_merge(a: Selection, b: Selection) -> bool {
    point_le(sel_start(a), sel_end(b)) && point_le(sel_start(b), sel_end(a))
}

/// The selection covering both `a` and `b`, facing the way `a` faces, with `a`'s affinity.
pub open spec fn sel_merge(a: Selection, b: Selection) -> Selection {
    let start = point_min(sel_start(a), sel_start(b));
    let end = point_max(sel_end(a), sel_end(b));
    if point_le(a.anchor, a.cursor) {
        Selection { anchor: start, cursor: end, affinity: a.affinity }
    } else {
        Selection { anchor: end, cursor: start, affinity: a.affinity }
    }
}

/// The selection with both ends moved through the change `c`.
pub open spec fn sel_after_change(s: Selection, c: crate::change::ChangeModel) -> Selection {
    Selection {
        anchor: point_after_change(s.anchor, c),
        cursor: point_after_change(s.cursor, c),
        affinity: s.affinity,
    }
}

/// Sorted by start, and no two overlap (they may touch).
pub open spec fn sorted_disjoint(s: Seq<Selection>) -> bool {
    forall|i: int, j: int| 0 <= i < j < s.len() ==> point_le(sel_end(#[trigger] s[i]), sel_start(#[trigger] s[j]))
}

/// Sorted by start, and no two overlap or touch: no two would merge.
pub open spec fn merge_closed(s: Seq<Selection>) -> bool {
    forall|i: int, j: int| 0 <= i < j < s.len() ==> point_lt(sel_end(#[trigger] s[i]), sel_start(#[trigger] s[j]))
}

/// The selections with every end moved through the change `c`.
pub open spec fn sels_after_change(s: Seq<Selection>, c: ChangeModel) -> Seq<Selection> {
    Seq::new(s.len(), |k: int| sel_after_change(s[k], c))
}

/// The selections moved through the changes `cs`, first to last.
pub open spec fn sels_after_changes(s: Seq<Selection>, cs: Seq<ChangeModel>) -> Seq<Selection>
    decreases cs.len(),
{
    if cs.len() == 0 {
        s
    } else {
        sels_after_change(sels_after_changes(s, cs.drop_last()), cs.last())
    }
}

/// Moving every end of the selections through `c` stays within `usize`.
pub open spec fn sels_fit(s: Seq<Selection>, c: ChangeModel) -> bool {
    forall|k: int| 0 <= k < s.len() ==> point_change_fits((#[trigger] s[k]).anchor, c) && point_change_fits(s[k].cursor, c)
}

/// Moving the selections through each of `cs` in turn stays within `usize`.
pub open spec fn sels_fit_changes(s: Seq<Selection>, cs: Seq<ChangeModel>) -> bool
    decreases cs.len(),
{
    cs.len() == 0 || (sels_fit_changes(s, cs.drop_last()) && sels_fit(sels_after_changes(s, cs.drop_last()), cs.last()))
}

/// Moving selections through a change keeps them sorted and non-overlapping.
pub proof fn lemma_sels_after_change_sorted(s: Seq<Selection>, c: ChangeModel)
    requires
        sorted_disjoint(s),
        sels_fit(s, c),
    ensures
        sorted_disjoint(sels_after_change(s, c)),
{
    let t = sels_after_change(s, c);
    assert forall|k: int| 0 <= k < s.len() implies sel_start(#[trigger] t[k]) == point_after_change(sel_start(s[k]), c)
        && sel_end(t[k]) == point_after_change(sel_end(s[k]), c) by {
        let a = s[k].anchor;
        let b = s[k].cursor;
        if point_le(a, b) {
            lemma_point_after_change_monotone(a, b, c);
        } else {
            lemma_point_after_change_monotone(b, a, c);
        }
    }
    assert forall|i: int, j: int| 0 <= i < j < t.len() implies point_le(sel_end(#[trigger] t[i]), sel_start(#[trigger] t[j])) by {
        let e = sel_end(s[i]);
        let st = sel_start(s[j]);
        assert(point_le(e, st));
        assert(point_change_fits(e, c));
        assert(point_change_fits(st, c));
        lemma_point_after_change_monotone(e, st, c);
    }
}

/// Merge-closed lists are sorted and non-overlapping.
pub proof fn lemma_merge_closed_sorted(s: Seq<Selection>)
    requires
        merge_closed(s),
    ensures
        sorted_disjoint(s),
{
}

/// The selections with each one that overlaps or touches the one before it
/// merged into it, from first to last.
pub open spec fn normalized(s: Seq<Selection>) -> Seq<Selection>
    decreases s.len(),
{
    if s.len() == 0 {
        seq![]
    } else {
        let r = normalized(s.drop_last());
        if r.len() > 0 && sel_should_merge(r.last(), s.last()) {
            r.update(r.len() - 1, sel_merge(r.last(), s.last()))
        } else {
            r.push(s.last())
        }
    }
}

/// Where the selection at index `p` of `s` ends up in `normalized(s)`.
pub open spec fn normalized_index(s: Seq<Selection>, p: Option<usize>) -> Option<usize> {
    match p {
        Some(i) => Some((normalized(s.subrange(0, i + 1)).len() - 1) as usize),
        None => None,
    }
}

/// Merging the touching neighbours of a sorted, non-overlapping list leaves a
/// merge-closed list, no longer than it, that ends where it ends.
pub proof fn lemma_normalized(s: Seq<Selection>)
    requires
        sorted_disjoint(s),
    ensures
        merge_closed(normalized(s)),
        normalized(s).len() <= s.len(),
        s.len() > 0 ==> normalized(s).len() > 0 && sel_end(normalized(s).last()) == sel_end(s.last()),
    decreases s.len(),
{
    if s.len() > 0 {
        let init = s.drop_last();
        assert(sorted_disjoint(init));
        lemma_normalized(init);
        let r = normalized(init);
        let x = s.last();
        let mx = s[s.len() - 1];
        assert(mx == x);
        if r.len() > 0 {
            let y = r.last();
            assert(init.last() == s[s.len() - 2]);
            assert(point_le(sel_end(s[s.len() - 2]), sel_start(s[s.len() - 1])));
            assert(point_le(sel_start(y), sel_end(y)));
            assert(point_le(sel_start(x), sel_end(x)));
            if sel_should_merge(y, x) {
                let m = sel_merge(y, x);
                assert(sel_start(m) == sel_start(y));
                assert(sel_end(m) == sel_end(x));
                let t = r.update(r.len() - 1, m);
                assert forall|i: int, j: int| 0 <= i < j < t.len() implies point_lt(sel_end(#[trigger] t[i]), sel_start(#[trigger] t[j])) by {
                    if j == t.len() - 1 {
                        assert(point_lt(sel_end(r[i]), sel_start(r[j])));
                    } else {
                        assert(point_lt(sel_end(r[i]), sel_start(r[j])));
                    }
                }
            } else {
                assert(point_lt(sel_end(y), sel_start(x)));
                let t = r.push(x);
                assert forall|i: int, j: int| 0 <= i < j < t.len() implies point_lt(sel_end(#[trigger] t[i]), sel_start(#[trigger] t[j])) by {
                    if j == t.len() - 1 {
                        if i < r.len() - 1 {
                            assert(point_lt(sel_end(r[i]), sel_start(r[r.len() - 1])));
                        }
                    } else {
                        assert(point_lt(sel_end(r[i]), sel_start(r[j])));
                    }
                }
            }
        } else {
            assert(merge_closed(r.push(x)));
        }
    }
}

/// Merges every selection that overlaps or touches the one before it; returns
/// the merged list and where the selection at `pending` went.
pub fn normalize_selections(s: &Vec<Selection>, pending: Option<usize>) -> (r: (Vec<Selection>, Option<usize>))
    requires
        pending matches Some(p) ==> p < s@.len(),
    ensures
        r.0@ == normalized(s@),
        r.1 == normalized_index(s@, pending),
        r.1 matches Some(q) ==> q < r.0@.len(),
{
    let mut out: Vec<Selection> = Vec::new();
    let mut moved: Option<usize> = None;
    let mut k: usize = 0;
    proof {
        assert(s@.subrange(0, 0) =~= Seq::<Selection>::empty());
    }
    while k < s.len()
        invariant
            k <= s@.len(),
            out@ == normalized(s@.subrange(0, k as int)),
            pending matches Some(p) ==> p < s@.len(),
            pending matches Some(p) && p < k ==> moved == normalized_index(s@, pending),
            !(pending matches Some(p) && p < k) ==> moved is None,
            moved matches Some(q) ==> q < out@.len(),
        decreases s@.len() - k,
    {
        let ghost pre = s@.subrange(0, k + 1);
        assert(pre.drop_last() =~= s@.subrange(0, k as int));
        assert(pre.last() == s@[k as int]);
        let x = s[k];
        let n = out.len();
        if n > 0 && out[n - 1].should_merge(&x) {
            let m = out[n - 1].merge(&x);
            out.set(n - 1, m);
        } else {
            out.push(x);
        }
        if pending == Some(k) {
            moved = Some(out.len() - 1);
        }
        k = k + 1;
    }
    assert(s@.subrange(0, k as int) =~= s@);
    (out, moved)
}

impl Selection {
    /// A selection with no extent, at `p`.
    pub fn caret(p: Point, affinity: Affinity) -> (r: Selection)
        ensures
            r == (Selection { anchor: p, cursor: p, affinity }),
    {
        Selection { anchor: p, cursor: p, affinity }
    }

    pub fn start(&self) -> (r: Point)
        ensures
            r == sel_start(*self),
    {
        self.anchor.min(self.cursor)
    }

    pub fn end(&self) -> (r: Point)
        ensures
            r == sel_end(*self),
    {
        self.anchor.max(self.cursor)
    }

    pub fn is_empty(&self) -> (r: bool)
        ensures
            r == (self.anchor == self.cursor),
    {
        self.anchor == self.cursor
    }

    /// The range this selection covers.
    pub fn range(&self) -> (r: Range)
        ensures
            r.start == sel_start(*self),
            r.end == sel_end(*self),
            r.wf(),
    {
        Range::new(self.start(), self.end())
    }

    /// Whether this selection and `other` overlap or touch.
    pub fn should_merge(&self, other: &Selection) -> (r: bool)
        ensures
            r == sel_should_merge(*self, *other),
    {
        self.start().le(&other.end()) && other.start().le(&self.end())
    }

    /// The selection covering this one and `other`, facing the way this one faces.
    pub fn merge(&self, other: &Selection) -> (r: Selection)
        ensures
            r == sel_merge(*self, *other),
    {
        let start = self.start().min(other.start());
        let end = self.end().max(other.end());
        if self.anchor.le(&self.cursor) {
            Selection { anchor: start, cursor: end, affinity: self.affinity }
        } else {
            Selection { anchor: end, cursor: start, affinity: self.affinity }
        }
    }

    /// This selection with both ends moved through the change `c`.
    pub fn apply_change(&self, c: &Change) -> (r: Selection)
        requires
            c.wf(),
            point_change_fits(self.anchor, c.view()),
            point_change_fits(self.cursor, c.view()),
        ensures
            r == sel_after_change(*self, c.view()),
    {
        Selection {
            anchor: self.anchor.apply_change(c),
            cursor: self.cursor.apply_change(c),
            affinity: self.affinity,
        }
    }
}

} // verus!
