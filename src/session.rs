use vstd::prelude::*;
use crate::point::{Point, point_le, point_lt};
use crate::change::{Change, ChangeModel};
use crate::selection::{
    Affinity, Selection, sel_start, sel_end, sel_should_merge, sel_after_change, sorted_disjoint,
    merge_closed, lemma_merge_closed_sorted, normalized, normalized_index, lemma_normalized, normalize_selections, sels_after_change, sels_after_changes, sels_fit, sels_fit_changes, lemma_sels_after_change_sorted,
};
use crate::inlays::{BlockInlay, BlockWidget, InlineInlay};
use crate::layout::{line_layout, layout_line};
use crate::token::{Token, total_len};
use crate::document::{Document, SessionId, tokens_after_changes, inlays_after_changes, change_models, queue_of, queues_emptied, queues_without, queues_after, lemma_queue_of_unique};
use crate::text::Text;
use crate::flat::{flat, substituted, range_offsets};
use crate::change::apply_changes_lines;
use crate::edit::{edit_changes, merged_ranges, queues_after_all, selections_valid, sorted_by_start, same_fragments, edit_outcome, FragmentsModel, returned_by, fragments_view, fragments_wf, inserted_all};

verus! {

/// Display settings of a session.
#[derive(Clone, Copy, Debug, PartialEq, Eq, Structural)]
pub struct Settings {
    pub tab_column_count: usize,
}

/// One view of a document: its own selections, and the changes it has yet to
/// take in from the document.
#[derive(Debug)]
pub struct Session {
    id: SessionId,
    settings: Settings,
    wrap_column: Option<usize>,
    selections: Vec<Selection>,
    pending_selection_index: Option<usize>,
    y: Vec<usize>,
    column_count: Vec<usize>,
    wraps: Vec<Vec<usize>>,
    wrap_indent_column: Vec<usize>,
    fold_column: Vec<usize>,
}

/// The selection at `idx` of `s` with its cursor and affinity replaced.
pub open spec fn moved(s: Seq<Selection>, idx: int, cursor: Point, affinity: Affinity) -> Selection {
    Selection { anchor: s[idx].anchor, cursor, affinity }
}

/// The selection at `j` overlaps or touches the moved selection at `idx`.
pub open spec fn touches_moved(s: Seq<Selection>, idx: int, cursor: Point, affinity: Affinity, j: int) -> bool {
    sel_should_merge(s[j], moved(s, idx, cursor, affinity))
}

/// `t` is what `move_to` leaves of `s`: the selection at `idx` with only its
/// cursor and affinity changed, and the neighbours from `lo` to `hi` around it
/// removed, each of which overlaps or touches it; the nearest ones kept on
/// either side do not.
pub open spec fn moved_window(s: Seq<Selection>, idx: int, cursor: Point, affinity: Affinity, lo: int, hi: int, t: Seq<Selection>) -> bool {
    let p = moved(s, idx, cursor, affinity);
    &&& 0 <= lo <= idx <= hi < s.len()
    &&& t == s.subrange(0, lo) + seq![p] + s.subrange(hi + 1, s.len() as int)
    &&& forall|j: int| lo <= j <= hi && j != idx ==> #[trigger] touches_moved(s, idx, cursor, affinity, j)
    &&& (lo > 0 ==> !touches_moved(s, idx, cursor, affinity, lo - 1))
    &&& (hi + 1 < s.len() ==> !touches_moved(s, idx, cursor, affinity, hi + 1))
}

proof fn lemma_endpoints(s: Selection)
    ensures
        point_le(sel_start(s), sel_end(s)),
        point_le(sel_start(s), s.anchor) && point_le(s.anchor, sel_end(s)),
        point_le(sel_start(s), s.cursor) && point_le(s.cursor, sel_end(s)),
{
}

proof fn lemma_fit_prefix(s: Seq<Selection>, cs: Seq<ChangeModel>, n: int)
    requires
        sels_fit_changes(s, cs),
        0 <= n <= cs.len(),
    ensures
        sels_fit_changes(s, cs.subrange(0, n)),
    decreases cs.len(),
{
    if n < cs.len() {
        assert(cs.drop_last() =~= cs.subrange(0, cs.len() - 1));
        lemma_fit_prefix(s, cs.drop_last(), n);
        assert(cs.drop_last().subrange(0, n) =~= cs.subrange(0, n));
    } else {
        assert(cs.subrange(0, n) =~= cs);
    }
}

proof fn lemma_sorted_disjoint_by_start(s: Seq<Selection>)
    requires
        sorted_disjoint(s),
    ensures
        sorted_by_start(s),
{
    assert forall|i: int, j: int| 0 <= i < j < s.len() implies point_le(sel_start(#[trigger] s[i]), sel_start(#[trigger] s[j])) by {
        assert(point_le(sel_end(s[i]), sel_start(s[j])));
    }
}

/// `t` is `s` with a caret at `cursor` at index `idx`, after every selection that
/// ends before `cursor`: the caret replaces the selection at `idx` if that one
/// holds `cursor` (inside or at either end), and is inserted there otherwise.
pub open spec fn cursor_added(s: Seq<Selection>, cursor: Point, affinity: Affinity, idx: int, t: Seq<Selection>) -> bool {
    let caret = Selection { anchor: cursor, cursor, affinity };
    &&& 0 <= idx <= s.len()
    &&& forall|i: int| 0 <= i < idx ==> point_lt(sel_end(#[trigger] s[i]), cursor)
    &&& forall|i: int| idx <= i < s.len() ==> !point_lt(sel_end(#[trigger] s[i]), cursor)
    &&& if idx < s.len() && point_le(sel_start(s[idx]), cursor) {
        t == s.update(idx, caret)
    } else {
        t == s.insert(idx, caret)
    }
}

/// Adding a caret keeps a merge-closed list merge-closed and non-empty: sorted,
/// with no two selections overlapping or touching.
pub proof fn lemma_add_cursor_merge_closed(s: Seq<Selection>, cursor: Point, affinity: Affinity, idx: int, t: Seq<Selection>)
    requires
        merge_closed(s),
        cursor_added(s, cursor, affinity, idx, t),
    ensures
        merge_closed(t),
        t.len() > 0,
{
    if idx < s.len() && point_le(sel_start(s[idx]), cursor) {
        assert forall|i: int, j: int| 0 <= i < j < t.len() implies point_lt(sel_end(#[trigger] t[i]), sel_start(#[trigger] t[j])) by {
            if j == idx {
                assert(point_lt(sel_end(s[i]), cursor));
            } else if i == idx {
                assert(point_lt(sel_end(s[idx]), sel_start(s[j])));
                assert(!point_lt(sel_end(s[idx]), cursor));
            } else {
                assert(point_lt(sel_end(s[i]), sel_start(s[j])));
            }
        }
    } else {
        assert forall|i: int, j: int| 0 <= i < j < t.len() implies point_lt(sel_end(#[trigger] t[i]), sel_start(#[trigger] t[j])) by {
            if j == idx {
                assert(point_lt(sel_end(s[i]), cursor));
            } else if i == idx {
                assert(t[j] == s[j - 1]);
                lemma_endpoints(s[idx]);
                if j - 1 > idx {
                    assert(point_lt(sel_end(s[idx]), sel_start(s[j - 1])));
                }
            } else if i < idx && j < idx {
                assert(point_lt(sel_end(s[i]), sel_start(s[j])));
            } else if i < idx {
                assert(t[j] == s[j - 1]);
                assert(point_lt(sel_end(s[i]), sel_start(s[j - 1])));
            } else {
                assert(t[i] == s[i - 1]);
                assert(t[j] == s[j - 1]);
                assert(point_lt(sel_end(s[i - 1]), sel_start(s[j - 1])));
            }
        }
    }
}

/// Moving the pending cursor keeps a merge-closed list merge-closed and non-empty.
pub proof fn lemma_move_to_merge_closed(s: Seq<Selection>, idx: int, cursor: Point, affinity: Affinity, lo: int, hi: int, t: Seq<Selection>)
    requires
        merge_closed(s),
        moved_window(s, idx, cursor, affinity, lo, hi, t),
    ensures
        merge_closed(t),
        t.len() > 0,
{
    let p = moved(s, idx, cursor, affinity);
    lemma_endpoints(p);
    lemma_endpoints(s[idx]);
    if lo > 0 {
        lemma_endpoints(s[lo - 1]);
        if lo - 1 < idx {
            assert(point_lt(sel_end(s[lo - 1]), sel_start(s[idx])));
        }
        assert(!touches_moved(s, idx, cursor, affinity, lo - 1));
        assert(point_lt(sel_end(s[lo - 1]), sel_start(p)));
    }
    if hi + 1 < s.len() {
        lemma_endpoints(s[hi + 1]);
        if hi + 1 > idx {
            assert(point_lt(sel_end(s[idx]), sel_start(s[hi + 1])));
        }
        assert(!touches_moved(s, idx, cursor, affinity, hi + 1));
        assert(point_lt(sel_end(p), sel_start(s[hi + 1])));
    }
    assert forall|a: int, b: int| 0 <= a < b < t.len() implies point_lt(sel_end(#[trigger] t[a]), sel_start(#[trigger] t[b])) by {
        if b < lo {
            assert(t[a] == s[a] && t[b] == s[b]);
        } else if b == lo {
            assert(t[a] == s[a]);
            lemma_endpoints(s[a]);
            if a < lo - 1 {
                assert(point_lt(sel_end(s[a]), sel_start(s[lo - 1])));
            }
        } else if a == lo {
            let k = b - lo + hi;
            assert(t[b] == s[k]);
            if k > hi + 1 {
                lemma_endpoints(s[hi + 1]);
                assert(point_lt(sel_end(s[hi + 1]), sel_start(s[k])));
            }
        } else if a < lo {
            let k = b - lo + hi;
            assert(t[a] == s[a] && t[b] == s[k]);
        } else {
            assert(t[a] == s[a - lo + hi] && t[b] == s[b - lo + hi]);
        }
    }
}

/// Changes reach every session in the order the document applied them: after
/// `c1` and then `c2` are applied, a session's queue ends with `c1` followed by
/// `c2`, and draining it moves the selections through `c1` before `c2`.
pub proof fn lemma_propagation_order(
    qs: Seq<(SessionId, Seq<ChangeModel>)>,
    id: SessionId,
    i: int,
    c1: ChangeModel,
    c2: ChangeModel,
    s: Seq<Selection>,
)
    requires
        0 <= i < qs.len(),
        qs[i].0 == id,
        forall|a: int, b: int| 0 <= a < b < qs.len() ==> (#[trigger] qs[a]).0 != (#[trigger] qs[b]).0,
    ensures
        queue_of(queues_after(queues_after(qs, c1), c2), id) == queue_of(qs, id).push(c1).push(c2),
        sels_after_changes(s, queue_of(qs, id).push(c1).push(c2))
            == sels_after_change(sels_after_change(sels_after_changes(s, queue_of(qs, id)), c1), c2),
{
    let q1 = queues_after(qs, c1);
    let q2 = queues_after(q1, c2);
    lemma_queue_of_unique(qs, id, i);
    assert forall|a: int, b: int| 0 <= a < b < q2.len() implies (#[trigger] q2[a]).0 != (#[trigger] q2[b]).0 by {
        assert(qs[a].0 != qs[b].0);
    }
    lemma_queue_of_unique(q2, id, i);
    let q = queue_of(qs, id);
    assert(q.push(c1).push(c2).drop_last() =~= q.push(c1));
    assert(q.push(c1).drop_last() =~= q);
    reveal_with_fuel(sels_after_changes, 3);
}

/// `a + b`, or `usize::MAX` where that is larger.
pub open spec fn sat_add(a: usize, b: usize) -> usize {
    if a + b > usize::MAX { usize::MAX } else { (a + b) as usize }
}

/// The height of a line in rows: one more than its wrap points.
pub open spec fn line_height(wraps: Seq<usize>) -> usize {
    sat_add(wraps.len() as usize, 1)
}

/// The total height of the block widgets that stand before line `k`.
pub open spec fn widgets_at(blocks: Seq<(usize, BlockInlay)>, k: int) -> usize
    decreases blocks.len(),
{
    if blocks.len() == 0 {
        0
    } else {
        let rest = widgets_at(blocks.drop_last(), k);
        let (line, b) = blocks.last();
        if line == k {
            match b {
                BlockInlay::Widget(w) => sat_add(rest, w.height),
            }
        } else {
            rest
        }
    }
}

/// The top of line `k` (of the bottom, for `k` the line count): the heights of
/// the lines and block widgets above it, added up with saturation.
pub open spec fn y_at(heights: Seq<usize>, blocks: Seq<(usize, BlockInlay)>, k: int) -> usize
    decreases k,
{
    if k <= 0 {
        widgets_at(blocks, 0)
    } else {
        sat_add(sat_add(y_at(heights, blocks, k - 1), heights[k - 1]), widgets_at(blocks, k))
    }
}

pub open spec fn heights_of(wraps: Seq<Vec<usize>>) -> Seq<usize> {
    Seq::new(wraps.len(), |i: int| line_height(wraps[i]@))
}

proof fn lemma_y_monotone(heights: Seq<usize>, blocks: Seq<(usize, BlockInlay)>, a: int, b: int)
    requires
        0 <= a <= b,
    ensures
        y_at(heights, blocks, a) <= y_at(heights, blocks, b),
    decreases b - a,
{
    if a < b {
        lemma_y_monotone(heights, blocks, a, b - 1);
    }
}

proof fn lemma_y_prefix_same(hs0: Seq<usize>, hs1: Seq<usize>, bs: Seq<(usize, BlockInlay)>, k: int, index: int)
    requires
        0 <= k <= index,
        forall|j: int| 0 <= j < index ==> hs0[j] == hs1[j],
    ensures
        y_at(hs0, bs, k) == y_at(hs1, bs, k),
    decreases k,
{
    if k > 0 {
        lemma_y_prefix_same(hs0, hs1, bs, k - 1, index);
    }
}

/// Moves the cursor of `sels[idx]` and removes the neighbours it then
/// overlaps or touches, first to the left, then to the right; returns its new index.
fn move_selection(sels: &mut Vec<Selection>, idx: usize, cursor: Point, affinity: Affinity) -> (lo: usize)
    requires
        old(sels)@.len() > 0,
        merge_closed(old(sels)@),
        idx < old(sels)@.len(),
    ensures
        final(sels)@.len() > 0,
        merge_closed(final(sels)@),
        lo < final(sels)@.len(),
        exists|hi: int| #[trigger] moved_window(old(sels)@, idx as int, cursor, affinity, lo as int, hi, final(sels)@),
{
    let ghost s = sels@;
    let count = sels.len();
    let ghost n = s.len();
    let p = Selection { anchor: sels[idx].anchor, cursor, affinity };
    let mut i: usize = idx;
    while i > 0 && sels[i - 1].should_merge(&p)
        invariant
            i <= idx < n,
            n == s.len(),
            p == moved(s, idx as int, cursor, affinity),
            sels@ == s.subrange(0, i as int) + s.subrange(idx as int, n as int),
            forall|j: int| i <= j < idx ==> #[trigger] touches_moved(s, idx as int, cursor, affinity, j),
        decreases i,
    {
        assert(sels@[i - 1] == s[i - 1]);
        sels.remove(i - 1);
        i = i - 1;
        assert(sels@ =~= s.subrange(0, i as int) + s.subrange(idx as int, n as int));
    }
    let lo = i;
    let mut j: usize = idx;
    while lo + 1 < sels.len() && p.should_merge(&sels[lo + 1])
        invariant
            lo <= idx <= j < n,
            n == s.len(),
            n == count,
            p == moved(s, idx as int, cursor, affinity),
            lo > 0 ==> !touches_moved(s, idx as int, cursor, affinity, lo - 1),
            sels@ == s.subrange(0, lo as int) + seq![s[idx as int]] + s.subrange(j + 1, n as int),
            forall|jj: int| lo <= jj <= j && jj != idx ==> #[trigger] touches_moved(s, idx as int, cursor, affinity, jj),
        decreases n - j,
    {
        assert(sels@[lo + 1] == s[j + 1]);
        assert(touches_moved(s, idx as int, cursor, affinity, j + 1));
        sels.remove(lo + 1);
        j = j + 1;
        assert(sels@ =~= s.subrange(0, lo as int) + seq![s[idx as int]] + s.subrange(j + 1, n as int));
    }
    proof {
        if j + 1 < n {
            assert(sels@[lo + 1] == s[j + 1]);
        }
    }
    sels.set(lo, p);
    proof {
        let hi = j as int;
        let t = sels@;
        assert(t =~= s.subrange(0, lo as int) + seq![p] + s.subrange(hi + 1, n as int));
        assert(moved_window(s, idx as int, cursor, affinity, lo as int, hi, t));
        lemma_move_to_merge_closed(s, idx as int, cursor, affinity, lo as int, hi, t);
    }
    lo
}

/// One line as a view draws it: the document's text, tokens and inlays for the
/// line, with the session's layout of it.
#[derive(Clone, Copy, Debug)]
pub struct Line<'a> {
    pub index: usize,
    pub y: Option<usize>,
    pub column_count: usize,
    pub height: usize,
    pub text: &'a [u8],
    pub tokens: &'a [Token],
    pub inline_inlays: &'a [(usize, InlineInlay)],
    pub wraps: &'a [usize],
    pub wrap_indent_column: usize,
    pub fold_column: usize,
}

/// One block of the vertical layout: a line, or a block widget between lines.
#[derive(Clone, Copy, Debug)]
pub enum Block<'a> {
    Line { is_inlay: bool, line: Line<'a> },
    Widget(BlockWidget),
}

/// What a block shows: which line, or which widget.
pub enum BlockModel {
    Line(usize),
    Widget(BlockWidget),
}

impl<'a> Block<'a> {
    pub open spec fn view(&self) -> BlockModel {
        match self {
            Block::Line { line, .. } => BlockModel::Line(line.index),
            Block::Widget(w) => BlockModel::Widget(*w),
        }
    }
}

pub open spec fn block_models<'a>(v: Seq<Block<'a>>) -> Seq<BlockModel> {
    Seq::new(v.len(), |i: int| v[i].view())
}

/// The block widgets that stand before line `p`, in list order.
pub open spec fn widgets_before(bs: Seq<(usize, BlockInlay)>, p: int) -> Seq<BlockModel>
    decreases bs.len(),
{
    if bs.len() == 0 {
        seq![]
    } else {
        let rest = widgets_before(bs.drop_last(), p);
        if bs.last().0 == p {
            match bs.last().1 {
                BlockInlay::Widget(w) => rest.push(BlockModel::Widget(w)),
            }
        } else {
            rest
        }
    }
}

/// The blocks from line `start` up to line `end`: before each line the widgets
/// that stand before it, then the line; after the last, the widgets before `end`.
pub open spec fn blocks_between(bs: Seq<(usize, BlockInlay)>, start: int, end: int) -> Seq<BlockModel>
    decreases end - start,
{
    if start >= end {
        widgets_before(bs, end)
    } else {
        widgets_before(bs, start) + seq![BlockModel::Line(start as usize)] + blocks_between(bs, start + 1, end)
    }
}

/// The largest of the values, or 0 for none.
pub open spec fn seq_max(s: Seq<usize>) -> usize
    decreases s.len(),
{
    if s.len() == 0 {
        0
    } else {
        let m = seq_max(s.drop_last());
        if s.last() > m { s.last() } else { m }
    }
}

/// Non-decreasing.
pub open spec fn sorted_usize(s: Seq<usize>) -> bool {
    forall|a: int, b: int| 0 <= a <= b < s.len() ==> s[a] <= s[b]
}

/// How many of the values are at or below `y`, in a non-decreasing sequence.
pub open spec fn count_le(s: Seq<usize>, y: usize) -> int
    decreases s.len(),
{
    if s.len() == 0 {
        0
    } else if s.last() <= y {
        s.len() as int
    } else {
        count_le(s.drop_last(), y)
    }
}

proof fn lemma_count_le(s: Seq<usize>, y: usize, c: int)
    requires
        0 <= c <= s.len(),
        forall|i: int| 0 <= i < c ==> #[trigger] s[i] <= y,
        forall|i: int| c <= i < s.len() ==> #[trigger] s[i] > y,
    ensures
        count_le(s, y) == c,
    decreases s.len(),
{
    if s.len() > 0 && c < s.len() {
        lemma_count_le(s.drop_last(), y, c);
    }
}

impl Session {
    pub closed spec fn id_view(&self) -> SessionId {
        self.id
    }

    pub closed spec fn selections_view(&self) -> Seq<Selection> {
        self.selections@
    }

    pub closed spec fn pending(&self) -> Option<usize> {
        self.pending_selection_index
    }

    pub closed spec fn settings_view(&self) -> Settings {
        self.settings
    }

    pub closed spec fn wrap_column_view(&self) -> Option<usize> {
        self.wrap_column
    }

    /// At least one selection; sorted, no two overlapping or touching; the
    /// pending index names one of them.
    pub open spec fn wf(&self) -> bool {
        &&& self.selections_view().len() > 0
        &&& merge_closed(self.selections_view())
        &&& (self.pending() matches Some(i) ==> i < self.selections_view().len())
        &&& sorted_usize(self.y_view())
    }

    /// A session on `document`, registered with it, with one caret at the start.
    pub fn new(document: &mut Document) -> (r: Session)
        requires
            old(document).wf(),
            old(document).next_id() < usize::MAX,
        ensures
            r.wf(),
            final(document).wf(),
            r.id_view() == SessionId(old(document).next_id()),
            r.selections_view() == seq![Selection { anchor: Point { line: 0, byte: 0 }, cursor: Point { line: 0, byte: 0 }, affinity: Affinity::Before }],
            r.pending() == None::<usize>,
            r.wrap_column_view() == None::<usize>,
            r.settings_view() == (Settings { tab_column_count: 4 }),
            r.laid_out(final(document)),
            r.fold_columns_view() == Seq::new(final(document).text_view().len(), |i: int| 0usize),
            final(document).next_id() == old(document).next_id() + 1,
            final(document).queues_view() == old(document).queues_view().push((r.id_view(), Seq::empty())),
            final(document).text_view() == old(document).text_view(),
            final(document).tokens_view() == old(document).tokens_view(),
            final(document).inlays_view() == old(document).inlays_view(),
            final(document).block_inlays_view() == old(document).block_inlays_view(),
    {
        let id = document.register_session();
        let mut selections: Vec<Selection> = Vec::new();
        selections.push(Selection::caret(Point::zero(), Affinity::Before));
        let mut r = Session {
            id,
            settings: Settings { tab_column_count: 4 },
            wrap_column: None,
            selections,
            pending_selection_index: None,
            y: Vec::new(),
            column_count: Vec::new(),
            wraps: Vec::new(),
            wrap_indent_column: Vec::new(),
            fold_column: Vec::new(),
        };
        r.relayout(document);
        assert(r.selections_view() =~= seq![Selection { anchor: Point { line: 0, byte: 0 }, cursor: Point { line: 0, byte: 0 }, affinity: Affinity::Before }]);
        r
    }

    pub fn id(&self) -> (r: SessionId)
        ensures
            r == self.id_view(),
    {
        self.id
    }

    pub fn settings(&self) -> (r: &Settings)
        ensures
            *r == self.settings_view(),
    {
        &self.settings
    }

    pub fn wrap_column(&self) -> (r: Option<usize>)
        ensures
            r == self.wrap_column_view(),
    {
        self.wrap_column
    }

    pub fn selections(&self) -> (r: &[Selection])
        ensures
            r@ == self.selections_view(),
    {
        self.selections.as_slice()
    }

    pub fn pending_selection_index(&self) -> (r: Option<usize>)
        ensures
            r == self.pending(),
    {
        self.pending_selection_index
    }

    /// Replaces all selections with one caret at `cursor`, which becomes pending.
    pub fn set_cursor(&mut self, cursor: Point, affinity: Affinity)
        requires
            old(self).wf(),
        ensures
            final(self).wf(),
            final(self).selections_view() == seq![Selection { anchor: cursor, cursor, affinity }],
            final(self).pending() == Some(0usize),
            final(self).id_view() == old(self).id_view(),
            final(self).wrap_column_view() == old(self).wrap_column_view(),
            final(self).same_layout(old(self)),
    {
        self.selections.clear();
        self.selections.push(Selection::caret(cursor, affinity));
        self.pending_selection_index = Some(0);
        assert(self.selections_view() =~= seq![Selection { anchor: cursor, cursor, affinity }]);
    }

    /// Adds a caret at `cursor` in its sorted place; if a selection holds `cursor`
    /// (inside or at either end), the caret replaces it. The caret becomes pending.
    pub fn add_cursor(&mut self, cursor: Point, affinity: Affinity)
        requires
            old(self).wf(),
        ensures
            final(self).wf(),
            final(self).pending() is Some,
            cursor_added(old(self).selections_view(), cursor, affinity, final(self).pending()->0 as int, final(self).selections_view()),
            final(self).id_view() == old(self).id_view(),
            final(self).wrap_column_view() == old(self).wrap_column_view(),
            final(self).same_layout(old(self)),
    {
        let ghost s = self.selections@;
        let caret = Selection::caret(cursor, affinity);
        let n = self.selections.len();
        let mut lo: usize = 0;
        let mut hi: usize = n;
        while lo < hi
            invariant
                lo <= hi <= n,
                n == s.len(),
                self.selections@ == s,
                merge_closed(s),
                forall|i: int| 0 <= i < lo ==> point_lt(sel_end(#[trigger] s[i]), cursor),
                forall|i: int| hi <= i < n ==> !point_lt(sel_end(#[trigger] s[i]), cursor),
            decreases hi - lo,
        {
            let mid = lo + (hi - lo) / 2;
            if self.selections[mid].end().lt(&cursor) {
                assert forall|i: int| 0 <= i < mid + 1 implies point_lt(sel_end(#[trigger] s[i]), cursor) by {
                    if i < mid {
                        assert(point_lt(sel_end(s[i]), sel_start(s[mid as int])));
                        lemma_endpoints(s[mid as int]);
                    }
                }
                lo = mid + 1;
            } else {
                assert forall|i: int| mid <= i < n implies !point_lt(sel_end(#[trigger] s[i]), cursor) by {
                    if i > mid {
                        assert(point_lt(sel_end(s[mid as int]), sel_start(s[i])));
                        lemma_endpoints(s[i]);
                    }
                }
                hi = mid;
            }
        }
        let idx = lo;
        if idx < n && self.selections[idx].start().le(&cursor) {
            self.selections.set(idx, caret);
        } else {
            self.selections.insert(idx, caret);
        }
        self.pending_selection_index = Some(idx);
        proof {
            assert(cursor_added(s, cursor, affinity, idx as int, self.selections@));
            lemma_add_cursor_merge_closed(s, cursor, affinity, idx as int, self.selections@);
        }
    }

    /// Moves the pending selection's cursor to `cursor`, then removes each
    /// neighbour it overlaps or touches, first to the left, then to the right.
    pub fn move_to(&mut self, cursor: Point, affinity: Affinity)
        requires
            old(self).wf(),
            old(self).pending() is Some,
        ensures
            final(self).wf(),
            final(self).pending() is Some,
            exists|hi: int| #[trigger] moved_window(
                old(self).selections_view(), old(self).pending()->0 as int, cursor, affinity,
                final(self).pending()->0 as int, hi, final(self).selections_view()),
            final(self).id_view() == old(self).id_view(),
            final(self).wrap_column_view() == old(self).wrap_column_view(),
            final(self).same_layout(old(self)),
    {
        let idx = self.pending_selection_index.unwrap();
        let ghost s0 = self.selections@;
        let lo = move_selection(&mut self.selections, idx, cursor, affinity);
        self.pending_selection_index = Some(lo);
        proof {
            let hi = choose|hi: int| #[trigger] moved_window(s0, idx as int, cursor, affinity, lo as int, hi, self.selections@);
            lemma_move_to_merge_closed(s0, idx as int, cursor, affinity, lo as int, hi, self.selections@);
            assert(moved_window(old(self).selections_view(), old(self).pending()->0 as int, cursor, affinity,
                self.pending()->0 as int, hi, self.selections_view()));
        }
    }

    /// Takes in the changes the document queued for this session, in order,
    /// moving every selection through each, then merges the selections that the
    /// changes left touching.
    pub fn handle_changes(&mut self, document: &mut Document)
        requires
            old(self).wf(),
            old(document).wf(),
            sels_fit_changes(old(self).selections_view(), queue_of(old(document).queues_view(), old(self).id_view())),
        ensures
            final(self).wf(),
            final(document).wf(),
            final(self).selections_view() == normalized(sels_after_changes(old(self).selections_view(), queue_of(old(document).queues_view(), old(self).id_view()))),
            final(self).pending() == normalized_index(sels_after_changes(old(self).selections_view(), queue_of(old(document).queues_view(), old(self).id_view())), old(self).pending()),
            final(self).id_view() == old(self).id_view(),
            final(self).wrap_column_view() == old(self).wrap_column_view(),
            final(document).queues_view() == queues_emptied(old(document).queues_view(), old(self).id_view()),
            final(self).laid_out(final(document)),
            final(document).text_view() == old(document).text_view(),
            final(document).tokens_view() == old(document).tokens_view(),
            final(document).inlays_view() == old(document).inlays_view(),
            final(document).block_inlays_view() == old(document).block_inlays_view(),
            final(document).next_id() == old(document).next_id(),
    {
        let ghost s0 = self.selections@;
        proof {
            lemma_merge_closed_sorted(s0);
        }
        let changes = document.take_changes(self.id);
        let ghost cs = change_models(changes@);
        let mut i: usize = 0;
        proof {
            assert(cs.subrange(0, 0) =~= Seq::<ChangeModel>::empty());
        }
        while i < changes.len()
            invariant
                i <= changes@.len(),
                cs == change_models(changes@),
                forall|k: int| 0 <= k < changes@.len() ==> (#[trigger] changes@[k]).wf(),
                sels_fit_changes(s0, cs),
                self.selections@ == sels_after_changes(s0, cs.subrange(0, i as int)),
                self.selections@.len() == s0.len(),
                s0.len() > 0,
                sorted_disjoint(self.selections@),
                self.pending_selection_index == old(self).pending_selection_index,
                self.pending_selection_index matches Some(p) ==> p < s0.len(),
                self.id == old(self).id,
                self.wrap_column == old(self).wrap_column,
            decreases changes@.len() - i,
        {
            let c = &changes[i];
            let ghost pre = cs.subrange(0, i + 1);
            assert(pre.drop_last() =~= cs.subrange(0, i as int));
            assert(pre.last() == c.view());
            proof {
                lemma_fit_prefix(s0, cs, i + 1);
            }
            let ghost before = self.selections@;
            let n = self.selections.len();
            let mut k: usize = 0;
            while k < n
                invariant
                    k <= n,
                    n == before.len(),
                    c.wf(),
                    sels_fit(before, c.view()),
                    self.selections@.len() == n,
                    forall|j: int| 0 <= j < k ==> #[trigger] self.selections@[j] == sel_after_change(before[j], c.view()),
                    forall|j: int| k <= j < n ==> #[trigger] self.selections@[j] == before[j],
                    self.pending_selection_index == old(self).pending_selection_index,
                    self.id == old(self).id,
                    self.wrap_column == old(self).wrap_column,
                decreases n - k,
            {
                let moved = self.selections[k].apply_change(c);
                self.selections.set(k, moved);
                k = k + 1;
            }
            proof {
                assert(self.selections@ =~= sels_after_change(before, c.view()));
                lemma_sels_after_change_sorted(before, c.view());
            }
            i = i + 1;
        }
        proof {
            assert(cs.subrange(0, i as int) =~= cs);
            lemma_normalized(self.selections@);
        }
        let (merged, pending) = normalize_selections(&self.selections, self.pending_selection_index);
        self.selections = merged;
        self.pending_selection_index = pending;
        self.relayout(document);
    }

    /// Inserts `text` at every selection, replacing what each selects. The changes
    /// reach this session's selections through `handle_changes`.
    pub fn insert(&mut self, document: &mut Document, text: Text)
        requires
            old(self).wf(),
            old(document).wf(),
            text.wf(),
            selections_valid(old(self).selections_view(), old(document).text_view()),
        ensures
            final(document).wf(),
            final(document).text_view() == apply_changes_lines(old(document).text_view(),
                edit_changes(merged_ranges(old(self).selections_view()), same_fragments(merged_ranges(old(self).selections_view()).len(), (Some(text.view()), None)), Point { line: 0, byte: 0 }, Point { line: 0, byte: 0 })),
            final(document).queues_view() == queues_after_all(old(document).queues_view(),
                edit_changes(merged_ranges(old(self).selections_view()), same_fragments(merged_ranges(old(self).selections_view()).len(), (Some(text.view()), None)), Point { line: 0, byte: 0 }, Point { line: 0, byte: 0 })),
            final(document).tokens_view() == tokens_after_changes(old(document).tokens_view(), edit_changes(merged_ranges(old(self).selections_view()), same_fragments(merged_ranges(old(self).selections_view()).len(), (Some(text.view()), None)), Point { line: 0, byte: 0 }, Point { line: 0, byte: 0 })),
            final(document).inlays_view() == inlays_after_changes(old(document).inlays_view(), edit_changes(merged_ranges(old(self).selections_view()), same_fragments(merged_ranges(old(self).selections_view()).len(), (Some(text.view()), None)), Point { line: 0, byte: 0 }, Point { line: 0, byte: 0 })),
            final(document).next_id() == old(document).next_id(),
            flat(final(document).text_view()) == substituted(flat(old(document).text_view()),
                range_offsets(old(document).text_view(), merged_ranges(old(self).selections_view())),
                Seq::new(merged_ranges(old(self).selections_view()).len(), |i: int| flat(text.view())), 0),
            *final(self) == *old(self),
    {
        let ghost tv = text.view();
        let ghost d0 = *document;
        let inserted = &text;
        let policy = |_t: &Text, _p: Point| -> (r: (Option<Text>, Option<Text>))
            ensures
                r.0 matches Some(x) && x.view() == inserted.view(),
                r.1 is None,
        {
            (Some(inserted.copy()), None)
        };
        let mut changes: Vec<Change> = Vec::new();
        proof {
            lemma_merge_closed_sorted(self.selections@);
            lemma_sorted_disjoint_by_start(self.selections@);
            assert forall|t: &Text, p: Point, r: (Option<Text>, Option<Text>)| #[trigger] call_ensures(policy, (t, p), r) implies fragments_wf(r) by {
                assert(r.0 matches Some(x) && x.view() == tv);
            }
        }
        let ghost c0 = change_models(changes@);
        document.edit(self.selections.as_slice(), &mut changes, policy);
        proof {
            let fs = choose|fs: Seq<FragmentsModel>| #[trigger] edit_outcome(policy, d0, *document, self.selections@, c0, change_models(changes@), fs);
            let n = merged_ranges(self.selections@).len();
            assert forall|i: int| 0 <= i < fs.len() implies #[trigger] fs[i] == (Some(tv), None::<Seq<Seq<u8>>>) by {
                assert(returned_by(policy, fs[i]));
                let (t, p, r) = choose|t: &Text, p: Point, r: (Option<Text>, Option<Text>)| #[trigger] call_ensures(policy, (t, p), r) && fragments_view(r) == fs[i];
            }
            assert(fs =~= same_fragments(n, (Some(tv), None)));
            assert(inserted_all(fs) =~= Seq::new(n, |i: int| flat(tv)));
        }
    }

    /// Deletes what every selection selects. The changes reach this session's
    /// selections through `handle_changes`.
    pub fn delete(&mut self, document: &mut Document)
        requires
            old(self).wf(),
            old(document).wf(),
            selections_valid(old(self).selections_view(), old(document).text_view()),
        ensures
            final(document).wf(),
            final(document).text_view() == apply_changes_lines(old(document).text_view(),
                edit_changes(merged_ranges(old(self).selections_view()), same_fragments(merged_ranges(old(self).selections_view()).len(), (None, None)), Point { line: 0, byte: 0 }, Point { line: 0, byte: 0 })),
            final(document).queues_view() == queues_after_all(old(document).queues_view(),
                edit_changes(merged_ranges(old(self).selections_view()), same_fragments(merged_ranges(old(self).selections_view()).len(), (None, None)), Point { line: 0, byte: 0 }, Point { line: 0, byte: 0 })),
            final(document).tokens_view() == tokens_after_changes(old(document).tokens_view(), edit_changes(merged_ranges(old(self).selections_view()), same_fragments(merged_ranges(old(self).selections_view()).len(), (None, None)), Point { line: 0, byte: 0 }, Point { line: 0, byte: 0 })),
            final(document).inlays_view() == inlays_after_changes(old(document).inlays_view(), edit_changes(merged_ranges(old(self).selections_view()), same_fragments(merged_ranges(old(self).selections_view()).len(), (None, None)), Point { line: 0, byte: 0 }, Point { line: 0, byte: 0 })),
            final(document).next_id() == old(document).next_id(),
            flat(final(document).text_view()) == substituted(flat(old(document).text_view()),
                range_offsets(old(document).text_view(), merged_ranges(old(self).selections_view())),
                Seq::new(merged_ranges(old(self).selections_view()).len(), |i: int| Seq::<u8>::empty()), 0),
            *final(self) == *old(self),
    {
        let ghost d0 = *document;
        let policy = |_t: &Text, _p: Point| -> (r: (Option<Text>, Option<Text>))
            ensures
                r.0 is None,
                r.1 is None,
        {
            (None, None)
        };
        let mut changes: Vec<Change> = Vec::new();
        proof {
            lemma_merge_closed_sorted(self.selections@);
            lemma_sorted_disjoint_by_start(self.selections@);
        }
        let ghost c0 = change_models(changes@);
        document.edit(self.selections.as_slice(), &mut changes, policy);
        proof {
            let fs = choose|fs: Seq<FragmentsModel>| #[trigger] edit_outcome(policy, d0, *document, self.selections@, c0, change_models(changes@), fs);
            let n = merged_ranges(self.selections@).len();
            assert forall|i: int| 0 <= i < fs.len() implies #[trigger] fs[i] == (None::<Seq<Seq<u8>>>, None::<Seq<Seq<u8>>>) by {
                assert(returned_by(policy, fs[i]));
                let (t, p, r) = choose|t: &Text, p: Point, r: (Option<Text>, Option<Text>)| #[trigger] call_ensures(policy, (t, p), r) && fragments_view(r) == fs[i];
            }
            assert(fs =~= same_fragments(n, (None, None)));
            assert(inserted_all(fs) =~= Seq::new(n, |i: int| Seq::<u8>::empty()));
        }
    }

    /// Detaches this session from `document`, which drops its queue.
    pub fn close(self, document: &mut Document)
        requires
            old(document).wf(),
        ensures
            final(document).wf(),
            final(document).queues_view() == queues_without(old(document).queues_view(), self.id_view()),
            final(document).text_view() == old(document).text_view(),
            final(document).tokens_view() == old(document).tokens_view(),
            final(document).inlays_view() == old(document).inlays_view(),
            final(document).block_inlays_view() == old(document).block_inlays_view(),
            final(document).next_id() == old(document).next_id(),
    {
        document.unregister_session(self.id);
    }

    /// The layout caches hold one entry per line of `document`, each as
    /// `line_layout` gives it, and the vertical position of every line and of
    /// the bottom.
    pub closed spec fn laid_out(&self, document: &Document) -> bool {
        let n = document.text_view().len();
        &&& self.wraps@.len() == n
        &&& self.wrap_indent_column@.len() == n
        &&& self.fold_column@ == Seq::new(n, |i: int| 0usize)
        &&& self.column_count@.len() == n
        &&& forall|i: int| 0 <= i < n ==> (#[trigger] self.wraps@[i]@, self.wrap_indent_column@[i], self.column_count@[i])
            == line_layout(document.text_view()[i], document.tokens_view()[i], document.inlays_view()[i],
                self.wrap_column, self.settings.tab_column_count)
        &&& self.y@.len() == n + 1
        &&& forall|k: int| 0 <= k <= n ==> #[trigger] self.y@[k] == y_at(heights_of(self.wraps@), document.block_inlays_view(), k)
    }

    /// The vertical positions computed so far are right for the cached wraps.
    closed spec fn y_prefix_ok(&self, document: &Document) -> bool {
        &&& self.y@.len() <= self.wraps@.len() + 1
        &&& forall|k: int| 0 <= k < self.y@.len() ==> #[trigger] self.y@[k] == y_at(heights_of(self.wraps@), document.block_inlays_view(), k)
    }

    /// Both sessions hold the same layout and settings.
    pub closed spec fn same_layout(&self, other: &Session) -> bool {
        &&& self.y == other.y
        &&& self.wraps == other.wraps
        &&& self.wrap_indent_column == other.wrap_indent_column
        &&& self.fold_column == other.fold_column
        &&& self.column_count == other.column_count
        &&& self.settings == other.settings
        &&& self.wrap_column == other.wrap_column
    }

    /// The cached wrap points of each line.
    pub closed spec fn wraps_view(&self) -> Seq<Seq<usize>> {
        Seq::new(self.wraps@.len(), |i: int| self.wraps@[i]@)
    }

    /// The fold column of each line: the column from which the line is drawn
    /// folded. No line is folded yet, so each is 0.
    pub closed spec fn fold_columns_view(&self) -> Seq<usize> {
        self.fold_column@
    }

    /// The cached indentation of each line's continuation rows.
    pub closed spec fn indents_view(&self) -> Seq<usize> {
        self.wrap_indent_column@
    }

    /// What a laid-out session holds: each line's layout as `line_layout` gives
    /// it, and the top of each line (and the bottom) as `y_at` gives it.
    pub proof fn lemma_laid_out(&self, document: &Document)
        requires
            self.laid_out(document),
        ensures
            ({
                let n = document.text_view().len();
                &&& self.wraps_view().len() == n
                &&& self.indents_view().len() == n
                &&& self.fold_columns_view() == Seq::new(n, |i: int| 0usize)
                &&& self.column_counts_view().len() == n
                &&& forall|i: int| 0 <= i < n ==> (#[trigger] self.wraps_view()[i], self.indents_view()[i], self.column_counts_view()[i])
                    == line_layout(document.text_view()[i], document.tokens_view()[i], document.inlays_view()[i],
                        self.wrap_column_view(), self.settings_view().tab_column_count)
                &&& self.y_view().len() == n + 1
                &&& forall|k: int| 0 <= k <= n ==> #[trigger] self.y_view()[k]
                    == y_at(Seq::new(n, |i: int| line_height(self.wraps_view()[i])), document.block_inlays_view(), k)
            }),
    {
        let n = document.text_view().len();
        assert(Seq::new(n, |i: int| line_height(self.wraps_view()[i])) =~= heights_of(self.wraps@));
        assert forall|i: int| 0 <= i < n implies (#[trigger] self.wraps_view()[i], self.indents_view()[i], self.column_counts_view()[i])
            == line_layout(document.text_view()[i], document.tokens_view()[i], document.inlays_view()[i],
                self.wrap_column_view(), self.settings_view().tab_column_count) by {
            assert(self.wraps_view()[i] == self.wraps@[i]@);
        }
    }

    pub closed spec fn y_view(&self) -> Seq<usize> {
        self.y@
    }

    pub closed spec fn column_counts_view(&self) -> Seq<usize> {
        self.column_count@
    }

    /// The total height of the block widgets that stand before line `k`.
    fn widgets_at(document: &Document, k: usize) -> (r: usize)
        ensures
            r == widgets_at(document.block_inlays_view(), k as int),
    {
        let blocks = document.block_inlays();
        let mut sum: usize = 0;
        let mut i: usize = 0;
        proof {
            assert(blocks@.subrange(0, 0) =~= Seq::<(usize, BlockInlay)>::empty());
        }
        while i < blocks.len()
            invariant
                i <= blocks@.len(),
                blocks@ == document.block_inlays_view(),
                sum == widgets_at(blocks@.subrange(0, i as int), k as int),
            decreases blocks@.len() - i,
        {
            let ghost pre = blocks@.subrange(0, i + 1);
            assert(pre.drop_last() =~= blocks@.subrange(0, i as int));
            assert(pre.last() == blocks@[i as int]);
            let (line, b) = &blocks[i];
            if *line == k {
                match b {
                    BlockInlay::Widget(w) => {
                        sum = if sum > usize::MAX - w.height { usize::MAX } else { sum + w.height };
                    },
                }
            }
            i = i + 1;
        }
        assert(blocks@.subrange(0, i as int) =~= blocks@);
        sum
    }

    /// Extends the table of vertical positions from the first missing line to the bottom.
    fn update_y(&mut self, document: &Document)
        requires
            old(self).y_prefix_ok(document),
        ensures
            final(self).y_prefix_ok(document),
            final(self).y@.len() == final(self).wraps@.len() + 1,
            final(self).wraps == old(self).wraps,
            final(self).wrap_indent_column == old(self).wrap_indent_column,
            final(self).column_count == old(self).column_count,
            final(self).selections == old(self).selections,
            final(self).pending_selection_index == old(self).pending_selection_index,
            final(self).id == old(self).id,
            final(self).settings == old(self).settings,
            final(self).wrap_column == old(self).wrap_column,
    {
        let ghost hs = heights_of(self.wraps@);
        let ghost bs = document.block_inlays_view();
        let end = self.wraps.len();
        if self.y.len() == 0 {
            let top = Self::widgets_at(document, 0);
            self.y.push(top);
        }
        while self.y.len() <= end
            invariant
                1 <= self.y@.len() <= end + 1,
                end == self.wraps@.len(),
                hs == heights_of(self.wraps@),
                bs == document.block_inlays_view(),
                forall|k: int| 0 <= k < self.y@.len() ==> #[trigger] self.y@[k] == y_at(hs, bs, k),
                self.wraps == old(self).wraps,
                self.wrap_indent_column == old(self).wrap_indent_column,
                self.column_count == old(self).column_count,
                self.selections == old(self).selections,
                self.pending_selection_index == old(self).pending_selection_index,
                self.id == old(self).id,
                self.settings == old(self).settings,
                self.wrap_column == old(self).wrap_column,
            decreases end + 1 - self.y@.len(),
        {
            let k = self.y.len();
            let prev = self.y[k - 1];
            let rows = self.wraps[k - 1].len();
            let h = if rows == usize::MAX { usize::MAX } else { rows + 1 };
            assert(h == hs[k - 1]);
            let a = if prev > usize::MAX - h { usize::MAX } else { prev + h };
            let w = Self::widgets_at(document, k);
            let top = if a > usize::MAX - w { usize::MAX } else { a + w };
            self.y.push(top);
        }
    }

    /// Recomputes the wrap points, indentation and width of line `index`, and
    /// drops the vertical positions below it.
    fn update_wraps(&mut self, document: &Document, index: usize)
        requires
            document.wf(),
            index < old(self).wraps@.len(),
            index < document.text_view().len(),
            old(self).wrap_indent_column@.len() == old(self).wraps@.len(),
            old(self).column_count@.len() == old(self).wraps@.len(),
            old(self).y_prefix_ok(document),
        ensures
            final(self).wraps@.len() == old(self).wraps@.len(),
            final(self).wrap_indent_column@.len() == old(self).wraps@.len(),
            final(self).column_count@.len() == old(self).wraps@.len(),
            (final(self).wraps@[index as int]@, final(self).wrap_indent_column@[index as int], final(self).column_count@[index as int])
                == line_layout(document.text_view()[index as int], document.tokens_view()[index as int],
                    document.inlays_view()[index as int], final(self).wrap_column, final(self).settings.tab_column_count),
            forall|i: int| 0 <= i < old(self).wraps@.len() && i != index ==> #[trigger] final(self).wraps@[i] == old(self).wraps@[i]
                && final(self).wrap_indent_column@[i] == old(self).wrap_indent_column@[i]
                && final(self).column_count@[i] == old(self).column_count@[i],
            final(self).y_prefix_ok(document),
            final(self).y@.len() <= old(self).y@.len(),
            final(self).selections == old(self).selections,
            final(self).pending_selection_index == old(self).pending_selection_index,
            final(self).id == old(self).id,
            final(self).settings == old(self).settings,
            final(self).wrap_column == old(self).wrap_column,
    {
        let text = document.text();
        let tokens = document.tokens();
        let inlays = document.inline_inlays();
        assert(tokens@[index as int]@ == document.tokens_view()[index as int]);
        assert(total_len(document.tokens_view()[index as int]) == document.text_view()[index as int].len());
        assert(inlays@[index as int]@ == document.inlays_view()[index as int]);
        let (wraps, indent, count) = layout_line(text.line(index), &tokens[index], &inlays[index], self.wrap_column, self.settings.tab_column_count);
        let ghost old_wraps = self.wraps@;
        // The vector's length fits in `usize`, and so does `index + 1`.
        let _ = self.wraps.len();
        self.wraps.set(index, wraps);
        self.wrap_indent_column.set(index, indent);
        self.column_count.set(index, count);
        self.y.truncate(index + 1);
        proof {
            let hs0 = heights_of(old_wraps);
            let hs1 = heights_of(self.wraps@);
            let bs = document.block_inlays_view();
            assert forall|k: int| 0 <= k < self.y@.len() implies #[trigger] self.y@[k] == y_at(hs1, bs, k) by {
                lemma_y_prefix_same(hs0, hs1, bs, k, index as int);
            }
        }
    }

    /// Lays out every line of `document` afresh.
    fn relayout(&mut self, document: &Document)
        requires
            document.wf(),
        ensures
            final(self).laid_out(document),
            sorted_usize(final(self).y@),
            final(self).selections == old(self).selections,
            final(self).pending_selection_index == old(self).pending_selection_index,
            final(self).id == old(self).id,
            final(self).settings == old(self).settings,
            final(self).wrap_column == old(self).wrap_column,
    {
        let count = document.text().line_count();
        self.wraps = Vec::new();
        self.wrap_indent_column = Vec::new();
        self.column_count = Vec::new();
        self.y = Vec::new();
        let mut i: usize = 0;
        while i < count
            invariant
                i <= count,
                count == document.text_view().len(),
                document.wf(),
                self.wraps@.len() == i,
                self.wrap_indent_column@.len() == i,
                self.column_count@.len() == i,
                self.y@.len() == 0,
                forall|j: int| 0 <= j < i ==> (#[trigger] self.wraps@[j]@, self.wrap_indent_column@[j], self.column_count@[j])
                    == line_layout(document.text_view()[j], document.tokens_view()[j], document.inlays_view()[j],
                        self.wrap_column, self.settings.tab_column_count),
                self.selections == old(self).selections,
                self.pending_selection_index == old(self).pending_selection_index,
                self.id == old(self).id,
                self.settings == old(self).settings,
                self.wrap_column == old(self).wrap_column,
            decreases count - i,
        {
            self.wraps.push(Vec::new());
            self.wrap_indent_column.push(0);
            self.column_count.push(0);
            self.update_wraps(document, i);
            i = i + 1;
        }
        self.update_y(document);
        let mut folds: Vec<usize> = Vec::new();
        let mut k: usize = 0;
        while k < count
            invariant
                k <= count,
                folds@ == Seq::new(k as nat, |i: int| 0usize),
            decreases count - k,
        {
            folds.push(0);
            k = k + 1;
            assert(folds@ =~= Seq::new(k as nat, |i: int| 0usize));
        }
        self.fold_column = folds;
        proof {
            let hs = heights_of(self.wraps@);
            let bs = document.block_inlays_view();
            assert forall|a: int, b: int| 0 <= a <= b < self.y@.len() implies self.y@[a] <= self.y@[b] by {
                lemma_y_monotone(hs, bs, a, b);
            }
        }
    }

    /// Sets the column at which lines wrap (none: they do not), and lays every
    /// line out again if it changed.
    pub fn set_wrap_column(&mut self, document: &Document, wrap_column: Option<usize>)
        requires
            old(self).wf(),
            document.wf(),
        ensures
            final(self).wf(),
            final(self).wrap_column_view() == wrap_column,
            wrap_column != old(self).wrap_column_view() || old(self).laid_out(document) ==> final(self).laid_out(document),
            wrap_column == old(self).wrap_column_view() ==> final(self).same_layout(old(self)),
            final(self).settings_view() == old(self).settings_view(),
            final(self).selections_view() == old(self).selections_view(),
            final(self).pending() == old(self).pending(),
            final(self).id_view() == old(self).id_view(),
    {
        if self.wrap_column == wrap_column {
            return;
        }
        self.wrap_column = wrap_column;
        self.relayout(document);
    }

    /// The width of the widest row of any line, in columns.
    pub fn width(&self) -> (r: usize)
        ensures
            r == seq_max(self.column_counts_view()),
    {
        let mut m: usize = 0;
        let mut i: usize = 0;
        proof {
            assert(self.column_count@.subrange(0, 0) =~= Seq::<usize>::empty());
        }
        while i < self.column_count.len()
            invariant
                i <= self.column_count@.len(),
                m == seq_max(self.column_count@.subrange(0, i as int)),
            decreases self.column_count@.len() - i,
        {
            let ghost pre = self.column_count@.subrange(0, i + 1);
            assert(pre.drop_last() =~= self.column_count@.subrange(0, i as int));
            if self.column_count[i] > m {
                m = self.column_count[i];
            }
            i = i + 1;
        }
        assert(self.column_count@.subrange(0, i as int) =~= self.column_count@);
        m
    }

    /// The height of everything laid out: the bottom of the last line and of
    /// the block widgets after it, in rows.
    pub fn height(&self) -> (r: usize)
        requires
            self.wf(),
            self.y_view().len() > 0,
        ensures
            r == self.y_view().last(),
    {
        self.y[self.y.len() - 1]
    }

    /// How many of the vertical positions are at or above `y`.
    fn count_at_or_above(&self, y: usize) -> (r: usize)
        requires
            sorted_usize(self.y@),
        ensures
            r <= self.y@.len(),
            forall|i: int| 0 <= i < r ==> #[trigger] self.y@[i] <= y,
            forall|i: int| r <= i < self.y@.len() ==> #[trigger] self.y@[i] > y,
    {
        let mut lo: usize = 0;
        let mut hi: usize = self.y.len();
        while lo < hi
            invariant
                lo <= hi <= self.y@.len(),
                sorted_usize(self.y@),
                forall|i: int| 0 <= i < lo ==> #[trigger] self.y@[i] <= y,
                forall|i: int| hi <= i < self.y@.len() ==> #[trigger] self.y@[i] > y,
            decreases hi - lo,
        {
            let mid = lo + (hi - lo) / 2;
            if self.y[mid] <= y {
                lo = mid + 1;
            } else {
                hi = mid;
            }
        }
        lo
    }

    /// The line that holds vertical position `y`: the last whose top is at or above it.
    pub fn find_first_line_ending_after_y(&self, y: usize) -> (r: usize)
        requires
            self.wf(),
        ensures
            ({
                let c = count_le(self.y_view(), y);
                r == if c == 0 { 0 } else { c - 1 }
            }),
    {
        let c = self.count_at_or_above(y);
        proof {
            lemma_count_le(self.y@, y, c as int);
        }
        if c == 0 { 0 } else { c - 1 }
    }

    /// The first line whose top is below vertical position `y`.
    pub fn find_first_line_starting_after_y(&self, y: usize) -> (r: usize)
        requires
            self.wf(),
        ensures
            r == count_le(self.y_view(), y),
    {
        let c = self.count_at_or_above(y);
        proof {
            lemma_count_le(self.y@, y, c as int);
        }
        c
    }

    /// `l` is line `index` of `document` as this session lays it out: the line's
    /// text, tokens and inlays, its wraps, indentation, width and height, its
    /// fold column, and its top.
    pub open spec fn line_is<'a>(&self, document: &Document, index: int, l: Line<'a>) -> bool {
        &&& l.index == index
        &&& l.text@ == document.text_view()[index]
        &&& l.tokens@ == document.tokens_view()[index]
        &&& l.inline_inlays@ == document.inlays_view()[index]
        &&& (l.wraps@, l.wrap_indent_column, l.column_count) == line_layout(document.text_view()[index],
            document.tokens_view()[index], document.inlays_view()[index],
            self.wrap_column_view(), self.settings_view().tab_column_count)
        &&& l.height == line_height(l.wraps@)
        &&& l.fold_column == 0
        &&& l.y == Some(self.y_view()[index])
    }

    /// Each line among the blocks is laid out as `line` gives it, and none is an inlay.
    pub open spec fn block_lines_are<'a>(&self, document: &Document, r: Seq<Block<'a>>) -> bool {
        forall|k: int| 0 <= k < r.len() ==> (#[trigger] r[k] matches Block::Line { is_inlay, line }
            ==> !is_inlay && self.line_is(document, line.index as int, line))
    }

    /// Line `index`, as laid out.
    pub fn line<'a>(&'a self, document: &'a Document, index: usize) -> (r: Line<'a>)
        requires
            self.laid_out(document),
            document.wf(),
            index < document.text_view().len(),
        ensures
            self.line_is(document, index as int, r),
    {
        let tokens = document.tokens();
        let inlays = document.inline_inlays();
        assert(tokens@[index as int]@ == document.tokens_view()[index as int]);
        assert(inlays@[index as int]@ == document.inlays_view()[index as int]);
        let rows = self.wraps[index].len();
        Line {
            index,
            y: Some(self.y[index]),
            column_count: self.column_count[index],
            height: if rows == usize::MAX { usize::MAX } else { rows + 1 },
            text: document.text().line(index),
            tokens: tokens[index].as_slice(),
            inline_inlays: inlays[index].as_slice(),
            wraps: self.wraps[index].as_slice(),
            wrap_indent_column: self.wrap_indent_column[index],
            fold_column: self.fold_column[index],
        }
    }

    /// Lines `start` to `end`, exclusive, as laid out.
    pub fn lines<'a>(&'a self, document: &'a Document, start: usize, end: usize) -> (r: Vec<Line<'a>>)
        requires
            self.laid_out(document),
            document.wf(),
            start <= end <= document.text_view().len(),
        ensures
            r@.len() == end - start,
            forall|k: int| 0 <= k < r@.len() ==> self.line_is(document, start + k, #[trigger] r@[k]),
    {
        let mut r: Vec<Line<'a>> = Vec::new();
        let mut i: usize = start;
        while i < end
            invariant
                start <= i <= end <= document.text_view().len(),
                self.laid_out(document),
                document.wf(),
                r@.len() == i - start,
                forall|k: int| 0 <= k < r@.len() ==> self.line_is(document, start + k, #[trigger] r@[k]),
            decreases end - i,
        {
            r.push(self.line(document, i));
            i = i + 1;
        }
        r
    }

    /// The blocks from line `start` up to line `end`: lines, and the block widgets between them.
    pub fn blocks<'a>(&'a self, document: &'a Document, start: usize, end: usize) -> (r: Vec<Block<'a>>)
        requires
            self.laid_out(document),
            document.wf(),
            start <= end <= document.text_view().len(),
        ensures
            block_models(r@) == blocks_between(document.block_inlays_view(), start as int, end as int),
            self.block_lines_are(document, r@),
    {
        let mut r: Vec<Block<'a>> = Vec::new();
        let mut p: usize = start;
        let ghost bs = document.block_inlays_view();
        proof {
            assert(block_models(r@) + blocks_between(bs, start as int, end as int) =~= blocks_between(bs, start as int, end as int));
        }
        while p < end
            invariant
                start <= p <= end <= document.text_view().len(),
                self.laid_out(document),
                document.wf(),
                bs == document.block_inlays_view(),
                block_models(r@) + blocks_between(bs, p as int, end as int) == blocks_between(bs, start as int, end as int),
                self.block_lines_are(document, r@),
            decreases end - p,
        {
            let ghost before = block_models(r@);
            let ghost r1 = r@;
            Self::push_widgets(document, p, &mut r);
            assert(self.block_lines_are(document, r@)) by {
                assert forall|k: int| 0 <= k < r@.len() implies (#[trigger] r@[k] matches Block::Line { is_inlay, line }
                    ==> !is_inlay && self.line_is(document, line.index as int, line)) by {
                    if k < r1.len() {
                        assert(r@[k] == r1[k]);
                    }
                }
            }
            let line = self.line(document, p);
            let ghost mid = r@;
            r.push(Block::Line { is_inlay: false, line });
            assert(self.block_lines_are(document, r@)) by {
                assert forall|k: int| 0 <= k < r@.len() implies (#[trigger] r@[k] matches Block::Line { is_inlay, line }
                    ==> !is_inlay && self.line_is(document, line.index as int, line)) by {
                    if k < mid.len() {
                        assert(r@[k] == mid[k]);
                    }
                }
            }
            assert(block_models(r@) =~= block_models(mid).push(BlockModel::Line(p)));
            p = p + 1;
            assert(block_models(r@) + blocks_between(bs, p as int, end as int)
                =~= before + blocks_between(bs, (p - 1) as int, end as int));
        }
        let ghost before = block_models(r@);
        let ghost r1 = r@;
        Self::push_widgets(document, end, &mut r);
        assert(block_models(r@) =~= before + blocks_between(bs, end as int, end as int));
        assert(self.block_lines_are(document, r@)) by {
            assert forall|k: int| 0 <= k < r@.len() implies (#[trigger] r@[k] matches Block::Line { is_inlay, line }
                ==> !is_inlay && self.line_is(document, line.index as int, line)) by {
                if k < r1.len() {
                    assert(r@[k] == r1[k]);
                }
            }
        }
        r
    }

    /// Appends the block widgets that stand before line `p`.
    fn push_widgets<'a>(document: &'a Document, p: usize, r: &mut Vec<Block<'a>>)
        ensures
            block_models(final(r)@) == block_models(old(r)@) + widgets_before(document.block_inlays_view(), p as int),
            final(r)@.len() >= old(r)@.len(),
            forall|k: int| 0 <= k < old(r)@.len() ==> #[trigger] final(r)@[k] == old(r)@[k],
            forall|k: int| old(r)@.len() <= k < final(r)@.len() ==> #[trigger] final(r)@[k] is Widget,
    {
        let blocks = document.block_inlays();
        let ghost start = block_models(r@);
        let ghost r0 = r@;
        let mut i: usize = 0;
        proof {
            assert(blocks@.subrange(0, 0) =~= Seq::<(usize, BlockInlay)>::empty());
            assert(block_models(r@) =~= start + widgets_before(blocks@.subrange(0, 0), p as int));
        }
        while i < blocks.len()
            invariant
                i <= blocks@.len(),
                blocks@ == document.block_inlays_view(),
                block_models(r@) == start + widgets_before(blocks@.subrange(0, i as int), p as int),
                r0 == old(r)@,
                r@.len() >= r0.len(),
                forall|k: int| 0 <= k < r0.len() ==> #[trigger] r@[k] == r0[k],
                forall|k: int| r0.len() <= k < r@.len() ==> #[trigger] r@[k] is Widget,
            decreases blocks@.len() - i,
        {
            let ghost pre = blocks@.subrange(0, i + 1);
            assert(pre.drop_last() =~= blocks@.subrange(0, i as int));
            assert(pre.last() == blocks@[i as int]);
            let ghost before = r@;
            if blocks[i].0 == p {
                match blocks[i].1 {
                    BlockInlay::Widget(w) => {
                        r.push(Block::Widget(w));
                        assert(block_models(r@) =~= block_models(before).push(BlockModel::Widget(w)));
                    },
                }
            }
            i = i + 1;
        }
        assert(blocks@.subrange(0, i as int) =~= blocks@);
    }
}

} // verus!
