use vstd::prelude::*;
use crate::point::{Point, Range, point_le, point_lt, point_max, add_length, sub_points, add_length_fits};
use crate::text::{Text, lines_wf, valid_point, valid_range, insert_lines, delete_lines, extent_of};
use crate::change::{Change, ChangeKind, ChangeModel, Drift, apply_change_lines, apply_changes_lines, change_applies};
use crate::selection::{Selection, sel_start, sel_end};
use crate::document::{Document, SessionId, change_models, tokens_after_changes, inlays_after_changes};
use crate::token::Token;
use crate::inlays::InlineInlay;
use crate::flat::{flat, offset, inserted_bytes, substituted, range_offsets, lemma_flat_insert, lemma_flat_delete, lemma_flat_suffix, lemma_offset_advance, lemma_offset_after_insert, lemma_offset_prefix_kept, lemma_offsets_ordered};

verus! {

/// What an edit puts at one range, as its policy returned it: text to insert
/// before the caret, and text to insert after it (the caret ends up between).
pub type FragmentsModel = (Option<Seq<Seq<u8>>>, Option<Seq<Seq<u8>>>);

pub open spec fn text_opt_view(t: Option<Text>) -> Option<Seq<Seq<u8>>> {
    match t {
        Some(t) => Some(t.view()),
        None => None,
    }
}

pub open spec fn fragments_view(r: (Option<Text>, Option<Text>)) -> FragmentsModel {
    (text_opt_view(r.0), text_opt_view(r.1))
}

/// Both fragments, where present, are well-formed texts.
pub open spec fn fragments_wf(r: (Option<Text>, Option<Text>)) -> bool {
    &&& (r.0 matches Some(t) ==> t.wf())
    &&& (r.1 matches Some(t) ==> t.wf())
}

/// The policy may be called on any text and position, and returns well-formed fragments.
pub open spec fn policy_ok<F: Fn(&Text, Point) -> (Option<Text>, Option<Text>)>(f: F) -> bool {
    &&& forall|t: &Text, p: Point| #[trigger] call_requires(f, (t, p))
    &&& forall|t: &Text, p: Point, r: (Option<Text>, Option<Text>)| #[trigger] call_ensures(f, (t, p), r) ==> fragments_wf(r)
}

/// `v` is what the policy returned for some text and position.
pub open spec fn returned_by<F: Fn(&Text, Point) -> (Option<Text>, Option<Text>)>(f: F, v: FragmentsModel) -> bool {
    exists|t: &Text, p: Point, r: (Option<Text>, Option<Text>)| #[trigger] call_ensures(f, (t, p), r) && fragments_view(r) == v
}

/// The policy, called with a text whose lines are `text` and position `p`,
/// returned `v`.
pub open spec fn called_at<F: Fn(&Text, Point) -> (Option<Text>, Option<Text>)>(f: F, text: Seq<Seq<u8>>, p: Point, v: FragmentsModel) -> bool {
    exists|t: &Text, r: (Option<Text>, Option<Text>)| #[trigger] call_ensures(f, (t, p), r) && t.view() == text && fragments_view(r) == v
}

/// For each of the first `n` ranges, the policy was called with the text the
/// edit had reached after deleting that range's text, and with that range's
/// write position, and returned that range's fragments.
pub open spec fn calls_ok<F: Fn(&Text, Point) -> (Option<Text>, Option<Text>)>(
    f: F, text: Seq<Seq<u8>>, rs: Seq<Range>, fs: Seq<FragmentsModel>, n: int,
) -> bool {
    forall|k: int| 0 <= k < n ==> #[trigger] called_at(f,
        apply_changes_lines(text, changes_before_call(rs, fs, Point { line: 0, byte: 0 }, Point { line: 0, byte: 0 }, k)),
        call_point(rs, fs, Point { line: 0, byte: 0 }, Point { line: 0, byte: 0 }, k), fs[k])
}

/// The same fragments for each of `n` ranges.
pub open spec fn same_fragments(n: nat, fr: FragmentsModel) -> Seq<FragmentsModel> {
    Seq::new(n, |i: int| fr)
}

/// What an edit of `selections` with policy `f` did, taking the document from
/// `before` to `after` and the recorded changes from `old_cs` to `new_cs`, the
/// policy having returned `fs`, one pair for each merged range: the changes it
/// emitted, replayed on the text, give the new text, tokens, inlays and queues;
/// and the new text's bytes are the old ones with each merged range replaced by
/// the bytes of its fragments. Each range's fragments are what the policy
/// returned when called with the text after that range's deletion and with the
/// range's write position.
pub open spec fn edit_outcome<F: Fn(&Text, Point) -> (Option<Text>, Option<Text>)>(
    f: F,
    before: Document,
    after: Document,
    selections: Seq<Selection>,
    old_cs: Seq<ChangeModel>,
    new_cs: Seq<ChangeModel>,
    fs: Seq<FragmentsModel>,
) -> bool {
    let rs = merged_ranges(selections);
    let cs = edit_changes(rs, fs, Point { line: 0, byte: 0 }, Point { line: 0, byte: 0 });
    &&& fs.len() == rs.len()
    &&& forall|i: int| 0 <= i < fs.len() ==> returned_by(f, #[trigger] fs[i])
    &&& calls_ok(f, before.text_view(), rs, fs, fs.len() as int)
    &&& new_cs == old_cs + cs
    &&& after.text_view() == apply_changes_lines(before.text_view(), cs)
    &&& after.queues_view() == queues_after_all(before.queues_view(), cs)
    &&& after.tokens_view() == tokens_after_changes(before.tokens_view(), cs)
    &&& after.inlays_view() == inlays_after_changes(before.inlays_view(), cs)
    &&& flat(after.text_view()) == substituted(flat(before.text_view()), range_offsets(before.text_view(), rs), inserted_all(fs), 0)
}

/// The bytes each range of an edit receives.
pub open spec fn inserted_all(fs: Seq<FragmentsModel>) -> Seq<Seq<u8>> {
    Seq::new(fs.len(), |i: int| inserted_bytes(fs[i].0, fs[i].1))
}

/// The bytes left after one range of an edit: the bytes before the write
/// position, the untouched bytes up to the range, the inserted bytes, then
/// everything after the range.
proof fn lemma_step_bytes(
    f0: Seq<u8>,
    off0: int,
    a: Seq<u8>,
    ps: int,
    rs: int,
    re: int,
    f1: Seq<u8>,
    o1: int,
    fb: Seq<u8>,
    f2: Seq<u8>,
    o2: int,
    fa: Seq<u8>,
    f3: Seq<u8>,
)
    requires
        0 <= off0 <= f0.len(),
        0 <= ps <= rs <= re <= a.len(),
        off0 + (rs - ps) <= f0.len(),
        f0.subrange(off0, f0.len() as int) == a.subrange(ps, a.len() as int),
        f1 == f0.subrange(0, off0 + (rs - ps)) + a.subrange(re, a.len() as int),
        o1 == off0 + (rs - ps),
        f2 == f1.subrange(0, o1) + fb + f1.subrange(o1, f1.len() as int),
        o2 == o1 + fb.len(),
        f3 == f2.subrange(0, o2) + fa + f2.subrange(o2, f2.len() as int),
    ensures
        f3 == f0.subrange(0, off0) + a.subrange(ps, rs) + (fb + fa) + a.subrange(re, a.len() as int),
{
    let g = rs - ps;
    assert(f0.subrange(off0, off0 + g) =~= a.subrange(ps, rs)) by {
        assert(f0.subrange(off0, f0.len() as int).subrange(0, g) =~= f0.subrange(off0, off0 + g));
        assert(a.subrange(ps, a.len() as int).subrange(0, g) =~= a.subrange(ps, rs));
    }
    let head = f0.subrange(0, off0) + a.subrange(ps, rs);
    assert(f0.subrange(0, off0 + g) =~= head);
    assert(f1 =~= head + a.subrange(re, a.len() as int));
    assert(f2 =~= head + fb + a.subrange(re, a.len() as int));
    assert(f3 =~= head + (fb + fa) + a.subrange(re, a.len() as int));
}

/// Sorted by start.
pub open spec fn sorted_by_start(s: Seq<Selection>) -> bool {
    forall|i: int, j: int| 0 <= i < j < s.len() ==> point_le(sel_start(#[trigger] s[i]), sel_start(#[trigger] s[j]))
}

/// The ranges of `s`, with each selection that overlaps or touches the range
/// before it merged into that range.
pub open spec fn merged_ranges(s: Seq<Selection>) -> Seq<Range>
    decreases s.len(),
{
    if s.len() == 0 {
        seq![]
    } else {
        let rs = merged_ranges(s.drop_last());
        let last = s.last();
        if rs.len() > 0 && point_le(sel_start(last), rs.last().end) {
            rs.update(rs.len() - 1, Range { start: rs.last().start, end: point_max(rs.last().end, sel_end(last)) })
        } else {
            rs.push(Range { start: sel_start(last), end: sel_end(last) })
        }
    }
}

/// Each range is valid in `ls`, and each ends strictly before the next starts.
pub open spec fn ranges_apart(rs: Seq<Range>, ls: Seq<Seq<u8>>) -> bool {
    &&& forall|i: int| 0 <= i < rs.len() ==> valid_range(ls, #[trigger] rs[i])
    &&& forall|i: int| 0 <= i < rs.len() - 1 ==> point_lt((#[trigger] rs[i]).end, rs[i + 1].start)
}

pub open spec fn selections_valid(s: Seq<Selection>, ls: Seq<Seq<u8>>) -> bool {
    forall|i: int| 0 <= i < s.len() ==> valid_point(ls, (#[trigger] s[i]).anchor) && valid_point(ls, s[i].cursor)
}

/// Merging sorted valid selections gives valid ranges, each strictly before the next,
/// none starting before the first selection.
pub proof fn lemma_merged_ranges(s: Seq<Selection>, ls: Seq<Seq<u8>>)
    requires
        sorted_by_start(s),
        selections_valid(s, ls),
    ensures
        ranges_apart(merged_ranges(s), ls),
        merged_ranges(s).len() <= s.len(),
        s.len() > 0 ==> merged_ranges(s).len() > 0 && point_le(merged_ranges(s).last().start, sel_start(s.last())),
    decreases s.len(),
{
    if s.len() > 0 {
        let init = s.drop_last();
        assert(sorted_by_start(init));
        assert(selections_valid(init, ls)) by {
            assert forall|i: int| 0 <= i < init.len() implies valid_point(ls, (#[trigger] init[i]).anchor) && valid_point(ls, init[i].cursor) by {
                assert(init[i] == s[i]);
            }
        }
        lemma_merged_ranges(init, ls);
        let last = s.last();
        assert(valid_point(ls, last.anchor) && valid_point(ls, last.cursor)) by {
            assert(s[s.len() - 1] == last);
        }
        if init.len() > 0 {
            assert(point_le(sel_start(init.last()), sel_start(last))) by {
                assert(s[s.len() - 2] == init.last());
                assert(s[s.len() - 1] == last);
            }
        }
    }
}

/// Positions `p` in `c` and `q` in `o` are followed by the same text.
pub open spec fn suffix_eq(c: Seq<Seq<u8>>, p: Point, o: Seq<Seq<u8>>, q: Point) -> bool {
    &&& valid_point(c, p)
    &&& valid_point(o, q)
    &&& c.len() - p.line == o.len() - q.line
    &&& c[p.line as int].subrange(p.byte as int, c[p.line as int].len() as int)
        == o[q.line as int].subrange(q.byte as int, o[q.line as int].len() as int)
    &&& forall|k: int| 0 < k < c.len() - p.line ==> #[trigger] c[p.line + k] == o[q.line + k]
}

/// The position in `c` that corresponds to `q2` lies within `c`.
pub proof fn lemma_suffix_advance_bound(c: Seq<Seq<u8>>, p: Point, o: Seq<Seq<u8>>, q: Point, q2: Point)
    requires
        suffix_eq(c, p, o, q),
        point_le(q, q2),
        valid_point(o, q2),
    ensures
        q2.line == q.line ==> p.byte + (q2.byte - q.byte) <= c[p.line as int].len(),
        q2.line != q.line ==> p.line + (q2.line - q.line) < c.len(),
{
    if q2.line == q.line {
        let cl = c[p.line as int];
        let ol = o[q.line as int];
        assert(cl.subrange(p.byte as int, cl.len() as int).len() == ol.subrange(q.byte as int, ol.len() as int).len());
    }
}

/// Moving forward by the same extent on both sides keeps the correspondence.
pub proof fn lemma_suffix_advance(c: Seq<Seq<u8>>, p: Point, o: Seq<Seq<u8>>, q: Point, q2: Point)
    requires
        suffix_eq(c, p, o, q),
        point_le(q, q2),
        valid_point(o, q2),
        add_length_fits(p, sub_points(q2, q)),
    ensures
        suffix_eq(c, add_length(p, sub_points(q2, q)), o, q2),
{
    let d = sub_points(q2, q);
    let p2 = add_length(p, d);
    lemma_suffix_advance_bound(c, p, o, q, q2);
    if q2.line == q.line {
        let cl = c[p.line as int];
        let ol = o[q.line as int];
        let cs = cl.subrange(p.byte as int, cl.len() as int);
        let os = ol.subrange(q.byte as int, ol.len() as int);
        assert(cs.len() == os.len());
        assert(p2.byte == p.byte + (q2.byte - q.byte));
        assert(cl.subrange(p2.byte as int, cl.len() as int) =~= cs.subrange(q2.byte - q.byte, cs.len() as int));
        assert(ol.subrange(q2.byte as int, ol.len() as int) =~= os.subrange(q2.byte - q.byte, os.len() as int));
    } else {
        let k = q2.line - q.line;
        assert(p2.line == p.line + k);
        assert(c[p.line + k] == o[q.line + k]);
        assert(c[p2.line as int] == o[q2.line as int]);
        assert forall|j: int| 0 < j < c.len() - p2.line implies #[trigger] c[p2.line + j] == o[q2.line + j] by {
            assert(c[p.line + (k + j)] == o[q.line + (k + j)]);
        }
    }
}

/// Removing the text between `p` and `pe` keeps what follows `pe`.
pub proof fn lemma_suffix_delete(c: Seq<Seq<u8>>, p: Point, pe: Point, o: Seq<Seq<u8>>, q: Point)
    requires
        suffix_eq(c, pe, o, q),
        valid_point(c, p),
        point_le(p, pe),
    ensures
        suffix_eq(delete_lines(c, Range { start: p, end: pe }), p, o, q),
{
    let d = delete_lines(c, Range { start: p, end: pe });
    let first = c[p.line as int].subrange(0, p.byte as int);
    let last = c[pe.line as int].subrange(pe.byte as int, c[pe.line as int].len() as int);
    assert(d[p.line as int] == first + last);
    assert((first + last).subrange(p.byte as int, (first + last).len() as int) =~= last);
    assert forall|k: int| 0 < k < d.len() - p.line implies #[trigger] d[p.line + k] == o[q.line + k] by {
        assert(d[p.line + k] == c[pe.line + k]);
    }
}

/// Inserting `t` at `p` puts the text that followed `p` right after the inserted text.
pub proof fn lemma_suffix_insert(c: Seq<Seq<u8>>, p: Point, t: Seq<Seq<u8>>, o: Seq<Seq<u8>>, q: Point)
    requires
        suffix_eq(c, p, o, q),
        lines_wf(t),
        t.len() <= usize::MAX,
        t.last().len() <= usize::MAX,
        add_length_fits(p, extent_of(t)),
    ensures
        suffix_eq(insert_lines(c, p, t), add_length(p, extent_of(t)), o, q),
{
    let n = insert_lines(c, p, t);
    let p2 = add_length(p, extent_of(t));
    let line = c[p.line as int];
    let prefix = line.subrange(0, p.byte as int);
    let suffix = line.subrange(p.byte as int, line.len() as int);
    if t.len() == 1 {
        assert(p2.byte == p.byte + t[0].len());
        assert(n[p.line as int] == prefix + t[0] + suffix);
        assert((prefix + t[0] + suffix).subrange(p2.byte as int, (prefix + t[0] + suffix).len() as int) =~= suffix);
        assert forall|k: int| 0 < k < n.len() - p2.line implies #[trigger] n[p2.line + k] == o[q.line + k] by {
            assert(n[p2.line + k] == c[p.line + k]);
        }
    } else {
        assert(p2.line == p.line + t.len() - 1);
        assert(n[p2.line as int] == t.last() + suffix);
        assert((t.last() + suffix).subrange(p2.byte as int, (t.last() + suffix).len() as int) =~= suffix);
        assert forall|k: int| 0 < k < n.len() - p2.line implies #[trigger] n[p2.line + k] == o[q.line + k] by {
            assert(n[p2.line + k] == c[p.line + k]);
        }
    }
}

/// Merges sorted selections into ranges, each strictly before the next.
pub fn merge_selections(selections: &[Selection]) -> (r: Vec<Range>)
    ensures
        r@ == merged_ranges(selections@),
{
    let mut rs: Vec<Range> = Vec::new();
    let mut i: usize = 0;
    proof {
        assert(selections@.subrange(0, 0) =~= Seq::<Selection>::empty());
    }
    while i < selections.len()
        invariant
            i <= selections@.len(),
            rs@ == merged_ranges(selections@.subrange(0, i as int)),
        decreases selections@.len() - i,
    {
        let ghost pre = selections@.subrange(0, i + 1);
        assert(pre.drop_last() =~= selections@.subrange(0, i as int));
        assert(pre.last() == selections@[i as int]);
        let s = selections[i];
        let start = s.start();
        let end = s.end();
        let n = rs.len();
        if n > 0 && start.le(&rs[n - 1].end) {
            let last = rs.pop().unwrap();
            rs.push(Range { start: last.start, end: last.end.max(end) });
        } else {
            rs.push(Range { start, end });
        }
        i = i + 1;
        assert(rs@ =~= merged_ranges(selections@.subrange(0, i as int)));
    }
    assert(selections@.subrange(0, selections@.len() as int) =~= selections@);
    rs
}

/// Where the write position of an edit lands for range `r`, the write position
/// being `point` and the previous range having ended at `prev_end`.
pub open spec fn step_start(r: Range, point: Point, prev_end: Point) -> Point {
    add_length(point, sub_points(r.start, prev_end))
}

/// The write position after the insertions at a position `p0`.
pub open spec fn step_end(before: Option<Seq<Seq<u8>>>, after: Option<Seq<Seq<u8>>>, p0: Point) -> Point {
    let p1 = match before {
        Some(t) => add_length(p0, extent_of(t)),
        None => p0,
    };
    match after {
        Some(t) => add_length(p1, extent_of(t)),
        None => p1,
    }
}

/// The changes an edit emits for one range whose text starts at `p0` in the
/// edited text: a deletion of its text if it has any, then the insertion before
/// the caret, then the insertion after it.
pub open spec fn step_changes(r: Range, before: Option<Seq<Seq<u8>>>, after: Option<Seq<Seq<u8>>>, p0: Point) -> Seq<ChangeModel> {
    let del = del_step(r, p0);
    let ins_before = match before {
        Some(t) => seq![ChangeModel::Insert(Drift::Before, p0, t)],
        None => Seq::<ChangeModel>::empty(),
    };
    let p1 = match before {
        Some(t) => add_length(p0, extent_of(t)),
        None => p0,
    };
    let ins_after = match after {
        Some(t) => seq![ChangeModel::Insert(Drift::After, p1, t)],
        None => Seq::<ChangeModel>::empty(),
    };
    del + ins_before + ins_after
}

/// The deletion an edit emits for range `r` whose text starts at `p0` in the
/// edited text, if the range has any text.
pub open spec fn del_step(r: Range, p0: Point) -> Seq<ChangeModel> {
    if r.start == r.end {
        Seq::<ChangeModel>::empty()
    } else {
        seq![ChangeModel::Delete(Drift::Before, Range { start: p0, end: add_length(p0, sub_points(r.end, r.start)) })]
    }
}

/// The changes an edit emits before it calls its policy for range `i` of `rs`:
/// those of the ranges before it, then range `i`'s deletion.
pub open spec fn changes_before_call(rs: Seq<Range>, fs: Seq<FragmentsModel>, point: Point, prev_end: Point, i: int) -> Seq<ChangeModel>
    decreases rs.len(),
{
    if rs.len() == 0 {
        seq![]
    } else {
        let p0 = step_start(rs[0], point, prev_end);
        if i <= 0 {
            del_step(rs[0], p0)
        } else {
            step_changes(rs[0], fs[0].0, fs[0].1, p0)
                + changes_before_call(rs.drop_first(), fs.drop_first(), step_end(fs[0].0, fs[0].1, p0), rs[0].end, i - 1)
        }
    }
}

/// The write position at which an edit calls its policy for range `i` of `rs`.
pub open spec fn call_point(rs: Seq<Range>, fs: Seq<FragmentsModel>, point: Point, prev_end: Point, i: int) -> Point
    decreases rs.len(),
{
    if rs.len() == 0 {
        point
    } else {
        let p0 = step_start(rs[0], point, prev_end);
        if i <= 0 {
            p0
        } else {
            call_point(rs.drop_first(), fs.drop_first(), step_end(fs[0].0, fs[0].1, p0), rs[0].end, i - 1)
        }
    }
}

/// The changes that an edit emits for the ranges `rs` with the fragments `fs`,
/// one pair per range, the write position being `point` in the edited text and
/// the previous range having ended at `prev_end` in the text before the edit.
pub open spec fn edit_changes(
    rs: Seq<Range>,
    fs: Seq<FragmentsModel>,
    point: Point,
    prev_end: Point,
) -> Seq<ChangeModel>
    decreases rs.len(),
{
    if rs.len() == 0 {
        seq![]
    } else {
        let p0 = step_start(rs[0], point, prev_end);
        step_changes(rs[0], fs[0].0, fs[0].1, p0)
            + edit_changes(rs.drop_first(), fs.drop_first(), step_end(fs[0].0, fs[0].1, p0), rs[0].end)
    }
}

/// Every queue with the changes `cs` added at its back, in order.
pub open spec fn queues_after_all(qs: Seq<(SessionId, Seq<ChangeModel>)>, cs: Seq<ChangeModel>) -> Seq<(SessionId, Seq<ChangeModel>)> {
    Seq::new(qs.len(), |i: int| (qs[i].0, qs[i].1 + cs))
}

impl Document {
    /// Applies one change of an edit and records it.
    fn apply_recorded(
        &mut self,
        c: Change,
        changes: &mut Vec<Change>,
        Ghost(o): Ghost<Seq<Seq<u8>>>,
        Ghost(qs): Ghost<Seq<(SessionId, Seq<ChangeModel>)>>,
        Ghost(ot): Ghost<Seq<Seq<Token>>>,
        Ghost(oi): Ghost<Seq<Seq<(usize, InlineInlay)>>>,
        Ghost(prev): Ghost<Seq<ChangeModel>>,
        Ghost(emitted): Ghost<Seq<ChangeModel>>,
    )
        requires
            old(self).wf(),
            c.wf(),
            change_applies(old(self).text_view(), c.view()),
            old(self).text_view() == apply_changes_lines(o, emitted),
            old(self).queues_view() == queues_after_all(qs, emitted),
            old(self).tokens_view() == tokens_after_changes(ot, emitted),
            old(self).inlays_view() == inlays_after_changes(oi, emitted),
            change_models(old(changes)@) == prev + emitted,
        ensures
            final(self).wf(),
            final(self).text_view() == apply_change_lines(old(self).text_view(), c.view()),
            final(self).text_view() == apply_changes_lines(o, emitted.push(c.view())),
            final(self).queues_view() == queues_after_all(qs, emitted.push(c.view())),
            final(self).tokens_view() == tokens_after_changes(ot, emitted.push(c.view())),
            final(self).inlays_view() == inlays_after_changes(oi, emitted.push(c.view())),
            change_models(final(changes)@) == prev + emitted.push(c.view()),
            final(self).next_id() == old(self).next_id(),
            final(self).block_inlays_view() == old(self).block_inlays_view(),
    {
        self.apply_change(&c);
        let ghost before = changes@;
        changes.push(c);
        proof {
            let e2 = emitted.push(c.view());
            assert(e2.drop_last() =~= emitted);
            assert(change_models(changes@) =~= change_models(before).push(c.view()));
            assert(prev + e2 =~= (prev + emitted).push(c.view()));
            assert(self.queues_view() =~= queues_after_all(qs, e2));
        }
    }

    /// Inserts `t` at `p` as one recorded change, and returns the position after it.
    fn insert_recorded(
        &mut self,
        t: &Text,
        p: Point,
        drift: Drift,
        changes: &mut Vec<Change>,
        Ghost(o): Ghost<Seq<Seq<u8>>>,
        Ghost(q): Ghost<Point>,
        Ghost(qs): Ghost<Seq<(SessionId, Seq<ChangeModel>)>>,
        Ghost(ot): Ghost<Seq<Seq<Token>>>,
        Ghost(oi): Ghost<Seq<Seq<(usize, InlineInlay)>>>,
        Ghost(prev): Ghost<Seq<ChangeModel>>,
        Ghost(emitted): Ghost<Seq<ChangeModel>>,
    ) -> (r: Point)
        requires
            old(self).wf(),
            t.wf(),
            suffix_eq(old(self).text_view(), p, o, q),
            old(self).text_view() == apply_changes_lines(o, emitted),
            old(self).queues_view() == queues_after_all(qs, emitted),
            old(self).tokens_view() == tokens_after_changes(ot, emitted),
            old(self).inlays_view() == inlays_after_changes(oi, emitted),
            change_models(old(changes)@) == prev + emitted,
        ensures
            final(self).wf(),
            r == add_length(p, extent_of(t.view())),
            suffix_eq(final(self).text_view(), r, o, q),
            final(self).text_view() == apply_changes_lines(o, emitted.push(ChangeModel::Insert(drift, p, t.view()))),
            final(self).queues_view() == queues_after_all(qs, emitted.push(ChangeModel::Insert(drift, p, t.view()))),
            final(self).tokens_view() == tokens_after_changes(ot, emitted.push(ChangeModel::Insert(drift, p, t.view()))),
            final(self).inlays_view() == inlays_after_changes(oi, emitted.push(ChangeModel::Insert(drift, p, t.view()))),
            change_models(final(changes)@) == prev + emitted.push(ChangeModel::Insert(drift, p, t.view())),
            final(self).next_id() == old(self).next_id(),
            final(self).block_inlays_view() == old(self).block_inlays_view(),
            0 <= offset(old(self).text_view(), p) <= flat(old(self).text_view()).len(),
            flat(final(self).text_view()) == flat(old(self).text_view()).subrange(0, offset(old(self).text_view(), p))
                + flat(t.view()) + flat(old(self).text_view()).subrange(offset(old(self).text_view(), p), flat(old(self).text_view()).len() as int),
            offset(final(self).text_view(), r) == offset(old(self).text_view(), p) + flat(t.view()).len(),
    {
        let ghost cv = self.text_view();
        let c = Change { drift, kind: ChangeKind::Insert(p, t.copy()) };
        self.apply_recorded(c, changes, Ghost(o), Ghost(qs), Ghost(ot), Ghost(oi), Ghost(prev), Ghost(emitted));
        let ext = t.extent();
        // The sizes of the inserted text fit in `usize`, as those of any text do.
        let _ = t.line_len(t.line_count() - 1);
        proof {
            crate::text::lemma_insert_lines_wf(cv, p, t.view());
        }
        // The position reached lies within the text, whose sizes fit in `usize`.
        if ext.line_count == 0 {
            let _ = self.text().line_len(p.line);
        } else {
            let _ = self.text().line_count();
        }
        let r = p.add_length(ext);
        proof {
            lemma_suffix_insert(cv, p, t.view(), o, q);
            lemma_flat_insert(cv, p, t.view());
            lemma_offset_after_insert(cv, p, t.view());
        }
        r
    }

    /// Deletes the text of range `r`, which starts at `p0` in the edited text, as
    /// one recorded change if it has any.
    fn delete_recorded(
        &mut self,
        r: Range,
        p0: Point,
        changes: &mut Vec<Change>,
        Ghost(o): Ghost<Seq<Seq<u8>>>,
        Ghost(qs): Ghost<Seq<(SessionId, Seq<ChangeModel>)>>,
        Ghost(ot): Ghost<Seq<Seq<Token>>>,
        Ghost(oi): Ghost<Seq<Seq<(usize, InlineInlay)>>>,
        Ghost(prev): Ghost<Seq<ChangeModel>>,
        Ghost(emitted): Ghost<Seq<ChangeModel>>,
    ) -> (res: Ghost<Seq<ChangeModel>>)
        requires
            old(self).wf(),
            valid_range(o, r),
            suffix_eq(old(self).text_view(), p0, o, r.start),
            old(self).text_view() == apply_changes_lines(o, emitted),
            old(self).queues_view() == queues_after_all(qs, emitted),
            old(self).tokens_view() == tokens_after_changes(ot, emitted),
            old(self).inlays_view() == inlays_after_changes(oi, emitted),
            change_models(old(changes)@) == prev + emitted,
        ensures
            final(self).wf(),
            res@ == emitted + (if r.start == r.end {
                Seq::<ChangeModel>::empty()
            } else {
                seq![ChangeModel::Delete(Drift::Before, Range { start: p0, end: add_length(p0, sub_points(r.end, r.start)) })]
            }),
            suffix_eq(final(self).text_view(), p0, o, r.end),
            final(self).text_view() == apply_changes_lines(o, res@),
            final(self).queues_view() == queues_after_all(qs, res@),
            final(self).tokens_view() == tokens_after_changes(ot, res@),
            final(self).inlays_view() == inlays_after_changes(oi, res@),
            change_models(final(changes)@) == prev + res@,
            final(self).next_id() == old(self).next_id(),
            final(self).block_inlays_view() == old(self).block_inlays_view(),
            0 <= offset(old(self).text_view(), p0) <= flat(old(self).text_view()).len(),
            flat(final(self).text_view()) == flat(old(self).text_view()).subrange(0, offset(old(self).text_view(), p0))
                + flat(o).subrange(offset(o, r.end), flat(o).len() as int),
            offset(final(self).text_view(), p0) == offset(old(self).text_view(), p0),
    {
        let ghost c0 = self.text_view();
        proof {
            lemma_flat_suffix(c0, p0, o, r.start);
        }
        if r.is_empty() {
            proof {
                let f0 = flat(c0);
                assert(f0 =~= f0.subrange(0, offset(c0, p0)) + f0.subrange(offset(c0, p0), f0.len() as int));
                assert(emitted + Seq::<ChangeModel>::empty() =~= emitted);
            }
            return Ghost(emitted);
        }
        let ext = r.extent();
        proof {
            lemma_suffix_advance_bound(self.text_view(), p0, o, r.start, r.end);
        }
        // The position reached lies within the text, whose sizes fit in `usize`.
        if ext.line_count == 0 {
            let _ = self.text().line_len(p0.line);
        } else {
            let _ = self.text().line_count();
        }
        let deleted = Range::from_start_and_extent(p0, ext);
        let pe = deleted.end;
        proof {
            lemma_suffix_advance(c0, p0, o, r.start, r.end);
            lemma_suffix_delete(c0, p0, pe, o, r.end);
            lemma_flat_suffix(c0, pe, o, r.end);
            lemma_flat_delete(c0, deleted);
            let d = delete_lines(c0, deleted);
            assert(d.subrange(0, p0.line as int) =~= c0.subrange(0, p0.line as int));
            lemma_offset_prefix_kept(c0, d, p0);
        }
        let c = Change { drift: Drift::Before, kind: ChangeKind::Delete(deleted) };
        self.apply_recorded(c, changes, Ghost(o), Ghost(qs), Ghost(ot), Ghost(oi), Ghost(prev), Ghost(emitted));
        proof {
            assert(emitted.push(c.view()) =~= emitted + seq![ChangeModel::Delete(Drift::Before, Range { start: p0, end: add_length(p0, sub_points(r.end, r.start)) })]);
        }
        Ghost(emitted.push(c.view()))
    }

    /// Edits one range: deletes its text, asks the policy for the fragments to
    /// insert given the text and the write position, and inserts them.
    #[verifier::rlimit(100)]
    fn edit_range<F: Fn(&Text, Point) -> (Option<Text>, Option<Text>)>(
        &mut self,
        r: Range,
        point: Point,
        prev_end: Point,
        f: &F,
        changes: &mut Vec<Change>,
        Ghost(o): Ghost<Seq<Seq<u8>>>,
        Ghost(qs): Ghost<Seq<(SessionId, Seq<ChangeModel>)>>,
        Ghost(ot): Ghost<Seq<Seq<Token>>>,
        Ghost(oi): Ghost<Seq<Seq<(usize, InlineInlay)>>>,
        Ghost(prev): Ghost<Seq<ChangeModel>>,
        Ghost(emitted): Ghost<Seq<ChangeModel>>,
    ) -> (res: (Point, Ghost<Seq<ChangeModel>>, Ghost<FragmentsModel>))
        requires
            old(self).wf(),
            policy_ok(*f),
            valid_range(o, r),
            point_le(prev_end, r.start),
            suffix_eq(old(self).text_view(), point, o, prev_end),
            old(self).text_view() == apply_changes_lines(o, emitted),
            old(self).queues_view() == queues_after_all(qs, emitted),
            old(self).tokens_view() == tokens_after_changes(ot, emitted),
            old(self).inlays_view() == inlays_after_changes(oi, emitted),
            change_models(old(changes)@) == prev + emitted,
        ensures
            final(self).wf(),
            returned_by(*f, res.2@),
            called_at(*f, apply_changes_lines(o, emitted + del_step(r, step_start(r, point, prev_end))),
                step_start(r, point, prev_end), res.2@),
            res.0 == step_end(res.2@.0, res.2@.1, step_start(r, point, prev_end)),
            res.1@ == emitted + step_changes(r, res.2@.0, res.2@.1, step_start(r, point, prev_end)),
            suffix_eq(final(self).text_view(), res.0, o, r.end),
            final(self).text_view() == apply_changes_lines(o, res.1@),
            final(self).queues_view() == queues_after_all(qs, res.1@),
            final(self).tokens_view() == tokens_after_changes(ot, res.1@),
            final(self).inlays_view() == inlays_after_changes(oi, res.1@),
            change_models(final(changes)@) == prev + res.1@,
            final(self).next_id() == old(self).next_id(),
            final(self).block_inlays_view() == old(self).block_inlays_view(),
            flat(final(self).text_view()) == flat(old(self).text_view()).subrange(0, offset(old(self).text_view(), point))
                + flat(o).subrange(offset(o, prev_end), offset(o, r.start))
                + inserted_bytes(res.2@.0, res.2@.1)
                + flat(o).subrange(offset(o, r.end), flat(o).len() as int),
            offset(final(self).text_view(), res.0) == offset(old(self).text_view(), point)
                + (offset(o, r.start) - offset(o, prev_end)) + inserted_bytes(res.2@.0, res.2@.1).len(),
    {
        let gap = r.start.sub(prev_end);
        proof {
            lemma_suffix_advance_bound(self.text_view(), point, o, prev_end, r.start);
        }
        // The position reached lies within the text, whose sizes fit in `usize`.
        if gap.line_count == 0 {
            let _ = self.text().line_len(point.line);
        } else {
            let _ = self.text().line_count();
        }
        let p0 = point.add_length(gap);
        let ghost c0 = self.text_view();
        proof {
            lemma_suffix_advance(c0, point, o, prev_end, r.start);
            lemma_flat_suffix(c0, point, o, prev_end);
            lemma_offset_advance(c0, point, o, prev_end, r.start);
            lemma_offsets_ordered(o, prev_end, r.start);
            lemma_offsets_ordered(o, r.start, r.end);
        }
        let Ghost(e1) = self.delete_recorded(r, p0, changes, Ghost(o), Ghost(qs), Ghost(ot), Ghost(oi), Ghost(prev), Ghost(emitted));
        let current = self.text();
        let fragments = f(current, p0);
        let ghost fr = fragments_view(fragments);
        let ghost bv = fr.0;
        let ghost av = fr.1;
        proof {
            assert(call_ensures(*f, (current, p0), fragments));
            assert(fragments_wf(fragments));
            assert(e1 == emitted + del_step(r, p0));
            assert(current.view() == apply_changes_lines(o, e1));
            assert(called_at(*f, apply_changes_lines(o, emitted + del_step(r, p0)), p0, fr));
        }
        let (before, after) = fragments;
        let ghost f1 = flat(self.text_view());
        let ghost o1 = offset(self.text_view(), p0);
        let ghost mut e2 = e1;
        let mut p1 = p0;
        match &before {
            Some(t) => {
                p1 = self.insert_recorded(t, p0, Drift::Before, changes, Ghost(o), Ghost(r.end), Ghost(qs), Ghost(ot), Ghost(oi), Ghost(prev), Ghost(e1));
                proof {
                    e2 = e1.push(ChangeModel::Insert(Drift::Before, p0, t.view()));
                }
            },
            None => {
                proof {
                    assert(f1 =~= f1.subrange(0, o1) + Seq::<u8>::empty() + f1.subrange(o1, f1.len() as int));
                }
            },
        }
        let ghost f2 = flat(self.text_view());
        let ghost o2 = offset(self.text_view(), p1);
        let ghost mut e3 = e2;
        let mut p2 = p1;
        match &after {
            Some(t) => {
                p2 = self.insert_recorded(t, p1, Drift::After, changes, Ghost(o), Ghost(r.end), Ghost(qs), Ghost(ot), Ghost(oi), Ghost(prev), Ghost(e2));
                proof {
                    e3 = e2.push(ChangeModel::Insert(Drift::After, p1, t.view()));
                }
            },
            None => {
                proof {
                    assert(f2 =~= f2.subrange(0, o2) + Seq::<u8>::empty() + f2.subrange(o2, f2.len() as int));
                }
            },
        }
        proof {
            assert(e3 =~= emitted + step_changes(r, bv, av, p0));
            let fb: Seq<u8> = match bv { Some(t) => flat(t), None => seq![] };
            let fa: Seq<u8> = match av { Some(t) => flat(t), None => seq![] };
            lemma_step_bytes(flat(c0), offset(c0, point), flat(o), offset(o, prev_end), offset(o, r.start), offset(o, r.end),
                f1, o1, fb, f2, o2, fa, flat(self.text_view()));
        }
        (p2, Ghost(e3), Ghost(fr))
    }

    /// Turns the selections into changes and applies them one by one: the
    /// selections are merged into ranges, and at each range its text is deleted,
    /// the policy `f` is called with the text and the write position, and the
    /// fragments it returns are inserted before and after the caret. The changes
    /// are appended to `changes`; `fs` below are the fragments `f` returned.
    #[verifier::rlimit(100)]
    pub fn edit<F: Fn(&Text, Point) -> (Option<Text>, Option<Text>)>(&mut self, selections: &[Selection], changes: &mut Vec<Change>, f: F)
        requires
            old(self).wf(),
            policy_ok(f),
            sorted_by_start(selections@),
            selections_valid(selections@, old(self).text_view()),
        ensures
            final(self).wf(),
            final(self).next_id() == old(self).next_id(),
            final(self).block_inlays_view() == old(self).block_inlays_view(),
            exists|fs: Seq<FragmentsModel>| #[trigger] edit_outcome(f, *old(self), *final(self), selections@,
                change_models(old(changes)@), change_models(final(changes)@), fs),
    {
        let ghost o = self.text_view();
        let ghost qs = self.queues_view();
        let ghost ot = self.tokens_view();
        let ghost oi = self.inlays_view();
        let ghost prev = change_models(changes@);
        let ghost z = Point { line: 0, byte: 0 };
        let rs = merge_selections(selections);
        proof {
            lemma_merged_ranges(selections@, o);
        }
        let ghost mut emitted: Seq<ChangeModel> = Seq::empty();
        let ghost mut fs: Seq<FragmentsModel> = Seq::empty();
        let ghost a = flat(o);
        let ghost offs = range_offsets(o, rs@);
        let ghost mut done: Seq<u8> = Seq::empty();
        let mut point = Point::zero();
        let mut prev_end = Point::zero();
        let mut i: usize = 0;
        proof {
            assert(o[0].subrange(0, o[0].len() as int) =~= o[0]);
            assert(rs@.skip(0) =~= rs@);
            assert(queues_after_all(qs, emitted) =~= qs);
            assert(tokens_after_changes(ot, emitted) == ot);
            assert(inlays_after_changes(oi, emitted) == oi);
            assert(prev + emitted =~= prev);
            assert(offset(o, z) == 0);
            assert(a =~= done + a.subrange(0, a.len() as int));
            assert(offs.skip(0) =~= offs);
            assert forall|xs: Seq<FragmentsModel>| emitted + #[trigger] edit_changes(rs@.skip(0), xs, z, z) == edit_changes(rs@, fs + xs, z, z) by {
                assert(fs + xs =~= xs);
                assert(emitted + edit_changes(rs@.skip(0), xs, z, z) =~= edit_changes(rs@.skip(0), xs, z, z));
            }
            assert forall|xs: Seq<FragmentsModel>, j: int| 0 <= j implies emitted + #[trigger] changes_before_call(rs@.skip(0), xs, z, z, j)
                == changes_before_call(rs@, fs + xs, z, z, 0 + j) by {
                assert(fs + xs =~= xs);
                assert(emitted + changes_before_call(rs@.skip(0), xs, z, z, j) =~= changes_before_call(rs@.skip(0), xs, z, z, j));
            }
            assert forall|xs: Seq<FragmentsModel>, j: int| 0 <= j implies #[trigger] call_point(rs@.skip(0), xs, z, z, j)
                == call_point(rs@, fs + xs, z, z, 0 + j) by {
                assert(fs + xs =~= xs);
            }
            assert forall|xs: Seq<FragmentsModel>| #[trigger] calls_ok(f, o, rs@, fs + xs, 0) by {}
            assert forall|ys: Seq<Seq<u8>>| done + #[trigger] substituted(a, offs.skip(0), ys, 0) == substituted(a, offs, inserted_all(fs) + ys, 0) by {
                assert(inserted_all(fs) + ys =~= ys);
                assert(done + substituted(a, offs.skip(0), ys, 0) =~= substituted(a, offs.skip(0), ys, 0));
            }
        }
        while i < rs.len()
            invariant
                self.wf(),
                policy_ok(f),
                z == (Point { line: 0, byte: 0 }),
                i <= rs@.len(),
                fs.len() == i,
                forall|k: int| 0 <= k < fs.len() ==> returned_by(f, #[trigger] fs[k]),
                ranges_apart(rs@, o),
                suffix_eq(self.text_view(), point, o, prev_end),
                i == 0 ==> prev_end == z,
                i > 0 ==> prev_end == rs@[i - 1].end,
                forall|xs: Seq<FragmentsModel>| emitted + #[trigger] edit_changes(rs@.skip(i as int), xs, point, prev_end)
                    == edit_changes(rs@, fs + xs, z, z),
                self.text_view() == apply_changes_lines(o, emitted),
                self.queues_view() == queues_after_all(qs, emitted),
                self.tokens_view() == tokens_after_changes(ot, emitted),
                self.inlays_view() == inlays_after_changes(oi, emitted),
                change_models(changes@) == prev + emitted,
                self.next_id() == old(self).next_id(),
                self.block_inlays_view() == old(self).block_inlays_view(),
                a == flat(o),
                offs == range_offsets(o, rs@),
                0 <= offset(o, prev_end) <= a.len(),
                flat(self.text_view()) == done + a.subrange(offset(o, prev_end), a.len() as int),
                offset(self.text_view(), point) == done.len(),
                forall|ys: Seq<Seq<u8>>| done + #[trigger] substituted(a, offs.skip(i as int), ys, offset(o, prev_end))
                    == substituted(a, offs, inserted_all(fs) + ys, 0),
                forall|xs: Seq<FragmentsModel>, j: int| 0 <= j ==> emitted + #[trigger] changes_before_call(rs@.skip(i as int), xs, point, prev_end, j)
                    == changes_before_call(rs@, fs + xs, z, z, i + j),
                forall|xs: Seq<FragmentsModel>, j: int| 0 <= j ==> #[trigger] call_point(rs@.skip(i as int), xs, point, prev_end, j)
                    == call_point(rs@, fs + xs, z, z, i + j),
                forall|xs: Seq<FragmentsModel>| #[trigger] calls_ok(f, o, rs@, fs + xs, i as int),
            decreases rs@.len() - i,
        {
            let r = rs[i];
            let ghost rest = rs@.skip(i as int);
            assert(rest[0] == r);
            assert(rest.drop_first() =~= rs@.skip(i + 1));
            assert(valid_range(o, r));
            if i > 0 {
                assert(point_lt(rs@[i - 1].end, rs@[i as int].start));
            }
            let ghost e0 = emitted;
            let ghost fs0 = fs;
            let ghost done0 = done;
            let ghost c_before = self.text_view();
            let (p2, Ghost(e2), Ghost(fr)) = self.edit_range(r, point, prev_end, &f, changes, Ghost(o), Ghost(qs), Ghost(ot), Ghost(oi), Ghost(prev), Ghost(emitted));
            proof {
                lemma_offsets_ordered(o, prev_end, r.start);
                lemma_offsets_ordered(o, r.start, r.end);
                let ins = inserted_bytes(fr.0, fr.1);
                let fb = flat(c_before);
                assert(fb.subrange(0, offset(c_before, point)) =~= done0);
                let done2 = done0 + a.subrange(offset(o, prev_end), offset(o, r.start)) + ins;
                assert(flat(self.text_view()) =~= done2 + a.subrange(offset(o, r.end), a.len() as int));
                let so = offs.skip(i as int);
                assert(so[0] == (offset(o, r.start), offset(o, r.end)));
                assert(so.drop_first() =~= offs.skip(i + 1));
                let fs2 = fs0.push(fr);
                assert(inserted_all(fs2) =~= inserted_all(fs0).push(ins));
                assert forall|ys: Seq<Seq<u8>>| done2 + #[trigger] substituted(a, offs.skip(i + 1), ys, offset(o, r.end))
                    == substituted(a, offs, inserted_all(fs2) + ys, 0) by {
                    let zs = seq![ins] + ys;
                    assert(zs.drop_first() =~= ys);
                    assert(done2 + substituted(a, offs.skip(i + 1), ys, offset(o, r.end))
                        =~= done0 + substituted(a, so, zs, offset(o, prev_end)));
                    assert(inserted_all(fs0) + zs =~= inserted_all(fs2) + ys);
                }
                let p0 = step_start(r, point, prev_end);
                assert forall|xs: Seq<FragmentsModel>, j: int| 0 <= j implies e2 + #[trigger] changes_before_call(rs@.skip(i + 1), xs, p2, r.end, j)
                    == changes_before_call(rs@, fs2 + xs, z, z, (i + 1) + j) by {
                    let zs = seq![fr] + xs;
                    assert(zs.drop_first() =~= xs);
                    assert(zs[0] == fr);
                    assert(fs0 + zs =~= fs2 + xs);
                    assert(changes_before_call(rest, zs, point, prev_end, j + 1)
                        == step_changes(r, fr.0, fr.1, p0) + changes_before_call(rs@.skip(i + 1), xs, p2, r.end, j));
                    assert(e0 + changes_before_call(rest, zs, point, prev_end, j + 1) == changes_before_call(rs@, fs0 + zs, z, z, i + (j + 1)));
                    assert(e2 + changes_before_call(rs@.skip(i + 1), xs, p2, r.end, j)
                        =~= e0 + changes_before_call(rest, zs, point, prev_end, j + 1));
                }
                assert forall|xs: Seq<FragmentsModel>, j: int| 0 <= j implies #[trigger] call_point(rs@.skip(i + 1), xs, p2, r.end, j)
                    == call_point(rs@, fs2 + xs, z, z, (i + 1) + j) by {
                    let zs = seq![fr] + xs;
                    assert(zs.drop_first() =~= xs);
                    assert(zs[0] == fr);
                    assert(fs0 + zs =~= fs2 + xs);
                    assert(call_point(rest, zs, point, prev_end, j + 1) == call_point(rs@.skip(i + 1), xs, p2, r.end, j));
                    assert(call_point(rest, zs, point, prev_end, j + 1) == call_point(rs@, fs0 + zs, z, z, i + (j + 1)));
                }
                assert forall|xs: Seq<FragmentsModel>| #[trigger] calls_ok(f, o, rs@, fs2 + xs, i + 1) by {
                    let zs = seq![fr] + xs;
                    assert(fs0 + zs =~= fs2 + xs);
                    assert(calls_ok(f, o, rs@, fs0 + zs, i as int));
                    assert(changes_before_call(rest, zs, point, prev_end, 0) == del_step(r, p0));
                    assert(e0 + changes_before_call(rest, zs, point, prev_end, 0) == changes_before_call(rs@, fs0 + zs, z, z, i + 0));
                    assert(call_point(rest, zs, point, prev_end, 0) == call_point(rs@, fs0 + zs, z, z, i + 0));
                    assert((fs2 + xs)[i as int] == fr);
                    assert forall|k: int| 0 <= k < i + 1 implies #[trigger] called_at(f,
                        apply_changes_lines(o, changes_before_call(rs@, fs2 + xs, z, z, k)),
                        call_point(rs@, fs2 + xs, z, z, k), (fs2 + xs)[k]) by {
                        if k < i {
                            assert((fs2 + xs)[k] == (fs0 + zs)[k]);
                        }
                    }
                }
                assert forall|xs: Seq<FragmentsModel>| e2 + #[trigger] edit_changes(rs@.skip(i + 1), xs, p2, r.end)
                    == edit_changes(rs@, fs2 + xs, z, z) by {
                    let zs = seq![fr] + xs;
                    assert(zs.drop_first() =~= xs);
                    assert(zs[0] == fr);
                    assert(e2 + edit_changes(rs@.skip(i + 1), xs, p2, r.end) =~= e0 + edit_changes(rest, zs, point, prev_end));
                    assert(fs0 + zs =~= fs2 + xs);
                }
                done = done2;
                emitted = e2;
                fs = fs2;
            }
            point = p2;
            prev_end = r.end;
            i = i + 1;
        }
        proof {
            assert(rs@.skip(i as int) =~= Seq::<Range>::empty());
            assert(offs.skip(i as int) =~= Seq::<(int, int)>::empty());
            let none: Seq<FragmentsModel> = Seq::empty();
            let nothing: Seq<Seq<u8>> = Seq::empty();
            assert(edit_changes(rs@.skip(i as int), none, point, prev_end) == Seq::<ChangeModel>::empty());
            assert(emitted + edit_changes(rs@.skip(i as int), none, point, prev_end) == edit_changes(rs@, fs + none, z, z));
            assert(fs + none =~= fs);
            assert(emitted + Seq::<ChangeModel>::empty() =~= emitted);
            assert(done + substituted(a, offs.skip(i as int), nothing, offset(o, prev_end)) == substituted(a, offs, inserted_all(fs) + nothing, 0));
            assert(inserted_all(fs) + nothing =~= inserted_all(fs));
            assert(substituted(a, offs.skip(i as int), nothing, offset(o, prev_end)) == a.subrange(offset(o, prev_end), a.len() as int));
            assert(calls_ok(f, o, rs@, fs + none, i as int));
            assert(edit_outcome(f, *old(self), *self, selections@, prev, change_models(changes@), fs));
        }
    }
}

} // verus!
