use vstd::prelude::*;
use crate::point::{Point, Range, point_le, add_length, sub_points, add_length_fits};
use crate::text::{NEWLINE, lines_wf, valid_point, valid_range, insert_lines, delete_lines, extent_of};
use crate::edit::{suffix_eq, lemma_suffix_advance_bound};

verus! {

/// The bytes of a text: its lines joined by separators.
pub open spec fn flat(ls: Seq<Seq<u8>>) -> Seq<u8>
    decreases ls.len(),
{
    if ls.len() == 0 {
        seq![]
    } else if ls.len() == 1 {
        ls[0]
    } else {
        flat(ls.drop_last()) + seq![NEWLINE] + ls.last()
    }
}

/// The bytes of lines that some line follows: each line with its separator.
pub open spec fn flat_before(a: Seq<Seq<u8>>) -> Seq<u8> {
    if a.len() == 0 { seq![] } else { flat(a) + seq![NEWLINE] }
}

/// The bytes of lines that follow some line: each line after its separator.
pub open spec fn flat_after(b: Seq<Seq<u8>>) -> Seq<u8> {
    if b.len() == 0 { seq![] } else { seq![NEWLINE] + flat(b) }
}

/// Where position `p` of `ls` falls in its bytes.
pub open spec fn offset(ls: Seq<Seq<u8>>, p: Point) -> int {
    flat_before(ls.subrange(0, p.line as int)).len() + p.byte
}

proof fn lemma_flat_push(a: Seq<Seq<u8>>, x: Seq<u8>)
    ensures
        flat(a.push(x)) == flat_before(a) + x,
{
    if a.len() == 0 {
        assert(a.push(x) =~= seq![x]);
        assert(flat_before(a) + x =~= x);
    } else {
        assert(a.push(x).drop_last() =~= a);
    }
}

/// The bytes of `a`, a line `x`, then `b`.
pub proof fn lemma_flat_join(a: Seq<Seq<u8>>, x: Seq<u8>, b: Seq<Seq<u8>>)
    ensures
        flat(a + seq![x] + b) == flat_before(a) + x + flat_after(b),
    decreases b.len(),
{
    if b.len() == 0 {
        assert(a + seq![x] + b =~= a.push(x));
        lemma_flat_push(a, x);
        assert(flat_before(a) + x + flat_after(b) =~= flat_before(a) + x);
    } else {
        let s = a + seq![x] + b;
        assert(s.drop_last() =~= a + seq![x] + b.drop_last());
        lemma_flat_join(a, x, b.drop_last());
        assert(s.len() >= 2);
        if b.len() == 1 {
            assert(b.drop_last() =~= Seq::<Seq<u8>>::empty());
            assert(b =~= seq![b.last()]);
            assert(flat(b) == b.last());
        } else {
            assert(flat(b) == flat(b.drop_last()) + seq![NEWLINE] + b.last());
        }
        assert(flat(s) =~= flat_before(a) + x + flat_after(b));
    }
}

/// The bytes of several lines: the first, then the rest each after a separator.
proof fn lemma_flat_lines(t: Seq<Seq<u8>>)
    requires
        t.len() >= 2,
    ensures
        flat(t) == t[0] + seq![NEWLINE] + flat_before(t.subrange(1, t.len() - 1)) + t.last(),
{
    let mids = t.subrange(1, t.len() - 1);
    assert(t =~= Seq::<Seq<u8>>::empty() + seq![t[0]] + (mids + seq![t.last()]));
    lemma_flat_join(Seq::<Seq<u8>>::empty(), t[0], mids + seq![t.last()]);
    assert(mids + seq![t.last()] =~= mids + seq![t.last()] + Seq::<Seq<u8>>::empty());
    lemma_flat_join(mids, t.last(), Seq::<Seq<u8>>::empty());
    assert(flat(t) =~= t[0] + seq![NEWLINE] + flat_before(mids) + t.last());
}

/// The bytes of `a`, the lines `t` with `pre` before the first and `suf` after
/// the last, then `b`.
proof fn lemma_flat_around(a: Seq<Seq<u8>>, pre: Seq<u8>, t: Seq<Seq<u8>>, suf: Seq<u8>, b: Seq<Seq<u8>>)
    requires
        t.len() >= 2,
    ensures
        flat(a + seq![pre + t[0]] + t.subrange(1, t.len() - 1) + seq![t.last() + suf] + b)
            == flat_before(a) + pre + flat(t) + suf + flat_after(b),
{
    let mids = t.subrange(1, t.len() - 1);
    let n = a + seq![pre + t[0]] + mids + seq![t.last() + suf] + b;
    assert(n =~= a + seq![pre + t[0]] + (mids + seq![t.last() + suf] + b));
    lemma_flat_join(a, pre + t[0], mids + seq![t.last() + suf] + b);
    lemma_flat_join(mids, t.last() + suf, b);
    lemma_flat_lines(t);
    assert(flat_after(mids + seq![t.last() + suf] + b)
        =~= seq![NEWLINE] + (flat_before(mids) + (t.last() + suf) + flat_after(b)));
    assert(flat(n) =~= flat_before(a) + pre + flat(t) + suf + flat_after(b));
}

/// Inserting lines at `p` splices their bytes in at `p`'s offset.
pub proof fn lemma_flat_insert(ls: Seq<Seq<u8>>, p: Point, t: Seq<Seq<u8>>)
    requires
        lines_wf(ls),
        lines_wf(t),
        valid_point(ls, p),
    ensures
        0 <= offset(ls, p) <= flat(ls).len(),
        flat(insert_lines(ls, p, t)) == flat(ls).subrange(0, offset(ls, p)) + flat(t)
            + flat(ls).subrange(offset(ls, p), flat(ls).len() as int),
{
    let line = ls[p.line as int];
    let pre = line.subrange(0, p.byte as int);
    let suf = line.subrange(p.byte as int, line.len() as int);
    let a = ls.subrange(0, p.line as int);
    let b = ls.subrange(p.line + 1, ls.len() as int);
    assert(ls =~= a + seq![line] + b);
    lemma_flat_join(a, line, b);
    let f = flat(ls);
    let off = offset(ls, p);
    assert(line =~= pre + suf);
    assert(f.subrange(0, off) =~= flat_before(a) + pre);
    assert(f.subrange(off, f.len() as int) =~= suf + flat_after(b));
    let n = insert_lines(ls, p, t);
    if t.len() == 1 {
        assert(n =~= a + seq![pre + t[0] + suf] + b);
        lemma_flat_join(a, pre + t[0] + suf, b);
        assert(flat(t) == t[0]);
        assert(flat(n) =~= f.subrange(0, off) + flat(t) + f.subrange(off, f.len() as int));
    } else {
        assert(n =~= a + seq![pre + t[0]] + t.subrange(1, t.len() - 1) + seq![t.last() + suf] + b);
        lemma_flat_around(a, pre, t, suf, b);
        assert(flat(n) =~= f.subrange(0, off) + flat(t) + f.subrange(off, f.len() as int));
    }
}

/// Removing the text in `r` cuts its bytes out, from `r.start`'s offset to `r.end`'s.
pub proof fn lemma_flat_delete(ls: Seq<Seq<u8>>, r: Range)
    requires
        lines_wf(ls),
        valid_range(ls, r),
    ensures
        0 <= offset(ls, r.start) <= offset(ls, r.end) <= flat(ls).len(),
        flat(delete_lines(ls, r)) == flat(ls).subrange(0, offset(ls, r.start))
            + flat(ls).subrange(offset(ls, r.end), flat(ls).len() as int),
{
    let s = r.start;
    let e = r.end;
    let f = flat(ls);
    let a = ls.subrange(0, s.line as int);
    let sl = ls[s.line as int];
    let a2 = ls.subrange(0, e.line as int);
    let el = ls[e.line as int];
    let b = ls.subrange(e.line + 1, ls.len() as int);
    assert(ls =~= a + seq![sl] + ls.subrange(s.line + 1, ls.len() as int));
    lemma_flat_join(a, sl, ls.subrange(s.line + 1, ls.len() as int));
    assert(ls =~= a2 + seq![el] + b);
    lemma_flat_join(a2, el, b);
    let first = sl.subrange(0, s.byte as int);
    let last = el.subrange(e.byte as int, el.len() as int);
    assert(f.subrange(0, offset(ls, s)) =~= flat_before(a) + first);
    assert(f.subrange(offset(ls, e), f.len() as int) =~= last + flat_after(b));
    if s.line < e.line {
        assert(a2 =~= a + seq![sl] + ls.subrange(s.line + 1, e.line as int));
        lemma_flat_join(a, sl, ls.subrange(s.line + 1, e.line as int));
        assert(flat_before(a2).len() >= flat_before(a).len() + sl.len());
    }
    let d = delete_lines(ls, r);
    assert(d =~= a + seq![first + last] + b);
    lemma_flat_join(a, first + last, b);
    assert(flat(d) =~= f.subrange(0, offset(ls, s)) + f.subrange(offset(ls, e), f.len() as int));
}


pub proof fn lemma_offset_next_lines(ls: Seq<Seq<u8>>, m: int, k: int)
    requires
        0 <= m,
        0 < k,
        m + k <= ls.len(),
    ensures
        flat_before(ls.subrange(0, m + k)).len()
            == flat_before(ls.subrange(0, m)).len() + ls[m].len() + flat_after(ls.subrange(m + 1, m + k)).len() + 1,
{
    let t = ls.subrange(0, m + k);
    assert(t =~= ls.subrange(0, m) + seq![ls[m]] + ls.subrange(m + 1, m + k));
    lemma_flat_join(ls.subrange(0, m), ls[m], ls.subrange(m + 1, m + k));
}

/// Advancing the same extent past corresponding positions moves both offsets alike.
pub proof fn lemma_offset_advance(c: Seq<Seq<u8>>, p: Point, o: Seq<Seq<u8>>, q: Point, q2: Point)
    requires
        suffix_eq(c, p, o, q),
        point_le(q, q2),
        valid_point(o, q2),
        add_length_fits(p, sub_points(q2, q)),
    ensures
        offset(c, add_length(p, sub_points(q2, q))) - offset(c, p) == offset(o, q2) - offset(o, q),
{
    let p2 = add_length(p, sub_points(q2, q));
    lemma_suffix_advance_bound(c, p, o, q, q2);
    if q2.line != q.line {
        let k = q2.line - q.line;
        assert(p2.line == p.line + k);
        lemma_offset_next_lines(c, p.line as int, k);
        lemma_offset_next_lines(o, q.line as int, k);
        let cl = c[p.line as int];
        let ol = o[q.line as int];
        assert(cl.subrange(p.byte as int, cl.len() as int).len() == ol.subrange(q.byte as int, ol.len() as int).len());
        let cs = c.subrange(p.line + 1, p.line + k);
        let os = o.subrange(q.line + 1, q.line + k);
        assert forall|j: int| 0 <= j < k - 1 implies #[trigger] cs[j] == os[j] by {
            assert(c[p.line + (j + 1)] == o[q.line + (j + 1)]);
        }
        assert(cs =~= os);
    }
}

/// Changing the text at or after `p` leaves the offset of `p` alone.
pub proof fn lemma_offset_prefix_kept(c: Seq<Seq<u8>>, d: Seq<Seq<u8>>, p: Point)
    requires
        p.line < c.len(),
        p.line < d.len(),
        c.subrange(0, p.line as int) == d.subrange(0, p.line as int),
    ensures
        offset(d, p) == offset(c, p),
{
}

/// After inserting `t` at `p`, the end of the inserted text lies `flat(t)` bytes past `p`.
pub proof fn lemma_offset_after_insert(c: Seq<Seq<u8>>, p: Point, t: Seq<Seq<u8>>)
    requires
        lines_wf(c),
        lines_wf(t),
        valid_point(c, p),
        t.len() <= usize::MAX,
        t.last().len() <= usize::MAX,
        add_length_fits(p, extent_of(t)),
    ensures
        offset(insert_lines(c, p, t), add_length(p, extent_of(t))) == offset(c, p) + flat(t).len(),
        insert_lines(c, p, t).subrange(0, p.line as int) == c.subrange(0, p.line as int),
{
    let n = insert_lines(c, p, t);
    let line = c[p.line as int];
    let pre = line.subrange(0, p.byte as int);
    crate::text::lemma_insert_lines_wf(c, p, t);
    assert(n.subrange(0, p.line as int) =~= c.subrange(0, p.line as int));
    if t.len() > 1 {
        let m = t.len() - 1;
        let mids = t.subrange(1, t.len() - 1);
        assert(n.subrange(0, p.line + m) =~= c.subrange(0, p.line as int) + seq![pre + t[0]] + mids);
        assert(c.subrange(0, p.line as int) + seq![pre + t[0]] + mids
            =~= c.subrange(0, p.line as int) + seq![pre + t[0]] + mids);
        lemma_flat_join(c.subrange(0, p.line as int), pre + t[0], mids);
        lemma_flat_lines(t);
    }
}


/// Positions that are followed by the same text sit before the same bytes.
pub proof fn lemma_flat_suffix(c: Seq<Seq<u8>>, p: Point, o: Seq<Seq<u8>>, q: Point)
    requires
        suffix_eq(c, p, o, q),
    ensures
        0 <= offset(c, p) <= flat(c).len(),
        0 <= offset(o, q) <= flat(o).len(),
        flat(c).subrange(offset(c, p), flat(c).len() as int) == flat(o).subrange(offset(o, q), flat(o).len() as int),
{
    let cl = c[p.line as int];
    let ol = o[q.line as int];
    let ca = c.subrange(0, p.line as int);
    let cb = c.subrange(p.line + 1, c.len() as int);
    let oa = o.subrange(0, q.line as int);
    let ob = o.subrange(q.line + 1, o.len() as int);
    assert(c =~= ca + seq![cl] + cb);
    assert(o =~= oa + seq![ol] + ob);
    lemma_flat_join(ca, cl, cb);
    lemma_flat_join(oa, ol, ob);
    assert forall|j: int| 0 <= j < cb.len() implies #[trigger] cb[j] == ob[j] by {
        assert(c[p.line + (j + 1)] == o[q.line + (j + 1)]);
    }
    assert(cb =~= ob);
    let fc = flat(c);
    let fo = flat(o);
    assert(fc.subrange(offset(c, p), fc.len() as int) =~= cl.subrange(p.byte as int, cl.len() as int) + flat_after(cb));
    assert(fo.subrange(offset(o, q), fo.len() as int) =~= ol.subrange(q.byte as int, ol.len() as int) + flat_after(ob));
}

/// `f` from byte `from` on, with each byte range of `rs`, taken in order,
/// replaced by the bytes of `ins` at the same place.
pub open spec fn substituted(f: Seq<u8>, rs: Seq<(int, int)>, ins: Seq<Seq<u8>>, from: int) -> Seq<u8>
    decreases rs.len(),
{
    if rs.len() == 0 {
        f.subrange(from, f.len() as int)
    } else {
        f.subrange(from, rs[0].0) + ins[0] + substituted(f, rs.drop_first(), ins.drop_first(), rs[0].1)
    }
}

/// The byte ranges of `ls` that the ranges `rs` cover.
pub open spec fn range_offsets(ls: Seq<Seq<u8>>, rs: Seq<Range>) -> Seq<(int, int)> {
    Seq::new(rs.len(), |i: int| (offset(ls, rs[i].start), offset(ls, rs[i].end)))
}

/// The bytes an edit puts at a range: the text before the caret, then the text after it.
pub open spec fn inserted_bytes(before: Option<Seq<Seq<u8>>>, after: Option<Seq<Seq<u8>>>) -> Seq<u8> {
    (match before { Some(t) => flat(t), None => seq![] }) + (match after { Some(t) => flat(t), None => seq![] })
}


/// Positions in order have offsets in order.
pub proof fn lemma_offsets_ordered(ls: Seq<Seq<u8>>, p: Point, q: Point)
    requires
        valid_point(ls, p),
        valid_point(ls, q),
        point_le(p, q),
    ensures
        0 <= offset(ls, p) <= offset(ls, q) <= flat(ls).len(),
{
    let a = ls.subrange(0, q.line as int);
    let b = ls.subrange(q.line + 1, ls.len() as int);
    assert(ls =~= a + seq![ls[q.line as int]] + b);
    lemma_flat_join(a, ls[q.line as int], b);
    if p.line < q.line {
        lemma_offset_next_lines(ls, p.line as int, q.line - p.line);
    }
}


/// The bytes of a text from the start of line `i` on: that line, then, unless it
/// is the last, a separator and the bytes from the start of the next line on.
pub proof fn lemma_flat_from_line(ls: Seq<Seq<u8>>, i: int)
    requires
        0 <= i < ls.len(),
        ls.len() <= usize::MAX,
    ensures
        0 <= offset(ls, Point { line: i as usize, byte: 0 }) <= flat(ls).len(),
        i + 1 < ls.len() ==> offset(ls, Point { line: (i + 1) as usize, byte: 0 }) <= flat(ls).len(),
        flat(ls).subrange(offset(ls, Point { line: i as usize, byte: 0 }), flat(ls).len() as int) == ls[i] + (if i + 1 < ls.len() {
            seq![NEWLINE] + flat(ls).subrange(offset(ls, Point { line: (i + 1) as usize, byte: 0 }), flat(ls).len() as int)
        } else {
            Seq::empty()
        }),
{
    let a = ls.subrange(0, i);
    let b = ls.subrange(i + 1, ls.len() as int);
    assert(ls =~= a + seq![ls[i]] + b);
    lemma_flat_join(a, ls[i], b);
    let f = flat(ls);
    let off = offset(ls, Point { line: i as usize, byte: 0 });
    assert(ls.subrange(0, (i as usize) as int) =~= a);
    if i + 1 < ls.len() {
        lemma_offset_next_lines(ls, i, 1);
        assert(ls.subrange(i + 1, i + 1) =~= Seq::<Seq<u8>>::empty());
        assert(ls.subrange(0, ((i + 1) as usize) as int) =~= ls.subrange(0, i + 1));
        let off2 = offset(ls, Point { line: (i + 1) as usize, byte: 0 });
        assert(f.subrange(off2, f.len() as int) =~= flat(b));
        assert(f.subrange(off, f.len() as int) =~= ls[i] + (seq![NEWLINE] + f.subrange(off2, f.len() as int)));
    } else {
        assert(f.subrange(off, f.len() as int) =~= ls[i] + Seq::<u8>::empty());
    }
}

} // verus!
