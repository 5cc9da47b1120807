use vstd::prelude::*;
use crate::token::{Token, TokenKind, total_len, lemma_total_len_concat, lemma_total_len_one};
use crate::inlays::InlineInlay;

verus! {

/// A piece of a line's layout: what starts at byte `byte`, and how many columns it takes.
#[derive(Clone, Copy, Debug, PartialEq, Eq, Structural)]
pub struct Segment {
    pub byte: usize,
    pub width: usize,
}

pub const TAB: u8 = 9;

/// The columns a byte takes: a tab takes `tab` columns, a UTF-8 continuation byte
/// none (its character is counted at its first byte), any other byte one.
pub open spec fn byte_width(b: u8, tab: usize) -> nat {
    if b == TAB { tab as nat } else if 128 <= b && b < 192 { 0 } else { 1 }
}

/// The columns the bytes `s` take.
pub open spec fn text_width(s: Seq<u8>, tab: usize) -> nat
    decreases s.len(),
{
    if s.len() == 0 { 0 } else { text_width(s.drop_last(), tab) + byte_width(s.last(), tab) }
}

/// The columns an inline inlay takes.
pub open spec fn inlay_width(x: InlineInlay) -> nat {
    match x {
        InlineInlay::Text(t) => text_width(t@, 1),
        InlineInlay::Widget(w) => w.column_count as nat,
    }
}

/// Walking the segments from column `column`, the byte offsets where a row is
/// broken: before a segment that would pass `wrap_column`, unless the row holds
/// nothing but its indentation yet. A new row starts at column `indent`.
pub open spec fn wrap_walk(segs: Seq<Segment>, wrap_column: nat, indent: nat, column: nat) -> Seq<usize>
    decreases segs.len(),
{
    if segs.len() == 0 {
        seq![]
    } else {
        let s = segs[0];
        if column > indent && column + s.width > wrap_column {
            seq![s.byte] + wrap_walk(segs.drop_first(), wrap_column, indent, indent + s.width as nat)
        } else {
            wrap_walk(segs.drop_first(), wrap_column, indent, column + s.width as nat)
        }
    }
}

/// Walking the segments from column `column` with the widest row so far `best`,
/// breaking a row before each segment whose byte offset is the next of `wraps`:
/// the widest row of all.
pub open spec fn column_walk(segs: Seq<Segment>, wraps: Seq<usize>, indent: nat, column: nat, best: nat) -> nat
    decreases segs.len(),
{
    if segs.len() == 0 {
        if column > best { column } else { best }
    } else {
        let s = segs[0];
        if wraps.len() > 0 && wraps[0] == s.byte {
            let best2 = if column > best { column } else { best };
            column_walk(segs.drop_first(), wraps.drop_first(), indent, indent + s.width as nat, best2)
        } else {
            column_walk(segs.drop_first(), wraps, indent, column + s.width as nat, best)
        }
    }
}

/// The sum of the widths of the segments.
pub open spec fn total_width(segs: Seq<Segment>) -> nat
    decreases segs.len(),
{
    if segs.len() == 0 { 0 } else { segs[0].width as nat + total_width(segs.drop_first()) }
}

/// `n`, or `usize::MAX` where `n` is larger.
pub open spec fn clamp(n: nat) -> usize {
    if n > usize::MAX { usize::MAX } else { n as usize }
}

/// The width of `s[lo..hi]`, or `usize::MAX` where it is larger.
pub fn text_columns(s: &[u8], lo: usize, hi: usize, tab: usize) -> (r: usize)
    requires
        lo <= hi <= s@.len(),
    ensures
        r == clamp(text_width(s@.subrange(lo as int, hi as int), tab)),
{
    let mut w: usize = 0;
    let mut i: usize = lo;
    proof {
        assert(s@.subrange(lo as int, lo as int) =~= Seq::<u8>::empty());
    }
    while i < hi
        invariant
            lo <= i <= hi <= s@.len(),
            w == clamp(text_width(s@.subrange(lo as int, i as int), tab)),
        decreases hi - i,
    {
        let b = s[i];
        assert(s@.subrange(lo as int, i + 1).drop_last() =~= s@.subrange(lo as int, i as int));
        assert(s@.subrange(lo as int, i + 1).last() == b);
        let add: usize = if b == TAB { tab } else if 128 <= b && b < 192 { 0 } else { 1 };
        if w > usize::MAX - add {
            w = usize::MAX;
        } else {
            w = w + add;
        }
        i = i + 1;
    }
    w
}

/// The width of the leading whitespace of a line, if it leaves room on a row
/// of `wrap_column` columns; else no indentation.
pub fn indent_of(line: &[u8], tokens: &Vec<Token>, tab: usize, wrap_column: usize) -> (r: usize)
    ensures
        r == indent_spec(line@, tokens@, tab, wrap_column),
{
    if tokens.len() > 0 && tokens[0].kind == TokenKind::Whitespace && tokens[0].len <= line.len() {
        let w = text_columns(line, 0, tokens[0].len, tab);
        if w < wrap_column { w } else { 0 }
    } else {
        0
    }
}

/// The wrap points of a line with the segments `segs`: where it breaks into rows
/// of at most `wrap_column` columns, each row after the first starting at `indent`.
pub fn compute_wraps(segs: &Vec<Segment>, wrap_column: usize, indent: usize) -> (r: Vec<usize>)
    requires
        total_width(segs@) + indent <= usize::MAX,
    ensures
        r@ == wrap_walk(segs@, wrap_column as nat, indent as nat, 0),
{
    let mut r: Vec<usize> = Vec::new();
    let mut column: usize = 0;
    let mut i: usize = 0;
    proof {
        assert(segs@.skip(0) =~= segs@);
    }
    while i < segs.len()
        invariant
            i <= segs@.len(),
            r@ + wrap_walk(segs@.skip(i as int), wrap_column as nat, indent as nat, column as nat)
                == wrap_walk(segs@, wrap_column as nat, indent as nat, 0),
            column + total_width(segs@.skip(i as int)) <= total_width(segs@) + indent,
            total_width(segs@) + indent <= usize::MAX,
        decreases segs@.len() - i,
    {
        let s = segs[i];
        let ghost rest = segs@.skip(i as int);
        assert(rest.drop_first() =~= segs@.skip(i + 1));
        assert(rest[0] == s);
        assert(total_width(rest) == s.width + total_width(segs@.skip(i + 1)));
        if column > indent && column + s.width > wrap_column {
            r.push(s.byte);
            column = indent + s.width;
            assert(r@ + wrap_walk(segs@.skip(i + 1), wrap_column as nat, indent as nat, column as nat)
                =~= r@.drop_last() + (seq![s.byte] + wrap_walk(segs@.skip(i + 1), wrap_column as nat, indent as nat, column as nat)));
        } else {
            column = column + s.width;
        }
        i = i + 1;
    }
    proof {
        assert(segs@.skip(i as int) =~= Seq::<Segment>::empty());
        assert(r@ + Seq::<usize>::empty() =~= r@);
    }
    r
}


/// The segments of a line's tokens: each starts where the ones before it end,
/// and is as wide as its bytes.
pub open spec fn token_segments(line: Seq<u8>, tokens: Seq<Token>, tab: usize) -> Seq<Segment> {
    Seq::new(tokens.len(), |k: int| {
        let off = total_len(tokens.subrange(0, k));
        Segment { byte: off as usize, width: clamp(text_width(line.subrange(off as int, off + tokens[k].len), tab)) }
    })
}

/// The segments of a line's inline inlays, at their anchors.
pub open spec fn inlay_segments(inlays: Seq<(usize, InlineInlay)>) -> Seq<Segment> {
    Seq::new(inlays.len(), |k: int| Segment { byte: inlays[k].0, width: clamp(inlay_width(inlays[k].1)) })
}

/// The two sequences of segments merged: the first of the two heads goes next,
/// an inlay before a token at the same byte.
pub open spec fn merge_segments(a: Seq<Segment>, b: Seq<Segment>) -> Seq<Segment>
    decreases a.len() + b.len(),
{
    if a.len() == 0 {
        b
    } else if b.len() == 0 {
        a
    } else if a[0].byte <= b[0].byte {
        seq![a[0]] + merge_segments(a.drop_first(), b)
    } else {
        seq![b[0]] + merge_segments(a, b.drop_first())
    }
}

/// The layout segments of a line: its inline inlays and its tokens, by byte.
pub open spec fn line_segments_spec(line: Seq<u8>, tokens: Seq<Token>, inlays: Seq<(usize, InlineInlay)>, tab: usize) -> Seq<Segment> {
    merge_segments(inlay_segments(inlays), token_segments(line, tokens, tab))
}

proof fn lemma_total_len_step(ts: Seq<Token>, j: int)
    requires
        0 <= j < ts.len(),
    ensures
        total_len(ts.subrange(0, j + 1)) == total_len(ts.subrange(0, j)) + ts[j].len,
{
    assert(ts.subrange(0, j + 1) =~= ts.subrange(0, j) + seq![ts[j]]);
    lemma_total_len_concat(ts.subrange(0, j), seq![ts[j]]);
    lemma_total_len_one(ts[j]);
}

proof fn lemma_total_len_prefix_le(ts: Seq<Token>, j: int)
    requires
        0 <= j <= ts.len(),
    ensures
        total_len(ts.subrange(0, j)) <= total_len(ts),
{
    assert(ts =~= ts.subrange(0, j) + ts.subrange(j, ts.len() as int));
    lemma_total_len_concat(ts.subrange(0, j), ts.subrange(j, ts.len() as int));
}

/// The columns an inline inlay takes, or `usize::MAX` where that is more.
pub fn inlay_columns(x: &InlineInlay) -> (r: usize)
    ensures
        r == clamp(inlay_width(*x)),
{
    match x {
        InlineInlay::Text(t) => {
            let r = text_columns(t.as_slice(), 0, t.len(), 1);
            assert(t@.subrange(0, t@.len() as int) =~= t@);
            r
        },
        InlineInlay::Widget(w) => w.column_count,
    }
}

/// The layout segments of a line whose tokens cover it.
pub fn line_segments(line: &[u8], tokens: &Vec<Token>, inlays: &Vec<(usize, InlineInlay)>, tab: usize) -> (r: Vec<Segment>)
    requires
        total_len(tokens@) == line@.len(),
    ensures
        r@ == line_segments_spec(line@, tokens@, inlays@, tab),
{
    let ghost a = inlay_segments(inlays@);
    let ghost b = token_segments(line@, tokens@, tab);
    let n = line.len();
    let mut out: Vec<Segment> = Vec::new();
    let mut i: usize = 0;
    let mut j: usize = 0;
    let mut off: usize = 0;
    proof {
        assert(a.skip(0) =~= a);
        assert(b.skip(0) =~= b);
        assert(tokens@.subrange(0, 0) =~= Seq::<Token>::empty());
    }
    while i < inlays.len() || j < tokens.len()
        invariant
            i <= inlays@.len(),
            j <= tokens@.len(),
            a == inlay_segments(inlays@),
            b == token_segments(line@, tokens@, tab),
            total_len(tokens@) == line@.len(),
            line@.len() == n,
            off == total_len(tokens@.subrange(0, j as int)),
            out@ + merge_segments(a.skip(i as int), b.skip(j as int)) == merge_segments(a, b),
        decreases inlays@.len() + tokens@.len() - i - j,
    {
        let ghost sa = a.skip(i as int);
        let ghost sb = b.skip(j as int);
        proof {
            lemma_total_len_prefix_le(tokens@, j as int);
        }
        if i < inlays.len() && (j >= tokens.len() || inlays[i].0 <= off) {
            let seg = Segment { byte: inlays[i].0, width: inlay_columns(&inlays[i].1) };
            assert(sa[0] == seg);
            assert(sa.drop_first() =~= a.skip(i + 1));
            if j < tokens.len() {
                assert(sb[0].byte == off);
            } else {
                assert(sb.len() == 0);
            }
            out.push(seg);
            i = i + 1;
            assert(out@ + merge_segments(a.skip(i as int), b.skip(j as int)) =~= out@.drop_last() + merge_segments(sa, sb));
        } else {
            let len = tokens[j].len;
            proof {
                lemma_total_len_step(tokens@, j as int);
                lemma_total_len_prefix_le(tokens@, j + 1);
            }
            let seg = Segment { byte: off, width: text_columns(line, off, off + len, tab) };
            assert(sb[0] == seg);
            assert(sb.drop_first() =~= b.skip(j + 1));
            out.push(seg);
            j = j + 1;
            off = off + len;
            assert(out@ + merge_segments(a.skip(i as int), b.skip(j as int)) =~= out@.drop_last() + merge_segments(sa, sb));
        }
    }
    proof {
        assert(a.skip(i as int) =~= Seq::<Segment>::empty());
        assert(b.skip(j as int) =~= Seq::<Segment>::empty());
        assert(out@ + Seq::<Segment>::empty() =~= out@);
    }
    out
}

/// The sum of the widths of the segments, if it fits in `usize`.
pub fn total_columns(segs: &Vec<Segment>) -> (r: Option<usize>)
    ensures
        r matches Some(t) ==> t == total_width(segs@),
        r is None ==> total_width(segs@) > usize::MAX,
{
    let mut t: usize = 0;
    let mut i: usize = segs.len();
    proof {
        assert(segs@.skip(segs@.len() as int) =~= Seq::<Segment>::empty());
    }
    while i > 0
        invariant
            i <= segs@.len(),
            t == total_width(segs@.skip(i as int)),
        decreases i,
    {
        let ghost rest = segs@.skip(i - 1);
        assert(rest.drop_first() =~= segs@.skip(i as int));
        assert(rest[0] == segs@[i - 1]);
        let w = segs[i - 1].width;
        if t > usize::MAX - w {
            proof {
                lemma_total_width_suffix(segs@, i - 1);
            }
            return None;
        }
        t = t + w;
        i = i - 1;
    }
    assert(segs@.skip(0) =~= segs@);
    Some(t)
}

proof fn lemma_total_width_suffix(segs: Seq<Segment>, i: int)
    requires
        0 <= i <= segs.len(),
    ensures
        total_width(segs.skip(i)) <= total_width(segs),
    decreases i,
{
    if i > 0 {
        lemma_total_width_suffix(segs.drop_first(), i - 1);
        assert(segs.drop_first().skip(i - 1) =~= segs.skip(i));
    } else {
        assert(segs.skip(0) =~= segs);
    }
}

/// The widest row of a line with the segments `segs` and wrap points `wraps`.
pub fn column_count(segs: &Vec<Segment>, wraps: &Vec<usize>, indent: usize) -> (r: usize)
    requires
        total_width(segs@) + indent <= usize::MAX,
    ensures
        r == column_walk(segs@, wraps@, indent as nat, 0, 0),
{
    let mut column: usize = 0;
    let mut best: usize = 0;
    let mut i: usize = 0;
    let mut w: usize = 0;
    proof {
        assert(segs@.skip(0) =~= segs@);
        assert(wraps@.skip(0) =~= wraps@);
    }
    while i < segs.len()
        invariant
            i <= segs@.len(),
            w <= wraps@.len(),
            column_walk(segs@.skip(i as int), wraps@.skip(w as int), indent as nat, column as nat, best as nat)
                == column_walk(segs@, wraps@, indent as nat, 0, 0),
            column + total_width(segs@.skip(i as int)) <= total_width(segs@) + indent,
            best <= total_width(segs@) + indent,
            total_width(segs@) + indent <= usize::MAX,
        decreases segs@.len() - i,
    {
        let s = segs[i];
        let ghost rest = segs@.skip(i as int);
        assert(rest.drop_first() =~= segs@.skip(i + 1));
        assert(rest[0] == s);
        assert(total_width(rest) == s.width + total_width(segs@.skip(i + 1)));
        proof {
            lemma_total_width_suffix(segs@, i as int);
        }
        if w < wraps.len() && wraps[w] == s.byte {
            let ghost ws = wraps@.skip(w as int);
            assert(ws.drop_first() =~= wraps@.skip(w + 1));
            assert(ws[0] == wraps@[w as int]);
            if column > best {
                best = column;
            }
            column = indent + s.width;
            w = w + 1;
        } else {
            let ghost ws = wraps@.skip(w as int);
            if w < wraps.len() {
                assert(ws[0] == wraps@[w as int]);
            } else {
                assert(ws.len() == 0);
            }
            column = column + s.width;
        }
        i = i + 1;
    }
    proof {
        assert(segs@.skip(i as int) =~= Seq::<Segment>::empty());
    }
    if column > best { column } else { best }
}


/// The indentation of a line's continuation rows: the width of its leading
/// whitespace, where that leaves room on a row of `wrap_column` columns.
pub open spec fn indent_spec(line: Seq<u8>, tokens: Seq<Token>, tab: usize, wrap_column: usize) -> usize {
    if tokens.len() > 0 && tokens[0].kind == TokenKind::Whitespace && tokens[0].len <= line.len() {
        let w = clamp(text_width(line.subrange(0, tokens[0].len as int), tab));
        if w < wrap_column { w } else { 0 }
    } else {
        0
    }
}

/// The layout of a line: its wrap points, the indentation of its continuation
/// rows, and the width of its widest row. Without a wrap column a line is one
/// row. A line too wide to measure in `usize` is left unwrapped, `usize::MAX` wide.
pub open spec fn line_layout(
    line: Seq<u8>,
    tokens: Seq<Token>,
    inlays: Seq<(usize, InlineInlay)>,
    wrap_column: Option<usize>,
    tab: usize,
) -> (Seq<usize>, usize, usize) {
    let segs = line_segments_spec(line, tokens, inlays, tab);
    let indent: usize = match wrap_column {
        Some(wc) => indent_spec(line, tokens, tab, wc),
        None => 0,
    };
    if total_width(segs) + indent > usize::MAX {
        (seq![], indent, usize::MAX)
    } else {
        let wraps = match wrap_column {
            Some(wc) => wrap_walk(segs, wc as nat, indent as nat, 0),
            None => seq![],
        };
        (wraps, indent, column_walk(segs, wraps, indent as nat, 0, 0) as usize)
    }
}

/// Lays out a line whose tokens cover it.
pub fn layout_line(
    line: &[u8],
    tokens: &Vec<Token>,
    inlays: &Vec<(usize, InlineInlay)>,
    wrap_column: Option<usize>,
    tab: usize,
) -> (r: (Vec<usize>, usize, usize))
    requires
        total_len(tokens@) == line@.len(),
    ensures
        (r.0@, r.1, r.2) == line_layout(line@, tokens@, inlays@, wrap_column, tab),
{
    let segs = line_segments(line, tokens, inlays, tab);
    let indent = match wrap_column {
        Some(wc) => indent_of(line, tokens, tab, wc),
        None => 0,
    };
    match total_columns(&segs) {
        Some(total) if total <= usize::MAX - indent => {
            let wraps = match wrap_column {
                Some(wc) => compute_wraps(&segs, wc, indent),
                None => {
                    let v: Vec<usize> = Vec::new();
                    assert(v@ =~= Seq::<usize>::empty());
                    v
                },
            };
            proof {
                lemma_column_walk_bound(segs@, wraps@, indent as nat, 0, 0);
            }
            let count = column_count(&segs, &wraps, indent);
            (wraps, indent, count)
        },
        _ => {
            let v: Vec<usize> = Vec::new();
            assert(v@ =~= Seq::<usize>::empty());
            (v, indent, usize::MAX)
        },
    }
}

pub open spec fn max_nat(a: nat, b: nat) -> nat {
    if a > b { a } else { b }
}

/// The widest row is no wider than all segments together past the indentation.
proof fn lemma_column_walk_bound(segs: Seq<Segment>, wraps: Seq<usize>, indent: nat, column: nat, best: nat)
    ensures
        column_walk(segs, wraps, indent, column, best) <= max_nat(best, max_nat(column, indent) + total_width(segs)),
    decreases segs.len(),
{
    if segs.len() > 0 {
        let s = segs[0];
        if wraps.len() > 0 && wraps[0] == s.byte {
            let best2 = if column > best { column } else { best };
            lemma_column_walk_bound(segs.drop_first(), wraps.drop_first(), indent, indent + s.width as nat, best2);
        } else {
            lemma_column_walk_bound(segs.drop_first(), wraps, indent, column + s.width as nat, best);
        }
    }
}

} // verus!
