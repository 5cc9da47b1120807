use vstd::prelude::*;
use crate::point::{Point, Length, Range, point_le};
use crate::flat::{flat, offset, lemma_flat_from_line};

verus! {

/// Byte value of the line separator.
pub const NEWLINE: u8 = 10;

/// A text: a non-empty sequence of lines, none of which holds a line separator.
#[derive(Clone, Debug)]
pub struct Text {
    lines: Vec<Vec<u8>>,
}

/// The lines of a vector of byte vectors, as a sequence of byte sequences.
pub open spec fn lines_of(v: Seq<Vec<u8>>) -> Seq<Seq<u8>> {
    Seq::new(v.len(), |i: int| v[i]@)
}

pub open spec fn has_no_newline(s: Seq<u8>) -> bool {
    forall|j: int| 0 <= j < s.len() ==> s[j] != NEWLINE
}

/// A well-formed sequence of lines: at least one, none with a separator.
pub open spec fn lines_wf(ls: Seq<Seq<u8>>) -> bool {
    &&& ls.len() >= 1
    &&& forall|i: int| 0 <= i < ls.len() ==> has_no_newline(#[trigger] ls[i])
}

/// The extent of a sequence of lines.
pub open spec fn extent_of(ls: Seq<Seq<u8>>) -> Length {
    Length { line_count: (ls.len() - 1) as usize, byte_count: ls.last().len() as usize }
}

/// `p` names a line of `ls` and a byte offset no greater than that line's length.
pub open spec fn valid_point(ls: Seq<Seq<u8>>, p: Point) -> bool {
    p.line < ls.len() && p.byte <= ls[p.line as int].len()
}

pub open spec fn valid_range(ls: Seq<Seq<u8>>, r: Range) -> bool {
    valid_point(ls, r.start) && valid_point(ls, r.end) && point_le(r.start, r.end)
}

/// The lines that result from inserting the lines `ins` at `p`.
pub open spec fn insert_lines(ls: Seq<Seq<u8>>, p: Point, ins: Seq<Seq<u8>>) -> Seq<Seq<u8>> {
    let line = ls[p.line as int];
    let prefix = line.subrange(0, p.byte as int);
    let suffix = line.subrange(p.byte as int, line.len() as int);
    if ins.len() == 1 {
        ls.update(p.line as int, prefix + ins[0] + suffix)
    } else {
        ls.subrange(0, p.line as int)
            + seq![prefix + ins[0]]
            + ins.subrange(1, ins.len() - 1)
            + seq![ins.last() + suffix]
            + ls.subrange(p.line + 1, ls.len() as int)
    }
}

/// The lines that result from removing the text in `r`.
pub open spec fn delete_lines(ls: Seq<Seq<u8>>, r: Range) -> Seq<Seq<u8>> {
    let s = r.start;
    let e = r.end;
    let first = ls[s.line as int].subrange(0, s.byte as int);
    let last = ls[e.line as int].subrange(e.byte as int, ls[e.line as int].len() as int);
    ls.subrange(0, s.line as int) + seq![first + last] + ls.subrange(e.line + 1, ls.len() as int)
}

/// Splits `bytes` at every separator.
pub open spec fn split_lines(bytes: Seq<u8>) -> Seq<Seq<u8>>
    decreases bytes.len(),
{
    if bytes.len() == 0 {
        seq![Seq::empty()]
    } else {
        let rest = split_lines(bytes.drop_last());
        if bytes.last() == NEWLINE {
            rest.push(Seq::empty())
        } else {
            rest.update(rest.len() - 1, rest.last().push(bytes.last()))
        }
    }
}

/// Copies `s[lo..hi]` into a new vector.
pub fn copy_bytes(s: &[u8], lo: usize, hi: usize) -> (r: Vec<u8>)
    requires
        lo <= hi <= s@.len(),
    ensures
        r@ == s@.subrange(lo as int, hi as int),
{
    let mut r: Vec<u8> = Vec::new();
    let mut i: usize = lo;
    while i < hi
        invariant
            lo <= i <= hi <= s@.len(),
            r@ == s@.subrange(lo as int, i as int),
        decreases hi - i,
    {
        r.push(s[i]);
        i = i + 1;
    }
    r
}

/// Appends `s[lo..hi]` to `v`.
pub fn extend_bytes(v: &mut Vec<u8>, s: &[u8], lo: usize, hi: usize)
    requires
        lo <= hi <= s@.len(),
    ensures
        final(v)@ == old(v)@ + s@.subrange(lo as int, hi as int),
{
    let ghost v0 = v@;
    let mut i: usize = lo;
    while i < hi
        invariant
            lo <= i <= hi <= s@.len(),
            v@ == v0 + s@.subrange(lo as int, i as int),
        decreases hi - i,
    {
        v.push(s[i]);
        i = i + 1;
    }
}

proof fn lemma_split_lines_wf(bytes: Seq<u8>)
    ensures
        lines_wf(split_lines(bytes)),
    decreases bytes.len(),
{
    if bytes.len() > 0 {
        lemma_split_lines_wf(bytes.drop_last());
        let rest = split_lines(bytes.drop_last());
        if bytes.last() != NEWLINE {
            assert forall|i: int| 0 <= i < split_lines(bytes).len() implies has_no_newline(
                #[trigger] split_lines(bytes)[i],
            ) by {
                if i == rest.len() - 1 {
                    assert(has_no_newline(rest[i]));
                }
            }
        }
    }
}

proof fn lemma_concat_no_newline(a: Seq<u8>, b: Seq<u8>)
    requires
        has_no_newline(a),
        has_no_newline(b),
    ensures
        has_no_newline(a + b),
{
    assert forall|j: int| 0 <= j < (a + b).len() implies (a + b)[j] != NEWLINE by {
        if j < a.len() {
            assert((a + b)[j] == a[j]);
        } else {
            assert((a + b)[j] == b[j - a.len()]);
        }
    }
}

proof fn lemma_sub_no_newline(a: Seq<u8>, lo: int, hi: int)
    requires
        has_no_newline(a),
        0 <= lo <= hi <= a.len(),
    ensures
        has_no_newline(a.subrange(lo, hi)),
{
    assert forall|j: int| 0 <= j < hi - lo implies a.subrange(lo, hi)[j] != NEWLINE by {
        assert(a.subrange(lo, hi)[j] == a[lo + j]);
    }
}

pub proof fn lemma_insert_lines_wf(ls: Seq<Seq<u8>>, p: Point, ins: Seq<Seq<u8>>)
    requires
        lines_wf(ls),
        lines_wf(ins),
        valid_point(ls, p),
    ensures
        lines_wf(insert_lines(ls, p, ins)),
        insert_lines(ls, p, ins).len() == ls.len() + ins.len() - 1,
{
    let line = ls[p.line as int];
    let prefix = line.subrange(0, p.byte as int);
    let suffix = line.subrange(p.byte as int, line.len() as int);
    assert(has_no_newline(line));
    lemma_sub_no_newline(line, 0, p.byte as int);
    lemma_sub_no_newline(line, p.byte as int, line.len() as int);
    assert(has_no_newline(ins[0]));
    assert(has_no_newline(ins.last()));
    lemma_concat_no_newline(prefix, ins[0]);
    lemma_concat_no_newline(prefix + ins[0], suffix);
    lemma_concat_no_newline(ins.last(), suffix);
    let r = insert_lines(ls, p, ins);
    assert forall|i: int| 0 <= i < r.len() implies has_no_newline(#[trigger] r[i]) by {
        if ins.len() == 1 {
            if i != p.line {
                assert(r[i] == ls[i]);
            }
        } else {
            if i < p.line {
                assert(r[i] == ls[i]);
            } else if i == p.line {
            } else if i < p.line + ins.len() - 1 {
                assert(r[i] == ins[i - p.line]);
            } else if i == p.line + ins.len() - 1 {
            } else {
                assert(r[i] == ls[i - ins.len() + 1]);
            }
        }
    }
}

pub proof fn lemma_delete_lines_wf(ls: Seq<Seq<u8>>, r: Range)
    requires
        lines_wf(ls),
        valid_range(ls, r),
    ensures
        lines_wf(delete_lines(ls, r)),
        delete_lines(ls, r).len() == ls.len() - (r.end.line - r.start.line),
{
    let s = r.start;
    let e = r.end;
    assert(has_no_newline(ls[s.line as int]));
    assert(has_no_newline(ls[e.line as int]));
    lemma_sub_no_newline(ls[s.line as int], 0, s.byte as int);
    lemma_sub_no_newline(ls[e.line as int], e.byte as int, ls[e.line as int].len() as int);
    let first = ls[s.line as int].subrange(0, s.byte as int);
    let last = ls[e.line as int].subrange(e.byte as int, ls[e.line as int].len() as int);
    lemma_concat_no_newline(first, last);
    let d = delete_lines(ls, r);
    assert forall|i: int| 0 <= i < d.len() implies has_no_newline(#[trigger] d[i]) by {
        if i < s.line {
            assert(d[i] == ls[i]);
        } else if i > s.line {
            assert(d[i] == ls[i + (e.line - s.line)]);
        }
    }
}

impl Text {
    pub closed spec fn view(&self) -> Seq<Seq<u8>> {
        lines_of(self.lines@)
    }

    pub open spec fn wf(&self) -> bool {
        lines_wf(self.view())
    }

    /// The text with one empty line.
    pub fn new() -> (r: Text)
        ensures
            r.view() == seq![Seq::<u8>::empty()],
            r.wf(),
    {
        let mut lines: Vec<Vec<u8>> = Vec::new();
        lines.push(Vec::new());
        let r = Text { lines };
        assert(r.view() =~= seq![Seq::<u8>::empty()]);
        r
    }

    /// The text whose lines are `bytes` split at each separator.
    pub fn from_bytes(bytes: &[u8]) -> (r: Text)
        ensures
            r.view() == split_lines(bytes@),
            r.wf(),
    {
        let mut lines: Vec<Vec<u8>> = Vec::new();
        let mut current: Vec<u8> = Vec::new();
        let mut i: usize = 0;
        proof {
            assert(lines_of(lines@) + seq![current@] =~= split_lines(bytes@.subrange(0, 0)));
        }
        while i < bytes.len()
            invariant
                i <= bytes@.len(),
                lines_of(lines@) + seq![current@] == split_lines(bytes@.subrange(0, i as int)),
            decreases bytes@.len() - i,
        {
            let ghost pre = bytes@.subrange(0, i as int);
            let ghost next = bytes@.subrange(0, i + 1);
            assert(next.drop_last() =~= pre);
            let b = bytes[i];
            if b == NEWLINE {
                lines.push(current);
                current = Vec::new();
                assert(lines_of(lines@) + seq![current@] =~= split_lines(pre).push(Seq::empty()));
            } else {
                current.push(b);
                assert(lines_of(lines@) + seq![current@] =~= {
                    let rest = split_lines(pre);
                    rest.update(rest.len() - 1, rest.last().push(b))
                });
            }
            i = i + 1;
        }
        lines.push(current);
        assert(bytes@.subrange(0, bytes@.len() as int) =~= bytes@);
        let r = Text { lines };
        assert(r.view() =~= split_lines(bytes@));
        proof {
            lemma_split_lines_wf(bytes@);
        }
        r
    }

    pub fn line_count(&self) -> (r: usize)
        ensures
            r == self.view().len(),
    {
        self.lines.len()
    }

    /// The bytes of line `index`.
    pub fn line(&self, index: usize) -> (r: &[u8])
        requires
            index < self.view().len(),
        ensures
            r@ == self.view()[index as int],
    {
        self.lines[index].as_slice()
    }

    pub fn line_len(&self, index: usize) -> (r: usize)
        requires
            index < self.view().len(),
        ensures
            r == self.view()[index as int].len(),
    {
        self.lines[index].len()
    }

    pub fn extent(&self) -> (r: Length)
        requires
            self.wf(),
        ensures
            r == extent_of(self.view()),
    {
        let n = self.lines.len();
        Length { line_count: n - 1, byte_count: self.lines[n - 1].len() }
    }

    /// Inserts the lines of `ins` at `p`.
    pub fn insert(&mut self, p: Point, ins: &Text)
        requires
            old(self).wf(),
            ins.wf(),
            valid_point(old(self).view(), p),
        ensures
            final(self).view() == insert_lines(old(self).view(), p, ins.view()),
            final(self).wf(),
    {
        let ghost ls = self.view();
        let ghost iv = ins.view();
        let n = ins.lines.len();
        // The vector's length fits in `usize`, and so does the index after any line.
        let _ = self.lines.len();
        let mut tail = self.lines.split_off(p.line + 1);
        let line = self.lines.pop().unwrap();
        let ghost head = self.lines@;
        assert(lines_of(head) =~= ls.subrange(0, p.line as int));
        assert(lines_of(tail@) =~= ls.subrange(p.line + 1, ls.len() as int));
        assert(line@ == ls[p.line as int]);
        let mut first = copy_bytes(line.as_slice(), 0, p.byte);
        extend_bytes(&mut first, ins.lines[0].as_slice(), 0, ins.lines[0].len());
        assert(ins.lines[0]@.subrange(0, ins.lines[0]@.len() as int) =~= iv[0]);
        if n == 1 {
            extend_bytes(&mut first, line.as_slice(), p.byte, line.len());
            self.lines.push(first);
        } else {
            self.lines.push(first);
            let mut k: usize = 1;
            while k < n - 1
                invariant
                    1 <= k <= n - 1,
                    n == ins.lines@.len(),
                    n >= 2,
                    iv == ins.view(),
                    self.lines@.len() == p.line + k,
                    head.len() == p.line,
                    valid_point(ls, p),
                    forall|j: int| 0 <= j < p.line ==> (#[trigger] self.lines@[j])@ == head[j]@,
                    self.lines@[p.line as int]@ == ls[p.line as int].subrange(0, p.byte as int) + iv[0],
                    forall|j: int|
                        p.line < j < p.line + k ==> (#[trigger] self.lines@[j])@ == iv[j - p.line],
                decreases n - 1 - k,
            {
                let copied = copy_bytes(ins.lines[k].as_slice(), 0, ins.lines[k].len());
                assert(ins.lines[k as int]@.subrange(0, ins.lines[k as int]@.len() as int)
                    =~= iv[k as int]);
                self.lines.push(copied);
                k = k + 1;
            }
            let mut last = copy_bytes(ins.lines[n - 1].as_slice(), 0, ins.lines[n - 1].len());
            assert(ins.lines[n - 1]@.subrange(0, ins.lines[n - 1]@.len() as int) =~= iv.last());
            extend_bytes(&mut last, line.as_slice(), p.byte, line.len());
            self.lines.push(last);
        }
        self.lines.append(&mut tail);
        proof {
            let r = insert_lines(ls, p, iv);
            assert(self.view() =~= r);
            lemma_insert_lines_wf(ls, p, iv);
        }
    }

    /// Removes the text in `r`.
    pub fn delete(&mut self, r: Range)
        requires
            old(self).wf(),
            valid_range(old(self).view(), r),
        ensures
            final(self).view() == delete_lines(old(self).view(), r),
            final(self).wf(),
    {
        let ghost ls = self.view();
        let s = r.start;
        let e = r.end;
        // The vector's length fits in `usize`, and so does the index after any line.
        let _ = self.lines.len();
        let mut tail = self.lines.split_off(e.line + 1);
        assert(lines_of(tail@) =~= ls.subrange(e.line + 1, ls.len() as int));
        let end_line = self.lines.pop().unwrap();
        assert(end_line@ == ls[e.line as int]);
        let mut joined: Vec<u8>;
        if s.line == e.line {
            joined = copy_bytes(end_line.as_slice(), 0, s.byte);
        } else {
            self.lines.truncate(s.line + 1);
            let start_line = self.lines.pop().unwrap();
            assert(start_line@ == ls[s.line as int]);
            joined = copy_bytes(start_line.as_slice(), 0, s.byte);
        }
        extend_bytes(&mut joined, end_line.as_slice(), e.byte, end_line.len());
        assert(lines_of(self.lines@) =~= ls.subrange(0, s.line as int));
        self.lines.push(joined);
        self.lines.append(&mut tail);
        proof {
            assert(self.view() =~= delete_lines(ls, r));
            lemma_delete_lines_wf(ls, r);
        }
    }

    /// A copy of this text.
    pub fn copy(&self) -> (r: Text)
        ensures
            r.view() == self.view(),
    {
        let mut lines: Vec<Vec<u8>> = Vec::new();
        let mut i: usize = 0;
        while i < self.lines.len()
            invariant
                i <= self.lines@.len(),
                lines@.len() == i,
                forall|k: int| 0 <= k < i ==> (#[trigger] lines@[k])@ == self.lines@[k]@,
            decreases self.lines@.len() - i,
        {
            let line = copy_bytes(self.lines[i].as_slice(), 0, self.lines[i].len());
            proof {
                assert(self.lines[i as int]@.subrange(0, self.lines[i as int]@.len() as int)
                    =~= self.lines[i as int]@);
            }
            assert(line@ == self.lines@[i as int]@);
            lines.push(line);
            i = i + 1;
        }
        let r = Text { lines };
        assert(r.view() =~= self.view());
        r
    }
}


/// Walks the chunks of a text, first to last: each line with the separator that
/// follows it, the last line alone. Joined, the chunks are the text's bytes.
#[derive(Clone, Debug)]
pub struct Chunks<'a> {
    is_at_end: bool,
    text: &'a Text,
    cursor: usize,
}

impl<'a> Chunks<'a> {
    /// The bytes that are still to come.
    pub closed spec fn remaining(&self) -> Seq<u8> {
        if self.is_at_end {
            Seq::empty()
        } else {
            let f = flat(self.text.view());
            f.subrange(offset(self.text.view(), Point { line: self.cursor, byte: 0 }), f.len() as int)
        }
    }

    pub closed spec fn wf(&self) -> bool {
        &&& self.is_at_end || self.cursor < self.text.view().len()
        &&& self.text.view().len() <= usize::MAX
    }

    pub fn new(text: &'a Text) -> (r: Chunks<'a>)
        requires
            text.wf(),
        ensures
            r.wf(),
            r.remaining() == flat(text.view()),
    {
        // The line count fits in `usize`.
        let _ = text.line_count();
        let r = Chunks { is_at_end: false, text, cursor: 0 };
        assert(text.view().subrange(0, 0) =~= Seq::<Seq<u8>>::empty());
        assert(flat(text.view()).subrange(0, flat(text.view()).len() as int) =~= flat(text.view()));
        r
    }

    /// The next chunk, if any bytes remain to be walked.
    pub fn next(&mut self) -> (r: Option<Vec<u8>>)
        requires
            old(self).wf(),
        ensures
            final(self).wf(),
            old(self).is_done() ==> r is None && final(self).is_done(),
            !old(self).is_done() ==> (r matches Some(c) && old(self).remaining() == c@ + final(self).remaining()),
            final(self).is_done() ==> final(self).remaining().len() == 0,
    {
        if self.is_at_end {
            return None;
        }
        let ghost before = self.remaining();
        let line = self.text.line(self.cursor);
        let mut chunk = copy_bytes(line, 0, line.len());
        let count = self.text.line_count();
        proof {
            lemma_flat_from_line(self.text.view(), self.cursor as int);
            assert(line@.subrange(0, line@.len() as int) =~= line@);
        }
        if self.cursor + 1 < count {
            chunk.push(NEWLINE);
            self.cursor = self.cursor + 1;
            assert(before =~= chunk@ + self.remaining());
        } else {
            self.is_at_end = true;
            assert(before =~= chunk@ + self.remaining());
        }
        Some(chunk)
    }

    /// Whether every chunk has been walked.
    pub closed spec fn is_done(&self) -> bool {
        self.is_at_end
    }
}

} // verus!
