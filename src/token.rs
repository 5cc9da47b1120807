use vstd::prelude::*;

verus! {

/// The class of a token. The tokenizer here tells whitespace from everything else.
#[derive(Clone, Copy, Debug, PartialEq, Eq, Structural)]
pub enum TokenKind {
    Whitespace,
    Unknown,
}

/// A run of bytes of one class within a line.
#[derive(Clone, Copy, Debug, PartialEq, Eq, Structural)]
pub struct Token {
    pub len: usize,
    pub kind: TokenKind,
}

/// How many bytes the character starting at byte `i` of `s` takes: as its
/// first byte announces in UTF-8, cut short at the end of `s`; a byte that
/// starts no character counts as a character of its own.
pub open spec fn char_len(s: Seq<u8>, i: int) -> int {
    let b = s[i];
    let want: int = if b < 0x80 { 1 } else if 0xC0 <= b && b < 0xE0 { 2 } else if 0xE0 <= b && b < 0xF0 { 3 } else if 0xF0 <= b && b < 0xF8 { 4 } else { 1 };
    if i + want > s.len() { s.len() - i } else { want }
}

/// The character starting at byte `i` of `s` is Unicode white space: U+0009 to
/// U+000D, U+0020, U+0085, U+00A0, U+1680, U+2000 to U+200A, U+2028, U+2029,
/// U+202F, U+205F or U+3000.
pub open spec fn space_at(s: Seq<u8>, i: int) -> bool {
    let b = s[i];
    ||| b == 32 || (9 <= b && b <= 13)
    ||| (b == 0xC2 && i + 1 < s.len() && (s[i + 1] == 0x85 || s[i + 1] == 0xA0))
    ||| (i + 2 < s.len() && (
        (b == 0xE1 && s[i + 1] == 0x9A && s[i + 2] == 0x80)
        || (b == 0xE2 && s[i + 1] == 0x80 && ((0x80 <= s[i + 2] && s[i + 2] <= 0x8A) || s[i + 2] == 0xA8 || s[i + 2] == 0xA9 || s[i + 2] == 0xAF))
        || (b == 0xE2 && s[i + 1] == 0x81 && s[i + 2] == 0x9F)
        || (b == 0xE3 && s[i + 1] == 0x80 && s[i + 2] == 0x80)))
}

/// The kind of each byte of `s` from byte `i` on: the kind of the character it belongs to.
pub open spec fn kinds_from(s: Seq<u8>, i: int) -> Seq<TokenKind>
    decreases s.len() - i,
{
    if i < 0 || i >= s.len() {
        seq![]
    } else {
        let k = if space_at(s, i) { TokenKind::Whitespace } else { TokenKind::Unknown };
        Seq::new(char_len(s, i) as nat, |j: int| k) + kinds_from(s, i + char_len(s, i))
    }
}

/// The sum of the lengths of the tokens.
pub open spec fn total_len(ts: Seq<Token>) -> nat
    decreases ts.len(),
{
    if ts.len() == 0 { 0 } else { ts[0].len as nat + total_len(ts.drop_first()) }
}

/// The maximal runs of equal kinds in `ks`, from left to right.
pub open spec fn runs(ks: Seq<TokenKind>) -> Seq<Token>
    decreases ks.len(),
{
    if ks.len() == 0 {
        seq![]
    } else {
        let rest = runs(ks.drop_last());
        let k = ks.last();
        if rest.len() > 0 && rest.last().kind == k {
            rest.update(rest.len() - 1, Token { len: (rest.last().len + 1) as usize, kind: k })
        } else {
            rest.push(Token { len: 1, kind: k })
        }
    }
}

/// The tokens of `s`: its maximal runs of white space and of other characters.
pub open spec fn run_tokens(s: Seq<u8>) -> Seq<Token> {
    runs(kinds_from(s, 0))
}

/// The tokens that cover the first `b` bytes of the bytes that `ts` covers; a token
/// that straddles offset `b` is cut, keeping its kind.
pub open spec fn split_prefix(ts: Seq<Token>, b: nat) -> Seq<Token>
    decreases ts.len(),
{
    if ts.len() == 0 {
        seq![]
    } else if ts[0].len <= b {
        seq![ts[0]] + split_prefix(ts.drop_first(), (b - ts[0].len) as nat)
    } else if b == 0 {
        seq![]
    } else {
        seq![Token { len: b as usize, kind: ts[0].kind }]
    }
}

/// The tokens that cover the bytes of `ts` from offset `b` on.
pub open spec fn split_suffix(ts: Seq<Token>, b: nat) -> Seq<Token>
    decreases ts.len(),
{
    if ts.len() == 0 {
        seq![]
    } else if ts[0].len <= b {
        split_suffix(ts.drop_first(), (b - ts[0].len) as nat)
    } else if b == 0 {
        ts
    } else {
        seq![Token { len: (ts[0].len - b) as usize, kind: ts[0].kind }] + ts.drop_first()
    }
}

pub proof fn lemma_total_len_concat(a: Seq<Token>, b: Seq<Token>)
    ensures
        total_len(a + b) == total_len(a) + total_len(b),
    decreases a.len(),
{
    if a.len() > 0 {
        assert((a + b).drop_first() =~= a.drop_first() + b);
        lemma_total_len_concat(a.drop_first(), b);
    } else {
        assert(a + b =~= b);
    }
}

pub proof fn lemma_total_len_one(t: Token)
    ensures
        total_len(seq![t]) == t.len,
{
    reveal_with_fuel(total_len, 2);
    assert(seq![t].drop_first() =~= Seq::<Token>::empty());
}

/// Splitting at `b` keeps all the bytes: `b` of them before, the rest after.
pub proof fn lemma_split_lengths(ts: Seq<Token>, b: nat)
    requires
        b <= total_len(ts),
    ensures
        total_len(split_prefix(ts, b)) == b,
        total_len(split_suffix(ts, b)) == total_len(ts) - b,
    decreases ts.len(),
{
    if ts.len() > 0 {
        if ts[0].len <= b {
            lemma_split_lengths(ts.drop_first(), (b - ts[0].len) as nat);
            lemma_total_len_concat(seq![ts[0]], split_prefix(ts.drop_first(), (b - ts[0].len) as nat));
            lemma_total_len_one(ts[0]);
        } else if b == 0 {
        } else {
            lemma_total_len_one(Token { len: b as usize, kind: ts[0].kind });
            let t = Token { len: (ts[0].len - b) as usize, kind: ts[0].kind };
            lemma_total_len_concat(seq![t], ts.drop_first());
            lemma_total_len_one(t);
        }
    }
}

proof fn lemma_runs_len(s: Seq<TokenKind>)
    requires
        s.len() <= usize::MAX,
    ensures
        total_len(runs(s)) == s.len(),
        forall|k: int| 0 <= k < runs(s).len() ==> 0 < (#[trigger] runs(s)[k]).len <= s.len(),
    decreases s.len(),
{
    if s.len() > 0 {
        lemma_runs_len(s.drop_last());
        let rest = runs(s.drop_last());
        let k = s.last();
        if rest.len() > 0 && rest.last().kind == k {
            let t = Token { len: (rest.last().len + 1) as usize, kind: k };
            assert(rest =~= rest.drop_last() + seq![rest.last()]);
            assert(rest.update(rest.len() - 1, t) =~= rest.drop_last() + seq![t]);
            lemma_total_len_concat(rest.drop_last(), seq![rest.last()]);
            lemma_total_len_concat(rest.drop_last(), seq![t]);
            lemma_total_len_one(rest.last());
            lemma_total_len_one(t);
            assert(runs(s) == rest.update(rest.len() - 1, t));
            assert forall|j: int| 0 <= j < runs(s).len() implies 0 < (#[trigger] runs(s)[j]).len <= s.len() by {
                if j < rest.len() - 1 {
                    assert(runs(s)[j] == rest[j]);
                }
            }
        } else {
            let t = Token { len: 1, kind: k };
            assert(rest.push(t) =~= rest + seq![t]);
            lemma_total_len_concat(rest, seq![t]);
            lemma_total_len_one(t);
            assert(runs(s) == rest.push(t));
            assert forall|j: int| 0 <= j < runs(s).len() implies 0 < (#[trigger] runs(s)[j]).len <= s.len() by {
                if j < rest.len() {
                    assert(runs(s)[j] == rest[j]);
                }
            }
        }
    }
}

/// The kind of every byte of `text`.
fn byte_kinds(text: &[u8]) -> (r: Vec<TokenKind>)
    ensures
        r@ == kinds_from(text@, 0),
{
    let n = text.len();
    let mut out: Vec<TokenKind> = Vec::new();
    let mut i: usize = 0;
    proof {
        assert(out@ + kinds_from(text@, 0) =~= kinds_from(text@, 0));
    }
    while i < n
        invariant
            i <= n,
            n == text@.len(),
            out@ + kinds_from(text@, i as int) == kinds_from(text@, 0),
        decreases n - i,
    {
        let b = text[i];
        let want: usize = if b < 0x80 { 1 } else if 0xC0 <= b && b < 0xE0 { 2 } else if 0xE0 <= b && b < 0xF0 { 3 } else if 0xF0 <= b && b < 0xF8 { 4 } else { 1 };
        let len: usize = if want > n - i { n - i } else { want };
        assert(len == char_len(text@, i as int));
        let space = b == 32 || (9 <= b && b <= 13)
            || (b == 0xC2 && n - i > 1 && (text[i + 1] == 0x85 || text[i + 1] == 0xA0))
            || (n - i > 2 && (
                (b == 0xE1 && text[i + 1] == 0x9A && text[i + 2] == 0x80)
                || (b == 0xE2 && text[i + 1] == 0x80 && ((0x80 <= text[i + 2] && text[i + 2] <= 0x8A) || text[i + 2] == 0xA8 || text[i + 2] == 0xA9 || text[i + 2] == 0xAF))
                || (b == 0xE2 && text[i + 1] == 0x81 && text[i + 2] == 0x9F)
                || (b == 0xE3 && text[i + 1] == 0x80 && text[i + 2] == 0x80)));
        assert(space == space_at(text@, i as int));
        let k = if space { TokenKind::Whitespace } else { TokenKind::Unknown };
        let ghost out0 = out@;
        let mut j: usize = 0;
        while j < len
            invariant
                j <= len,
                out@ == out0 + Seq::new(j as nat, |x: int| k),
            decreases len - j,
        {
            out.push(k);
            j = j + 1;
            assert(out@ =~= out0 + Seq::new(j as nat, |x: int| k));
        }
        assert(out@ + kinds_from(text@, i + len) =~= out0 + kinds_from(text@, i as int));
        i = i + len;
    }
    assert(kinds_from(text@, i as int) =~= Seq::<TokenKind>::empty());
    assert(out@ + Seq::<TokenKind>::empty() =~= out@);
    out
}

proof fn lemma_kinds_len(s: Seq<u8>, i: int)
    requires
        0 <= i <= s.len(),
    ensures
        kinds_from(s, i).len() == s.len() - i,
    decreases s.len() - i,
{
    if i < s.len() {
        lemma_kinds_len(s, i + char_len(s, i));
    }
}

/// Splits `text` into its maximal runs of white space and of other characters.
pub fn tokenize(text: &[u8]) -> (r: Vec<Token>)
    ensures
        r@ == run_tokens(text@),
        total_len(r@) == text@.len(),
{
    let kinds = byte_kinds(text);
    let ghost ks = kinds@;
    proof {
        lemma_kinds_len(text@, 0);
    }
    let n = kinds.len();
    let mut tokens: Vec<Token> = Vec::new();
    if n == 0 {
        proof {
            lemma_runs_len(ks);
        }
        return tokens;
    }
    let mut kind = kinds[0];
    let mut len: usize = 1;
    let mut i: usize = 1;
    proof {
        let s1 = ks.subrange(0, 1);
        assert(s1.drop_last() =~= Seq::<TokenKind>::empty());
        assert(s1.last() == ks[0]);
        reveal_with_fuel(runs, 2);
        assert(runs(s1) =~= seq![Token { len: 1, kind: kind }]);
    }
    while i < n
        invariant
            1 <= i <= n,
            n == ks.len(),
            ks == kinds@,
            tokens@.push(Token { len, kind }) == runs(ks.subrange(0, i as int)),
        decreases n - i,
    {
        let ghost pre = ks.subrange(0, i as int);
        assert(ks.subrange(0, i + 1).drop_last() =~= pre);
        proof {
            lemma_runs_len(pre);
            assert(runs(pre).last() == Token { len, kind });
        }
        let k = kinds[i];
        if k == kind {
            len = len + 1;
            assert(tokens@.push(Token { len, kind }) =~= runs(ks.subrange(0, i + 1)));
        } else {
            tokens.push(Token { len, kind });
            kind = k;
            len = 1;
            assert(tokens@.push(Token { len, kind }) =~= runs(ks.subrange(0, i + 1)));
        }
        i = i + 1;
    }
    tokens.push(Token { len, kind });
    proof {
        assert(ks.subrange(0, n as int) =~= ks);
        lemma_runs_len(ks);
    }
    tokens
}

/// Splits the tokens at byte offset `b` into the tokens before and after it.
pub fn split_tokens(ts: &Vec<Token>, b: usize) -> (r: (Vec<Token>, Vec<Token>))
    requires
        b <= total_len(ts@),
    ensures
        r.0@ == split_prefix(ts@, b as nat),
        r.1@ == split_suffix(ts@, b as nat),
{
    let mut prefix: Vec<Token> = Vec::new();
    let mut i: usize = 0;
    let mut rem: usize = b;
    proof {
        assert(ts@.skip(0) =~= ts@);
    }
    while i < ts.len() && ts[i].len <= rem
        invariant
            i <= ts@.len(),
            rem <= b,
            split_prefix(ts@, b as nat) == prefix@ + split_prefix(ts@.skip(i as int), rem as nat),
            split_suffix(ts@, b as nat) == split_suffix(ts@.skip(i as int), rem as nat),
        decreases ts@.len() - i,
    {
        let ghost rest = ts@.skip(i as int);
        assert(rest.drop_first() =~= ts@.skip(i + 1));
        assert(rest[0] == ts@[i as int]);
        prefix.push(ts[i]);
        rem = rem - ts[i].len;
        i = i + 1;
        proof {
            assert(prefix@ + split_prefix(ts@.skip(i as int), rem as nat) =~= prefix@.drop_last()
                + (seq![ts@[i - 1]] + split_prefix(ts@.skip(i as int), rem as nat)));
        }
    }
    let mut suffix: Vec<Token> = Vec::new();
    let ghost rest = ts@.skip(i as int);
    if i < ts.len() {
        assert(rest.drop_first() =~= ts@.skip(i + 1));
        let t = ts[i];
        if rem == 0 {
            assert(prefix@ + seq![] =~= prefix@);
            let mut j: usize = i;
            while j < ts.len()
                invariant
                    i <= j <= ts@.len(),
                    suffix@ == ts@.subrange(i as int, j as int),
                decreases ts@.len() - j,
            {
                suffix.push(ts[j]);
                j = j + 1;
            }
            assert(suffix@ =~= rest);
        } else {
            prefix.push(Token { len: rem, kind: t.kind });
            suffix.push(Token { len: t.len - rem, kind: t.kind });
            let mut j: usize = i + 1;
            while j < ts.len()
                invariant
                    i + 1 <= j <= ts@.len(),
                    suffix@ == seq![Token { len: (t.len - rem) as usize, kind: t.kind }] + ts@.subrange(i + 1, j as int),
                decreases ts@.len() - j,
            {
                suffix.push(ts[j]);
                j = j + 1;
                assert(suffix@ =~= seq![Token { len: (t.len - rem) as usize, kind: t.kind }] + ts@.subrange(i + 1, j as int));
            }
            assert(ts@.subrange(i + 1, ts@.len() as int) =~= ts@.skip(i + 1));
        }
    } else {
        assert(rest.len() == 0);
        assert(prefix@ + seq![] =~= prefix@);
    }
    (prefix, suffix)
}

} // verus!
