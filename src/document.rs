use vstd::prelude::*;
use crate::point::{Point, point_lt};
use crate::text::{Text, lines_wf};
use crate::change::{Change, ChangeKind, ChangeModel, Drift, change_applies, apply_change_lines, apply_changes_lines, change_model_wf, point_after_change, point_change_fits};
use crate::token::{
    Token, total_len, run_tokens, split_prefix, split_suffix, tokenize, split_tokens,
    lemma_total_len_concat, lemma_split_lengths,
};
use crate::inlays::{InlineInlay, BlockInlay};

verus! {

/// The identity of a session attached to a document.
#[derive(Clone, Copy, Debug, PartialEq, Eq, Structural, Hash)]
pub struct SessionId(pub usize);

/// The canonical text shared by all sessions, with the per-line tokens and
/// decorations derived from it, and one queue of pending changes per session.
#[derive(Debug)]
pub struct Document {
    text: Text,
    tokens: Vec<Vec<Token>>,
    inline_inlays: Vec<Vec<(usize, InlineInlay)>>,
    block_inlays: Vec<(usize, BlockInlay)>,
    /// One queue per attached session, each identity at most once (see `queues_wf`).
    /// A vector rather than a hash map keyed by identity: the order in which a
    /// hash map is walked is not specified, while a vector's is, and every
    /// operation here visits each queue anyway.
    change_queues: Vec<(SessionId, Vec<Change>)>,
    next_session_id: usize,
}

/// The per-line token lists as sequences.
pub open spec fn token_rows(v: Seq<Vec<Token>>) -> Seq<Seq<Token>> {
    Seq::new(v.len(), |i: int| v[i]@)
}

/// The per-line inlay lists as sequences.
pub open spec fn inlay_rows(v: Seq<Vec<(usize, InlineInlay)>>) -> Seq<Seq<(usize, InlineInlay)>> {
    Seq::new(v.len(), |i: int| v[i]@)
}

/// Every line has one token list, and its tokens cover exactly the line's bytes.
pub open spec fn tokens_cover(rows: Seq<Seq<Token>>, ls: Seq<Seq<u8>>) -> bool {
    &&& rows.len() == ls.len()
    &&& forall|i: int| 0 <= i < ls.len() ==> total_len(#[trigger] rows[i]) == ls[i].len()
}

/// The token lists after the change `c`: tokens are cut at the edit's boundaries,
/// inserted lines are tokenized afresh, and the cut pieces are joined around them.
pub open spec fn tokens_after_change(rows: Seq<Seq<Token>>, c: ChangeModel) -> Seq<Seq<Token>> {
    match c {
        ChangeModel::Insert(_, p, t) => {
            let row = rows[p.line as int];
            let pre = split_prefix(row, p.byte as nat);
            let suf = split_suffix(row, p.byte as nat);
            if t.len() == 1 {
                rows.update(p.line as int, pre + run_tokens(t[0]) + suf)
            } else {
                rows.subrange(0, p.line as int)
                    + seq![pre + run_tokens(t[0])]
                    + Seq::new((t.len() - 2) as nat, |k: int| run_tokens(t[k + 1]))
                    + seq![run_tokens(t.last()) + suf]
                    + rows.subrange(p.line + 1, rows.len() as int)
            }
        },
        ChangeModel::Delete(_, r) => {
            let s = r.start;
            let e = r.end;
            rows.subrange(0, s.line as int)
                + seq![split_prefix(rows[s.line as int], s.byte as nat) + split_suffix(rows[e.line as int], e.byte as nat)]
                + rows.subrange(e.line + 1, rows.len() as int)
        },
    }
}

/// Every line of `t` is covered by its tokens.
pub open spec fn lines_tokenizable(t: Seq<Seq<u8>>) -> bool {
    forall|k: int| 0 <= k < t.len() ==> total_len(run_tokens(#[trigger] t[k])) == t[k].len()
}

/// Token coverage is kept by every change.
pub proof fn lemma_tokens_cover_after_change(rows: Seq<Seq<Token>>, ls: Seq<Seq<u8>>, c: ChangeModel)
    requires
        lines_wf(ls),
        tokens_cover(rows, ls),
        change_applies(ls, c),
        match c {
            ChangeModel::Insert(_, _, t) => lines_tokenizable(t),
            ChangeModel::Delete(_, _) => true,
        },
    ensures
        tokens_cover(tokens_after_change(rows, c), apply_change_lines(ls, c)),
{
    let rs = tokens_after_change(rows, c);
    let nl = apply_change_lines(ls, c);
    match c {
        ChangeModel::Insert(_, p, t) => {
            crate::text::lemma_insert_lines_wf(ls, p, t);
            let row = rows[p.line as int];
            let line = ls[p.line as int];
            let pre = split_prefix(row, p.byte as nat);
            let suf = split_suffix(row, p.byte as nat);
            lemma_split_lengths(row, p.byte as nat);
            assert(total_len(run_tokens(t[0])) == t[0].len());
            assert(total_len(run_tokens(t.last())) == t.last().len());
            lemma_total_len_concat(pre, run_tokens(t[0]));
            lemma_total_len_concat(pre + run_tokens(t[0]), suf);
            lemma_total_len_concat(run_tokens(t.last()), suf);
            assert forall|i: int| 0 <= i < nl.len() implies total_len(#[trigger] rs[i]) == nl[i].len() by {
                if t.len() == 1 {
                    if i == p.line {
                        assert(nl[i] == line.subrange(0, p.byte as int) + t[0] + line.subrange(p.byte as int, line.len() as int));
                    }
                } else {
                    if i < p.line {
                        assert(rs[i] == rows[i]);
                        assert(nl[i] == ls[i]);
                    } else if i == p.line {
                        assert(nl[i] == line.subrange(0, p.byte as int) + t[0]);
                    } else if i < p.line + t.len() - 1 {
                        assert(rs[i] == run_tokens(t[i - p.line]));
                        assert(nl[i] == t[i - p.line]);
                    } else if i == p.line + t.len() - 1 {
                        assert(nl[i] == t.last() + line.subrange(p.byte as int, line.len() as int));
                    } else {
                        assert(rs[i] == rows[i - t.len() + 1]);
                        assert(nl[i] == ls[i - t.len() + 1]);
                    }
                }
            }
        },
        ChangeModel::Delete(_, r) => {
            crate::text::lemma_delete_lines_wf(ls, r);
            let s = r.start;
            let e = r.end;
            lemma_split_lengths(rows[s.line as int], s.byte as nat);
            lemma_split_lengths(rows[e.line as int], e.byte as nat);
            lemma_total_len_concat(split_prefix(rows[s.line as int], s.byte as nat), split_suffix(rows[e.line as int], e.byte as nat));
            assert forall|i: int| 0 <= i < nl.len() implies total_len(#[trigger] rs[i]) == nl[i].len() by {
                if i < s.line {
                    assert(rs[i] == rows[i]);
                    assert(nl[i] == ls[i]);
                } else if i > s.line {
                    assert(rs[i] == rows[i + (e.line - s.line)]);
                    assert(nl[i] == ls[i + (e.line - s.line)]);
                }
            }
        },
    }
}

/// The token lists after the changes `cs`, first to last.
pub open spec fn tokens_after_changes(rows: Seq<Seq<Token>>, cs: Seq<ChangeModel>) -> Seq<Seq<Token>>
    decreases cs.len(),
{
    if cs.len() == 0 {
        rows
    } else {
        tokens_after_change(tokens_after_changes(rows, cs.drop_last()), cs.last())
    }
}

/// The inline inlay lists after the changes `cs`, first to last.
pub open spec fn inlays_after_changes(rows: Seq<Seq<(usize, InlineInlay)>>, cs: Seq<ChangeModel>) -> Seq<Seq<(usize, InlineInlay)>>
    decreases cs.len(),
{
    if cs.len() == 0 {
        rows
    } else {
        inlays_after_change(inlays_after_changes(rows, cs.drop_last()), cs.last())
    }
}

/// Each of `cs` can be applied to the text the ones before it leave, and each
/// inserted line is covered by its tokens.
pub open spec fn changes_apply(ls: Seq<Seq<u8>>, cs: Seq<ChangeModel>) -> bool
    decreases cs.len(),
{
    cs.len() == 0 || {
        &&& changes_apply(ls, cs.drop_last())
        &&& change_applies(apply_changes_lines(ls, cs.drop_last()), cs.last())
        &&& match cs.last() {
            ChangeModel::Insert(_, _, t) => lines_tokenizable(t),
            ChangeModel::Delete(_, _) => true,
        }
    }
}

/// Token coverage: whatever sequence of changes is applied, the tokens of every
/// line still cover exactly that line's bytes.
pub proof fn lemma_tokens_cover_after_changes(rows: Seq<Seq<Token>>, ls: Seq<Seq<u8>>, cs: Seq<ChangeModel>)
    requires
        lines_wf(ls),
        tokens_cover(rows, ls),
        changes_apply(ls, cs),
    ensures
        lines_wf(apply_changes_lines(ls, cs)),
        tokens_cover(tokens_after_changes(rows, cs), apply_changes_lines(ls, cs)),
    decreases cs.len(),
{
    if cs.len() > 0 {
        lemma_tokens_cover_after_changes(rows, ls, cs.drop_last());
        let prev = apply_changes_lines(ls, cs.drop_last());
        lemma_tokens_cover_after_change(tokens_after_changes(rows, cs.drop_last()), prev, cs.last());
        match cs.last() {
            ChangeModel::Insert(_, p, t) => {
                crate::text::lemma_insert_lines_wf(prev, p, t);
            },
            ChangeModel::Delete(_, r) => {
                crate::text::lemma_delete_lines_wf(prev, r);
            },
        }
    }
}

/// How the inlays of one line are carried through a change: which anchors stay,
/// and where each that stays goes.
pub enum InlayRule {
    /// All stay; those at or after the insertion point (per drift) move right by `add`.
    Shift { byte: usize, drift: Drift, add: usize },
    /// Only those before the insertion point (per drift) stay, unmoved.
    Before { byte: usize, drift: Drift },
    /// Only those at or after the insertion point (per drift) stay, rebased onto
    /// the last inserted line, which holds `add` bytes before them.
    After { byte: usize, drift: Drift, add: usize },
    /// Only those outside `(start, end)` stay; those from `end` on move to `start`.
    Outside { start: usize, end: usize },
    /// Only those up to `start` stay, unmoved.
    UpTo { start: usize },
    /// Only those from `end` on stay, moved to `start`.
    From { start: usize, end: usize },
}

/// An anchor at `a` is moved by an insertion at byte `b` of the same line.
pub open spec fn moved_by_insert(a: usize, b: usize, drift: Drift) -> bool {
    a > b || (a == b && drift == Drift::Before)
}

pub open spec fn rule_keeps(rule: InlayRule, a: usize) -> bool {
    match rule {
        InlayRule::Shift { .. } => true,
        InlayRule::Before { byte, drift } => !moved_by_insert(a, byte, drift),
        InlayRule::After { byte, drift, .. } => moved_by_insert(a, byte, drift),
        InlayRule::Outside { start, end } => a <= start || a >= end,
        InlayRule::UpTo { start } => a <= start,
        InlayRule::From { end, .. } => a >= end,
    }
}

pub open spec fn rule_moves(rule: InlayRule, a: usize) -> usize {
    match rule {
        InlayRule::Shift { byte, drift, add } => if moved_by_insert(a, byte, drift) { (a + add) as usize } else { a },
        InlayRule::Before { .. } => a,
        InlayRule::After { byte, add, .. } => (a - byte + add) as usize,
        InlayRule::Outside { start, end } => if a >= end { (a - end + start) as usize } else { a },
        InlayRule::UpTo { .. } => a,
        InlayRule::From { start, end } => (a - end + start) as usize,
    }
}

/// Moving an anchor kept by `rule` stays within `usize`.
pub open spec fn rule_moves_fits(rule: InlayRule, a: usize) -> bool {
    match rule {
        InlayRule::Shift { add, .. } => a + add <= usize::MAX,
        InlayRule::Before { .. } => true,
        InlayRule::After { byte, add, .. } => a - byte + add <= usize::MAX,
        InlayRule::Outside { start, end } => a - end + start <= usize::MAX,
        InlayRule::UpTo { .. } => true,
        InlayRule::From { start, end } => a - end + start <= usize::MAX,
    }
}

/// The inlays of `row` that `rule` keeps, moved as it says, in their order.
pub open spec fn apply_rule(row: Seq<(usize, InlineInlay)>, rule: InlayRule) -> Seq<(usize, InlineInlay)>
    decreases row.len(),
{
    if row.len() == 0 {
        seq![]
    } else {
        let rest = apply_rule(row.drop_last(), rule);
        let (a, x) = row.last();
        if rule_keeps(rule, a) { rest.push((rule_moves(rule, a), x)) } else { rest }
    }
}

/// The inline inlay lists after the change `c`.
pub open spec fn inlays_after_change(rows: Seq<Seq<(usize, InlineInlay)>>, c: ChangeModel) -> Seq<Seq<(usize, InlineInlay)>> {
    match c {
        ChangeModel::Insert(drift, p, t) => {
            let row = rows[p.line as int];
            if t.len() == 1 {
                rows.update(p.line as int, apply_rule(row, InlayRule::Shift { byte: p.byte, drift, add: t[0].len() as usize }))
            } else {
                rows.subrange(0, p.line as int)
                    + seq![apply_rule(row, InlayRule::Before { byte: p.byte, drift })]
                    + Seq::new((t.len() - 2) as nat, |k: int| Seq::<(usize, InlineInlay)>::empty())
                    + seq![apply_rule(row, InlayRule::After { byte: p.byte, drift, add: t.last().len() as usize })]
                    + rows.subrange(p.line + 1, rows.len() as int)
            }
        },
        ChangeModel::Delete(_, r) => {
            let s = r.start;
            let e = r.end;
            let joined = if s.line == e.line {
                apply_rule(rows[s.line as int], InlayRule::Outside { start: s.byte, end: e.byte })
            } else {
                apply_rule(rows[s.line as int], InlayRule::UpTo { start: s.byte })
                    + apply_rule(rows[e.line as int], InlayRule::From { start: s.byte, end: e.byte })
            };
            rows.subrange(0, s.line as int) + seq![joined] + rows.subrange(e.line + 1, rows.len() as int)
        },
    }
}

/// Each line has one inlay list, and every anchor lies within its line.
pub open spec fn inlays_within(rows: Seq<Seq<(usize, InlineInlay)>>, ls: Seq<Seq<u8>>) -> bool {
    &&& rows.len() == ls.len()
    &&& forall|i: int, k: int| 0 <= i < ls.len() && 0 <= k < rows[i].len() ==> (#[trigger] rows[i][k]).0 <= ls[i].len()
}

/// Every inlay that a rule keeps comes from the row, moved as the rule says.
pub proof fn lemma_apply_rule_from(row: Seq<(usize, InlineInlay)>, rule: InlayRule, k: int)
    requires
        0 <= k < apply_rule(row, rule).len(),
    ensures
        exists|j: int| 0 <= j < row.len() && rule_keeps(rule, row[j].0)
            && apply_rule(row, rule)[k] == (rule_moves(rule, row[j].0), row[j].1),
    decreases row.len(),
{
    let rest = apply_rule(row.drop_last(), rule);
    if k < rest.len() {
        lemma_apply_rule_from(row.drop_last(), rule, k);
        let j = choose|j: int| 0 <= j < row.drop_last().len() && rule_keeps(rule, row.drop_last()[j].0)
            && rest[k] == (rule_moves(rule, row.drop_last()[j].0), row.drop_last()[j].1);
        assert(row[j] == row.drop_last()[j]);
    } else {
        assert(row[row.len() - 1] == row.last());
    }
}

/// Every inlay of the row that a rule keeps is in the result, moved as the rule says.
pub proof fn lemma_apply_rule_to(row: Seq<(usize, InlineInlay)>, rule: InlayRule, j: int)
    requires
        0 <= j < row.len(),
        rule_keeps(rule, row[j].0),
    ensures
        exists|k: int| 0 <= k < apply_rule(row, rule).len()
            && apply_rule(row, rule)[k] == (rule_moves(rule, row[j].0), row[j].1),
    decreases row.len(),
{
    let rest = apply_rule(row.drop_last(), rule);
    if j < row.len() - 1 {
        lemma_apply_rule_to(row.drop_last(), rule, j);
        let k = choose|k: int| 0 <= k < rest.len() && rest[k] == (rule_moves(rule, row.drop_last()[j].0), row.drop_last()[j].1);
        assert(apply_rule(row, rule)[k] == rest[k]);
    } else {
        assert(apply_rule(row, rule)[rest.len() as int] == (rule_moves(rule, row[j].0), row[j].1));
    }
}

/// Carries the inlays of one line through `rule`, keeping their order.
fn carry_inlays(row: Vec<(usize, InlineInlay)>, rule: &InlayRule) -> (r: Vec<(usize, InlineInlay)>)
    requires
        forall|k: int| 0 <= k < row@.len() && rule_keeps(*rule, (#[trigger] row@[k]).0) ==> rule_moves_fits(*rule, row@[k].0),
    ensures
        r@ == apply_rule(row@, *rule),
{
    let ghost orig = row@;
    let n = row.len();
    let mut row = row;
    let mut out: Vec<(usize, InlineInlay)> = Vec::new();
    let mut i: usize = 0;
    proof {
        assert(orig.subrange(0, 0) =~= Seq::<(usize, InlineInlay)>::empty());
        assert(orig.subrange(0, orig.len() as int) =~= orig);
    }
    while row.len() > 0
        invariant
            i + row@.len() == orig.len(),
            orig.len() == n,
            row@ == orig.subrange(i as int, orig.len() as int),
            out@ == apply_rule(orig.subrange(0, i as int), *rule),
            forall|k: int| 0 <= k < orig.len() && rule_keeps(*rule, (#[trigger] orig[k]).0) ==> rule_moves_fits(*rule, orig[k].0),
        decreases row@.len(),
    {
        let (a, x) = row.remove(0);
        let ghost pre = orig.subrange(0, i + 1);
        assert(pre.drop_last() =~= orig.subrange(0, i as int));
        assert(pre.last() == orig[i as int]);
        let keeps = match rule {
            InlayRule::Shift { .. } => true,
            InlayRule::Before { byte, drift } => !(a > *byte || (a == *byte && *drift == Drift::Before)),
            InlayRule::After { byte, drift, .. } => a > *byte || (a == *byte && *drift == Drift::Before),
            InlayRule::Outside { start, end } => a <= *start || a >= *end,
            InlayRule::UpTo { start } => a <= *start,
            InlayRule::From { end, .. } => a >= *end,
        };
        if keeps {
            let moved = match rule {
                InlayRule::Shift { byte, drift, add } => if a > *byte || (a == *byte && *drift == Drift::Before) { a + *add } else { a },
                InlayRule::Before { .. } => a,
                InlayRule::After { byte, add, .. } => a - *byte + *add,
                InlayRule::Outside { start, end } => if a >= *end { a - *end + *start } else { a },
                InlayRule::UpTo { .. } => a,
                InlayRule::From { start, end } => a - *end + *start,
            };
            out.push((moved, x));
        }
        i = i + 1;
        assert(row@ =~= orig.subrange(i as int, orig.len() as int));
    }
    out
}

/// The lines that a change rewrites hold no more than `usize::MAX` bytes.
pub open spec fn changed_lines_fit(ls: Seq<Seq<u8>>, c: ChangeModel) -> bool {
    let nl = apply_change_lines(ls, c);
    match c {
        ChangeModel::Insert(_, p, t) => nl[p.line as int].len() <= usize::MAX && nl[p.line + t.len() - 1].len() <= usize::MAX,
        ChangeModel::Delete(_, r) => nl[r.start.line as int].len() <= usize::MAX,
    }
}

/// Anchors stay within their lines through every change.
pub proof fn lemma_inlays_within_after_change(rows: Seq<Seq<(usize, InlineInlay)>>, ls: Seq<Seq<u8>>, c: ChangeModel)
    requires
        lines_wf(ls),
        inlays_within(rows, ls),
        change_applies(ls, c),
        changed_lines_fit(ls, c),
    ensures
        inlays_within(inlays_after_change(rows, c), apply_change_lines(ls, c)),
{
    let rs = inlays_after_change(rows, c);
    let nl = apply_change_lines(ls, c);
    match c {
        ChangeModel::Insert(drift, p, t) => {
            crate::text::lemma_insert_lines_wf(ls, p, t);
            let row = rows[p.line as int];
            let line = ls[p.line as int];
            assert forall|i: int, k: int| 0 <= i < nl.len() && 0 <= k < rs[i].len() implies (#[trigger] rs[i][k]).0 <= nl[i].len() by {
                if t.len() == 1 {
                    if i == p.line {
                        let rule = InlayRule::Shift { byte: p.byte, drift, add: t[0].len() as usize };
                        lemma_apply_rule_from(row, rule, k);
                        let j = choose|j: int| 0 <= j < row.len() && rule_keeps(rule, row[j].0)
                            && apply_rule(row, rule)[k] == (rule_moves(rule, row[j].0), row[j].1);
                        assert(row[j].0 <= line.len());
                        assert(nl[i] == line.subrange(0, p.byte as int) + t[0] + line.subrange(p.byte as int, line.len() as int));
                    } else {
                        assert(rs[i] == rows[i]);
                        assert(rows[i][k].0 <= ls[i].len());
                    }
                } else {
                    if i < p.line {
                        assert(rs[i] == rows[i]);
                        assert(rows[i][k].0 <= ls[i].len());
                        assert(nl[i] == ls[i]);
                    } else if i == p.line {
                        let rule = InlayRule::Before { byte: p.byte, drift };
                        lemma_apply_rule_from(row, rule, k);
                        let j = choose|j: int| 0 <= j < row.len() && rule_keeps(rule, row[j].0)
                            && apply_rule(row, rule)[k] == (rule_moves(rule, row[j].0), row[j].1);
                        assert(nl[i] == line.subrange(0, p.byte as int) + t[0]);
                    } else if i < p.line + t.len() - 1 {
                        assert(rs[i].len() == 0);
                    } else if i == p.line + t.len() - 1 {
                        let rule = InlayRule::After { byte: p.byte, drift, add: t.last().len() as usize };
                        lemma_apply_rule_from(row, rule, k);
                        let j = choose|j: int| 0 <= j < row.len() && rule_keeps(rule, row[j].0)
                            && apply_rule(row, rule)[k] == (rule_moves(rule, row[j].0), row[j].1);
                        assert(row[j].0 <= line.len());
                        assert(nl[i] == t.last() + line.subrange(p.byte as int, line.len() as int));
                    } else {
                        assert(rs[i] == rows[i - t.len() + 1]);
                        assert(rows[i - t.len() + 1][k].0 <= ls[i - t.len() + 1].len());
                        assert(nl[i] == ls[i - t.len() + 1]);
                    }
                }
            }
        },
        ChangeModel::Delete(_, r) => {
            crate::text::lemma_delete_lines_wf(ls, r);
            let s = r.start;
            let e = r.end;
            let first = ls[s.line as int].subrange(0, s.byte as int);
            let last = ls[e.line as int].subrange(e.byte as int, ls[e.line as int].len() as int);
            assert(nl[s.line as int] == first + last);
            assert forall|i: int, k: int| 0 <= i < nl.len() && 0 <= k < rs[i].len() implies (#[trigger] rs[i][k]).0 <= nl[i].len() by {
                if i < s.line {
                    assert(rs[i] == rows[i]);
                    assert(rows[i][k].0 <= ls[i].len());
                    assert(nl[i] == ls[i]);
                } else if i > s.line {
                    let d = e.line - s.line;
                    assert(rs[i] == rows[i + d]);
                    assert(rows[i + d][k].0 <= ls[i + d].len());
                    assert(nl[i] == ls[i + d]);
                } else if s.line == e.line {
                    let row = rows[s.line as int];
                    let rule = InlayRule::Outside { start: s.byte, end: e.byte };
                    lemma_apply_rule_from(row, rule, k);
                    let j = choose|j: int| 0 <= j < row.len() && rule_keeps(rule, row[j].0)
                        && apply_rule(row, rule)[k] == (rule_moves(rule, row[j].0), row[j].1);
                    assert(row[j].0 <= ls[s.line as int].len());
                } else {
                    let up = apply_rule(rows[s.line as int], InlayRule::UpTo { start: s.byte });
                    let from = apply_rule(rows[e.line as int], InlayRule::From { start: s.byte, end: e.byte });
                    if k < up.len() {
                        let row = rows[s.line as int];
                        let rule = InlayRule::UpTo { start: s.byte };
                        lemma_apply_rule_from(row, rule, k);
                        assert(rs[i][k] == up[k]);
                    } else {
                        let row = rows[e.line as int];
                        let rule = InlayRule::From { start: s.byte, end: e.byte };
                        lemma_apply_rule_from(row, rule, k - up.len());
                        let j = choose|j: int| 0 <= j < row.len() && rule_keeps(rule, row[j].0)
                            && apply_rule(row, rule)[k - up.len()] == (rule_moves(rule, row[j].0), row[j].1);
                        assert(row[j].0 <= ls[e.line as int].len());
                        assert(rs[i][k] == from[k - up.len()]);
                    }
                }
            }
        },
    }
}

/// Splits the inlays of one line at an insertion point: those that stay before the
/// inserted text, and those that follow it, rebased onto a line that holds `add`
/// bytes before them.
fn partition_inlays(row: Vec<(usize, InlineInlay)>, byte: usize, drift: Drift, add: usize) -> (r: (Vec<(usize, InlineInlay)>, Vec<(usize, InlineInlay)>))
    requires
        forall|k: int| 0 <= k < row@.len() && moved_by_insert((#[trigger] row@[k]).0, byte, drift) ==> row@[k].0 - byte + add <= usize::MAX,
    ensures
        r.0@ == apply_rule(row@, InlayRule::Before { byte, drift }),
        r.1@ == apply_rule(row@, InlayRule::After { byte, drift, add }),
{
    let ghost orig = row@;
    let ghost r1 = InlayRule::Before { byte, drift };
    let ghost r2 = InlayRule::After { byte, drift, add };
    let n = row.len();
    let mut row = row;
    let mut before: Vec<(usize, InlineInlay)> = Vec::new();
    let mut after: Vec<(usize, InlineInlay)> = Vec::new();
    let mut i: usize = 0;
    proof {
        assert(orig.subrange(0, 0) =~= Seq::<(usize, InlineInlay)>::empty());
        assert(orig.subrange(0, orig.len() as int) =~= orig);
    }
    while row.len() > 0
        invariant
            i + row@.len() == orig.len(),
            orig.len() == n,
            row@ == orig.subrange(i as int, orig.len() as int),
            before@ == apply_rule(orig.subrange(0, i as int), r1),
            after@ == apply_rule(orig.subrange(0, i as int), r2),
            r1 == (InlayRule::Before { byte, drift }),
            r2 == (InlayRule::After { byte, drift, add }),
            forall|k: int| 0 <= k < orig.len() && moved_by_insert((#[trigger] orig[k]).0, byte, drift) ==> orig[k].0 - byte + add <= usize::MAX,
        decreases row@.len(),
    {
        let (a, x) = row.remove(0);
        let ghost pre = orig.subrange(0, i + 1);
        assert(pre.drop_last() =~= orig.subrange(0, i as int));
        assert(pre.last() == orig[i as int]);
        if a > byte || (a == byte && drift == Drift::Before) {
            after.push((a - byte + add, x));
        } else {
            before.push((a, x));
        }
        i = i + 1;
        assert(row@ =~= orig.subrange(i as int, orig.len() as int));
    }
    (before, after)
}

/// The per-session queues as identities and sequences of changes.
pub open spec fn queue_rows(v: Seq<(SessionId, Vec<Change>)>) -> Seq<(SessionId, Seq<ChangeModel>)> {
    Seq::new(v.len(), |i: int| (v[i].0, change_models(v[i].1@)))
}

/// The content of each change in a sequence.
pub open spec fn change_models(v: Seq<Change>) -> Seq<ChangeModel> {
    Seq::new(v.len(), |k: int| v[k].view())
}

/// Each session has at most one queue, and every identity was handed out already.
pub open spec fn queues_wf(qs: Seq<(SessionId, Seq<ChangeModel>)>, next_id: usize) -> bool {
    &&& forall|i: int, j: int| 0 <= i < j < qs.len() ==> (#[trigger] qs[i]).0 != (#[trigger] qs[j]).0
    &&& forall|i: int| 0 <= i < qs.len() ==> (#[trigger] qs[i]).0.0 < next_id
    &&& forall|i: int, k: int| 0 <= i < qs.len() && 0 <= k < qs[i].1.len() ==> change_model_wf(#[trigger] qs[i].1[k])
}

/// Every queue with `c` added at its back.
pub open spec fn queues_after(qs: Seq<(SessionId, Seq<ChangeModel>)>, c: ChangeModel) -> Seq<(SessionId, Seq<ChangeModel>)> {
    Seq::new(qs.len(), |i: int| (qs[i].0, qs[i].1.push(c)))
}

/// The anchors of a line's inlays.
pub open spec fn anchors(row: Seq<(usize, InlineInlay)>) -> Seq<usize> {
    Seq::new(row.len(), |k: int| row[k].0)
}

/// The anchors of the placeholder inlays of line `i`, of `len` bytes.
pub open spec fn placeholder_anchors(i: int, len: nat) -> Seq<usize> {
    if i % 2 != 0 {
        seq![]
    } else {
        Seq::new(if len >= 80 { 4 } else { len / 20 }, |k: int| (20 * (k + 1)) as usize)
    }
}

/// The changes queued for session `id`.
pub open spec fn queue_of(qs: Seq<(SessionId, Seq<ChangeModel>)>, id: SessionId) -> Seq<ChangeModel> {
    if exists|i: int| 0 <= i < qs.len() && (#[trigger] qs[i]).0 == id {
        qs[choose|i: int| 0 <= i < qs.len() && (#[trigger] qs[i]).0 == id].1
    } else {
        Seq::empty()
    }
}

/// The queues with that of session `id` emptied.
pub open spec fn queues_emptied(qs: Seq<(SessionId, Seq<ChangeModel>)>, id: SessionId) -> Seq<(SessionId, Seq<ChangeModel>)> {
    Seq::new(qs.len(), |i: int| if qs[i].0 == id { (id, Seq::<ChangeModel>::empty()) } else { qs[i] })
}

/// The queues without that of session `id`.
pub open spec fn queues_without(qs: Seq<(SessionId, Seq<ChangeModel>)>, id: SessionId) -> Seq<(SessionId, Seq<ChangeModel>)> {
    if exists|i: int| 0 <= i < qs.len() && (#[trigger] qs[i]).0 == id {
        qs.remove(choose|i: int| 0 <= i < qs.len() && (#[trigger] qs[i]).0 == id)
    } else {
        qs
    }
}

pub proof fn lemma_queue_of_unique(qs: Seq<(SessionId, Seq<ChangeModel>)>, id: SessionId, i: int)
    requires
        0 <= i < qs.len(),
        qs[i].0 == id,
        forall|a: int, b: int| 0 <= a < b < qs.len() ==> (#[trigger] qs[a]).0 != (#[trigger] qs[b]).0,
    ensures
        queue_of(qs, id) == qs[i].1,
        queues_without(qs, id) == qs.remove(i),
        queues_emptied(qs, id) == qs.update(i, (id, Seq::<ChangeModel>::empty())),
{
    let j = choose|j: int| 0 <= j < qs.len() && (#[trigger] qs[j]).0 == id;
    if j < i {
        assert(qs[j].0 != qs[i].0);
    } else if j > i {
        assert(qs[i].0 != qs[j].0);
    }
    assert forall|k: int| 0 <= k < qs.len() && k != i implies (#[trigger] qs[k]).0 != id by {
        if k < i {
            assert(qs[k].0 != qs[i].0);
        } else {
            assert(qs[i].0 != qs[k].0);
        }
    }
    assert(queues_emptied(qs, id) =~= qs.update(i, (id, Seq::<ChangeModel>::empty())));
}

proof fn lemma_inlay_follows_insert(rows: Seq<Seq<(usize, InlineInlay)>>, ls: Seq<Seq<u8>>, drift: Drift, p: Point, t: Seq<Seq<u8>>, line: usize, k: int)
    requires
        lines_wf(ls),
        inlays_within(rows, ls),
        change_applies(ls, ChangeModel::Insert(drift, p, t)),
        0 <= line < rows.len(),
        0 <= k < rows[line as int].len(),
        point_change_fits(Point { line, byte: rows[line as int][k].0 }, ChangeModel::Insert(drift, p, t)),
        t.len() <= usize::MAX && t.last().len() <= usize::MAX,
    ensures
        ({
            let c = ChangeModel::Insert(drift, p, t);
            let q2 = point_after_change(Point { line, byte: rows[line as int][k].0 }, c);
            let after = inlays_after_change(rows, c);
            exists|k2: int| 0 <= k2 < after[q2.line as int].len()
                && #[trigger] after[q2.line as int][k2] == (q2.byte, rows[line as int][k].1)
        }),
{
    let c = ChangeModel::Insert(drift, p, t);
    let (a, x) = rows[line as int][k];
    let q = Point { line, byte: a };
    let q2 = point_after_change(q, c);
    let after = inlays_after_change(rows, c);
        let row = rows[p.line as int];
        if line < p.line {
            assert(q2 == q);
            if t.len() == 1 {
                assert(after[line as int] == rows[line as int]);
            } else {
                assert(after[line as int] == rows[line as int]);
            }
            assert(after[q2.line as int][k] == (q2.byte, x));
        } else if line > p.line {
            assert(q2.byte == a);
            if t.len() == 1 {
                assert(q2.line == line);
                assert(after[line as int] == rows[line as int]);
            } else {
                assert(q2.line == line + t.len() - 1);
                assert(after[line + t.len() - 1] == rows[line as int]);
            }
            assert(after[q2.line as int][k] == (q2.byte, x));
        } else if t.len() == 1 {
            let rule = InlayRule::Shift { byte: p.byte, drift, add: t[0].len() as usize };
            lemma_apply_rule_to(row, rule, k);
            assert(rule_moves(rule, a) == q2.byte);
            let k2 = choose|k2: int| 0 <= k2 < apply_rule(row, rule).len()
                && apply_rule(row, rule)[k2] == (rule_moves(rule, row[k].0), row[k].1);
            assert(after[q2.line as int] == apply_rule(row, rule));
            assert(after[q2.line as int][k2] == (q2.byte, x));
        } else if moved_by_insert(a, p.byte, drift) {
            let rule = InlayRule::After { byte: p.byte, drift, add: t.last().len() as usize };
            lemma_apply_rule_to(row, rule, k);
            assert(rule_moves(rule, a) == q2.byte);
            let k2 = choose|k2: int| 0 <= k2 < apply_rule(row, rule).len()
                && apply_rule(row, rule)[k2] == (rule_moves(rule, row[k].0), row[k].1);
            assert(q2.line == p.line + t.len() - 1);
            assert(after[q2.line as int] == apply_rule(row, rule));
            assert(after[q2.line as int][k2] == (q2.byte, x));
        } else {
            let rule = InlayRule::Before { byte: p.byte, drift };
            lemma_apply_rule_to(row, rule, k);
            assert(rule_moves(rule, a) == q2.byte);
            let k2 = choose|k2: int| 0 <= k2 < apply_rule(row, rule).len()
                && apply_rule(row, rule)[k2] == (rule_moves(rule, row[k].0), row[k].1);
            assert(after[q2.line as int] == apply_rule(row, rule));
            assert(after[q2.line as int][k2] == (q2.byte, x));
        }
    }

/// Inlay anchor stability: an inlay not strictly inside the text a change removes
/// is found after the change exactly where its position moves to, so it stays
/// attached to the same character. An anchor that sits exactly at an insertion
/// point moves past the inserted text under `Drift::Before` and stays under
/// `Drift::After`.
pub proof fn lemma_inlay_follows_change(rows: Seq<Seq<(usize, InlineInlay)>>, ls: Seq<Seq<u8>>, c: ChangeModel, line: usize, k: int)
    requires
        lines_wf(ls),
        inlays_within(rows, ls),
        change_applies(ls, c),
        0 <= line < rows.len(),
        0 <= k < rows[line as int].len(),
        point_change_fits(Point { line, byte: rows[line as int][k].0 }, c),
        match c {
            ChangeModel::Insert(_, _, t) => t.len() <= usize::MAX && t.last().len() <= usize::MAX,
            ChangeModel::Delete(_, r) => !(point_lt(r.start, Point { line, byte: rows[line as int][k].0 })
                && point_lt(Point { line, byte: rows[line as int][k].0 }, r.end)),
        },
    ensures
        ({
            let q2 = point_after_change(Point { line, byte: rows[line as int][k].0 }, c);
            let after = inlays_after_change(rows, c);
            exists|k2: int| 0 <= k2 < after[q2.line as int].len()
                && #[trigger] after[q2.line as int][k2] == (q2.byte, rows[line as int][k].1)
        }),
{
    let (a, x) = rows[line as int][k];
    let q = Point { line, byte: a };
    let q2 = point_after_change(q, c);
    let after = inlays_after_change(rows, c);
    match c {
        ChangeModel::Insert(drift, p, t) => {
            lemma_inlay_follows_insert(rows, ls, drift, p, t, line, k);
            assert(c == ChangeModel::Insert(drift, p, t));
            let k2 = choose|k2: int| 0 <= k2 < after[q2.line as int].len()
                && #[trigger] after[q2.line as int][k2] == (q2.byte, x);
            assert(after[q2.line as int][k2] == (q2.byte, x));
        },
        ChangeModel::Delete(_, r) => {
            let s = r.start;
            let e = r.end;
            let d = e.line - s.line;
            if line < s.line {
                assert(after[line as int] == rows[line as int]);
                assert(after[q2.line as int][k] == (q2.byte, x));
            } else if line > e.line {
                assert(q2.line == line - d);
                assert(after[q2.line as int] == rows[line as int]);
                assert(after[q2.line as int][k] == (q2.byte, x));
            } else if s.line == e.line {
                let rule = InlayRule::Outside { start: s.byte, end: e.byte };
                lemma_apply_rule_to(rows[s.line as int], rule, k);
                assert(after[s.line as int] == apply_rule(rows[s.line as int], rule));
            } else if line == s.line {
                let rule = InlayRule::UpTo { start: s.byte };
                lemma_apply_rule_to(rows[s.line as int], rule, k);
                let up = apply_rule(rows[s.line as int], rule);
                let from = apply_rule(rows[e.line as int], InlayRule::From { start: s.byte, end: e.byte });
                assert(after[s.line as int] == up + from);
                let k2 = choose|k2: int| 0 <= k2 < up.len() && up[k2] == (rule_moves(rule, a), x);
                assert((up + from)[k2] == up[k2]);
            } else {
                assert(line == e.line);
                let rule = InlayRule::From { start: s.byte, end: e.byte };
                lemma_apply_rule_to(rows[e.line as int], rule, k);
                let up = apply_rule(rows[s.line as int], InlayRule::UpTo { start: s.byte });
                let from = apply_rule(rows[e.line as int], rule);
                assert(after[s.line as int] == up + from);
                let k2 = choose|k2: int| 0 <= k2 < from.len() && from[k2] == (rule_moves(rule, a), x);
                assert((up + from)[up.len() + k2] == from[k2]);
            }
        },
    }
}

impl Document {
    pub closed spec fn text_view(&self) -> Seq<Seq<u8>> {
        self.text.view()
    }

    pub closed spec fn tokens_view(&self) -> Seq<Seq<Token>> {
        token_rows(self.tokens@)
    }

    pub closed spec fn inlays_view(&self) -> Seq<Seq<(usize, InlineInlay)>> {
        inlay_rows(self.inline_inlays@)
    }

    pub closed spec fn block_inlays_view(&self) -> Seq<(usize, BlockInlay)> {
        self.block_inlays@
    }

    pub closed spec fn queues_view(&self) -> Seq<(SessionId, Seq<ChangeModel>)> {
        queue_rows(self.change_queues@)
    }

    pub closed spec fn next_id(&self) -> usize {
        self.next_session_id
    }

    pub open spec fn wf(&self) -> bool {
        &&& lines_wf(self.text_view())
        &&& tokens_cover(self.tokens_view(), self.text_view())
        &&& inlays_within(self.inlays_view(), self.text_view())
        &&& queues_wf(self.queues_view(), self.next_id())
    }

    /// The document holding `text`, fully tokenized. Each even line carries
    /// placeholder text inlays at bytes 20, 40, 60 and 80, where the line is that long.
    pub fn new(text: Text) -> (r: Document)
        requires
            text.wf(),
        ensures
            r.wf(),
            r.text_view() == text.view(),
            r.tokens_view() == Seq::new(text.view().len(), |i: int| run_tokens(text.view()[i])),
            r.inlays_view().len() == text.view().len(),
            forall|i: int| 0 <= i < text.view().len() ==> #[trigger] anchors(r.inlays_view()[i]) == placeholder_anchors(i, text.view()[i].len()),
            r.block_inlays_view().len() == 0,
            r.queues_view().len() == 0,
            r.next_id() == 0,
    {
        let count = text.line_count();
        let mut tokens: Vec<Vec<Token>> = Vec::new();
        let mut inline_inlays: Vec<Vec<(usize, InlineInlay)>> = Vec::new();
        let mut i: usize = 0;
        while i < count
            invariant
                i <= count,
                count == text.view().len(),
                text.wf(),
                tokens@.len() == i,
                inline_inlays@.len() == i,
                forall|j: int| 0 <= j < i ==> (#[trigger] tokens@[j])@ == run_tokens(text.view()[j]),
                forall|j: int| 0 <= j < i ==> total_len(run_tokens(#[trigger] text.view()[j])) == text.view()[j].len(),
                forall|j: int| 0 <= j < i ==> anchors(#[trigger] inline_inlays@[j]@) == placeholder_anchors(j, text.view()[j].len()),
                forall|j: int, k: int| 0 <= j < i && 0 <= k < inline_inlays@[j]@.len() ==> (#[trigger] inline_inlays@[j]@[k]).0 <= text.view()[j].len(),
            decreases count - i,
        {
            tokens.push(tokenize(text.line(i)));
            let len = text.line_len(i);
            let mut row: Vec<(usize, InlineInlay)> = Vec::new();
            if i % 2 == 0 {
                let mut anchor: usize = 20;
                while anchor <= 80 && anchor <= len
                    invariant
                        20 <= anchor <= 100,
                        anchor % 20 == 0,
                        i % 2 == 0,
                        len == text.view()[i as int].len(),
                        row@.len() == anchor / 20 - 1,
                        anchor - 20 <= len,
                        anchors(row@) == placeholder_anchors(i as int, len as nat).subrange(0, row@.len() as int),
                        forall|k: int| 0 <= k < row@.len() ==> (#[trigger] row@[k]).0 <= len,
                    decreases 100 - anchor,
                {
                    let mut label: Vec<u8> = Vec::new();
                    label.push(88);
                    label.push(88);
                    label.push(88);
                    row.push((anchor, InlineInlay::Text(label)));
                    anchor = anchor + 20;
                    assert(anchors(row@) =~= placeholder_anchors(i as int, len as nat).subrange(0, row@.len() as int));
                }
                assert(anchors(row@) =~= placeholder_anchors(i as int, len as nat));
            } else {
                assert(anchors(row@) =~= placeholder_anchors(i as int, len as nat));
            }
            inline_inlays.push(row);
            i = i + 1;
        }
        let r = Document {
            text,
            tokens,
            inline_inlays,
            block_inlays: Vec::new(),
            change_queues: Vec::new(),
            next_session_id: 0,
        };
        assert(r.tokens_view() =~= Seq::new(r.text_view().len(), |i: int| run_tokens(r.text_view()[i])));
        assert(r.queues_view() =~= Seq::empty());
        r
    }

    /// The canonical text.
    pub fn text(&self) -> (r: &Text)
        ensures
            r.view() == self.text_view(),
    {
        &self.text
    }

    /// The tokens of every line.
    pub fn tokens(&self) -> (r: &Vec<Vec<Token>>)
        ensures
            token_rows(r@) == self.tokens_view(),
    {
        &self.tokens
    }

    /// The inline inlays of every line, with their anchors.
    pub fn inline_inlays(&self) -> (r: &Vec<Vec<(usize, InlineInlay)>>)
        ensures
            inlay_rows(r@) == self.inlays_view(),
    {
        &self.inline_inlays
    }

    /// The block inlays, with the lines they stand before.
    pub fn block_inlays(&self) -> (r: &Vec<(usize, BlockInlay)>)
        ensures
            r@ == self.block_inlays_view(),
    {
        &self.block_inlays
    }

    /// Applies `c` to the text, the tokens and the inline inlays, then queues it
    /// for every attached session.
    pub fn apply_change(&mut self, c: &Change)
        requires
            old(self).wf(),
            c.wf(),
            change_applies(old(self).text_view(), c.view()),
        ensures
            final(self).wf(),
            final(self).text_view() == apply_change_lines(old(self).text_view(), c.view()),
            final(self).tokens_view() == tokens_after_change(old(self).tokens_view(), c.view()),
            final(self).inlays_view() == inlays_after_change(old(self).inlays_view(), c.view()),
            final(self).block_inlays_view() == old(self).block_inlays_view(),
            final(self).queues_view() == queues_after(old(self).queues_view(), c.view()),
            final(self).next_id() == old(self).next_id(),
    {
        let ghost ls = self.text_view();
        let ghost rows = self.tokens_view();
        self.apply_change_to_tokens(c);
        self.text.apply_change(c);
        proof {
            lemma_tokens_cover_after_change(rows, ls, c.view());
        }
        self.apply_change_to_inline_inlays(c, Ghost(ls));
        self.send_change(c);
    }

    /// Queues `c` at the back of every session's queue.
    fn send_change(&mut self, c: &Change)
        requires
            queues_wf(old(self).queues_view(), old(self).next_id()),
            c.wf(),
        ensures
            final(self).queues_view() == queues_after(old(self).queues_view(), c.view()),
            queues_wf(final(self).queues_view(), final(self).next_id()),
            final(self).text == old(self).text,
            final(self).tokens == old(self).tokens,
            final(self).inline_inlays == old(self).inline_inlays,
            final(self).block_inlays == old(self).block_inlays,
            final(self).next_session_id == old(self).next_session_id,
    {
        let ghost qs = self.queues_view();
        let n = self.change_queues.len();
        let mut sent: Vec<(SessionId, Vec<Change>)> = Vec::new();
        let mut i: usize = 0;
        while self.change_queues.len() > 0
            invariant
                i + self.change_queues@.len() == n,
                qs.len() == n,
                queue_rows(self.change_queues@) == qs.subrange(i as int, n as int),
                queue_rows(sent@) == queues_after(qs, c.view()).subrange(0, i as int),
                self.text == old(self).text,
                self.tokens == old(self).tokens,
                self.inline_inlays == old(self).inline_inlays,
                self.block_inlays == old(self).block_inlays,
                self.next_session_id == old(self).next_session_id,
            decreases self.change_queues@.len(),
        {
            let ghost before = self.change_queues@;
            let (id, mut queue) = self.change_queues.remove(0);
            assert(self.change_queues@ =~= before.subrange(1, before.len() as int));
            assert((id, change_models(queue@)) == queue_rows(before)[0]);
            assert(queue_rows(self.change_queues@) =~= queue_rows(before).subrange(1, before.len() as int));
            assert(queue_rows(self.change_queues@) =~= qs.subrange(i + 1, n as int));
            assert(qs[i as int] == (id, change_models(queue@)));
            let ghost sent0 = sent@;
            let ghost q0 = queue@;
            queue.push(c.copy());
            assert(change_models(queue@) =~= change_models(q0).push(c.view()));
            sent.push((id, queue));
            assert(queue_rows(sent@) =~= queue_rows(sent0).push((id, change_models(queue@))));
            i = i + 1;
            assert(queue_rows(sent@) =~= queues_after(qs, c.view()).subrange(0, i as int));
        }
        self.change_queues = sent;
        assert(self.queues_view() =~= queues_after(qs, c.view()));
    }

    /// Index of the queue of session `id`, if it has one.
    fn find_queue(&self, id: SessionId) -> (r: Option<usize>)
        ensures
            r matches Some(i) ==> i < self.queues_view().len() && self.queues_view()[i as int].0 == id,
            r is None ==> forall|i: int| 0 <= i < self.queues_view().len() ==> (#[trigger] self.queues_view()[i]).0 != id,
    {
        let mut i: usize = 0;
        while i < self.change_queues.len()
            invariant
                i <= self.change_queues@.len(),
                forall|k: int| 0 <= k < i ==> (#[trigger] self.queues_view()[k]).0 != id,
            decreases self.change_queues@.len() - i,
        {
            if self.change_queues[i].0 == id {
                return Some(i);
            }
            i = i + 1;
        }
        None
    }

    /// Takes the changes queued for session `id`, in the order they were applied,
    /// leaving its queue empty.
    pub fn take_changes(&mut self, id: SessionId) -> (r: Vec<Change>)
        requires
            old(self).wf(),
        ensures
            final(self).wf(),
            change_models(r@) == queue_of(old(self).queues_view(), id),
            final(self).queues_view() == queues_emptied(old(self).queues_view(), id),
            forall|k: int| 0 <= k < r@.len() ==> (#[trigger] r@[k]).wf(),
            final(self).text_view() == old(self).text_view(),
            final(self).tokens_view() == old(self).tokens_view(),
            final(self).inlays_view() == old(self).inlays_view(),
            final(self).block_inlays_view() == old(self).block_inlays_view(),
            final(self).next_id() == old(self).next_id(),
    {
        let ghost qs = self.queues_view();
        match self.find_queue(id) {
            Some(i) => {
                let mut tail = self.change_queues.split_off(i);
                let (qid, changes) = tail.remove(0);
                let empty: Vec<Change> = Vec::new();
                self.change_queues.push((qid, empty));
                self.change_queues.append(&mut tail);
                proof {
                    lemma_queue_of_unique(qs, id, i as int);
                    assert(change_models(empty@) =~= Seq::empty());
                    assert(self.queues_view() =~= qs.update(i as int, (id, Seq::empty())));
                    assert(self.queues_view() =~= queues_emptied(qs, id));
                    assert(qs[i as int].1 == change_models(changes@));
                    assert forall|k: int| 0 <= k < changes@.len() implies (#[trigger] changes@[k]).wf() by {
                        assert(change_models(changes@)[k] == changes@[k].view());
                        assert(change_model_wf(qs[i as int].1[k]));
                    }
                }
                changes
            },
            None => {
                proof {
                    assert(queues_emptied(qs, id) =~= qs);
                }
                Vec::new()
            },
        }
    }

    /// Detaches session `id`: drops its queue.
    pub fn unregister_session(&mut self, id: SessionId)
        requires
            old(self).wf(),
        ensures
            final(self).wf(),
            final(self).queues_view() == queues_without(old(self).queues_view(), id),
            final(self).text_view() == old(self).text_view(),
            final(self).tokens_view() == old(self).tokens_view(),
            final(self).inlays_view() == old(self).inlays_view(),
            final(self).block_inlays_view() == old(self).block_inlays_view(),
            final(self).next_id() == old(self).next_id(),
    {
        let ghost qs = self.queues_view();
        match self.find_queue(id) {
            Some(i) => {
                self.change_queues.remove(i);
                proof {
                    lemma_queue_of_unique(qs, id, i as int);
                    assert(self.queues_view() =~= qs.remove(i as int));
                }
            },
            None => {
                proof {
                    assert(queues_without(qs, id) =~= qs);
                }
            },
        }
    }

    /// Attaches a new session: gives it a fresh identity and an empty queue.
    pub fn register_session(&mut self) -> (id: SessionId)
        requires
            old(self).wf(),
            old(self).next_id() < usize::MAX,
        ensures
            final(self).wf(),
            id == SessionId(old(self).next_id()),
            final(self).next_id() == old(self).next_id() + 1,
            final(self).queues_view() == old(self).queues_view().push((id, Seq::empty())),
            final(self).text_view() == old(self).text_view(),
            final(self).tokens_view() == old(self).tokens_view(),
            final(self).inlays_view() == old(self).inlays_view(),
            final(self).block_inlays_view() == old(self).block_inlays_view(),
    {
        let id = SessionId(self.next_session_id);
        let empty: Vec<Change> = Vec::new();
        assert(change_models(empty@) =~= Seq::empty());
        self.change_queues.push((id, empty));
        self.next_session_id = self.next_session_id + 1;
        proof {
            let qs = self.queues_view();
            assert(queue_rows(self.change_queues@) =~= old(self).queues_view().push((id, Seq::empty())));
            assert forall|i: int, j: int| 0 <= i < j < qs.len() implies (#[trigger] qs[i]).0 != (#[trigger] qs[j]).0 by {
                if j == qs.len() - 1 {
                    assert(qs[i].0.0 < old(self).next_id());
                }
            }
        }
        id
    }


    /// Carries the inline inlays of the lines touched by `c` through it, the text
    /// having been changed from `ls` already.
    fn apply_change_to_inline_inlays(&mut self, c: &Change, Ghost(ls): Ghost<Seq<Seq<u8>>>)
        requires
            lines_wf(ls),
            c.wf(),
            change_applies(ls, c.view()),
            inlays_within(inlay_rows(old(self).inline_inlays@), ls),
            old(self).text.wf(),
            old(self).text_view() == apply_change_lines(ls, c.view()),
        ensures
            inlay_rows(final(self).inline_inlays@) == inlays_after_change(inlay_rows(old(self).inline_inlays@), c.view()),
            inlays_within(inlay_rows(final(self).inline_inlays@), final(self).text_view()),
            final(self).text == old(self).text,
            final(self).tokens == old(self).tokens,
            final(self).block_inlays == old(self).block_inlays,
            final(self).change_queues == old(self).change_queues,
            final(self).next_session_id == old(self).next_session_id,
    {
        let ghost rows = inlay_rows(self.inline_inlays@);
        let ghost nl = self.text_view();
        // The vector's length fits in `usize`, and so does the index after any line.
        let _ = self.inline_inlays.len();
        match &c.kind {
            ChangeKind::Insert(p, t) => {
                let ghost tv = t.view();
                let n = t.line_count();
                let mut tail = self.inline_inlays.split_off(p.line + 1);
                assert(inlay_rows(tail@) =~= rows.subrange(p.line + 1, rows.len() as int));
                let row = self.inline_inlays.pop().unwrap();
                assert(row@ == rows[p.line as int]);
                assert(inlay_rows(self.inline_inlays@) =~= rows.subrange(0, p.line as int));
                let ghost line = ls[p.line as int];
                if n == 1 {
                    let add = t.line_len(0);
                    // The length of the line the insertion touched fits in `usize`.
                    let _ = self.text.line_len(p.line);
                    assert(nl[p.line as int] == line.subrange(0, p.byte as int) + tv[0] + line.subrange(p.byte as int, line.len() as int));
                    let rule = InlayRule::Shift { byte: p.byte, drift: c.drift, add };
                    assert forall|k: int| 0 <= k < row@.len() && rule_keeps(rule, (#[trigger] row@[k]).0) implies rule_moves_fits(rule, row@[k].0) by {
                        assert(rows[p.line as int][k].0 <= ls[p.line as int].len());
                    }
                    let moved = carry_inlays(row, &rule);
                    self.inline_inlays.push(moved);
                } else {
                    let add = t.line_len(n - 1);
                    proof {
                        crate::text::lemma_insert_lines_wf(ls, *p, tv);
                    }
                    // The new text's sizes fit in `usize`: its line count, and the
                    // lengths of the first and last lines the insertion touched.
                    let _ = self.text.line_count();
                    let _ = self.text.line_len(p.line);
                    let _ = self.text.line_len(p.line + n - 1);
                    assert(nl[p.line + n - 1] == tv.last() + line.subrange(p.byte as int, line.len() as int));
                    assert forall|k: int| 0 <= k < row@.len() && moved_by_insert((#[trigger] row@[k]).0, p.byte, c.drift) implies row@[k].0 - p.byte + add <= usize::MAX by {
                        assert(rows[p.line as int][k].0 <= ls[p.line as int].len());
                    }
                    let (before, after) = partition_inlays(row, p.byte, c.drift, add);
                    self.inline_inlays.push(before);
                    let mut k: usize = 1;
                    while k < n - 1
                        invariant
                            1 <= k <= n - 1,
                            n == tv.len(),
                            p.line < rows.len(),
                            self.inline_inlays@.len() == p.line + k,
                            inlay_rows(self.inline_inlays@) == rows.subrange(0, p.line as int)
                                + seq![apply_rule(rows[p.line as int], InlayRule::Before { byte: p.byte, drift: c.drift })]
                                + Seq::new((k - 1) as nat, |j: int| Seq::<(usize, InlineInlay)>::empty()),
                            self.text == old(self).text,
                            self.tokens == old(self).tokens,
                            self.block_inlays == old(self).block_inlays,
                            self.change_queues == old(self).change_queues,
                            self.next_session_id == old(self).next_session_id,
                        decreases n - 1 - k,
                    {
                        let ghost prev = inlay_rows(self.inline_inlays@);
                        self.inline_inlays.push(Vec::new());
                        assert(inlay_rows(self.inline_inlays@) =~= prev.push(Seq::empty()));
                        assert(Seq::new(k as nat, |j: int| Seq::<(usize, InlineInlay)>::empty())
                            =~= Seq::new((k - 1) as nat, |j: int| Seq::<(usize, InlineInlay)>::empty()).push(Seq::empty()));
                        k = k + 1;
                        assert(inlay_rows(self.inline_inlays@) =~= rows.subrange(0, p.line as int)
                            + seq![apply_rule(rows[p.line as int], InlayRule::Before { byte: p.byte, drift: c.drift })]
                            + Seq::new((k - 1) as nat, |j: int| Seq::<(usize, InlineInlay)>::empty()));
                    }
                    self.inline_inlays.push(after);
                }
                self.inline_inlays.append(&mut tail);
                proof {
                    assert(inlay_rows(self.inline_inlays@) =~= inlays_after_change(rows, c.view()));
                }
            },
            ChangeKind::Delete(r) => {
                let s = r.start;
                let e = r.end;
                // The length of the joined line fits in `usize`.
                let _ = self.text.line_len(s.line);
                let ghost first = ls[s.line as int].subrange(0, s.byte as int);
                let ghost last = ls[e.line as int].subrange(e.byte as int, ls[e.line as int].len() as int);
                assert(nl[s.line as int] == first + last);
                let mut tail = self.inline_inlays.split_off(e.line + 1);
                assert(inlay_rows(tail@) =~= rows.subrange(e.line + 1, rows.len() as int));
                let end_row = self.inline_inlays.pop().unwrap();
                assert(end_row@ == rows[e.line as int]);
                let joined;
                if s.line == e.line {
                    let rule = InlayRule::Outside { start: s.byte, end: e.byte };
                    assert forall|k: int| 0 <= k < end_row@.len() && rule_keeps(rule, (#[trigger] end_row@[k]).0) implies rule_moves_fits(rule, end_row@[k].0) by {
                        assert(rows[e.line as int][k].0 <= ls[e.line as int].len());
                    }
                    joined = carry_inlays(end_row, &rule);
                } else {
                    self.inline_inlays.truncate(s.line + 1);
                    let start_row = self.inline_inlays.pop().unwrap();
                    assert(start_row@ == rows[s.line as int]);
                    let rule_up = InlayRule::UpTo { start: s.byte };
                    let rule_from = InlayRule::From { start: s.byte, end: e.byte };
                    assert forall|k: int| 0 <= k < end_row@.len() && rule_keeps(rule_from, (#[trigger] end_row@[k]).0) implies rule_moves_fits(rule_from, end_row@[k].0) by {
                        assert(rows[e.line as int][k].0 <= ls[e.line as int].len());
                    }
                    let mut up = carry_inlays(start_row, &rule_up);
                    let mut from = carry_inlays(end_row, &rule_from);
                    up.append(&mut from);
                    joined = up;
                }
                assert(inlay_rows(self.inline_inlays@) =~= rows.subrange(0, s.line as int));
                self.inline_inlays.push(joined);
                self.inline_inlays.append(&mut tail);
                proof {
                    assert(inlay_rows(self.inline_inlays@) =~= inlays_after_change(rows, c.view()));
                }
            },
        }
        proof {
            assert(changed_lines_fit(ls, c.view()));
            lemma_inlays_within_after_change(rows, ls, c.view());
        }
    }

    /// Replaces the tokens of the lines touched by `c` as that change requires,
    /// `c` not yet being applied to the text.
    fn apply_change_to_tokens(&mut self, c: &Change)
        requires
            old(self).wf(),
            c.wf(),
            change_applies(old(self).text_view(), c.view()),
        ensures
            final(self).tokens_view() == tokens_after_change(old(self).tokens_view(), c.view()),
            final(self).text == old(self).text,
            final(self).inline_inlays == old(self).inline_inlays,
            final(self).block_inlays == old(self).block_inlays,
            final(self).change_queues == old(self).change_queues,
            final(self).next_session_id == old(self).next_session_id,
            match c.view() {
                ChangeModel::Insert(_, _, t) => lines_tokenizable(t),
                ChangeModel::Delete(_, _) => true,
            },
    {
        let ghost rows = self.tokens_view();
        // The vector's length fits in `usize`, and so does the index after any line.
        let _ = self.tokens.len();
        match &c.kind {
            ChangeKind::Insert(p, t) => {
                let ghost tv = t.view();
                assert(total_len(rows[p.line as int]) == self.text_view()[p.line as int].len());
                assert(rows[p.line as int] == self.tokens@[p.line as int]@);
                let (pre, suf) = split_tokens(&self.tokens[p.line], p.byte);
                let n = t.line_count();
                let first_tokens = tokenize(t.line(0));
                if n == 1 {
                    let mut row = pre;
                    let mut first_tokens = first_tokens;
                    let mut suf = suf;
                    row.append(&mut first_tokens);
                    row.append(&mut suf);
                    let mut tail = self.tokens.split_off(p.line + 1);
                    self.tokens.pop();
                    self.tokens.push(row);
                    self.tokens.append(&mut tail);
                    proof {
                        assert(self.tokens_view() =~= tokens_after_change(rows, c.view()));
                        assert(lines_tokenizable(tv));
                    }
                } else {
                    let mut tail = self.tokens.split_off(p.line + 1);
                    self.tokens.pop();
                    let ghost head = self.tokens@;
                    assert(token_rows(head) =~= rows.subrange(0, p.line as int));
                    assert(token_rows(tail@) =~= rows.subrange(p.line + 1, rows.len() as int));
                    let mut first = pre;
                    let mut first_tokens = first_tokens;
                    first.append(&mut first_tokens);
                    self.tokens.push(first);
                    let mut k: usize = 1;
                    while k < n - 1
                        invariant
                            1 <= k <= n - 1,
                            n == tv.len(),
                            n >= 2,
                            p.line < rows.len(),
                            self.text == old(self).text,
                            self.inline_inlays == old(self).inline_inlays,
                            self.block_inlays == old(self).block_inlays,
                            self.change_queues == old(self).change_queues,
                            self.next_session_id == old(self).next_session_id,
                            tv == t.view(),
                            t.wf(),
                            self.tokens@.len() == p.line + k,
                            head.len() == p.line,
                            forall|j: int| 0 <= j < p.line ==> (#[trigger] self.tokens@[j])@ == head[j]@,
                            self.tokens@[p.line as int]@ == split_prefix(rows[p.line as int], p.byte as nat) + run_tokens(tv[0]),
                            total_len(run_tokens(tv[0])) == tv[0].len(),
                            forall|j: int|
                                p.line < j < p.line + k ==> (#[trigger] self.tokens@[j])@ == run_tokens(tv[j - p.line]),
                            forall|j: int|
                                0 < j < k ==> total_len(run_tokens(#[trigger] tv[j])) == tv[j].len(),
                        decreases n - 1 - k,
                    {
                        let row = tokenize(t.line(k));
                        self.tokens.push(row);
                        k = k + 1;
                    }
                    let mut last = tokenize(t.line(n - 1));
                    let mut suf = suf;
                    last.append(&mut suf);
                    self.tokens.push(last);
                    self.tokens.append(&mut tail);
                    proof {
                        assert(self.tokens_view() =~= tokens_after_change(rows, c.view()));
                        assert forall|j: int| 0 <= j < tv.len() implies total_len(run_tokens(#[trigger] tv[j])) == tv[j].len() by {
                            if j == 0 {
                            } else if j < n - 1 {
                            } else {
                                assert(tv[j] == tv.last());
                            }
                        }
                    }
                }
            },
            ChangeKind::Delete(r) => {
                let s = r.start;
                let e = r.end;
                assert(total_len(rows[s.line as int]) == self.text_view()[s.line as int].len());
                assert(rows[s.line as int] == self.tokens@[s.line as int]@);
                assert(total_len(rows[e.line as int]) == self.text_view()[e.line as int].len());
                assert(rows[e.line as int] == self.tokens@[e.line as int]@);
                let (pre, _unused) = split_tokens(&self.tokens[s.line], s.byte);
                let (_unused2, suf) = split_tokens(&self.tokens[e.line], e.byte);
                let mut row = pre;
                let mut suf = suf;
                row.append(&mut suf);
                let mut tail = self.tokens.split_off(e.line + 1);
                assert(token_rows(tail@) =~= rows.subrange(e.line + 1, rows.len() as int));
                self.tokens.truncate(s.line);
                assert(token_rows(self.tokens@) =~= rows.subrange(0, s.line as int));
                self.tokens.push(row);
                self.tokens.append(&mut tail);
                proof {
                    assert(self.tokens_view() =~= tokens_after_change(rows, c.view()));
                }
            },
        }
    }
}

} // verus!
