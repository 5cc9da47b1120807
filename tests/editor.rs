use code_editor::change::{Change, ChangeKind, Drift};
use code_editor::document::Document;
use code_editor::inlays::InlineInlay;
use code_editor::point::{Length, Point, Range};
use code_editor::selection::{Affinity, Selection};
use code_editor::session::Session;
use code_editor::text::{Chunks, Text};
use code_editor::token::{split_tokens, tokenize, Token, TokenKind};

fn pt(line: usize, byte: usize) -> Point {
    Point { line, byte }
}

fn lines_of(text: &Text) -> Vec<Vec<u8>> {
    (0..text.line_count()).map(|i| text.line(i).to_vec()).collect()
}

fn token_lens(document: &Document, line: usize) -> Vec<usize> {
    document.tokens()[line].iter().map(|t| t.len).collect()
}

fn assert_tokens_cover(document: &Document) {
    let text = document.text();
    assert_eq!(document.tokens().len(), text.line_count());
    for i in 0..text.line_count() {
        let sum: usize = document.tokens()[i].iter().map(|t| t.len).sum();
        assert_eq!(sum, text.line(i).len(), "line {}", i);
    }
}

#[test]
fn split_and_merge_tokens_on_insert() {
    let mut document = Document::new(Text::from_bytes(b"ab cd"));
    let mut writer = Session::new(&mut document);
    let mut reader = Session::new(&mut document);
    reader.set_cursor(pt(0, 5), Affinity::Before);
    writer.set_cursor(pt(0, 1), Affinity::Before);
    writer.insert(&mut document, Text::from_bytes(b"X"));
    assert_eq!(document.text().line(0), b"aXb cd");
    assert_eq!(token_lens(&document, 0), vec![1, 1, 1, 1, 2]);
    let kinds: Vec<TokenKind> = document.tokens()[0].iter().map(|t| t.kind).collect();
    assert_eq!(
        kinds,
        vec![
            TokenKind::Unknown,
            TokenKind::Unknown,
            TokenKind::Unknown,
            TokenKind::Whitespace,
            TokenKind::Unknown
        ]
    );
    reader.handle_changes(&mut document);
    assert_eq!(reader.selections()[0].cursor, pt(0, 6));
    assert_eq!(reader.selections()[0].anchor, pt(0, 6));
    writer.handle_changes(&mut document);
    assert_eq!(writer.selections()[0].cursor, pt(0, 2));
}

#[test]
fn multi_cursor_collapse() {
    let mut document = Document::new(Text::from_bytes(b"abcdef"));
    let mut session = Session::new(&mut document);
    session.set_cursor(pt(0, 3), Affinity::Before);
    session.add_cursor(pt(0, 1), Affinity::Before);
    assert_eq!(session.selections().len(), 2);
    assert_eq!(session.pending_selection_index(), Some(0));
    session.move_to(pt(0, 3), Affinity::Before);
    assert_eq!(session.selections().len(), 1);
    assert_eq!(session.selections()[0].cursor, pt(0, 3));
    assert_eq!(session.selections()[0].anchor, pt(0, 1));
    assert_eq!(session.pending_selection_index(), Some(0));
}

#[test]
fn multi_line_delete_joins_tokens() {
    let source = b"l0\nl1\naaaa bbbb cccc dddd eeee\nmiddle line\nxx yy zz\nl5";
    let mut document = Document::new(Text::from_bytes(source));
    let mut session = Session::new(&mut document);
    session.set_cursor(pt(2, 7), Affinity::Before);
    session.move_to(pt(4, 4), Affinity::Before);
    session.delete(&mut document);
    let text = document.text();
    assert_eq!(text.line_count(), 4);
    assert_eq!(text.line(2), b"aaaa bby zz");
    assert_eq!(text.line(3), b"l5");
    // "aaaa", " ", "bb" from line 2, then "y", " ", "zz" from line 4
    assert_eq!(token_lens(&document, 2), vec![4, 1, 2, 1, 1, 2]);
    assert_eq!(document.tokens().len(), 4);
    assert_eq!(document.inline_inlays().len(), 4);
    // The inlay at byte 20 of line 2 lay inside the deleted text.
    assert!(document.inline_inlays()[2].is_empty());
    assert_tokens_cover(&document);
}

#[test]
fn edit_changes_replay_to_the_same_text() {
    let unedited = Text::from_bytes(b"one two\nthree four\nfive");
    let mut document = Document::new(unedited.clone());
    let selections = vec![
        Selection { anchor: pt(0, 0), cursor: pt(0, 3), affinity: Affinity::Before },
        Selection { anchor: pt(1, 2), cursor: pt(2, 1), affinity: Affinity::Before },
        Selection { anchor: pt(2, 4), cursor: pt(2, 4), affinity: Affinity::Before },
    ];
    let mut changes = Vec::new();
    document.edit(&selections, &mut changes, |_text: &Text, _point: Point| {
        (Some(Text::from_bytes(b"[")), Some(Text::from_bytes(b"]\n")))
    });
    let mut replayed = unedited.clone();
    for change in &changes {
        replayed.apply_change(change);
    }
    assert_eq!(lines_of(&replayed), lines_of(document.text()));
    assert_eq!(
        lines_of(document.text()),
        vec![b"[]".to_vec(), b" two".to_vec(), b"th[]".to_vec(), b"ive[]".to_vec(), b"".to_vec()]
    );
    // Two deletions and two pairs of insertions for the three ranges.
    assert_eq!(changes.len(), 8);
    assert_tokens_cover(&document);
}

#[test]
fn policy_sees_the_text_and_the_write_position() {
    let mut document = Document::new(Text::from_bytes(b"ab cd ef"));
    let selections = vec![
        Selection { anchor: pt(0, 0), cursor: pt(0, 2), affinity: Affinity::Before },
        Selection { anchor: pt(0, 6), cursor: pt(0, 8), affinity: Affinity::Before },
    ];
    let mut changes = Vec::new();
    // Each range is replaced by the write position's byte offset, as a digit.
    document.edit(&selections, &mut changes, |text: &Text, point: Point| {
        assert!(point.byte <= text.line_len(point.line));
        (Some(Text::from_bytes(&[b'0' + point.byte as u8])), None)
    });
    assert_eq!(document.text().line(0), b"0 cd 5");
}

#[test]
fn touching_selections_merge_into_one_edit() {
    let mut document = Document::new(Text::from_bytes(b"abcdef"));
    let selections = vec![
        Selection { anchor: pt(0, 1), cursor: pt(0, 3), affinity: Affinity::Before },
        Selection { anchor: pt(0, 3), cursor: pt(0, 4), affinity: Affinity::Before },
    ];
    let mut changes = Vec::new();
    document.edit(&selections, &mut changes, |_text: &Text, _point: Point| (Some(Text::from_bytes(b"Z")), None));
    assert_eq!(document.text().line(0), b"aZef");
    assert_eq!(changes.len(), 2);
}

#[test]
fn tokens_cover_lines_after_many_edits() {
    let mut document = Document::new(Text::from_bytes(b"fn main() {\n    let x = 1;\n}\n"));
    let mut session = Session::new(&mut document);
    session.set_cursor(pt(1, 4), Affinity::Before);
    session.add_cursor(pt(0, 2), Affinity::Before);
    session.insert(&mut document, Text::from_bytes(b"  a\nb  c "));
    session.handle_changes(&mut document);
    assert_tokens_cover(&document);
    session.set_cursor(pt(0, 1), Affinity::Before);
    session.move_to(pt(2, 3), Affinity::Before);
    session.delete(&mut document);
    session.handle_changes(&mut document);
    assert_tokens_cover(&document);
    session.insert(&mut document, Text::from_bytes(b"\t\t"));
    assert_tokens_cover(&document);
}

#[test]
fn move_to_only_moves_the_cursor() {
    let mut document = Document::new(Text::from_bytes(b"0123456789"));
    let mut session = Session::new(&mut document);
    session.set_cursor(pt(0, 0), Affinity::Before);
    session.move_to(pt(0, 2), Affinity::Before);
    session.add_cursor(pt(0, 5), Affinity::Before);
    session.move_to(pt(0, 1), Affinity::After);
    assert_eq!(session.selections().len(), 1);
    assert_eq!(session.selections()[0], Selection { anchor: pt(0, 5), cursor: pt(0, 1), affinity: Affinity::After });
    assert_eq!(session.pending_selection_index(), Some(0));
}

#[test]
fn add_cursor_keeps_selections_sorted_and_apart() {
    let mut document = Document::new(Text::from_bytes(b"0123456789"));
    let mut session = Session::new(&mut document);
    session.set_cursor(pt(0, 5), Affinity::Before);
    session.add_cursor(pt(0, 8), Affinity::After);
    session.add_cursor(pt(0, 2), Affinity::Before);
    let starts: Vec<usize> = session.selections().iter().map(|s| s.cursor.byte).collect();
    assert_eq!(starts, vec![2, 5, 8]);
    assert_eq!(session.pending_selection_index(), Some(0));
    for pair in session.selections().windows(2) {
        assert!(pair[0].end().lt(&pair[1].start()));
    }
}

#[test]
fn add_cursor_inside_a_selection_replaces_it() {
    let mut document = Document::new(Text::from_bytes(b"0123456789"));
    let mut session = Session::new(&mut document);
    session.set_cursor(pt(0, 2), Affinity::Before);
    session.move_to(pt(0, 6), Affinity::Before);
    session.add_cursor(pt(0, 4), Affinity::After);
    assert_eq!(session.selections().len(), 1);
    assert_eq!(
        session.selections()[0],
        Selection { anchor: pt(0, 4), cursor: pt(0, 4), affinity: Affinity::After }
    );
}

#[test]
fn move_to_merges_left_and_right_neighbours() {
    let mut document = Document::new(Text::from_bytes(b"0123456789"));
    let mut session = Session::new(&mut document);
    session.set_cursor(pt(0, 1), Affinity::Before);
    session.add_cursor(pt(0, 4), Affinity::Before);
    session.add_cursor(pt(0, 7), Affinity::Before);
    session.add_cursor(pt(0, 9), Affinity::Before);
    // pending is the caret at 9; moving it back to 3 swallows 7 and 4.
    session.move_to(pt(0, 3), Affinity::Before);
    let sels = session.selections();
    assert_eq!(sels.len(), 2);
    assert_eq!(sels[0].cursor, pt(0, 1));
    assert_eq!(sels[1].anchor, pt(0, 9));
    assert_eq!(sels[1].cursor, pt(0, 3));
    assert_eq!(session.pending_selection_index(), Some(1));
}

#[test]
fn inlay_outside_edit_keeps_its_character() {
    let line = b"abcdefghijklmnopqrstuvwxyz0123";
    let mut document = Document::new(Text::from_bytes(line));
    let anchors: Vec<usize> = document.inline_inlays()[0].iter().map(|(b, _)| *b).collect();
    assert_eq!(anchors, vec![20]);
    assert_eq!(line[20], b'u');
    let mut session = Session::new(&mut document);
    session.set_cursor(pt(0, 3), Affinity::Before);
    session.insert(&mut document, Text::from_bytes(b"123"));
    let anchor = document.inline_inlays()[0][0].0;
    assert_eq!(anchor, 23);
    assert_eq!(document.text().line(0)[anchor], b'u');
    session.handle_changes(&mut document);
    session.set_cursor(pt(0, 0), Affinity::Before);
    session.insert(&mut document, Text::from_bytes(b"x\ny"));
    assert_eq!(document.inline_inlays()[0].len(), 0);
    assert_eq!(document.inline_inlays()[1][0].0, 24);
    assert_eq!(document.text().line(1)[24], b'u');
    match &document.inline_inlays()[1][0].1 {
        InlineInlay::Text(label) => assert_eq!(label, b"XXX"),
        InlineInlay::Widget(_) => panic!("expected a text inlay"),
    }
}

#[test]
fn inlay_at_insertion_point_follows_drift() {
    let line = b"abcdefghijklmnopqrstuvwxyz";
    let mut before = Document::new(Text::from_bytes(line));
    before.apply_change(&Change { drift: Drift::Before, kind: ChangeKind::Insert(pt(0, 20), Text::from_bytes(b"--")) });
    assert_eq!(before.inline_inlays()[0][0].0, 22);
    let mut after = Document::new(Text::from_bytes(line));
    after.apply_change(&Change { drift: Drift::After, kind: ChangeKind::Insert(pt(0, 20), Text::from_bytes(b"--")) });
    assert_eq!(after.inline_inlays()[0][0].0, 20);
}

#[test]
fn inlay_at_delete_end_moves_to_start() {
    let line = b"abcdefghijklmnopqrstuvwxyz";
    let mut document = Document::new(Text::from_bytes(line));
    document.apply_change(&Change { drift: Drift::Before, kind: ChangeKind::Delete(Range::new(pt(0, 15), pt(0, 20))) });
    assert_eq!(document.inline_inlays()[0][0].0, 15);
    assert_eq!(document.text().line(0)[15], b'u');
}

#[test]
fn changes_reach_sessions_in_order() {
    let mut document = Document::new(Text::from_bytes(b"abc"));
    let mut writer = Session::new(&mut document);
    let mut reader = Session::new(&mut document);
    reader.set_cursor(pt(0, 2), Affinity::Before);
    writer.set_cursor(pt(0, 0), Affinity::Before);
    writer.insert(&mut document, Text::from_bytes(b"xy"));
    writer.handle_changes(&mut document);
    writer.set_cursor(pt(0, 0), Affinity::Before);
    writer.move_to(pt(0, 3), Affinity::Before);
    writer.delete(&mut document);
    assert_eq!(document.text().line(0), b"bc");
    // In order: the insertion moves 2 to 4, the deletion of [0, 3) then moves 4 to 1.
    // The other order would give 2 -> 0 -> 0.
    reader.handle_changes(&mut document);
    assert_eq!(reader.selections()[0].cursor, pt(0, 1));
    let again = reader.selections()[0];
    reader.handle_changes(&mut document);
    assert_eq!(reader.selections()[0], again);
}

#[test]
fn closed_session_gets_no_changes() {
    let mut document = Document::new(Text::from_bytes(b"abc"));
    let writer = Session::new(&mut document);
    let reader = Session::new(&mut document);
    let reader_id = reader.id();
    assert_ne!(writer.id(), reader_id);
    reader.close(&mut document);
    document.apply_change(&Change { drift: Drift::Before, kind: ChangeKind::Insert(pt(0, 0), Text::from_bytes(b"z")) });
    assert!(document.take_changes(reader_id).is_empty());
    assert_eq!(document.take_changes(writer.id()).len(), 1);
}

#[test]
fn tokenize_splits_whitespace_runs() {
    let tokens = tokenize(b"  ab\tcd  e");
    let lens: Vec<usize> = tokens.iter().map(|t| t.len).collect();
    assert_eq!(lens, vec![2, 2, 1, 2, 2, 1]);
    assert_eq!(tokens[0].kind, TokenKind::Whitespace);
    assert_eq!(tokens[1].kind, TokenKind::Unknown);
    assert!(tokenize(b"").is_empty());
}

#[test]
fn tokenize_knows_unicode_white_space() {
    let tokens = tokenize("a\u{a0}\u{3000}b é".as_bytes());
    let lens: Vec<usize> = tokens.iter().map(|t| t.len).collect();
    assert_eq!(lens, vec![1, 5, 1, 1, 2]);
    assert_eq!(tokens[1].kind, TokenKind::Whitespace);
    assert_eq!(tokens[4].kind, TokenKind::Unknown);
}

#[test]
fn split_tokens_cuts_a_straddling_token() {
    let ts = vec![
        Token { len: 3, kind: TokenKind::Unknown },
        Token { len: 2, kind: TokenKind::Whitespace },
    ];
    let (pre, suf) = split_tokens(&ts, 4);
    assert_eq!(pre, vec![Token { len: 3, kind: TokenKind::Unknown }, Token { len: 1, kind: TokenKind::Whitespace }]);
    assert_eq!(suf, vec![Token { len: 1, kind: TokenKind::Whitespace }]);
    let (pre, suf) = split_tokens(&ts, 3);
    assert_eq!(pre.len(), 1);
    assert_eq!(suf.len(), 1);
}

#[test]
fn text_from_bytes_splits_lines() {
    let text = Text::from_bytes(b"a\n\nbc\n");
    assert_eq!(lines_of(&text), vec![b"a".to_vec(), b"".to_vec(), b"bc".to_vec(), b"".to_vec()]);
    assert_eq!(text.extent(), Length { line_count: 3, byte_count: 0 });
    assert_eq!(Text::new().line_count(), 1);
}

#[test]
fn text_insert_and_delete() {
    let mut text = Text::from_bytes(b"hello\nworld");
    text.insert(pt(0, 2), &Text::from_bytes(b"XY\nZ"));
    assert_eq!(lines_of(&text), vec![b"heXY".to_vec(), b"Zllo".to_vec(), b"world".to_vec()]);
    text.delete(Range::new(pt(0, 3), pt(2, 1)));
    assert_eq!(lines_of(&text), vec![b"heXorld".to_vec()]);
}

#[test]
fn point_arithmetic() {
    let p = pt(2, 5);
    assert_eq!(p.add_length(Length { line_count: 0, byte_count: 3 }), pt(2, 8));
    assert_eq!(p.add_length(Length { line_count: 2, byte_count: 3 }), pt(4, 3));
    assert_eq!(pt(4, 3).sub(p), Length { line_count: 2, byte_count: 3 });
    assert_eq!(pt(2, 9).sub(p), Length { line_count: 0, byte_count: 4 });
    assert!(pt(1, 9).lt(&pt(2, 0)));
    assert!(!pt(2, 0).le(&pt(1, 9)));
}

#[test]
fn point_moves_through_changes() {
    let insert = Change { drift: Drift::Before, kind: ChangeKind::Insert(pt(1, 2), Text::from_bytes(b"ab\ncde")) };
    assert_eq!(pt(1, 4).apply_change(&insert), pt(2, 5));
    assert_eq!(pt(1, 2).apply_change(&insert), pt(2, 3));
    assert_eq!(pt(1, 1).apply_change(&insert), pt(1, 1));
    assert_eq!(pt(3, 0).apply_change(&insert), pt(4, 0));
    let delete = Change { drift: Drift::Before, kind: ChangeKind::Delete(Range::new(pt(1, 2), pt(3, 4))) };
    assert_eq!(pt(2, 0).apply_change(&delete), pt(1, 2));
    assert_eq!(pt(3, 6).apply_change(&delete), pt(1, 4));
    assert_eq!(pt(5, 6).apply_change(&delete), pt(3, 6));
}

#[test]
fn selection_merge_and_should_merge() {
    let a = Selection { anchor: pt(0, 1), cursor: pt(0, 3), affinity: Affinity::Before };
    let b = Selection { anchor: pt(0, 5), cursor: pt(0, 3), affinity: Affinity::After };
    let c = Selection { anchor: pt(0, 6), cursor: pt(0, 6), affinity: Affinity::After };
    assert!(a.should_merge(&b));
    assert!(!a.should_merge(&c));
    assert_eq!(a.merge(&b), Selection { anchor: pt(0, 1), cursor: pt(0, 5), affinity: Affinity::Before });
    assert_eq!(b.merge(&a), Selection { anchor: pt(0, 5), cursor: pt(0, 1), affinity: Affinity::After });
}

#[test]
fn chunks_walk_every_line() {
    let text = Text::from_bytes(b"ab\ncd\n");
    let mut chunks = Chunks::new(&text);
    assert_eq!(chunks.next(), Some(b"ab\n".to_vec()));
    assert_eq!(chunks.next(), Some(b"cd\n".to_vec()));
    assert_eq!(chunks.next(), Some(b"".to_vec()));
    assert_eq!(chunks.next(), None);
    assert_eq!(chunks.next(), None);
}

#[test]
fn chunks_join_to_the_text() {
    let bytes = b"one\n\ntwo three\nfour";
    let text = Text::from_bytes(bytes);
    let mut chunks = Chunks::new(&text);
    let mut joined = Vec::new();
    while let Some(chunk) = chunks.next() {
        joined.extend_from_slice(&chunk);
    }
    assert_eq!(joined, bytes.to_vec());
}

#[test]
fn add_cursor_on_an_existing_caret_keeps_one() {
    let mut document = Document::new(Text::from_bytes(b"abcdef"));
    let mut session = Session::new(&mut document);
    session.set_cursor(pt(0, 3), Affinity::Before);
    session.add_cursor(pt(0, 3), Affinity::After);
    assert_eq!(session.selections().len(), 1);
    assert_eq!(session.selections()[0], Selection { anchor: pt(0, 3), cursor: pt(0, 3), affinity: Affinity::After });
    assert_eq!(session.pending_selection_index(), Some(0));
}

#[test]
fn add_cursor_at_a_selection_end_replaces_it() {
    let mut document = Document::new(Text::from_bytes(b"abcdef"));
    let mut session = Session::new(&mut document);
    session.set_cursor(pt(0, 0), Affinity::Before);
    session.move_to(pt(0, 3), Affinity::Before);
    session.add_cursor(pt(0, 3), Affinity::Before);
    assert_eq!(session.selections().len(), 1);
    assert_eq!(session.selections()[0].anchor, pt(0, 3));
    session.add_cursor(pt(0, 5), Affinity::Before);
    assert_eq!(session.selections().len(), 2);
    assert!(session.selections()[0].end().lt(&session.selections()[1].start()));
}

#[test]
fn handle_changes_merges_selections_a_deletion_brings_together() {
    let mut document = Document::new(Text::from_bytes(b"abcdef"));
    let mut writer = Session::new(&mut document);
    let mut reader = Session::new(&mut document);
    reader.set_cursor(pt(0, 1), Affinity::Before);
    reader.add_cursor(pt(0, 5), Affinity::Before);
    assert_eq!(reader.pending_selection_index(), Some(1));
    writer.set_cursor(pt(0, 1), Affinity::Before);
    writer.move_to(pt(0, 5), Affinity::Before);
    writer.delete(&mut document);
    reader.handle_changes(&mut document);
    assert_eq!(reader.selections().len(), 1);
    assert_eq!(reader.selections()[0].cursor, pt(0, 1));
    assert_eq!(reader.pending_selection_index(), Some(0));
}

#[test]
fn new_document_has_placeholder_inlays_on_even_lines() {
    let long = [b'a'; 45];
    let mut source = long.to_vec();
    source.push(b'\n');
    source.extend_from_slice(&long);
    source.push(b'\n');
    source.extend_from_slice(b"short");
    let document = Document::new(Text::from_bytes(&source));
    let anchors = |i: usize| -> Vec<usize> { document.inline_inlays()[i].iter().map(|(b, _)| *b).collect() };
    assert_eq!(anchors(0), vec![20, 40]);
    assert_eq!(anchors(1), Vec::<usize>::new());
    assert_eq!(anchors(2), Vec::<usize>::new());
    assert!(document.block_inlays().is_empty());
    assert_tokens_cover(&document);
}
