use code_editor::document::Document;
use code_editor::inlays::InlineInlay;
use code_editor::layout::{column_count, compute_wraps, layout_line, line_segments, text_columns, Segment};
use code_editor::point::Point;
use code_editor::selection::Affinity;
use code_editor::session::{Block, Session};
use code_editor::text::Text;
use code_editor::token::tokenize;

#[test]
fn unwrapped_lines_are_one_row() {
    let mut document = Document::new(Text::from_bytes(b"hello world\nab\n"));
    let session = Session::new(&mut document);
    assert_eq!(session.wrap_column(), None);
    assert_eq!(session.width(), 11);
    assert_eq!(session.height(), 3);
    let line = session.line(&document, 0);
    assert_eq!(line.height, 1);
    assert_eq!(line.y, Some(0));
    assert!(line.wraps.is_empty());
    assert_eq!(session.line(&document, 2).y, Some(2));
    assert_eq!(session.line(&document, 1).fold_column, 0);
    let lines = session.lines(&document, 0, 3);
    assert_eq!(lines[1].text, b"ab");
    assert_eq!(lines[1].y, Some(1));
    assert_eq!(lines[0].column_count, 11);
}

#[test]
fn wrap_column_breaks_long_lines() {
    let mut document = Document::new(Text::from_bytes(b"aaaa bbbb cccc\nx"));
    let mut session = Session::new(&mut document);
    session.set_wrap_column(&document, Some(6));
    assert_eq!(session.wrap_column(), Some(6));
    let line = session.line(&document, 0);
    // "aaaa" " " fit in 6 columns; "bbbb" would pass it.
    assert_eq!(line.wraps, &[5, 10][..]);
    assert_eq!(line.height, 3);
    assert_eq!(session.line(&document, 1).y, Some(3));
    assert_eq!(session.height(), 4);
    assert_eq!(session.width(), 5);
}

#[test]
fn continuation_rows_keep_indentation() {
    let mut document = Document::new(Text::from_bytes(b"    ab cd ef"));
    let mut session = Session::new(&mut document);
    session.set_wrap_column(&document, Some(9));
    let line = session.line(&document, 0);
    assert_eq!(line.wrap_indent_column, 4);
    assert_eq!(line.wraps, &[9][..]);
    assert_eq!(line.column_count, 9);
}

#[test]
fn tabs_take_the_tab_width() {
    assert_eq!(text_columns(b"\tab", 0, 3, 4), 6);
    assert_eq!(text_columns("é".as_bytes(), 0, 2, 4), 1);
}

#[test]
fn find_lines_by_vertical_position() {
    let mut document = Document::new(Text::from_bytes(b"aaaa bbbb\nc\nd"));
    let mut session = Session::new(&mut document);
    session.set_wrap_column(&document, Some(5));
    // tops: 0, 2, 3; bottom 4
    assert_eq!(session.line(&document, 1).y, Some(2));
    assert_eq!(session.find_first_line_ending_after_y(0), 0);
    assert_eq!(session.find_first_line_ending_after_y(1), 0);
    assert_eq!(session.find_first_line_ending_after_y(2), 1);
    assert_eq!(session.find_first_line_starting_after_y(0), 1);
    assert_eq!(session.find_first_line_starting_after_y(1), 1);
    assert_eq!(session.find_first_line_starting_after_y(2), 2);
}

#[test]
fn blocks_interleave_lines() {
    let mut document = Document::new(Text::from_bytes(b"a\nb\nc"));
    let session = Session::new(&mut document);
    let blocks = session.blocks(&document, 1, 3);
    let indices: Vec<usize> = blocks
        .iter()
        .map(|b| match b {
            Block::Line { line, .. } => line.index,
            Block::Widget(_) => usize::MAX,
        })
        .collect();
    assert_eq!(indices, vec![1, 2]);
    let lines = session.lines(&document, 0, 2);
    assert_eq!(lines.len(), 2);
    assert_eq!(lines[1].text, b"b");
}

#[test]
fn layout_follows_edits_after_handle_changes() {
    let mut document = Document::new(Text::from_bytes(b"ab"));
    let mut session = Session::new(&mut document);
    session.set_cursor(Point { line: 0, byte: 1 }, Affinity::Before);
    session.insert(&mut document, Text::from_bytes(b"xyz\n12345"));
    session.handle_changes(&mut document);
    assert_eq!(session.height(), 2);
    assert_eq!(session.width(), 6);
    assert_eq!(session.line(&document, 1).text, b"12345b");
}

#[test]
fn inlays_take_columns() {
    let tokens = tokenize(b"abcd");
    let inlays = vec![(2usize, InlineInlay::Text(b"XXX".to_vec()))];
    let segs = line_segments(b"abcd", &tokens, &inlays, 4);
    assert_eq!(segs, vec![Segment { byte: 0, width: 4 }, Segment { byte: 2, width: 3 }]);
    let (wraps, indent, count) = layout_line(b"abcd", &tokens, &inlays, None, 4);
    assert!(wraps.is_empty());
    assert_eq!(indent, 0);
    assert_eq!(count, 7);
}

#[test]
fn wraps_and_column_count_of_segments() {
    let segs = vec![
        Segment { byte: 0, width: 3 },
        Segment { byte: 3, width: 3 },
        Segment { byte: 6, width: 3 },
    ];
    let wraps = compute_wraps(&segs, 5, 1);
    assert_eq!(wraps, vec![3, 6]);
    assert_eq!(column_count(&segs, &wraps, 1), 4);
    assert_eq!(column_count(&segs, &Vec::new(), 0), 9);
}
