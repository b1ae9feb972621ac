use merlion_render::parse::cursor::{at_line_start, Cursor, LineIndex};

#[test]
fn spans_count_columns_in_scalars() {
    let src = "ab\ncé d\n\nx";
    let idx = LineIndex::new(src);
    assert_eq!(idx.line_col(0), (1, 1));
    assert_eq!(idx.line_col(1), (1, 2));
    assert_eq!(idx.line_col(3), (2, 1));
    // `é` is two bytes; `d` is byte 7 and column 4.
    assert_eq!(idx.line_col(7), (2, 4));
    assert_eq!(idx.line_col(9), (3, 1));
    assert_eq!(idx.line_col(10), (4, 1));
    // Out-of-order lookups give the same answers.
    assert_eq!(idx.line_col(4), (2, 2));
    assert_eq!(idx.line_col(1), (1, 2));
}

#[test]
fn span_clamps_and_keeps_boundaries() {
    let src = "é";
    let idx = LineIndex::new(src);
    let s = idx.span(1, 99);
    assert_eq!((s.byte_start, s.byte_end), (0, 2));
    assert_eq!((s.line, s.column), (1, 1));
}

#[test]
fn cursor_helpers() {
    let mut c = Cursor::new("  a\tb\nc", 0);
    assert!(c.at_line_start());
    assert!(c.skip_hws());
    assert_eq!(c.peek(), Some('a'));
    assert!(c.at_line_start());
    c.bump();
    assert!(!c.at_line_start());
    c.skip_to_eol();
    assert_eq!(c.peek(), Some('\n'));
    c.skip_ws();
    assert_eq!(c.peek(), Some('c'));
    assert!(c.at_line_start());
    assert_eq!(c.bump(), Some('c'));
    assert_eq!(c.bump(), None);
    assert!(c.at_eof());
}

#[test]
fn line_bounds() {
    let idx = LineIndex::new("ab\ncd");
    assert_eq!(idx.line_start(4), 3);
    assert_eq!(idx.next_line_start(1), 3);
    assert_eq!(idx.next_line_start(4), 5);
}

#[test]
fn cursor_eats_and_peeks_ahead() {
    let mut c = Cursor::new("-->é x", 0);
    assert!(c.starts_with("--"));
    assert!(!c.eat("->"));
    assert!(c.eat("-->"));
    assert_eq!(c.pos, 3);
    assert_eq!(c.peek_nth(2), Some('x'));
    assert_eq!(c.peek_nth(3), None);
    assert_eq!(c.bump(), Some('é'));
    assert_eq!(c.pos, 5);
    assert_eq!(c.byte_at(1), Some(b'x'));
    assert_eq!(c.byte_at(usize::MAX), None);
    assert_eq!(c.rest(), " x");
    assert_eq!(c.eol(), 7);
}

#[test]
fn cursor_off_a_boundary_sees_nothing() {
    let mut c = Cursor::new("é\nb", 1);
    assert_eq!(c.peek(), None);
    assert_eq!(c.rest(), "");
    assert_eq!(c.eol(), 4);
    c.skip_to_eol();
    assert_eq!(c.pos, 4);
    assert!(c.at_eof());
}

#[test]
fn skip_ws_crosses_unicode_spaces_and_newlines() {
    let mut c = Cursor::new("\u{3000}\n \u{a0}z", 0);
    c.skip_ws();
    assert_eq!(c.pos, 7);
    assert_eq!(c.peek(), Some('z'));
}

#[test]
fn line_start_ignores_horizontal_whitespace_only() {
    assert!(at_line_start("ab\n \t x", 6));
    assert!(!at_line_start("ab x", 3));
    assert!(at_line_start("", 10));
    assert!(at_line_start("a\r\n", 99));
}

#[test]
fn line_col_past_the_end_clamps() {
    let idx = LineIndex::new("a\nbc");
    assert_eq!(idx.line_col(100), (2, 3));
    let s = idx.span(3, 1);
    assert_eq!((s.byte_start, s.byte_end), (3, 3));
}
