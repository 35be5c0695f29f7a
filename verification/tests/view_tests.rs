use torg::document::Document;
use torg::view::View;

/// Build a document and drop a fresh view on it — the pair every test needs.
fn fixture(text: &str) -> (Document, View) {
    (Document::from_text(text), View::new())
}

#[test]
fn new_view_is_top_left() {
    let view = View::new();
    assert_eq!(view.cursor_line(), 0);
    assert_eq!(view.cursor_column(), 0);
}

// ---- horizontal -------------------------------------------------------

#[test]
fn right_advances_then_wraps_at_line_end() {
    let (doc, mut v) = fixture("ab\ncd\n");
    v.move_right(&doc); // (0,1)
    v.move_right(&doc); // (0,2) — end of "ab"
    assert_eq!((v.cursor_line(), v.cursor_column()), (0, 2));
    v.move_right(&doc); // wraps to start of next line
    assert_eq!((v.cursor_line(), v.cursor_column()), (1, 0));
}

#[test]
fn right_at_end_of_buffer_is_a_noop() {
    let (doc, mut v) = fixture("ab"); // one line, no trailing newline
    v.move_end(&doc); // (0,2)
    v.move_right(&doc);
    assert_eq!((v.cursor_line(), v.cursor_column()), (0, 2));
}

#[test]
fn left_wraps_to_previous_line_end_and_stops_at_origin() {
    let (doc, mut v) = fixture("ab\ncd\n");
    v.move_down(&doc); // (1,0)
    v.move_left(&doc); // wraps to end of "ab"
    assert_eq!((v.cursor_line(), v.cursor_column()), (0, 2));
    v.move_home();
    v.move_left(&doc); // already at (0,0)
    assert_eq!((v.cursor_line(), v.cursor_column()), (0, 0));
}

#[test]
fn home_and_end() {
    let (doc, mut v) = fixture("hello\n");
    v.move_end(&doc);
    assert_eq!(v.cursor_column(), 5);
    v.move_home();
    assert_eq!(v.cursor_column(), 0);
}

// ---- vertical + goal column ------------------------------------------

#[test]
fn down_and_up_clamp_column_to_target_line() {
    let (doc, mut v) = fixture("longline\nx\nlongline\n");
    v.move_end(&doc); // (0,8)
    v.move_down(&doc); // line 1 "x" is length 1 → clamp to (1,1)
    assert_eq!((v.cursor_line(), v.cursor_column()), (1, 1));
}

#[test]
fn goal_column_survives_a_short_line() {
    let (doc, mut v) = fixture("longline\nx\nlongline\n");
    v.move_end(&doc); // (0,8), goal 8
    v.move_down(&doc); // (1,1) but goal stays 8
    v.move_down(&doc); // (2, min(8,8)) = (2,8)
    assert_eq!((v.cursor_line(), v.cursor_column()), (2, 8));
}

#[test]
fn a_horizontal_move_resets_the_goal_column() {
    let (doc, mut v) = fixture("longline\nx\nlongline\n");
    v.move_end(&doc); // (0,8), goal 8
    v.move_down(&doc); // (1,1), goal still 8
    v.move_left(&doc); // horizontal → goal reset to current column (0)
    v.move_down(&doc); // (2,0), not (2,8)
    assert_eq!((v.cursor_line(), v.cursor_column()), (2, 0));
}

#[test]
fn up_on_first_line_and_down_on_last_line_are_noops() {
    let (doc, mut v) = fixture("a\nb\n");
    v.move_up(&doc);
    assert_eq!(v.cursor_line(), 0);
    // last resting line is the phantom trailing empty line (index 2)
    v.move_down(&doc); // (1,0)
    v.move_down(&doc); // (2,0)
    v.move_down(&doc); // stays
    assert_eq!(v.cursor_line(), 2);
}

#[test]
fn caret_reaches_the_phantom_trailing_line_and_no_further() {
    let (doc, mut v) = fixture("a\nb\n"); // 3 lines: "a\n","b\n",""
    v.move_page_down(&doc, 100);
    assert_eq!((v.cursor_line(), v.cursor_column()), (2, 0));
}

#[test]
fn paging_moves_by_page_and_clamps() {
    let (doc, mut v) = fixture("0\n1\n2\n3\n4\n5\n");
    v.move_page_down(&doc, 3); // (3,0)
    assert_eq!(v.cursor_line(), 3);
    v.move_page_up(&doc, 10); // clamp at top
    assert_eq!(v.cursor_line(), 0);
}

// ---- editing ----------------------------------------------------------

#[test]
fn insert_char_into_empty_buffer() {
    let (mut doc, mut v) = fixture("");
    v.insert_char(&mut doc, 'x');
    assert_eq!(doc.text(), "x");
    assert_eq!((v.cursor_line(), v.cursor_column()), (0, 1));
    assert!(doc.is_modified());
}

#[test]
fn insert_char_mid_line_shifts_and_advances() {
    let (mut doc, mut v) = fixture("ac\n");
    v.move_right(&doc); // (0,1) between a and c
    v.insert_char(&mut doc, 'b');
    assert_eq!(doc.text(), "abc\n");
    assert_eq!(v.cursor_column(), 2);
}

#[test]
fn insert_newline_splits_the_line() {
    let (mut doc, mut v) = fixture("abcd\n");
    v.move_right(&doc);
    v.move_right(&doc); // (0,2)
    v.insert_newline(&mut doc);
    assert_eq!(doc.text(), "ab\ncd\n");
    assert_eq!((v.cursor_line(), v.cursor_column()), (1, 0));
}

#[test]
fn backspace_mid_line_removes_the_preceding_char() {
    let (mut doc, mut v) = fixture("abc\n");
    v.move_end(&doc); // (0,3)
    v.backspace(&mut doc);
    assert_eq!(doc.text(), "ab\n");
    assert_eq!(v.cursor_column(), 2);
}

#[test]
fn backspace_at_column_zero_joins_the_previous_line() {
    let (mut doc, mut v) = fixture("ab\ncd\n");
    v.move_down(&doc); // (1,0)
    v.backspace(&mut doc);
    assert_eq!(doc.text(), "abcd\n");
    assert_eq!((v.cursor_line(), v.cursor_column()), (0, 2)); // at the seam
}

#[test]
fn backspace_at_origin_is_a_noop() {
    let (mut doc, mut v) = fixture("ab\n");
    v.backspace(&mut doc);
    assert_eq!(doc.text(), "ab\n");
    assert_eq!((v.cursor_line(), v.cursor_column()), (0, 0));
}

#[test]
fn delete_removes_char_at_cursor() {
    let (mut doc, mut v) = fixture("abc\n");
    v.move_right(&doc); // (0,1)
    v.delete(&mut doc); // removes 'b'
    assert_eq!(doc.text(), "ac\n");
    assert_eq!(v.cursor_column(), 1);
}

#[test]
fn delete_at_line_end_joins_the_next_line() {
    let (mut doc, mut v) = fixture("ab\ncd\n");
    v.move_end(&doc); // (0,2), the char there is '\n'
    v.delete(&mut doc);
    assert_eq!(doc.text(), "abcd\n");
    assert_eq!((v.cursor_line(), v.cursor_column()), (0, 2));
}

#[test]
fn delete_at_end_of_buffer_is_a_noop() {
    let (mut doc, mut v) = fixture("ab");
    v.move_end(&doc); // (0,2) == end of buffer
    v.delete(&mut doc);
    assert_eq!(doc.text(), "ab");
}

#[test]
fn unicode_char_is_a_single_column() {
    let (mut doc, mut v) = fixture("");
    v.insert_char(&mut doc, 'é'); // two UTF-8 bytes, ONE char
    assert_eq!(v.cursor_column(), 1);
    assert_eq!(v.cursor_char_idx(&doc), 1);
    assert_eq!(doc.text(), "é");
}

#[test]
fn move_to_line_jumps_to_line_start_and_clamps() {
    let (doc, mut v) = fixture("aa\nbb\ncc\n");
    v.move_to_line(&doc, 2);
    assert_eq!((v.cursor_line(), v.cursor_column()), (2, 0));
    v.move_to_line(&doc, 999); // clamps to the phantom trailing line
    assert_eq!(v.cursor_line(), 3);
}

#[test]
fn move_to_places_the_cursor_at_line_and_column_clamped() {
    let (doc, mut v) = fixture("short\na longer line\n");
    v.move_to(&doc, 1, 9);
    assert_eq!((v.cursor_line(), v.cursor_column()), (1, 9));
    v.move_to(&doc, 0, 99); // clamps to the end of "short"
    assert_eq!((v.cursor_line(), v.cursor_column()), (0, 5));
    v.move_to(&doc, 99, 0); // clamps to the phantom trailing line
    assert_eq!((v.cursor_line(), v.cursor_column()), (2, 0));
}

#[test]
fn move_to_clamps_the_goal_column_not_just_the_cursor() {
    let (doc, mut v) = fixture("short\na longer line\n");
    v.move_to(&doc, 0, 99); // clamps to (0,5), and the goal must clamp too
    v.move_down(&doc); // should land near column 5, not drift to line 1's full length (13)
    assert_eq!((v.cursor_line(), v.cursor_column()), (1, 5));
}

#[test]
fn cursor_char_idx_matches_line_to_char_plus_column() {
    let (doc, mut v) = fixture("ab\ncd\n");
    v.move_down(&doc);
    v.move_right(&doc); // (1,1)
    assert_eq!(v.cursor_char_idx(&doc), doc.line_to_char(1) + 1);
    assert_eq!(v.cursor_char_idx(&doc), 4);
}

#[test]
fn typing_then_backspace_gives_the_text_back() {
    let (mut doc, mut v) = fixture("one\ntwo\n");
    v.move_down(&doc);
    v.move_right(&doc); // (1,1)
    v.insert_char(&mut doc, 'é');
    assert_eq!(doc.text(), "one\ntéwo\n");
    v.backspace(&mut doc);
    assert_eq!(doc.text(), "one\ntwo\n");
    assert_eq!((v.cursor_line(), v.cursor_column()), (1, 1));
    assert!(doc.is_modified());
}

#[test]
fn newline_then_backspace_gives_the_text_back() {
    let (mut doc, mut v) = fixture("abcd\nx");
    v.move_right(&doc);
    v.move_right(&doc); // (0,2)
    v.insert_newline(&mut doc);
    assert_eq!(doc.text(), "ab\ncd\nx");
    v.backspace(&mut doc);
    assert_eq!(doc.text(), "abcd\nx");
    assert_eq!((v.cursor_line(), v.cursor_column()), (0, 2));
}
