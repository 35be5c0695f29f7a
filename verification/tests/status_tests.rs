use torg::document::Document;
use torg::keymap::{Key, KeyCode};
use torg::session::{App, Buffer};
use torg::status::{buffer_list_rows, prompt_cursor_col, status_text};

fn press(app: &mut App, code: KeyCode) {
    app.handle_key(Key::new(code, false, false, false));
}
fn ctrl(app: &mut App, c: char) {
    app.handle_key(Key::new(KeyCode::Char(c), true, false, false));
}

#[test]
fn status_shows_the_buffer_position_only_with_multiple_buffers() {
    let one = App::new(vec![Buffer::new(Document::from_text("x"), None)]);
    assert!(!status_text(&one).contains("[1/1]"));

    let two = App::new(vec![
        Buffer::new(Document::from_text("x"), None),
        Buffer::new(Document::from_text("y"), None),
    ]);
    assert!(status_text(&two).starts_with(" [1/2]"));
}

#[test]
fn the_edit_status_names_the_buffer_and_the_caret() {
    let mut app = App::new(vec![Buffer::new(Document::from_text("ab\ncd\n"), Some("n.org".to_string()))]);
    assert_eq!(status_text(&app), " n.org — 1:1 ");
    press(&mut app, KeyCode::Down);
    press(&mut app, KeyCode::Right);
    press(&mut app, KeyCode::Char('x'));
    assert_eq!(status_text(&app), " n.org* — 2:3 ");
}

#[test]
fn a_message_follows_the_edit_status() {
    let mut app = App::new(vec![Buffer::new(Document::from_text("* top\n"), None)]);
    app.set_status("Saved".to_string());
    assert_eq!(status_text(&app), " [No Name] — 1:1   Saved");
}

#[test]
fn prompts_show_their_label_input_and_hint() {
    let mut app = App::new(vec![Buffer::new(Document::from_text("x"), None)]);
    ctrl(&mut app, 'o');
    for c in "ab".chars() {
        press(&mut app, KeyCode::Char(c));
    }
    assert_eq!(status_text(&app), "Open: ab");
    assert_eq!(prompt_cursor_col(&app), Some(8));
    app.set_prompt_input("abc".to_string(), Some("(no match)".to_string()));
    assert_eq!(status_text(&app), "Open: abc   (no match)");
}

#[test]
fn confirmations_ask_about_the_unsaved_buffers() {
    let mut app = App::new(vec![
        Buffer::new(Document::from_text("x"), Some("a.org".to_string())),
        Buffer::new(Document::from_text("y"), None),
    ]);
    press(&mut app, KeyCode::Char('!'));
    ctrl(&mut app, 'w');
    assert_eq!(status_text(&app), " Discard unsaved changes to a.org? (y/n) ");
    press(&mut app, KeyCode::Esc);
    ctrl(&mut app, 'q');
    assert_eq!(
        status_text(&app),
        " 1 buffer(s) have unsaved changes — quit anyway? (y/n) "
    );
    assert_eq!(prompt_cursor_col(&app), None);
}

#[test]
fn buffer_list_rows_number_the_buffers_and_mark_unsaved_ones() {
    let mut app = App::new(vec![
        Buffer::new(Document::from_text("x"), Some("a.org".to_string())),
        Buffer::new(Document::from_text("y"), None),
    ]);
    press(&mut app, KeyCode::Char('!'));
    assert_eq!(buffer_list_rows(&app), vec![" 1 a.org* ".to_string(), " 2 [No Name] ".to_string()]);
}

#[test]
fn visible_lines_skip_a_folded_subtree() {
    let mut app = App::new(vec![Buffer::new(Document::from_text("* A\nbody\nmore\n* B\ntail\n"), None)]);
    assert_eq!(app.visible_lines(3), vec![0, 1, 2]);
    press(&mut app, KeyCode::Tab);
    assert_eq!(app.visible_lines(3), vec![0, 3, 4]);
    assert_eq!(app.visible_lines(10), vec![0, 3, 4, 5]);
}

#[test]
fn status_line_shows_the_find_prompt_hint_while_searching() {
    let mut app = App::new(vec![Buffer::new(Document::from_text("plain\n"), None)]);
    ctrl(&mut app, 'f');
    for c in "zzz".chars() {
        press(&mut app, KeyCode::Char(c));
    }
    let text = status_text(&app);
    assert!(text.contains("Find: zzz"), "{text}");
    assert!(text.contains("Not found"), "{text}");
    assert_eq!(prompt_cursor_col(&app), Some("Find: zzz".len()));
}
