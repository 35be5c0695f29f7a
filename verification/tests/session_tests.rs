use torg::document::Document;
use torg::editor::{DatePurpose, Mode};
use torg::keymap::{Key, KeyCode};
use torg::session::{App, Buffer, Effect};
use torg::status::status_text;

fn press(app: &mut App, code: KeyCode) -> Effect {
    app.handle_key(Key::new(code, false, false, false))
}
fn ctrl(app: &mut App, c: char) -> Effect {
    app.handle_key(Key::new(KeyCode::Char(c), true, false, false))
}
fn typ(app: &mut App, s: &str) {
    for c in s.chars() {
        press(app, KeyCode::Char(c));
    }
}
fn alt_key(app: &mut App, code: KeyCode) {
    app.handle_key(Key::new(code, false, true, false));
}
fn alt_shift(app: &mut App, code: KeyCode) {
    app.handle_key(Key::new(code, false, true, true));
}
fn shift_key(app: &mut App, code: KeyCode) {
    app.handle_key(Key::new(code, false, false, true));
}
fn alt(app: &mut App, c: char) {
    app.handle_key(Key::new(KeyCode::Char(c), false, true, false));
}

fn single(doc: Document, stash_path: Option<&str>) -> App {
    App::new(vec![Buffer::new(doc, stash_path.map(|p| p.to_string()))])
}

fn md_app(text: &str) -> App {
    single(Document::from_text(text), Some("virtual.md"))
}

fn three_buffers() -> App {
    App::new(vec![
        Buffer::new(Document::from_text("first\n"), None),
        Buffer::new(Document::from_text("second\n"), None),
        Buffer::new(Document::from_text("third\n"), None),
    ])
}

#[test]
fn display_name_falls_back_to_the_stash_path_then_no_name() {
    let stash = Buffer::new(Document::new(), Some("todo/new.org".to_string()));
    assert_eq!(stash.display_name(), "new.org");
    assert_eq!(Buffer::untitled().display_name(), "[No Name]");
}

#[test]
fn matches_path_sees_document_and_stash_paths() {
    let stash = Buffer::new(Document::new(), Some("missing/later.org".to_string()));
    assert!(stash.matches_path("missing/later.org", None, (None, None)));
    assert!(!stash.matches_path("other.org", None, (None, None)));
    assert!(!Buffer::untitled().matches_path("anything.org", None, (None, None)));
}

#[test]
fn opened_buffer_is_named_after_its_file() {
    let b = Buffer::opened(Document::from_text("x"), "/tmp/notes/plan.org".to_string());
    assert_eq!(b.display_name(), "plan.org");
}

#[test]
fn matches_path_compares_resolved_forms_when_both_resolve() {
    let b = Buffer::opened(Document::new(), "a.org".to_string());
    let here = Some("/home/u/a.org".to_string());
    assert!(b.matches_path("./a.org", here.clone(), (here.clone(), None)));
    assert!(!b.matches_path("./a.org", None, (here, None)));
}

#[test]
fn ctrl_s_without_a_path_opens_the_saveas_prompt() {
    let mut app = single(Document::from_text("hello"), None);
    ctrl(&mut app, 's');
    assert!(matches!(app.mode(), Mode::SaveAs { .. }));
}

#[test]
fn saveas_esc_cancels_and_leaves_the_buffer_unsaved() {
    let mut app = single(Document::from_text("data"), None);
    typ(&mut app, "!");
    ctrl(&mut app, 's');
    press(&mut app, KeyCode::Esc);
    assert_eq!(app.mode(), &Mode::Edit);
    assert!(app.document().is_modified());
}

#[test]
fn saveas_enter_hands_the_typed_path_to_the_driver() {
    let mut app = single(Document::from_text("brand new"), None);
    ctrl(&mut app, 's');
    typ(&mut app, "out.org");
    typ(&mut app, "z");
    press(&mut app, KeyCode::Backspace);
    let e = press(&mut app, KeyCode::Enter);
    assert_eq!(e, Effect::SaveAsTyped("out.org".to_string()));
    app.saved_as("out.org".to_string(), Ok(()));
    assert_eq!(app.mode(), &Mode::Edit);
    assert!(!app.document().is_modified());
}

#[test]
fn missing_file_buffer_asks_to_write_the_stashed_path() {
    let mut app = single(Document::new(), Some("later.org"));
    typ(&mut app, "* hi\n");
    let e = ctrl(&mut app, 's');
    assert_eq!(
        e,
        Effect::Write {
            path: "later.org".to_string(),
            rename: true
        }
    );
    assert_eq!(app.mode(), &Mode::Edit);
}

#[test]
fn tab_on_a_heading_toggles_a_fold_and_hides_its_subtree() {
    let mut app = single(Document::from_text("* A\nbody\n* B\n"), None);
    press(&mut app, KeyCode::Tab);
    assert!(app.is_folded_heading(0));
    assert!(app.is_hidden(1));
    assert!(!app.is_hidden(2));
    press(&mut app, KeyCode::Tab);
    assert!(!app.is_folded_heading(0));
    assert!(!app.is_hidden(1));
}

#[test]
fn tab_off_a_heading_inserts_a_tab() {
    let mut app = single(Document::from_text("plain\n"), None);
    press(&mut app, KeyCode::Tab);
    assert_eq!(app.document().text(), "\tplain\n");
}

#[test]
fn ctrl_n_and_ctrl_p_jump_between_headings() {
    let mut app = single(Document::from_text("* A\nx\n* B\ny\n* C\n"), None);
    ctrl(&mut app, 'n');
    assert_eq!(app.view().cursor_line(), 2);
    ctrl(&mut app, 'n');
    assert_eq!(app.view().cursor_line(), 4);
    ctrl(&mut app, 'p');
    assert_eq!(app.view().cursor_line(), 2);
}

#[test]
fn ctrl_t_cycles_the_heading_todo_keyword() {
    let mut app = single(Document::from_text("* task\n"), None);
    ctrl(&mut app, 't');
    assert_eq!(app.document().text(), "* TODO task\n");
    ctrl(&mut app, 't');
    assert_eq!(app.document().text(), "* DONE task\n");
}

#[test]
fn editing_reparses_so_a_new_heading_is_recognized() {
    let mut app = single(Document::from_text("plain\n"), None);
    assert!(app.outline().headings.is_empty());
    press(&mut app, KeyCode::Home);
    typ(&mut app, "* ");
    assert_eq!(app.outline().headings.len(), 1);
}

#[test]
fn tab_folds_and_ctrl_n_navigates_markdown_headings() {
    let mut app = md_app("# A\nbody\n# B\n");
    press(&mut app, KeyCode::Tab);
    assert!(app.is_folded_heading(0));
    assert!(app.is_hidden(1));
    ctrl(&mut app, 'n');
    assert_eq!(app.view().cursor_line(), 2);
}

#[test]
fn ctrl_t_cycles_todo_in_a_markdown_buffer() {
    let mut app = md_app("# task\n");
    ctrl(&mut app, 't');
    assert_eq!(app.document().text(), "# TODO task\n");
    ctrl(&mut app, 't');
    assert_eq!(app.document().text(), "# DONE task\n");
}

#[test]
fn each_buffer_uses_its_own_provider() {
    let mut app = App::new(vec![
        Buffer::new(Document::from_text("# md-style\n* org-style\n"), None),
        Buffer::new(
            Document::from_text("# md-style\n* org-style\n"),
            Some("x.md".to_string()),
        ),
    ]);
    assert_eq!(app.outline().headings[0].title, "org-style");
    alt(&mut app, 'n');
    assert_eq!(app.outline().headings[0].title, "md-style");
    ctrl(&mut app, 't');
    assert_eq!(app.document().text(), "# TODO md-style\n* org-style\n");
}

#[test]
fn save_as_to_md_redetects_the_format() {
    let mut app = single(Document::from_text("# A\nbody\n* B\n"), None);
    assert_eq!(app.outline().headings[0].title, "B");
    ctrl(&mut app, 's');
    typ(&mut app, "notes.md");
    press(&mut app, KeyCode::Enter);
    app.saved_as("notes.md".to_string(), Ok(()));
    assert_eq!(app.outline().headings.len(), 1);
    assert_eq!(app.outline().headings[0].title, "A");
}

#[test]
fn save_as_format_change_drops_stale_folds() {
    let mut app = single(Document::from_text("* A\nbody\n"), None);
    press(&mut app, KeyCode::Tab);
    assert!(app.is_folded_heading(0));
    ctrl(&mut app, 's');
    typ(&mut app, "notes.md");
    press(&mut app, KeyCode::Enter);
    app.saved_as("notes.md".to_string(), Ok(()));
    assert!(!app.is_folded_heading(0));
    assert!(!app.is_hidden(1));
}

#[test]
fn a_failed_save_keeps_the_buffer_dirty_and_reports() {
    let mut app = single(Document::from_text("x"), Some("a.org"));
    typ(&mut app, "y");
    ctrl(&mut app, 's');
    app.saved(Err("disk full".to_string()));
    assert!(app.document().is_modified());
    assert!(app.status().contains("disk full"));
}

#[test]
fn alt_arrows_promote_demote_and_move() {
    let mut app = single(Document::from_text("** A\nbody\n** B\n"), None);
    alt_key(&mut app, KeyCode::Left);
    assert_eq!(app.document().text(), "* A\nbody\n** B\n");
    alt_key(&mut app, KeyCode::Right);
    alt_key(&mut app, KeyCode::Down);
    assert_eq!(app.document().text(), "** B\n** A\nbody\n");
    assert_eq!(app.view().cursor_line(), 1);
}

#[test]
fn alt_shift_arrows_shift_the_whole_subtree() {
    let mut app = single(Document::from_text("* A\n** child\n"), None);
    alt_shift(&mut app, KeyCode::Right);
    assert_eq!(app.document().text(), "** A\n*** child\n");
}

#[test]
fn refused_edits_show_the_reason_on_the_status_line() {
    let mut app = single(Document::from_text("* top\n"), None);
    alt_key(&mut app, KeyCode::Left);
    assert_eq!(app.document().text(), "* top\n");
    assert!(!app.status().is_empty());
}

#[test]
fn alt_enter_inserts_a_sibling_and_puts_the_cursor_on_it() {
    let mut app = single(Document::from_text("* A\nbody\n"), None);
    alt_key(&mut app, KeyCode::Enter);
    assert_eq!(app.document().text(), "* A\nbody\n* \n");
    assert_eq!(app.view().cursor_line(), 2);
    typ(&mut app, "typed title");
    assert_eq!(app.document().text(), "* A\nbody\n* typed title\n");
}

#[test]
fn shift_arrows_cycle_priority() {
    let mut app = single(Document::from_text("* TODO t\n"), None);
    shift_key(&mut app, KeyCode::Up);
    assert_eq!(app.document().text(), "* TODO [#C] t\n");
    shift_key(&mut app, KeyCode::Down);
    assert_eq!(app.document().text(), "* TODO t\n");
}

#[test]
fn structural_edits_respect_the_buffer_format() {
    let mut app = single(Document::from_text("# A\n"), Some("x.md"));
    alt_key(&mut app, KeyCode::Right);
    assert_eq!(app.document().text(), "## A\n");
}

#[test]
fn ctrl_g_prefills_edits_and_writes_tags() {
    let mut app = single(Document::from_text("* task :old:\n"), None);
    ctrl(&mut app, 'g');
    assert_eq!(app.mode(), &Mode::EditTags { input: "old".into() });
    for _ in 0..3 {
        press(&mut app, KeyCode::Backspace);
    }
    typ(&mut app, "work urgent");
    press(&mut app, KeyCode::Enter);
    assert_eq!(app.mode(), &Mode::Edit);
    assert_eq!(app.document().text(), "* task :work:urgent:\n");
}

#[test]
fn empty_tags_input_removes_the_tag_run() {
    let mut app = single(Document::from_text("* task :old:\n"), None);
    ctrl(&mut app, 'g');
    for _ in 0..3 {
        press(&mut app, KeyCode::Backspace);
    }
    press(&mut app, KeyCode::Enter);
    assert_eq!(app.document().text(), "* task\n");
}

#[test]
fn invalid_tag_characters_keep_the_prompt_open_with_a_message() {
    let mut app = single(Document::from_text("* task\n"), None);
    ctrl(&mut app, 'g');
    typ(&mut app, "bad!tag");
    press(&mut app, KeyCode::Enter);
    assert!(matches!(app.mode(), Mode::EditTags { .. }));
    assert!(!app.status().is_empty());
    assert_eq!(app.document().text(), "* task\n");
}

#[test]
fn ctrl_g_off_any_heading_is_a_status_noop() {
    let mut app = single(Document::from_text("prose only\n"), None);
    ctrl(&mut app, 'g');
    assert_eq!(app.mode(), &Mode::Edit);
    assert!(!app.status().is_empty());
}

#[test]
fn alt_s_prompts_then_writes_an_indented_scheduled_line() {
    let mut app = single(Document::from_text("* Task\nbody\n"), None);
    alt_key(&mut app, KeyCode::Char('s'));
    assert!(matches!(app.mode(), Mode::DatePrompt { .. }));
    typ(&mut app, "2024-01-15 09:30");
    press(&mut app, KeyCode::Enter);
    assert_eq!(app.mode(), &Mode::Edit);
    assert_eq!(
        app.document().text(),
        "* Task\n  SCHEDULED: <2024-01-15 Mon 09:30>\nbody\n"
    );
}

#[test]
fn an_invalid_date_keeps_the_prompt_open_with_a_message() {
    let mut app = single(Document::from_text("* Task\n"), None);
    alt_key(&mut app, KeyCode::Char('d'));
    typ(&mut app, "not a date");
    press(&mut app, KeyCode::Enter);
    assert!(matches!(app.mode(), Mode::DatePrompt { .. }));
    assert!(!app.status().is_empty());
    assert_eq!(app.document().text(), "* Task\n");
}

#[test]
fn empty_date_input_removes_the_planning_entry() {
    let mut app = single(Document::from_text("* T\n  SCHEDULED: <2024-01-15 Mon>\n"), None);
    alt_key(&mut app, KeyCode::Char('s'));
    assert_eq!(
        app.mode(),
        &Mode::DatePrompt {
            input: "<2024-01-15 Mon>".into(),
            purpose: DatePurpose::Scheduled,
        }
    );
    for _ in 0.."<2024-01-15 Mon>".len() {
        press(&mut app, KeyCode::Backspace);
    }
    press(&mut app, KeyCode::Enter);
    assert_eq!(app.document().text(), "* T\n");
}

#[test]
fn scheduling_in_a_markdown_buffer_is_a_noop() {
    let mut app = single(Document::from_text("# Task\n"), Some("x.md"));
    alt_key(&mut app, KeyCode::Char('s'));
    assert_eq!(app.mode(), &Mode::Edit);
    assert!(!app.status().is_empty());
}

#[test]
fn alt_dot_inserts_an_active_timestamp_at_the_cursor() {
    let mut app = single(Document::from_text("* Task\n"), None);
    alt_key(&mut app, KeyCode::Char('.'));
    typ(&mut app, "2024-01-15");
    press(&mut app, KeyCode::Enter);
    assert_eq!(app.document().text(), "<2024-01-15 Mon>* Task\n");
}

#[test]
fn shift_up_on_a_timestamp_shifts_the_date_not_the_priority() {
    let mut app = single(Document::from_text("* T\n  SCHEDULED: <2024-01-15 Mon>\n"), None);
    press(&mut app, KeyCode::Down);
    press(&mut app, KeyCode::End);
    press(&mut app, KeyCode::Left);
    press(&mut app, KeyCode::Left);
    shift_key(&mut app, KeyCode::Up);
    assert!(app.document().text().contains("2024-01-1"));
    assert!(!app.document().text().contains("[#"));
}

#[test]
fn shift_up_off_a_timestamp_still_cycles_priority() {
    let mut app = single(Document::from_text("* TODO task\n"), None);
    shift_key(&mut app, KeyCode::Up);
    assert_eq!(app.document().text(), "* TODO [#C] task\n");
}

#[test]
fn an_empty_buffer_list_gets_one_untitled_buffer() {
    let app = App::new(Vec::new());
    assert_eq!(app.buffer_count(), 1);
    assert_eq!(app.buffer_labels()[0], ("[No Name]".to_string(), false));
}

#[test]
fn alt_n_and_alt_p_cycle_through_buffers_and_wrap() {
    let mut app = three_buffers();
    assert_eq!(app.active_index(), 0);
    alt(&mut app, 'n');
    assert_eq!(app.active_index(), 1);
    assert_eq!(app.document().text(), "second\n");
    alt(&mut app, 'n');
    alt(&mut app, 'n');
    assert_eq!(app.active_index(), 0);
    alt(&mut app, 'p');
    assert_eq!(app.active_index(), 2);
    assert_eq!(app.document().text(), "third\n");
}

#[test]
fn ctrl_o_prompt_hands_the_typed_path_to_the_driver() {
    let mut app = single(Document::from_text("home\n"), None);
    ctrl(&mut app, 'o');
    assert!(matches!(app.mode(), Mode::OpenFile { .. }));
    typ(&mut app, "notes.org");
    let e = press(&mut app, KeyCode::Enter);
    assert_eq!(e, Effect::OpenTyped("notes.org".to_string()));
    assert_eq!(app.mode(), &Mode::Edit);
    app.add_buffer(Buffer::opened(Document::from_text("* opened\n"), "notes.org".to_string()), true);
    assert_eq!(app.buffer_count(), 2);
    assert_eq!(app.active_index(), 1);
    assert_eq!(app.document().text(), "* opened\n");
    assert_eq!(app.status(), "Opened notes.org");
}

#[test]
fn an_already_open_path_is_found_instead_of_duplicated() {
    let mut app = App::new(vec![
        Buffer::opened(Document::from_text("again\n"), "again.org".to_string()),
        Buffer::new(Document::from_text("other\n"), Some("later.org".to_string())),
    ]);
    let own = app.buffer_paths().iter().map(|_| (None, None)).collect::<Vec<_>>();
    assert_eq!(app.buffer_for_path("again.org", None, &own), Some(0));
    assert_eq!(app.buffer_for_path("later.org", None, &own), Some(1));
    assert_eq!(app.buffer_for_path("new.org", None, &own), None);
    alt(&mut app, 'n');
    app.switch_to(0);
    assert_eq!(app.active_index(), 0);
}

#[test]
fn open_prompt_esc_cancels_without_a_new_buffer() {
    let mut app = single(Document::from_text("home\n"), None);
    ctrl(&mut app, 'o');
    typ(&mut app, "whatever.org");
    press(&mut app, KeyCode::Esc);
    assert_eq!(app.mode(), &Mode::Edit);
    assert_eq!(app.buffer_count(), 1);
}

#[test]
fn ctrl_chords_in_a_prompt_are_not_inserted() {
    let mut app = single(Document::from_text("hello"), None);
    ctrl(&mut app, 's');
    ctrl(&mut app, 'w');
    assert_eq!(app.mode(), &Mode::SaveAs { input: String::new() });
}

#[test]
fn tab_in_a_path_prompt_asks_the_driver_to_complete() {
    let mut app = single(Document::from_text("home\n"), None);
    ctrl(&mut app, 'o');
    typ(&mut app, "/tmp/uniq");
    let e = press(&mut app, KeyCode::Tab);
    assert_eq!(e, Effect::Complete("/tmp/uniq".to_string()));
    app.set_prompt_input("/tmp/uniquename.org".to_string(), None);
    assert_eq!(
        app.mode(),
        &Mode::OpenFile {
            input: "/tmp/uniquename.org".to_string()
        }
    );
}

#[test]
fn buffer_list_arrows_and_enter_switch() {
    let mut app = three_buffers();
    ctrl(&mut app, 'b');
    assert_eq!(app.mode(), &Mode::BufferList { selected: 0 });
    press(&mut app, KeyCode::Down);
    press(&mut app, KeyCode::Down);
    press(&mut app, KeyCode::Down);
    press(&mut app, KeyCode::Enter);
    assert_eq!(app.mode(), &Mode::Edit);
    assert_eq!(app.active_index(), 2);
}

#[test]
fn buffer_list_esc_cancels_without_switching() {
    let mut app = three_buffers();
    ctrl(&mut app, 'b');
    press(&mut app, KeyCode::Down);
    press(&mut app, KeyCode::Esc);
    assert_eq!(app.mode(), &Mode::Edit);
    assert_eq!(app.active_index(), 0);
}

#[test]
fn buffer_list_digit_jumps_immediately() {
    let mut app = three_buffers();
    ctrl(&mut app, 'b');
    press(&mut app, KeyCode::Char('2'));
    assert_eq!(app.mode(), &Mode::Edit);
    assert_eq!(app.active_index(), 1);
}

#[test]
fn buffer_list_ignores_a_digit_beyond_the_open_buffers() {
    let mut app = three_buffers();
    ctrl(&mut app, 'b');
    press(&mut app, KeyCode::Char('9'));
    assert_eq!(app.mode(), &Mode::BufferList { selected: 0 });
    assert_eq!(app.active_index(), 0);
}

#[test]
fn closing_a_clean_buffer_clamps_the_active_index() {
    let mut app = three_buffers();
    alt(&mut app, 'p');
    ctrl(&mut app, 'w');
    assert_eq!(app.buffer_count(), 2);
    assert_eq!(app.active_index(), 1);
    assert_eq!(app.document().text(), "second\n");
}

#[test]
fn closing_a_middle_buffer_lands_on_the_next_one() {
    let mut app = three_buffers();
    alt(&mut app, 'n');
    ctrl(&mut app, 'w');
    assert_eq!(app.buffer_count(), 2);
    assert_eq!(app.active_index(), 1);
    assert_eq!(app.document().text(), "third\n");
}

#[test]
fn closing_a_dirty_buffer_asks_and_y_discards() {
    let mut app = three_buffers();
    typ(&mut app, "x");
    ctrl(&mut app, 'w');
    assert_eq!(app.mode(), &Mode::ConfirmClose);
    assert_eq!(app.buffer_count(), 3);
    press(&mut app, KeyCode::Char('y'));
    assert_eq!(app.mode(), &Mode::Edit);
    assert_eq!(app.buffer_count(), 2);
    assert_eq!(app.document().text(), "second\n");
}

#[test]
fn close_confirmation_n_and_esc_cancel() {
    let mut app = three_buffers();
    typ(&mut app, "x");
    for code in [KeyCode::Char('n'), KeyCode::Esc] {
        ctrl(&mut app, 'w');
        assert_eq!(app.mode(), &Mode::ConfirmClose);
        press(&mut app, code);
        assert_eq!(app.mode(), &Mode::Edit);
        assert_eq!(app.buffer_count(), 3);
    }
}

#[test]
fn closing_the_last_buffer_leaves_a_fresh_untitled_one() {
    let mut app = single(Document::from_text("only\n"), None);
    ctrl(&mut app, 'w');
    assert!(!app.should_quit());
    assert_eq!(app.buffer_count(), 1);
    assert_eq!(app.document().text(), "");
    assert_eq!(app.buffer_labels()[0].0, "[No Name]");
}

#[test]
fn ctrl_q_quits_immediately_when_all_buffers_are_clean() {
    let mut app = three_buffers();
    ctrl(&mut app, 'q');
    assert!(app.should_quit());
}

#[test]
fn ctrl_q_with_dirty_buffers_asks_and_y_quits() {
    let mut app = three_buffers();
    typ(&mut app, "x");
    ctrl(&mut app, 'q');
    assert_eq!(app.mode(), &Mode::ConfirmQuit);
    assert!(!app.should_quit());
    press(&mut app, KeyCode::Char('y'));
    assert!(app.should_quit());
}

#[test]
fn quit_confirmation_n_and_esc_cancel() {
    let mut app = three_buffers();
    typ(&mut app, "x");
    for code in [KeyCode::Char('n'), KeyCode::Esc] {
        ctrl(&mut app, 'q');
        press(&mut app, code);
        assert_eq!(app.mode(), &Mode::Edit);
        assert!(!app.should_quit());
    }
}

#[test]
fn per_buffer_cursor_and_fold_state_survive_switching() {
    let mut app = App::new(vec![
        Buffer::new(Document::from_text("* A\nbody\n"), None),
        Buffer::new(Document::from_text("plain\n"), None),
    ]);
    press(&mut app, KeyCode::Tab);
    press(&mut app, KeyCode::Down);
    let line_before = app.view().cursor_line();
    assert!(app.is_folded_heading(0));

    alt(&mut app, 'n');
    assert!(!app.is_folded_heading(0));
    typ(&mut app, "x");
    alt(&mut app, 'p');

    assert!(app.is_folded_heading(0));
    assert_eq!(app.view().cursor_line(), line_before);
    assert_eq!(app.document().text(), "* A\nbody\n");
}

#[test]
fn update_scroll_keeps_the_cursor_on_screen() {
    let text: String = (0..50).map(|i| format!("line {i}\n")).collect();
    let mut app = single(Document::from_text(&text), None);
    for _ in 0..30 {
        press(&mut app, KeyCode::Down);
    }
    app.update_scroll(10);
    let top = app.scroll_top();
    assert!(top <= 30 && 30 < top + 10);
}

#[test]
fn shown_line_expands_tabs_marks_folds_and_flags_headings() {
    let mut app = single(Document::from_text("* A\tb\r\nbody\n"), None);
    assert_eq!(app.shown_line(0), ("* A b".to_string(), true));
    assert_eq!(app.shown_line(1), ("body".to_string(), false));
    press(&mut app, KeyCode::Tab); // fold the heading under the caret
    assert_eq!(app.shown_line(0), ("* A b …".to_string(), true));
}

#[test]
fn ctrl_h_opens_the_help_menu_and_arrows_wrap() {
    let mut app = single(Document::from_text("* a\n"), None);
    ctrl(&mut app, 'h');
    assert_eq!(app.mode(), &Mode::HelpMenu { category: 0, selected: 0 });
    assert_eq!(status_text(&app), " ←/→ category · ↑/↓ select · Enter run · Esc close ");
    press(&mut app, KeyCode::Left);
    assert_eq!(app.mode(), &Mode::HelpMenu { category: 6, selected: 0 });
    press(&mut app, KeyCode::Right);
    press(&mut app, KeyCode::Tab);
    assert_eq!(app.mode(), &Mode::HelpMenu { category: 1, selected: 0 });
    press(&mut app, KeyCode::Up); // wraps to the last row of Navigate
    assert_eq!(app.mode(), &Mode::HelpMenu { category: 1, selected: 1 });
    press(&mut app, KeyCode::Down);
    assert_eq!(app.mode(), &Mode::HelpMenu { category: 1, selected: 0 });
    press(&mut app, KeyCode::Esc);
    assert_eq!(app.mode(), &Mode::Edit);
    assert_eq!(app.document().text(), "* a\n");
}

#[test]
fn enter_in_the_help_menu_runs_the_selected_command() {
    let mut app = single(Document::from_text("* a\n"), None);
    ctrl(&mut app, 'k');
    press(&mut app, KeyCode::Right);
    press(&mut app, KeyCode::Right); // Structure
    press(&mut app, KeyCode::Down); // Cycle TODO
    press(&mut app, KeyCode::Enter);
    assert_eq!(app.mode(), &Mode::Edit);
    assert_eq!(app.document().text(), "* TODO a\n");
    ctrl(&mut app, 'h');
    ctrl(&mut app, 'h'); // Ctrl+H closes it again
    assert_eq!(app.mode(), &Mode::Edit);
    ctrl(&mut app, 'h');
    press(&mut app, KeyCode::Enter); // File → Save on an untitled buffer asks for a path
    assert!(matches!(app.mode(), Mode::SaveAs { .. }));
}

#[test]
fn ctrl_f_searches_incrementally_steps_and_esc_restores() {
    let mut app = single(Document::from_text("alpha\nbeta alpha\ngamma\n"), None);
    press(&mut app, KeyCode::Down);
    press(&mut app, KeyCode::Right); // (1,1)
    ctrl(&mut app, 'f');
    assert!(matches!(app.mode(), Mode::Search { .. }));
    typ(&mut app, "al");
    assert_eq!((app.view().cursor_line(), app.view().cursor_column()), (1, 5));
    ctrl(&mut app, 'f'); // next occurrence: wraps to the top
    assert_eq!((app.view().cursor_line(), app.view().cursor_column()), (0, 0));
    assert!(status_text(&app).contains("Wrapped"));
    ctrl(&mut app, 'r'); // and back
    assert_eq!((app.view().cursor_line(), app.view().cursor_column()), (1, 5));
    press(&mut app, KeyCode::Backspace);
    press(&mut app, KeyCode::Backspace); // empty query: back at the origin
    assert_eq!((app.view().cursor_line(), app.view().cursor_column()), (1, 1));
    typ(&mut app, "gam");
    assert_eq!((app.view().cursor_line(), app.view().cursor_column()), (2, 0));
    press(&mut app, KeyCode::Esc);
    assert_eq!(app.mode(), &Mode::Edit);
    assert_eq!((app.view().cursor_line(), app.view().cursor_column()), (1, 1));
    ctrl(&mut app, 'f');
    typ(&mut app, "beta");
    press(&mut app, KeyCode::Enter);
    assert_eq!(app.mode(), &Mode::Edit);
    assert_eq!((app.view().cursor_line(), app.view().cursor_column()), (1, 0));
    assert_eq!(app.document().text(), "alpha\nbeta alpha\ngamma\n");
}

#[test]
fn ctrl_space_toggles_the_checkbox_of_the_item_under_the_caret() {
    let mut app = single(Document::from_text("- [ ] task\n1. [-] part\nplain\n"), None);
    ctrl(&mut app, ' ');
    assert_eq!(app.document().text(), "- [X] task\n1. [-] part\nplain\n");
    ctrl(&mut app, ' ');
    assert_eq!(app.document().text(), "- [ ] task\n1. [-] part\nplain\n");
    press(&mut app, KeyCode::Down);
    ctrl(&mut app, ' ');
    assert_eq!(app.document().text(), "- [ ] task\n1. [X] part\nplain\n");
    press(&mut app, KeyCode::Down);
    ctrl(&mut app, ' ');
    assert_eq!(app.document().text(), "- [ ] task\n1. [X] part\nplain\n");
    assert!(status_text(&app).contains("No checkbox here"));
}
