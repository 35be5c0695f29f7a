use torg::keymap::{key_to_action, Action, Key, KeyCode, KeyKind};

fn press(code: KeyCode) -> Key {
    Key::new(code, false, false, false)
}
fn ctrl(c: char) -> Key {
    Key::new(KeyCode::Char(c), true, false, false)
}
fn alt(c: char) -> Key {
    Key::new(KeyCode::Char(c), false, true, false)
}
fn shift(code: KeyCode) -> Key {
    Key::new(code, false, false, true)
}
fn alt_key(code: KeyCode) -> Key {
    Key::new(code, false, true, false)
}
fn alt_shift(code: KeyCode) -> Key {
    Key::new(code, false, true, true)
}

#[test]
fn arrows_and_paging_map_to_moves() {
    assert_eq!(key_to_action(press(KeyCode::Left)), Some(Action::MoveLeft));
    assert_eq!(key_to_action(press(KeyCode::Up)), Some(Action::MoveUp));
    assert_eq!(key_to_action(press(KeyCode::PageDown)), Some(Action::PageDown));
    assert_eq!(key_to_action(press(KeyCode::Home)), Some(Action::MoveHome));
}

#[test]
fn editing_keys_map() {
    assert_eq!(key_to_action(press(KeyCode::Enter)), Some(Action::Newline));
    assert_eq!(key_to_action(press(KeyCode::Backspace)), Some(Action::Backspace));
    assert_eq!(key_to_action(press(KeyCode::Delete)), Some(Action::Delete));
    assert_eq!(
        key_to_action(press(KeyCode::Char('a'))),
        Some(Action::InsertChar('a'))
    );
}

#[test]
fn ctrl_chords_map_to_commands() {
    assert_eq!(key_to_action(ctrl('s')), Some(Action::Save));
    assert_eq!(key_to_action(ctrl('q')), Some(Action::Quit));
    assert_eq!(key_to_action(ctrl('t')), Some(Action::CycleTodo));
    assert_eq!(key_to_action(ctrl('n')), Some(Action::NextHeading));
    assert_eq!(key_to_action(ctrl('p')), Some(Action::PrevHeading));
}

#[test]
fn tab_is_toggle_fold() {
    assert_eq!(key_to_action(press(KeyCode::Tab)), Some(Action::ToggleFold));
}

#[test]
fn unbound_ctrl_chord_is_none() {
    assert_eq!(key_to_action(ctrl('a')), None);
}

#[test]
fn alt_n_and_alt_p_cycle_buffers() {
    assert_eq!(key_to_action(alt('n')), Some(Action::NextBuffer));
    assert_eq!(key_to_action(alt('p')), Some(Action::PrevBuffer));
}

#[test]
fn timestamp_command_chords_map() {
    assert_eq!(key_to_action(alt('s')), Some(Action::SetScheduled));
    assert_eq!(key_to_action(alt('d')), Some(Action::SetDeadline));
    assert_eq!(key_to_action(alt('.')), Some(Action::InsertActiveTs));
    assert_eq!(key_to_action(alt('i')), Some(Action::InsertInactiveTs));
}

#[test]
fn shift_arrows_still_map_to_priority() {
    // Date-shift vs priority is decided in the app layer by cursor context, so the pure
    // keymap still yields the priority actions.
    assert_eq!(key_to_action(shift(KeyCode::Up)), Some(Action::PriorityUp));
    assert_eq!(key_to_action(shift(KeyCode::Down)), Some(Action::PriorityDown));
}

#[test]
fn alt_t_is_the_reachable_todo_sibling_alias() {
    // Shift+Enter has no legacy escape sequence, so Alt+Shift+Enter never arrives in
    // many terminals; Alt+T must always work.
    assert_eq!(key_to_action(alt('t')), Some(Action::InsertTodoSibling));
}

#[test]
fn ctrl_o_opens_a_file() {
    assert_eq!(key_to_action(ctrl('o')), Some(Action::OpenFile));
}

#[test]
fn ctrl_b_lists_buffers() {
    assert_eq!(key_to_action(ctrl('b')), Some(Action::ListBuffers));
}

#[test]
fn ctrl_h_and_ctrl_k_open_help_and_ctrl_u_the_guide() {
    assert_eq!(key_to_action(ctrl('h')), Some(Action::Help)); // primary, mnemonic
    assert_eq!(key_to_action(ctrl('k')), Some(Action::Help)); // portable fallback
    assert_eq!(key_to_action(ctrl('u')), Some(Action::Guide));
}

#[test]
fn ctrl_w_closes_the_buffer() {
    assert_eq!(key_to_action(ctrl('w')), Some(Action::CloseBuffer));
}

#[test]
fn an_alt_modified_char_is_not_inserted() {
    assert_eq!(key_to_action(alt('x')), None);
}

#[test]
fn structural_editing_chords_map() {
    assert_eq!(key_to_action(alt_key(KeyCode::Left)), Some(Action::PromoteHeading));
    assert_eq!(key_to_action(alt_key(KeyCode::Right)), Some(Action::DemoteHeading));
    assert_eq!(key_to_action(alt_shift(KeyCode::Left)), Some(Action::PromoteSubtree));
    assert_eq!(key_to_action(alt_shift(KeyCode::Right)), Some(Action::DemoteSubtree));
    assert_eq!(key_to_action(alt_key(KeyCode::Up)), Some(Action::MoveSubtreeUp));
    assert_eq!(key_to_action(alt_key(KeyCode::Down)), Some(Action::MoveSubtreeDown));
    assert_eq!(key_to_action(alt_key(KeyCode::Enter)), Some(Action::InsertSibling));
    assert_eq!(key_to_action(alt_shift(KeyCode::Enter)), Some(Action::InsertTodoSibling));
    assert_eq!(key_to_action(shift(KeyCode::Up)), Some(Action::PriorityUp));
    assert_eq!(key_to_action(shift(KeyCode::Down)), Some(Action::PriorityDown));
    assert_eq!(key_to_action(ctrl('g')), Some(Action::EditTags));
}

#[test]
fn plain_arrows_and_enter_still_map_to_movement_and_newline() {
    assert_eq!(key_to_action(press(KeyCode::Left)), Some(Action::MoveLeft)); // regression
    assert_eq!(key_to_action(press(KeyCode::Enter)), Some(Action::Newline));
}

#[test]
fn key_release_is_ignored() {
    let release = Key { kind: KeyKind::Release, ..Key::new(KeyCode::Char('a'), false, false, false) };
    assert_eq!(key_to_action(release), None);
}
