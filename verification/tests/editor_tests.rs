use torg::editor::{date_prompt_label, parse_date_input, prompt_event, DatePurpose, PromptEvent};
use torg::keymap::{Key, KeyCode, KeyKind};

fn key(code: KeyCode) -> Key {
    Key::new(code, false, false, false)
}

#[test]
fn prompt_typing_backspace_enter_and_esc() {
    let mut input = String::from("ab");
    assert_eq!(prompt_event(&mut input, key(KeyCode::Char('c'))), PromptEvent::Pending);
    assert_eq!(input, "abc");
    assert_eq!(prompt_event(&mut input, key(KeyCode::Backspace)), PromptEvent::Pending);
    assert_eq!(input, "ab");
    assert_eq!(
        prompt_event(&mut input, key(KeyCode::Enter)),
        PromptEvent::Submitted("ab".to_string())
    );
    assert_eq!(prompt_event(&mut input, key(KeyCode::Esc)), PromptEvent::Cancelled);
    let mut empty = String::new();
    assert_eq!(prompt_event(&mut empty, key(KeyCode::Backspace)), PromptEvent::Pending);
    assert_eq!(empty, "");
}

#[test]
fn prompt_ignores_chords_and_releases() {
    let mut input = String::from("x");
    prompt_event(&mut input, Key::new(KeyCode::Char('s'), true, false, false));
    prompt_event(&mut input, Key::new(KeyCode::Char('n'), false, true, false));
    let release = Key { kind: KeyKind::Release, ..key(KeyCode::Char('q')) };
    assert_eq!(prompt_event(&mut input, release), PromptEvent::Pending);
    prompt_event(&mut input, Key::new(KeyCode::Char('Y'), false, false, true)); // shift is typing
    assert_eq!(input, "xY");
}

#[test]
fn typed_dates_are_wrapped_by_purpose_and_must_parse_whole() {
    let s = parse_date_input("2024-01-15", DatePurpose::Scheduled).unwrap();
    assert_eq!(s.to_string(), "<2024-01-15 Mon>");
    let i = parse_date_input("2024-01-15 09:30", DatePurpose::InsertInactive).unwrap();
    assert_eq!(i.to_string(), "[2024-01-15 Mon 09:30]");
    let kept = parse_date_input("[2024-01-15]", DatePurpose::InsertActive).unwrap();
    assert_eq!(kept.to_string(), "[2024-01-15 Mon]"); // explicit brackets win
    assert!(parse_date_input("2024-13-01", DatePurpose::Deadline).is_none());
    assert!(parse_date_input("<2024-01-15> tail", DatePurpose::Deadline).is_none());
    assert!(parse_date_input("tomorrow", DatePurpose::Scheduled).is_none());
}

#[test]
fn date_prompt_labels() {
    assert_eq!(date_prompt_label(DatePurpose::Scheduled), "Scheduled: ");
    assert_eq!(date_prompt_label(DatePurpose::Deadline), "Deadline: ");
    assert_eq!(date_prompt_label(DatePurpose::InsertActive), "Timestamp: ");
    assert_eq!(date_prompt_label(DatePurpose::InsertInactive), "Timestamp: ");
}
