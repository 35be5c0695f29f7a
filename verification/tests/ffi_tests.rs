use torg::ffi::{cycle_todo, outline};

#[test]
fn outline_reports_headings_for_org() {
    let o = outline("* A\nbody\n** B\n".to_string(), false);
    assert_eq!(o.len(), 2);
    assert_eq!((o[0].level, o[0].title.as_str(), o[0].last_line), (1, "A", 2));
    assert_eq!((o[1].level, o[1].title.as_str(), o[1].line), (2, "B", 2));
}

#[test]
fn outline_reports_metadata() {
    let o = outline("* TODO [#A] ship :work:\n".to_string(), false);
    assert_eq!(o[0].todo.as_deref(), Some("TODO"));
    assert_eq!(o[0].priority.as_deref(), Some("A"));
    assert_eq!(o[0].tags, vec!["work"]);
    assert_eq!(o[0].title, "ship");
}

#[test]
fn outline_uses_the_markdown_provider_when_asked() {
    assert!(outline("* org\n".to_string(), true).is_empty()); // no `#` heading
    assert_eq!(outline("# md\n".to_string(), true)[0].title, "md");
}

#[test]
fn cycle_todo_round_trips_through_the_ffi() {
    let t = cycle_todo("* task\n".to_string(), 0, false);
    assert_eq!(t, "* TODO task\n");
    let t = cycle_todo(t, 0, false);
    assert_eq!(t, "* DONE task\n");
    // Markdown works the same.
    assert_eq!(cycle_todo("# task\n".to_string(), 0, true), "# TODO task\n");
}
