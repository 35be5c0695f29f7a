use torg::document::Document;
use torg::edits::{is_valid_tag, shift_timestamp, EditOutcome, Planning};
use torg::headline::TodoState;
use torg::provider::{MarkdownProvider, OrgProvider, StructureProvider};
use torg::structure::{detect_format, next_heading, parent_heading, prev_heading, Format, Outline};
use torg::timestamp::{parse_timestamp, Timestamp};
fn outline(text: &str) -> Outline {
    OrgProvider.parse(&Document::from_text(text))
}

// ---- B1: parsing ------------------------------------------------------

#[test]
fn parses_levels_and_titles() {
    let o = outline("* A\n** B\n* C\n");
    let levels: Vec<_> = o.headings.iter().map(|h| h.level).collect();
    let titles: Vec<_> = o.headings.iter().map(|h| h.title.as_str()).collect();
    assert_eq!(levels, [1, 2, 1]);
    assert_eq!(titles, ["A", "B", "C"]);
    assert!(o.headings.iter().all(|h| h.todo.is_none()));
}

#[test]
fn parses_todo_and_done_keywords() {
    assert_eq!(outline("* TODO write\n").headings[0].todo, Some(TodoState::Todo));
    assert_eq!(outline("* TODO write\n").headings[0].title, "write");
    assert_eq!(outline("* DONE ship").headings[0].todo, Some(TodoState::Done));
    assert_eq!(outline("* DONE ship").headings[0].title, "ship");
}

#[test]
fn non_headings_are_body() {
    assert!(outline("* \n").headings.is_empty()); // no title
    assert!(outline("*not a heading\n").headings.is_empty()); // no space after stars
    assert!(outline("  * indented\n").headings.is_empty()); // star not at column 0
    assert!(outline("TODOitem is prose\n").headings.is_empty());
    assert!(outline("").headings.is_empty()); // empty buffer
}

// ---- B2: subtree extent + navigation ----------------------------------

#[test]
fn subtree_extent_stops_at_the_next_equal_or_shallower_heading() {
    let o = outline("* A\ntext\n** B\n* C");
    // A(line0) owns through line 2; B(line2) has no body; C(line3) runs to the end.
    assert_eq!(o.headings[0].last_line, 2); // A
    assert_eq!(o.headings[1].last_line, 2); // B (line 2 only)
    assert_eq!(o.headings[2].last_line, 3); // C
}

#[test]
fn next_and_prev_heading_skip_to_adjacent_headings() {
    let o = outline("* A\ntext\n** B\n* C");
    assert_eq!(next_heading(&o, 0), Some(2)); // A → B
    assert_eq!(next_heading(&o, 2), Some(3)); // B → C
    assert_eq!(next_heading(&o, 3), None); // past the last heading
    assert_eq!(prev_heading(&o, 3), Some(2)); // C → B
    assert_eq!(prev_heading(&o, 0), None); // before the first heading
}

#[test]
fn parent_heading_climbs_one_level() {
    let o = outline("* A\ntext\n** B\n* C");
    assert_eq!(parent_heading(&o, 2), Some(0)); // B (level 2) → A (level 1)
    assert_eq!(parent_heading(&o, 0), None); // A is top level
    assert_eq!(parent_heading(&o, 3), None); // C is top level
}

// ---- B3: cycle_todo ---------------------------------------------------

#[test]
fn cycle_todo_rotates_none_todo_done() {
    let mut doc = Document::from_text("* task\n");
    OrgProvider.cycle_todo(&mut doc, 0);
    assert_eq!(doc.text(), "* TODO task\n");
    OrgProvider.cycle_todo(&mut doc, 0);
    assert_eq!(doc.text(), "* DONE task\n");
    OrgProvider.cycle_todo(&mut doc, 0);
    assert_eq!(doc.text(), "* task\n");
    assert!(doc.is_modified());
}

#[test]
fn cycle_todo_on_a_non_heading_is_a_noop() {
    let mut doc = Document::from_text("just prose\n");
    OrgProvider.cycle_todo(&mut doc, 0);
    assert_eq!(doc.text(), "just prose\n");
    assert!(!doc.is_modified()); // nothing changed, so the buffer stays clean
}

#[test]
fn cycle_todo_preserves_nesting_level() {
    let mut doc = Document::from_text("** deep\n");
    OrgProvider.cycle_todo(&mut doc, 0);
    assert_eq!(doc.text(), "** TODO deep\n");
}

// ---- Markdown: parsing --------------------------------------------------

fn md_outline(text: &str) -> Outline {
    MarkdownProvider.parse(&Document::from_text(text))
}

#[test]
fn md_parses_levels_and_titles() {
    let o = md_outline("# A\n## B\n# C\n");
    let levels: Vec<_> = o.headings.iter().map(|h| h.level).collect();
    let titles: Vec<_> = o.headings.iter().map(|h| h.title.as_str()).collect();
    assert_eq!(levels, [1, 2, 1]);
    assert_eq!(titles, ["A", "B", "C"]);
    assert!(o.headings.iter().all(|h| h.todo.is_none()));
}

#[test]
fn md_parses_todo_and_done_keywords() {
    assert_eq!(md_outline("# TODO write\n").headings[0].todo, Some(TodoState::Todo));
    assert_eq!(md_outline("# TODO write\n").headings[0].title, "write");
    assert_eq!(md_outline("## DONE ship").headings[0].todo, Some(TodoState::Done));
    assert_eq!(md_outline("## DONE ship").headings[0].title, "ship");
}

#[test]
fn md_non_headings_are_body() {
    assert!(md_outline("#no space\n").headings.is_empty());
    assert!(md_outline("# \n").headings.is_empty()); // no title
    assert!(md_outline("#\n").headings.is_empty()); // bare hash
    assert!(md_outline("  # indented\n").headings.is_empty()); // hash not at column 0
    assert!(md_outline("TODOitem is prose\n").headings.is_empty());
    assert!(md_outline("").headings.is_empty()); // empty buffer
}

#[test]
fn md_seven_hashes_is_body_six_is_a_heading() {
    assert_eq!(md_outline("###### six\n").headings[0].level, 6);
    assert!(md_outline("####### seven\n").headings.is_empty());
}

#[test]
fn md_subtree_extent_stops_at_the_next_equal_or_shallower_heading() {
    let o = md_outline("# A\ntext\n## B\n# C");
    assert_eq!(o.headings[0].last_line, 2); // A owns through B's subtree
    assert_eq!(o.headings[1].last_line, 2); // B (line 2 only)
    assert_eq!(o.headings[2].last_line, 3); // C runs to the end
}

// ---- Markdown: fenced code blocks ---------------------------------------

#[test]
fn md_headings_inside_backtick_fences_are_ignored() {
    let o = md_outline("# A\n```sh\n# comment\n```\n# B\n");
    let lines: Vec<_> = o.headings.iter().map(|h| h.line).collect();
    assert_eq!(lines, [0, 4]); // the fenced "# comment" is body
    assert_eq!(o.headings[0].last_line, 3); // A's subtree spans the whole fence
}

#[test]
fn md_tilde_fences_also_hide_headings() {
    let o = md_outline("~~~\n# hidden\n~~~\n# real\n");
    let lines: Vec<_> = o.headings.iter().map(|h| h.line).collect();
    assert_eq!(lines, [3]);
}

#[test]
fn md_unclosed_fence_runs_to_eof() {
    assert!(md_outline("```\n# a\n# b\n").headings.is_empty());
}

#[test]
fn md_fence_close_requires_same_char_and_sufficient_length() {
    // ```` (4) is not closed by ``` (3) or ~~~; only by a run >= 4 of backticks.
    let o = md_outline("````\n# x\n```\n~~~\n# y\n`````\n# z\n");
    let lines: Vec<_> = o.headings.iter().map(|h| h.line).collect();
    assert_eq!(lines, [6]); // only "# z", after the ````` closer
    // An info string is fine on the opener; trailing text invalidates a closer.
    let o = md_outline("```rust\n# in code\n``` not a closer\n```\n# out\n");
    let lines: Vec<_> = o.headings.iter().map(|h| h.line).collect();
    assert_eq!(lines, [4]);
    // A backtick fence whose info string contains a backtick is not an opener.
    let o = md_outline("```a```\n# heading\n");
    let lines: Vec<_> = o.headings.iter().map(|h| h.line).collect();
    assert_eq!(lines, [1]);
}

#[test]
fn md_fence_opener_tolerates_up_to_three_leading_spaces() {
    assert!(md_outline("   ```\n# hidden\n```\n").headings.is_empty());
    // Four leading spaces is an indented code line, not a fence opener.
    let o = md_outline("    ```\n# visible\n");
    let lines: Vec<_> = o.headings.iter().map(|h| h.line).collect();
    assert_eq!(lines, [1]);
}

// ---- Markdown: cycle_todo ------------------------------------------------

#[test]
fn md_cycle_todo_rotates_none_todo_done() {
    let mut doc = Document::from_text("# task\n");
    MarkdownProvider.cycle_todo(&mut doc, 0);
    assert_eq!(doc.text(), "# TODO task\n");
    MarkdownProvider.cycle_todo(&mut doc, 0);
    assert_eq!(doc.text(), "# DONE task\n");
    MarkdownProvider.cycle_todo(&mut doc, 0);
    assert_eq!(doc.text(), "# task\n");
    assert!(doc.is_modified());
}

#[test]
fn md_cycle_todo_is_a_noop_on_non_headings_and_inside_fences() {
    let mut doc = Document::from_text("just prose\n");
    MarkdownProvider.cycle_todo(&mut doc, 0);
    assert_eq!(doc.text(), "just prose\n");
    assert!(!doc.is_modified());

    // The fence-awareness regression test: a line-local check would mangle this code.
    let mut doc = Document::from_text("```sh\n# comment\n```\n");
    MarkdownProvider.cycle_todo(&mut doc, 1);
    assert_eq!(doc.text(), "```sh\n# comment\n```\n");
    assert!(!doc.is_modified());
}

#[test]
fn md_cycle_todo_preserves_level() {
    let mut doc = Document::from_text("### deep\n");
    MarkdownProvider.cycle_todo(&mut doc, 0);
    assert_eq!(doc.text(), "### TODO deep\n");
}

#[test]
fn md_cycle_todo_done_with_no_title_removes_the_bare_keyword() {
    let mut doc = Document::from_text("# DONE\n");
    MarkdownProvider.cycle_todo(&mut doc, 0);
    assert_eq!(doc.text(), "# \n");
}

// ---- headline metadata: priorities and tags -------------------------------

#[test]
fn parses_priority_cookie_after_the_keyword() {
    let o = outline("* TODO [#A] write\n");
    let h = &o.headings[0];
    assert_eq!(h.todo, Some(TodoState::Todo));
    assert_eq!(h.priority, Some('A'));
    assert_eq!(h.title, "write");
    let o = outline("* [#B] plain\n"); // cookie without keyword
    assert_eq!(o.headings[0].priority, Some('B'));
    assert_eq!(o.headings[0].title, "plain");
}

#[test]
fn a_malformed_cookie_stays_in_the_title() {
    assert_eq!(outline("* [#D] x\n").headings[0].priority, None); // only A-C
    assert_eq!(outline("* [#D] x\n").headings[0].title, "[#D] x");
    assert_eq!(outline("* [#A]x\n").headings[0].priority, None); // no space after
}

#[test]
fn parses_trailing_tags_out_of_the_title() {
    let o = outline("* TODO [#A] fix bug :work:urgent:\n");
    assert_eq!(o.headings[0].tags, vec!["work", "urgent"]);
    assert_eq!(o.headings[0].title, "fix bug");
    assert!(outline("* plain title\n").headings[0].tags.is_empty());
}

#[test]
fn tag_run_must_be_whole_valid_and_trailing() {
    assert!(outline("* a :not a tag:\n").headings[0].tags.is_empty()); // space inside
    assert!(outline("* a :b: c\n").headings[0].tags.is_empty()); // not trailing
    assert_eq!(
        outline("* x :a_1:@b:#c:%d:\n").headings[0].tags,
        vec!["a_1", "@b", "#c", "%d"]
    );
}

#[test]
fn markdown_headlines_share_the_metadata_chain() {
    let o = md_outline("## DONE [#C] ship :rel:\n");
    let h = &o.headings[0];
    assert_eq!(h.todo, Some(TodoState::Done));
    assert_eq!(h.priority, Some('C'));
    assert_eq!(h.title, "ship");
    assert_eq!(h.tags, vec!["rel"]);
}

// ---- planning lines ---------------------------------------------------------

#[test]
fn parses_a_scheduled_planning_line_below_the_heading() {
    let o = outline("* Task\nSCHEDULED: <2024-01-15 Mon>\nbody\n");
    let h = &o.headings[0];
    assert_eq!(h.scheduled.map(|t| t.to_string()), Some("<2024-01-15 Mon>".to_string()));
    assert!(h.deadline.is_none());
}

#[test]
fn parses_scheduled_and_deadline_on_one_indented_line_either_order() {
    let o = outline("* T\n  DEADLINE: <2024-02-01> SCHEDULED: <2024-01-15>\n");
    let h = &o.headings[0];
    assert_eq!(h.scheduled.map(|t| t.to_string()), Some("<2024-01-15 Mon>".to_string()));
    assert_eq!(h.deadline.map(|t| t.to_string()), Some("<2024-02-01 Thu>".to_string()));
}

#[test]
fn a_heading_with_no_planning_line_has_none() {
    let o = outline("* Task\njust body\n");
    assert!(o.headings[0].scheduled.is_none());
    assert!(o.headings[0].deadline.is_none());
}

#[test]
fn markdown_headings_never_carry_planning() {
    let o = md_outline("# Task\nSCHEDULED: <2024-01-15>\n");
    assert!(o.headings[0].scheduled.is_none());
    assert!(o.headings[0].deadline.is_none());
}

// ---- date shifting under the cursor -----------------------------------------

/// Shift the timestamp at `col` on line 0 of a one-line doc and return the new text.
fn shifted(text: &str, col: usize, up: bool) -> Option<String> {
    let mut doc = Document::from_text(text);
    shift_timestamp(&mut doc, 0, col, up).map(|_| doc.text())
}

#[test]
fn shift_day_up_rolls_over_and_updates_weekday() {
    // "<2024-01-31 Wed>": the day digits sit at columns 9-10.
    assert_eq!(
        shifted("<2024-01-31 Wed>", 9, true).as_deref(),
        Some("<2024-02-01 Thu>")
    );
}

#[test]
fn shift_month_up_clamps_the_day() {
    // Jan 31 + 1 month → Feb 29 in a leap year (month digits at cols 6-7).
    assert_eq!(
        shifted("<2024-01-31 Wed>", 6, true).as_deref(),
        Some("<2024-02-29 Thu>")
    );
    // …and Feb 28 in a common year.
    assert_eq!(
        shifted("<2023-01-31 Tue>", 6, true).as_deref(),
        Some("<2023-02-28 Tue>")
    );
}

#[test]
fn shift_year_down_on_feb_29_clamps() {
    assert_eq!(
        shifted("<2024-02-29 Thu>", 1, false).as_deref(),
        Some("<2023-02-28 Tue>")
    );
}

#[test]
fn shift_preserves_inactive_brackets_and_time() {
    // Minute field of an inactive stamp with a time (col 19 is a minute digit).
    assert_eq!(
        shifted("[2024-01-15 Mon 09:59]", 19, true).as_deref(),
        Some("[2024-01-15 Mon 10:00]") // minute carries into the hour
    );
}

#[test]
fn shift_a_weekday_column_moves_the_day() {
    // Cursor on the "Mon" weekday shifts the day.
    assert_eq!(
        shifted("<2024-01-15 Mon>", 12, true).as_deref(),
        Some("<2024-01-16 Tue>")
    );
}

#[test]
fn shift_off_a_timestamp_returns_none() {
    assert!(shifted("no stamp here", 3, true).is_none());
    assert!(shifted("x <2024-01-15 Mon>", 0, true).is_none()); // before the stamp
}

// ---- set_planning -----------------------------------------------------------

fn stamp(s: &str) -> Timestamp {
    parse_timestamp(s).unwrap().0
}

#[test]
fn set_planning_inserts_an_indented_line_below_the_heading() {
    let mut doc = Document::from_text("* Task\nbody\n");
    OrgProvider.set_planning(&mut doc, 0, Planning::Scheduled, Some(stamp("<2024-01-15>")));
    assert_eq!(doc.text(), "* Task\n  SCHEDULED: <2024-01-15 Mon>\nbody\n");
}

#[test]
fn set_planning_updates_in_place_and_keeps_the_other_keyword() {
    let mut doc = Document::from_text("* T\n  SCHEDULED: <2024-01-15 Mon>\n");
    OrgProvider.set_planning(&mut doc, 0, Planning::Deadline, Some(stamp("<2024-02-01>")));
    assert_eq!(
        doc.text(),
        "* T\n  SCHEDULED: <2024-01-15 Mon> DEADLINE: <2024-02-01 Thu>\n"
    );
    // Replacing scheduled updates just that stamp.
    OrgProvider.set_planning(&mut doc, 0, Planning::Scheduled, Some(stamp("<2024-01-20>")));
    assert_eq!(
        doc.text(),
        "* T\n  SCHEDULED: <2024-01-20 Sat> DEADLINE: <2024-02-01 Thu>\n"
    );
}

#[test]
fn set_planning_none_removes_the_keyword_and_the_line_when_empty() {
    let mut doc = Document::from_text("* T\n  SCHEDULED: <2024-01-15 Mon>\nbody\n");
    OrgProvider.set_planning(&mut doc, 0, Planning::Scheduled, None);
    assert_eq!(doc.text(), "* T\nbody\n"); // the whole planning line goes
}

#[test]
fn set_planning_off_a_heading_is_a_noop() {
    let mut doc = Document::from_text("plain\n");
    assert!(matches!(
        OrgProvider.set_planning(&mut doc, 0, Planning::Scheduled, Some(stamp("<2024-01-15>"))),
        EditOutcome::NoOp(_)
    ));
}

// ---- structural edits -------------------------------------------------------

#[test]
fn providers_expose_marker_and_max_level() {
    assert_eq!(OrgProvider.marker(), b'*');
    assert_eq!(OrgProvider.max_level(), None);
    assert_eq!(MarkdownProvider.marker(), b'#');
    assert_eq!(MarkdownProvider.max_level(), Some(6));
    assert_eq!(Format::Markdown.marker(), b'#'); // enum delegates
}

#[test]
fn promote_and_demote_change_one_heading_level() {
    let mut doc = Document::from_text("** A\n*** child\n");
    assert_eq!(
        OrgProvider.promote_heading(&mut doc, 0),
        EditOutcome::Changed { cursor_line: 0 }
    );
    assert_eq!(doc.text(), "* A\n*** child\n"); // child untouched
    assert_eq!(
        OrgProvider.demote_heading(&mut doc, 0),
        EditOutcome::Changed { cursor_line: 0 }
    );
    assert_eq!(doc.text(), "** A\n*** child\n");
}

#[test]
fn edits_target_the_enclosing_heading_from_a_body_line() {
    let mut doc = Document::from_text("** A\nbody\n");
    OrgProvider.demote_heading(&mut doc, 1); // cursor on "body"
    assert_eq!(doc.text(), "*** A\nbody\n");
}

#[test]
fn promote_refuses_at_level_1_and_demote_at_markdown_max() {
    let mut doc = Document::from_text("* top\n");
    assert!(matches!(OrgProvider.promote_heading(&mut doc, 0), EditOutcome::NoOp(_)));
    let mut doc = Document::from_text("###### deep\n");
    assert!(matches!(MarkdownProvider.demote_heading(&mut doc, 0), EditOutcome::NoOp(_)));
    let mut doc = Document::from_text("plain\n");
    assert!(matches!(OrgProvider.promote_heading(&mut doc, 0), EditOutcome::NoOp(_)));
}

#[test]
fn subtree_promote_and_demote_shift_every_member() {
    let mut doc = Document::from_text("** A\nbody\n*** B\n** next\n");
    OrgProvider.demote_subtree(&mut doc, 0);
    assert_eq!(doc.text(), "*** A\nbody\n**** B\n** next\n"); // sibling untouched
    OrgProvider.promote_subtree(&mut doc, 0);
    assert_eq!(doc.text(), "** A\nbody\n*** B\n** next\n");
}

#[test]
fn subtree_demote_refuses_if_any_member_would_pass_markdown_max() {
    let mut doc = Document::from_text("##### A\n###### deep child\n");
    assert!(matches!(MarkdownProvider.demote_subtree(&mut doc, 0), EditOutcome::NoOp(_)));
    assert_eq!(doc.text(), "##### A\n###### deep child\n"); // untouched
}

#[test]
fn move_subtree_swaps_with_the_adjacent_same_level_sibling() {
    let text = "* A\na body\n** A child\n* B\nb body\n";
    let mut doc = Document::from_text(text);
    // Cursor on "a body" (line 1): A's 3-line subtree swaps with B's 2-line one.
    assert_eq!(
        OrgProvider.move_subtree_down(&mut doc, 1),
        EditOutcome::Changed { cursor_line: 3 }
    );
    assert_eq!(doc.text(), "* B\nb body\n* A\na body\n** A child\n");
    assert_eq!(
        OrgProvider.move_subtree_up(&mut doc, 3),
        EditOutcome::Changed { cursor_line: 1 }
    );
    assert_eq!(doc.text(), text);
}

#[test]
fn move_refuses_at_the_edges_and_across_parents() {
    let mut doc = Document::from_text("* A\n* B\n");
    assert!(matches!(OrgProvider.move_subtree_up(&mut doc, 0), EditOutcome::NoOp(_)));
    assert!(matches!(OrgProvider.move_subtree_down(&mut doc, 1), EditOutcome::NoOp(_)));
    // A child may not escape its parent in either direction.
    let mut doc = Document::from_text("* P1\n** only child\n* P2\n");
    assert!(matches!(OrgProvider.move_subtree_up(&mut doc, 1), EditOutcome::NoOp(_)));
    assert!(matches!(OrgProvider.move_subtree_down(&mut doc, 1), EditOutcome::NoOp(_)));
}

#[test]
fn move_down_at_end_of_buffer_without_trailing_newline_keeps_text_intact() {
    let mut doc = Document::from_text("* A\n* B no newline");
    OrgProvider.move_subtree_down(&mut doc, 0);
    assert_eq!(doc.text(), "* B no newline\n* A");
}

#[test]
fn insert_sibling_lands_after_the_current_subtree_at_the_same_level() {
    let mut doc = Document::from_text("** A\nbody\n* next\n");
    // Cursor on "body": sibling of A (level 2) goes before "* next".
    assert_eq!(
        OrgProvider.insert_sibling(&mut doc, 1, false),
        EditOutcome::Changed { cursor_line: 2 }
    );
    assert_eq!(doc.text(), "** A\nbody\n** \n* next\n");
}

#[test]
fn insert_todo_sibling_carries_the_keyword() {
    let mut doc = Document::from_text("# A\n");
    MarkdownProvider.insert_sibling(&mut doc, 0, true);
    assert_eq!(doc.text(), "# A\n# TODO \n");
}

#[test]
fn insert_at_end_of_buffer_without_trailing_newline() {
    let mut doc = Document::from_text("* A\nbody no newline");
    assert_eq!(
        OrgProvider.insert_sibling(&mut doc, 1, false),
        EditOutcome::Changed { cursor_line: 2 }
    );
    assert_eq!(doc.text(), "* A\nbody no newline\n* \n");
}

#[test]
fn insert_with_no_enclosing_heading_appends_a_level_1_heading() {
    let mut doc = Document::from_text("just prose\n");
    assert_eq!(
        OrgProvider.insert_sibling(&mut doc, 0, false),
        EditOutcome::Changed { cursor_line: 1 }
    );
    assert_eq!(doc.text(), "just prose\n* \n");
}

#[test]
fn priority_up_walks_none_c_b_a_and_stops() {
    let mut doc = Document::from_text("* TODO task\n");
    OrgProvider.cycle_priority(&mut doc, 0, true);
    assert_eq!(doc.text(), "* TODO [#C] task\n"); // cookie after the keyword
    OrgProvider.cycle_priority(&mut doc, 0, true);
    OrgProvider.cycle_priority(&mut doc, 0, true);
    assert_eq!(doc.text(), "* TODO [#A] task\n");
    assert!(matches!(OrgProvider.cycle_priority(&mut doc, 0, true), EditOutcome::NoOp(_)));
}

#[test]
fn priority_down_walks_a_b_c_none_and_stops() {
    let mut doc = Document::from_text("## [#A] task\n"); // Markdown, no keyword
    MarkdownProvider.cycle_priority(&mut doc, 0, false);
    assert_eq!(doc.text(), "## [#B] task\n");
    MarkdownProvider.cycle_priority(&mut doc, 0, false);
    MarkdownProvider.cycle_priority(&mut doc, 0, false);
    assert_eq!(doc.text(), "## task\n"); // cookie and its space removed
    assert!(matches!(
        MarkdownProvider.cycle_priority(&mut doc, 0, false),
        EditOutcome::NoOp(_)
    ));
}

#[test]
fn priority_on_a_bare_cookie_headline_removes_cleanly() {
    let mut doc = Document::from_text("* DONE [#C]\n"); // keyword, cookie, no title
    OrgProvider.cycle_priority(&mut doc, 0, false);
    assert_eq!(doc.text(), "* DONE \n");
}

#[test]
fn set_tags_appends_replaces_and_removes() {
    let mut doc = Document::from_text("* TODO task\n");
    OrgProvider.set_tags(&mut doc, 0, &["work".into(), "urgent".into()]);
    assert_eq!(doc.text(), "* TODO task :work:urgent:\n");
    OrgProvider.set_tags(&mut doc, 0, &["home".into()]); // replaces, not appends
    assert_eq!(doc.text(), "* TODO task :home:\n");
    OrgProvider.set_tags(&mut doc, 0, &[]); // removes
    assert_eq!(doc.text(), "* TODO task\n");
}

#[test]
fn is_valid_tag_enforces_the_character_set() {
    assert!(is_valid_tag("a_1@b"));
    assert!(!is_valid_tag("has space"));
    assert!(!is_valid_tag(""));
}

// ---- Format detection -----------------------------------------------------

#[test]
fn detect_format_maps_md_and_markdown_extensions() {
    assert_eq!(detect_format(Some("a.md")), Format::Markdown);
    assert_eq!(detect_format(Some("dir/b.markdown")), Format::Markdown);
    assert_eq!(detect_format(Some("a.org")), Format::Org);
    assert_eq!(detect_format(Some("a.txt")), Format::Org);
    assert_eq!(detect_format(Some("README")), Format::Org);
    assert_eq!(detect_format(None), Format::Org);
}

#[test]
fn detect_format_is_case_insensitive() {
    assert_eq!(detect_format(Some("A.MD")), Format::Markdown);
    assert_eq!(detect_format(Some("b.Markdown")), Format::Markdown);
}

#[test]
fn format_enum_delegates_to_the_right_provider() {
    let doc = Document::from_text("* org\n# md\n");
    let org = Format::Org.parse(&doc);
    assert_eq!(org.headings.len(), 1);
    assert_eq!(org.headings[0].title, "org");
    let md = Format::Markdown.parse(&doc);
    assert_eq!(md.headings.len(), 1);
    assert_eq!(md.headings[0].title, "md");

    let mut doc = Document::from_text("# task\n");
    Format::Markdown.cycle_todo(&mut doc, 0);
    assert_eq!(doc.text(), "# TODO task\n");
}

#[test]
fn shifting_inside_a_range_moves_the_stamp_under_the_cursor() {
    let mut doc = Document::from_text("<2024-01-15>--<2024-01-18>");
    assert_eq!(shift_timestamp(&mut doc, 0, 23, true), Some(EditOutcome::Changed { cursor_line: 0 }));
    assert_eq!(doc.text(), "<2024-01-15 Mon>--<2024-01-19 Fri>");
    let mut doc = Document::from_text("<2024-01-15>--<2024-01-18>");
    assert_eq!(shift_timestamp(&mut doc, 0, 9, false), Some(EditOutcome::Changed { cursor_line: 0 }));
    assert_eq!(doc.text(), "<2024-01-14 Sun>--<2024-01-18 Thu>");
    let mut doc = Document::from_text("<2024-01-15>--<2024-01-18>");
    assert_eq!(shift_timestamp(&mut doc, 0, 12, true), None); // on the `--`
    assert_eq!(doc.text(), "<2024-01-15>--<2024-01-18>");
}
