use torg::highlight::{highlight_line, Mark};

fn pieces(text: &str) -> Vec<(String, Mark)> {
    let chars: Vec<char> = text.chars().collect();
    highlight_line(text)
        .into_iter()
        .map(|(s, e, m)| (chars[s..e].iter().collect(), m))
        .collect()
}

fn joined(p: &[(String, Mark)]) -> String {
    p.iter().map(|(t, _)| t.as_str()).collect()
}

fn mark_of(p: &[(String, Mark)], token: &str) -> Mark {
    p.iter().find(|(t, _)| t == token).unwrap().1
}

#[test]
fn highlight_line_splits_out_timestamps_and_keeps_the_full_text() {
    let p = pieces("SCHEDULED: <2024-01-15 Mon>");
    assert_eq!(joined(&p), "SCHEDULED: <2024-01-15 Mon>");
    assert!(p.len() >= 3);
    assert_eq!(
        p,
        vec![
            ("SCHEDULED:".to_string(), Mark::Keyword),
            (" ".to_string(), Mark::Plain),
            ("<2024-01-15 Mon>".to_string(), Mark::Stamp),
        ]
    );
}

#[test]
fn highlight_line_leaves_plain_text_as_one_span() {
    let p = pieces("just prose");
    assert_eq!(joined(&p), "just prose");
    assert_eq!(p, vec![("just prose".to_string(), Mark::Plain)]);
}

#[test]
fn highlight_line_styles_a_checked_checkbox_like_done_and_reassembles() {
    let p = pieces("- [X] buy milk");
    assert_eq!(joined(&p), "- [X] buy milk");
    assert_ne!(mark_of(&p, "[X]"), Mark::Plain);
    assert_eq!(mark_of(&p, "[X]"), Mark::Done);
}

#[test]
fn highlight_line_styles_a_lowercase_checked_checkbox_too() {
    let p = pieces("- [x] buy milk");
    assert_ne!(mark_of(&p, "[x]"), Mark::Plain);
}

#[test]
fn highlight_line_dims_an_unchecked_or_partial_checkbox() {
    for text in ["- [ ] buy milk", "- [-] buy milk"] {
        let p = pieces(text);
        let token = &text[2..5];
        assert_eq!(mark_of(&p, token), Mark::Dim, "{text}");
    }
}

#[test]
fn highlight_line_does_not_style_a_checkbox_with_glued_on_content() {
    let p = pieces("- [ ]x");
    assert_eq!(p.len(), 1);
    assert_eq!(p[0].1, Mark::Plain);
}

#[test]
fn highlight_line_styles_a_complete_cookie_on_a_heading_like_done() {
    let p = pieces("* Groceries [3/3]");
    assert_eq!(joined(&p), "* Groceries [3/3]");
    assert_ne!(mark_of(&p, "[3/3]"), Mark::Plain);
}

#[test]
fn highlight_line_styles_an_incomplete_cookie_differently_from_a_complete_one() {
    let incomplete = mark_of(&pieces("* Groceries [1/3]"), "[1/3]");
    let complete = mark_of(&pieces("* Groceries [3/3]"), "[3/3]");
    assert_ne!(incomplete, complete);
}

#[test]
fn highlight_line_treats_a_percent_cookie_of_100_as_complete() {
    let full = mark_of(&pieces("- item [100%]"), "[100%]");
    let half = mark_of(&pieces("- item [50%]"), "[50%]");
    assert_ne!(full, half);
    assert_eq!(full, Mark::Done);
}

#[test]
fn highlight_line_treats_zero_of_zero_as_incomplete() {
    let zero = mark_of(&pieces("* Groceries [0/0]"), "[0/0]");
    let complete = mark_of(&pieces("* Groceries [3/3]"), "[3/3]");
    assert_ne!(zero, complete);
}

#[test]
fn highlight_line_does_not_style_a_cookie_shaped_token_in_plain_prose() {
    let p = pieces("see section [2/3] of the report");
    assert!(p.iter().all(|(_, m)| *m == Mark::Plain));
}

#[test]
fn highlight_line_styles_cookies_on_markdown_gfm_items_and_headings() {
    let heading = pieces("# Groceries [0/2]");
    assert!(heading.iter().any(|(t, m)| t == "[0/2]" && *m != Mark::Plain));
    let item = pieces("- [ ] milk");
    assert_eq!(mark_of(&item, "[ ]"), Mark::Dim);
}

#[test]
fn an_overlapping_later_range_is_dropped() {
    // The keyword scan finds DEADLINE: inside the line; a timestamp starting inside an
    // already-taken range cannot be taken again.
    let p = pieces("DEADLINE: <2024-02-01 Thu> SCHEDULED: <2024-01-15 Mon>");
    assert_eq!(joined(&p), "DEADLINE: <2024-02-01 Thu> SCHEDULED: <2024-01-15 Mon>");
    assert_eq!(mark_of(&p, "DEADLINE:"), Mark::Keyword);
    assert_eq!(mark_of(&p, "SCHEDULED:"), Mark::Keyword);
    assert_eq!(mark_of(&p, "<2024-02-01 Thu>"), Mark::Stamp);
    assert_eq!(mark_of(&p, "<2024-01-15 Mon>"), Mark::Stamp);
}

#[test]
fn an_empty_line_has_no_pieces() {
    assert!(highlight_line("").is_empty());
}
