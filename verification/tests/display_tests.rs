use torg::display::{
    display_col, expand_tabs, find_checkbox_token, find_cookie_tokens,
    line_has_list_or_heading_prefix, parse_cookie_token,
};

#[test]
fn expand_tabs_advances_to_the_next_tab_stop() {
    assert_eq!(expand_tabs("\tx"), "    x"); // tab at col 0 → stop at 4
    assert_eq!(expand_tabs("ab\tx"), "ab  x"); // tab at col 2 → stop at 4
    assert_eq!(expand_tabs("abcd\tx"), "abcd    x"); // tab at a stop → full width
    assert_eq!(expand_tabs("a\tb\tc"), "a   b   c"); // multiple tabs
    assert_eq!(expand_tabs("no tabs"), "no tabs");
}

#[test]
fn display_col_maps_char_columns_through_tabs() {
    // "\tx": char 0 is the tab (display 0), char 1 is 'x' at display 4.
    assert_eq!(display_col("\tx", 0), 0);
    assert_eq!(display_col("\tx", 1), 4);
    assert_eq!(display_col("\tx", 2), 5); // end of line
    // "ab\tx": 'x' is char 3, display 4.
    assert_eq!(display_col("ab\tx", 3), 4);
    // No tabs: identity.
    assert_eq!(display_col("plain", 3), 3);
}

#[test]
fn each_char_is_drawn_at_its_display_column() {
    let text = "a\tbc\t\td";
    let shown: Vec<char> = expand_tabs(text).chars().collect();
    for (k, c) in text.chars().enumerate() {
        if c != '\t' {
            assert_eq!(shown[display_col(text, k)], c);
        }
    }
    assert_eq!(display_col(text, 99), shown.len());
}

#[test]
fn checkbox_tokens_need_a_bullet_a_space_and_a_clean_close() {
    assert_eq!(find_checkbox_token("- [ ] task"), Some(((2, 5), false)));
    assert_eq!(find_checkbox_token("  + [X] done"), Some(((4, 7), true)));
    assert_eq!(find_checkbox_token("12. [x]"), Some(((4, 7), true)));
    assert_eq!(find_checkbox_token("* [-] partial"), Some(((2, 5), false)));
    assert_eq!(find_checkbox_token("- [ ]x glued"), None);
    assert_eq!(find_checkbox_token("-[ ] no space"), None);
    assert_eq!(find_checkbox_token("prose [ ]"), None);
    assert_eq!(find_checkbox_token("- [?] odd"), None);
}

#[test]
fn cookie_prefix_accepts_headings_and_bullets_only() {
    assert!(line_has_list_or_heading_prefix("** Heading [1/2]"));
    assert!(line_has_list_or_heading_prefix("# Heading"));
    assert!(line_has_list_or_heading_prefix("  - item"));
    assert!(line_has_list_or_heading_prefix("3) item"));
    assert!(!line_has_list_or_heading_prefix("plain [1/2]"));
    assert!(!line_has_list_or_heading_prefix("**bold**"));
    assert!(!line_has_list_or_heading_prefix("3.x"));
    assert!(!line_has_list_or_heading_prefix(""));
}

#[test]
fn cookies_read_counts_and_percentages() {
    let toks = |s: &str| -> Vec<char> { s.chars().collect() };
    assert_eq!(parse_cookie_token(&toks("[3/3] x")), Some((5, true)));
    assert_eq!(parse_cookie_token(&toks("[1/3]")), Some((5, false)));
    assert_eq!(parse_cookie_token(&toks("[0/0]")), Some((5, false)));
    assert_eq!(parse_cookie_token(&toks("[100%]")), Some((6, true)));
    assert_eq!(parse_cookie_token(&toks("[50%]")), Some((5, false)));
    assert_eq!(parse_cookie_token(&toks("[/]")), None);
    assert_eq!(parse_cookie_token(&toks("[%]")), None);
    assert_eq!(parse_cookie_token(&toks("[1/]")), None);
    assert_eq!(parse_cookie_token(&toks("[99999999999999999999/1]")), None);
    assert_eq!(
        find_cookie_tokens("* Task [1/2] and [100%]"),
        vec![((7, 12), false), ((17, 23), true)]
    );
    assert_eq!(find_cookie_tokens("é [2/2]"), vec![((2, 7), true)]); // char offsets
}
