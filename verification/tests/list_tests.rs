use torg::document::Document;
use torg::list::{item_at, Bullet, CheckState};
use torg::structure::Format;

fn doc(text: &str) -> Document {
    Document::from_text(text)
}

// ---- unordered bullets --------------------------------------------------

#[test]
fn dash_bullet_parses_at_various_indents() {
    let item = item_at(&doc("- task\n"), 0, Format::Org).unwrap();
    assert_eq!(item.indent, 0);
    assert_eq!(item.bullet, Bullet::Dash);
    assert_eq!(item.content_col, 2);

    let item = item_at(&doc("  - task\n"), 0, Format::Org).unwrap();
    assert_eq!(item.indent, 2);
    assert_eq!(item.content_col, 4);

    let item = item_at(&doc("     - task\n"), 0, Format::Org).unwrap();
    assert_eq!(item.indent, 5);
    assert_eq!(item.content_col, 7);
}

#[test]
fn plus_bullet_parses() {
    let item = item_at(&doc("+ task\n"), 0, Format::Org).unwrap();
    assert_eq!(item.bullet, Bullet::Plus);
    assert_eq!(item.content_col, 2);
}

#[test]
fn star_at_column_zero_is_a_heading_in_org_but_a_bullet_in_markdown() {
    assert!(item_at(&doc("* task\n"), 0, Format::Org).is_none());
    let item = item_at(&doc("* task\n"), 0, Format::Markdown).unwrap();
    assert_eq!(item.bullet, Bullet::Star);
    assert_eq!(item.indent, 0);
    assert_eq!(item.content_col, 2);
}

#[test]
fn indented_star_parses_in_org() {
    let item = item_at(&doc("  * task\n"), 0, Format::Org).unwrap();
    assert_eq!(item.bullet, Bullet::Star);
    assert_eq!(item.indent, 2);
    assert_eq!(item.content_col, 4);
}

// ---- ordered bullets ------------------------------------------------------

#[test]
fn ordered_bullet_parses_dot_and_paren_styles() {
    let item = item_at(&doc("3. x\n"), 0, Format::Org).unwrap();
    assert_eq!(item.bullet, Bullet::Ordered { number: 3, paren: false });
    assert_eq!(item.content_col, 3);

    let item = item_at(&doc("3) x\n"), 0, Format::Org).unwrap();
    assert_eq!(item.bullet, Bullet::Ordered { number: 3, paren: true });
    assert_eq!(item.content_col, 3);
}

#[test]
fn ordered_bullet_without_a_space_is_not_an_item() {
    assert!(item_at(&doc("1.x\n"), 0, Format::Org).is_none());
}

// ---- checkboxes -------------------------------------------------------------

#[test]
fn checkbox_states_parse_including_lowercase_x() {
    let item = item_at(&doc("- [ ] t\n"), 0, Format::Org).unwrap();
    assert_eq!(item.checkbox, Some(CheckState::Unchecked));
    assert_eq!(item.content_col, 6);

    let item = item_at(&doc("- [X] t\n"), 0, Format::Org).unwrap();
    assert_eq!(item.checkbox, Some(CheckState::Checked));
    assert_eq!(item.content_col, 6);

    let item = item_at(&doc("- [x] t\n"), 0, Format::Org).unwrap();
    assert_eq!(item.checkbox, Some(CheckState::Checked));
    assert_eq!(item.content_col, 6);

    let item = item_at(&doc("- [-] t\n"), 0, Format::Org).unwrap();
    assert_eq!(item.checkbox, Some(CheckState::Partial));
    assert_eq!(item.content_col, 6);
}

#[test]
fn bullet_glued_to_a_bracket_with_no_space_is_not_an_item() {
    // `-[ ]` has no space after the bullet, so the bullet rule fails outright — this is
    // not "an item with no checkbox", it is not an item at all.
    assert!(item_at(&doc("-[ ] t\n"), 0, Format::Org).is_none());
}

#[test]
fn a_bracket_later_in_the_content_is_not_a_checkbox() {
    let item = item_at(&doc("- x [ ] y\n"), 0, Format::Org).unwrap();
    assert_eq!(item.checkbox, None);
    assert_eq!(item.content_col, 2);
}

// ---- non-items ----------------------------------------------------------------

#[test]
fn blank_line_is_not_an_item() {
    assert!(item_at(&doc("\n"), 0, Format::Org).is_none());
}

#[test]
fn plain_text_is_not_an_item() {
    assert!(item_at(&doc("just prose\n"), 0, Format::Org).is_none());
}

#[test]
fn heading_lines_are_not_items() {
    assert!(item_at(&doc("* Heading\n"), 0, Format::Org).is_none());
    assert!(item_at(&doc("# Heading\n"), 0, Format::Markdown).is_none());
}

// ---- Markdown fence guard ----------------------------------------------------

#[test]
fn markdown_list_syntax_inside_a_fenced_block_is_not_an_item() {
    let text = "# A\n```sh\n- item\n```\n- real\n";
    assert!(item_at(&doc(text), 2, Format::Markdown).is_none()); // fenced "- item"
    let item = item_at(&doc(text), 4, Format::Markdown).unwrap(); // real item after the fence
    assert_eq!(item.bullet, Bullet::Dash);
}

#[test]
fn toggle_checkbox_cycles_the_state_and_refuses_elsewhere() {
    use_toggle();
}

fn use_toggle() {
    let mut doc = torg::document::Document::from_text("  + [x] done\n- no box\n");
    let r = torg::list::toggle_checkbox(torg::structure::Format::Org, &mut doc, 0);
    assert_eq!(r, torg::edits::EditOutcome::Changed { cursor_line: 0 });
    assert_eq!(doc.text(), "  + [ ] done\n- no box\n");
    let r = torg::list::toggle_checkbox(torg::structure::Format::Org, &mut doc, 1);
    assert_eq!(r, torg::edits::EditOutcome::NoOp("No checkbox here"));
    assert_eq!(doc.text(), "  + [ ] done\n- no box\n");
}
