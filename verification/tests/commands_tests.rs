use torg::commands::{help_menu, help_row};
use torg::commands::{commands, commands_in, requires_entry, Category};
use torg::keymap::Action;

/// Every menu-worthy action, listed once. `requires_entry`'s exhaustive match is the
/// compile-time guard that forces this list to be revisited when `Action` grows.
fn menu_actions() -> Vec<Action> {
    vec![
        Action::Save,
        Action::Quit,
        Action::ToggleFold,
        Action::NextHeading,
        Action::PrevHeading,
        Action::CycleTodo,
        Action::OpenFile,
        Action::NextBuffer,
        Action::PrevBuffer,
        Action::ListBuffers,
        Action::CloseBuffer,
        Action::PromoteHeading,
        Action::DemoteHeading,
        Action::PromoteSubtree,
        Action::DemoteSubtree,
        Action::MoveSubtreeUp,
        Action::MoveSubtreeDown,
        Action::InsertSibling,
        Action::InsertTodoSibling,
        Action::PriorityUp,
        Action::PriorityDown,
        Action::EditTags,
        Action::ToggleCheckbox,
        Action::SetScheduled,
        Action::SetDeadline,
        Action::InsertActiveTs,
        Action::InsertInactiveTs,
        Action::Help,
        Action::Guide,
        Action::Find,
    ]
}

#[test]
fn every_menu_action_has_exactly_one_entry() {
    for a in menu_actions() {
        assert!(requires_entry(&a), "{a:?} listed but marked excluded");
        let count = commands().iter().filter(|c| c.action == a).count();
        assert_eq!(count, 1, "{a:?} should appear exactly once, found {count}");
    }
}

#[test]
fn every_entry_is_menu_worthy_and_well_formed() {
    for c in commands() {
        assert!(requires_entry(&c.action), "{:?} is in the excluded set", c.action);
        assert!(!c.keys.is_empty() && !c.name.is_empty() && !c.description.is_empty());
    }
}

#[test]
fn keys_are_unique_within_a_category() {
    for cat in Category::all() {
        let mut seen = std::collections::HashSet::new();
        for c in commands_in(cat) {
            assert!(seen.insert(c.keys), "duplicate key {} in {:?}", c.keys, cat);
        }
    }
}

#[test]
fn every_category_has_at_least_one_command() {
    for cat in Category::all() {
        assert!(!commands_in(cat).is_empty(), "{cat:?} is empty");
    }
}

#[test]
fn help_rows_show_tabs_rows_and_selection() {
    let (tabs, rows) = help_menu(1, 0);
    let tab_text: String = tabs.iter().map(|(t, _)| t.as_str()).collect();
    assert!(tab_text.contains("File") && tab_text.contains("Navigate"));
    assert_ne!(tabs[0].1, tabs[1].1);
    assert!(rows[0].0.contains("Ctrl+N") && rows[0].0.contains("Next heading"));
    assert!(rows[0].1);
    assert!(rows.iter().skip(1).all(|(_, selected)| !selected));
}

#[test]
fn a_help_row_pads_keys_and_name_into_columns() {
    let cmd = commands_in(Category::Navigate)[0];
    let row = help_row(&cmd);
    assert_eq!(row, format!(" {:<14} {:<26} {}", cmd.keys, cmd.name, cmd.description));
}
