use torg::completion::{complete_from, completion_dir};

fn entries(list: &[(&str, bool)]) -> Vec<(String, bool)> {
    list.iter().map(|(n, d)| (n.to_string(), *d)).collect()
}

#[test]
fn a_unique_candidate_completes_and_slashes_directories() {
    let dir = entries(&[("notes.org", false), ("other.txt", false), ("sub", true)]);
    assert_eq!(complete_from("/d/not", &dir), ("/d/notes.org".to_string(), None));
    assert_eq!(complete_from("/d/su", &dir), ("/d/sub/".to_string(), None));
}

#[test]
fn ambiguous_candidates_extend_to_their_common_prefix() {
    let dir = entries(&[("report-b.org", false), ("report-a.org", false)]);
    assert_eq!(complete_from("/d/rep", &dir), ("/d/report-".to_string(), None));
}

#[test]
fn candidates_are_listed_sorted_when_nothing_extends() {
    let dir = entries(&[("banana", false), ("apple", false), ("cherry", true)]);
    assert_eq!(
        complete_from("/d/", &dir),
        ("/d/".to_string(), Some("3 matches: apple  banana  cherry/".to_string()))
    );
}

#[test]
fn no_candidate_reports_no_match() {
    let dir = entries(&[("apple", false)]);
    assert_eq!(
        complete_from("/d/zzz", &dir),
        ("/d/zzz".to_string(), Some("(no match)".to_string()))
    );
}

#[test]
fn dotfiles_are_offered_only_for_a_dotted_partial() {
    let dir = entries(&[(".hidden.org", false), ("visible.org", false)]);
    assert_eq!(complete_from("/d/", &dir), ("/d/visible.org".to_string(), None));
    assert_eq!(complete_from("/d/.hid", &dir), ("/d/.hidden.org".to_string(), None));
}

#[test]
fn a_long_candidate_list_is_cut_after_fifteen_names() {
    let names: Vec<(String, bool)> = (0..17u8).rev().map(|i| (format!("{}x", (b'a' + i) as char), false)).collect();
    let (out, status) = complete_from("x/", &names);
    assert_eq!(out, "x/");
    let expected = format!(
        "17 matches: {}  (+2 more)",
        (0..15u8).map(|i| format!("{}x", (b'a' + i) as char)).collect::<Vec<_>>().join("  ")
    );
    assert_eq!(status, Some(expected));
}

#[test]
fn a_bare_name_completes_in_the_current_directory() {
    let dir = entries(&[("todo.org", false)]);
    assert_eq!(completion_dir("to"), "");
    assert_eq!(complete_from("to", &dir), ("todo.org".to_string(), None));
    assert_eq!(completion_dir("~/notes/pl"), "~/notes/");
}
