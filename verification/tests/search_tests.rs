use torg::document::Document;
use torg::search::{find, find_before, Match};
use torg::search::{search_pieces, Hit};
use torg::search::matches_in_line;

#[test]
fn lowercase_query_matches_case_insensitively() {
    assert_eq!(matches_in_line("Foo foo FOO", "foo"), vec![0, 4, 8]);
}

#[test]
fn uppercase_in_query_forces_exact_match() {
    assert_eq!(matches_in_line("Foo foo FOO", "Foo"), vec![0]);
}

#[test]
fn cols_are_char_indices_not_bytes() {
    // "héllo héllo": second occurrence starts at char 6.
    assert_eq!(matches_in_line("héllo héllo", "héllo"), vec![0, 6]);
}

#[test]
fn overlapping_occurrences_are_all_reported() {
    assert_eq!(matches_in_line("aaa", "aa"), vec![0, 1]);
}

#[test]
fn empty_query_matches_nothing() {
    assert_eq!(matches_in_line("anything", ""), Vec::<usize>::new());
}

fn hit_pieces(text: &str, query: &str, current: Option<usize>) -> Vec<(String, Hit)> {
    let chars: Vec<char> = text.chars().collect();
    search_pieces(text, query, current)
        .into_iter()
        .map(|(s, e, h)| (chars[s..e].iter().collect(), h))
        .collect()
}

#[test]
fn search_line_styles_every_occurrence_and_the_current_one_distinctly() {
    let p = hit_pieces("foo bar foo", "foo", Some(8));
    let texts: Vec<&str> = p.iter().map(|(t, _)| t.as_str()).collect();
    assert_eq!(texts, vec!["foo", " bar ", "foo"]);
    assert_ne!(p[0].1, p[1].1);
    assert_ne!(p[0].1, p[2].1);
    assert_eq!(p[2].1, Hit::Current);
}

#[test]
fn search_line_without_matches_is_one_plain_span() {
    let p = hit_pieces("nothing here", "zzz", None);
    assert_eq!(p.len(), 1);
    assert_eq!(p[0], ("nothing here".to_string(), Hit::Plain));
}

#[test]
fn overlapping_occurrences_are_shown_once() {
    let p = hit_pieces("aaaa", "aa", None);
    assert_eq!(
        p,
        vec![("aa".to_string(), Hit::Match), ("aa".to_string(), Hit::Match)]
    );
}

#[test]
fn find_goes_forward_and_backward_and_wraps() {
    let doc = Document::from_text("foo x\nbar Foo\nfoo\n");
    assert_eq!(find(&doc, "foo", 0, 1, true), Some((Match { line: 1, col: 4 }, false)));
    assert_eq!(find(&doc, "foo", 2, 1, true), Some((Match { line: 0, col: 0 }, true)));
    assert_eq!(find(&doc, "Foo", 0, 0, true), Some((Match { line: 1, col: 4 }, false)));
    assert_eq!(find(&doc, "foo", 1, 3, false), Some((Match { line: 0, col: 0 }, false)));
    assert_eq!(find_before(&doc, "foo", 0, 0), Some((Match { line: 2, col: 0 }, true)));
    assert_eq!(find(&doc, "", 0, 0, true), None);
    assert_eq!(find(&doc, "zzz", 0, 0, true), None);
}
