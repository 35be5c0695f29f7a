use torg::document::Document;
use torg::edits::EditOutcome;
use torg::provider::{MarkdownProvider, OrgProvider, StructureProvider};
use torg::timestamp::{
    parse_timestamp, Date, RepeatKind, Repeater, Stamp, Time, Timestamp, Unit, Warning,
};

fn stamp(active: bool, year: i32, month: u8, day: u8) -> Stamp {
    Stamp {
        active,
        date: Date { year, month, day },
        time: None,
        time_end: None,
        repeater: None,
        warning: None,
    }
}

#[test]
fn raising_then_lowering_a_priority_gives_the_text_back() {
    for text in ["* TODO task\n", "* task\n", "* TODO [#B] task :x:\n"] {
        let mut doc = Document::from_text(text);
        assert!(matches!(
            OrgProvider.cycle_priority(&mut doc, 0, true),
            EditOutcome::Changed { cursor_line: 0 }
        ));
        assert_ne!(doc.text(), text);
        assert!(matches!(
            OrgProvider.cycle_priority(&mut doc, 0, false),
            EditOutcome::Changed { cursor_line: 0 }
        ));
        assert_eq!(doc.text(), text);
    }
}

#[test]
fn demoting_then_promoting_a_subtree_gives_the_text_back() {
    let text = "# A\nbody\n## B\n# C\n";
    let mut doc = Document::from_text(text);
    MarkdownProvider.demote_subtree(&mut doc, 1);
    assert_eq!(doc.text(), "## A\nbody\n### B\n# C\n");
    assert!(matches!(
        MarkdownProvider.promote_subtree(&mut doc, 1),
        EditOutcome::Changed { cursor_line: 1 }
    ));
    assert_eq!(doc.text(), text);
}

#[test]
fn written_tags_read_back() {
    let mut doc = Document::from_text("* TODO task :old:\n");
    let tags: Vec<String> = vec!["a_1".into(), "b@#%".into(), "C".into()];
    OrgProvider.set_tags(&mut doc, 0, &tags);
    let heading = &OrgProvider.parse(&doc).headings[0];
    assert_eq!(heading.tags, tags);
    assert_eq!(heading.title, "task");
}

#[test]
fn printed_timestamps_parse_back() {
    let mut full = stamp(true, 2024, 2, 29);
    full.time = Some(Time { hour: 9, min: 5 });
    full.time_end = Some(Time { hour: 23, min: 59 });
    full.repeater = Some(Repeater { kind: RepeatKind::DotPlus, n: 12, unit: Unit::Month });
    full.warning = Some(Warning { double: true, n: 3, unit: Unit::Day });
    let mut inactive = stamp(false, 7, 12, 31);
    inactive.repeater = Some(Repeater { kind: RepeatKind::PlusPlus, n: 0, unit: Unit::Hour });
    let cases = [
        Timestamp { start: full, end: None },
        Timestamp { start: inactive, end: None },
        Timestamp { start: stamp(true, 2024, 1, 15), end: Some(stamp(true, 2025, 6, 1)) },
    ];
    for t in cases {
        let text = t.to_string();
        assert_eq!(parse_timestamp(&text), Some((t, text.len())));
    }
}

#[test]
fn unresolved_references_are_kept_verbatim() {
    let e: Vec<(String, String)> = vec![("HOME".into(), "/home/me".into())];
    for s in ["$NOPE/x ${} ${NOPE", "a $ b", "${HOME", "$", "plain"] {
        assert_eq!(torg::paths::expand_env(s, &e), s);
    }
}

#[test]
fn no_field_sits_on_the_brackets_or_past_the_end() {
    let raw = "<2024-01-15 Mon 09:30>";
    let n = raw.len();
    for rel in [0, n - 1, n, n + 5] {
        assert_eq!(torg::timestamp::field_at(raw, rel), None);
    }
}

#[test]
fn highlight_pieces_tile_the_line() {
    let text = "- [X] done SCHEDULED: <2024-01-15 Mon> [1/2] tail";
    let pieces = torg::highlight::highlight_line(text);
    let chars: Vec<char> = text.chars().collect();
    let mut at = 0;
    let mut rebuilt = String::new();
    for (a, b, _) in &pieces {
        assert_eq!(*a, at);
        rebuilt.extend(&chars[*a..*b]);
        at = *b;
    }
    assert_eq!(at, chars.len());
    assert_eq!(rebuilt, text);
}

#[test]
fn parse_print_parse_is_stable() {
    let (t, _) = parse_timestamp("<2024-1-5 Tue 9:05-10:00 +1w --2d>").unwrap();
    let text = t.to_string();
    assert_eq!(text, "<2024-01-05 Fri 09:05-10:00 +1w --2d>");
    assert_eq!(parse_timestamp(&text), Some((t, text.len())));
}

#[test]
fn found_timestamps_run_left_to_right_and_each_parses() {
    let text = "a <2024-01-15 Mon>--<2024-01-16 Tue> b [2024-02-01] <bad> <2024-03-01>";
    let spans = torg::timestamp::find_timestamps(text);
    assert_eq!(spans.len(), 3);
    for w in spans.windows(2) {
        assert!(w[0].0 < w[0].1 && w[0].1 <= w[1].0);
    }
    for &(s, e) in &spans {
        assert_eq!(parse_timestamp(&text[s..]).map(|p| p.1), Some(e - s));
    }
}

#[test]
fn a_line_with_nothing_special_is_one_plain_piece() {
    let pieces = torg::highlight::highlight_line("just words [not a cookie]");
    assert_eq!(pieces.len(), 1);
    assert_eq!(pieces[0].2, torg::highlight::Mark::Plain);
}

#[test]
fn ascii_search_matches_and_tags_follow_the_ascii_rules() {
    assert_eq!(torg::search::matches_in_line("Foo foo FOO", "foo"), vec![0, 4, 8]);
    assert_eq!(torg::search::matches_in_line("Foo foo FOO", "Foo"), vec![0]);
    assert!(torg::edits::is_valid_tag("a_1@#%"));
    assert!(!torg::edits::is_valid_tag("a-b"));
}
