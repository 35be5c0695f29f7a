use torg::timestamp::{days_in_month, find_timestamps, is_leap, parse_timestamp, weekday, Date, Timestamp};

fn ts(s: &str) -> Timestamp {
    parse_timestamp(s).expect("parse").0
}

#[test]
fn leap_years() {
    assert!(is_leap(2024));
    assert!(is_leap(2000));
    assert!(!is_leap(2023));
    assert!(!is_leap(1900));
}

#[test]
fn month_lengths() {
    assert_eq!(days_in_month(2024, 2), 29);
    assert_eq!(days_in_month(2023, 2), 28);
    assert_eq!(days_in_month(2024, 4), 30);
    assert_eq!(days_in_month(2024, 12), 31);
}

#[test]
fn weekday_matches_known_dates() {
    assert_eq!(weekday(Date { year: 2024, month: 1, day: 15 }), "Mon");
    assert_eq!(weekday(Date { year: 2024, month: 1, day: 16 }), "Tue");
    assert_eq!(weekday(Date { year: 2000, month: 1, day: 1 }), "Sat");
}

#[test]
fn display_adds_the_weekday() {
    assert_eq!(ts("<2024-01-15>").to_string(), "<2024-01-15 Mon>");
    assert_eq!(ts("[2024-01-15]").to_string(), "[2024-01-15 Mon]");
}

#[test]
fn round_trips_time_and_range() {
    assert_eq!(ts("<2024-01-15 09:30>").to_string(), "<2024-01-15 Mon 09:30>");
    assert_eq!(
        ts("<2024-01-15 09:30-11:00>").to_string(),
        "<2024-01-15 Mon 09:30-11:00>"
    );
}

#[test]
fn round_trips_date_range_repeater_and_warning() {
    assert_eq!(
        ts("<2024-01-15>--<2024-01-18>").to_string(),
        "<2024-01-15 Mon>--<2024-01-18 Thu>"
    );
    assert_eq!(ts("<2024-01-15 +1w>").to_string(), "<2024-01-15 Mon +1w>");
    assert_eq!(ts("<2024-01-15 ++2d>").to_string(), "<2024-01-15 Mon ++2d>");
    assert_eq!(ts("<2024-01-15 .+1m>").to_string(), "<2024-01-15 Mon .+1m>");
    assert_eq!(
        ts("<2024-01-15 09:30 +1w -2d>").to_string(),
        "<2024-01-15 Mon 09:30 +1w -2d>"
    );
}

#[test]
fn tolerates_an_input_weekday() {
    assert_eq!(ts("<2024-01-15 Zzz>").to_string(), "<2024-01-15 Mon>");
}

#[test]
fn rejects_malformed_stamps() {
    assert!(parse_timestamp("<2024-13-01>").is_none());
    assert!(parse_timestamp("<2024-01-40>").is_none());
    assert!(parse_timestamp("<2024-01-15").is_none());
    assert!(parse_timestamp("plain text").is_none());
    assert!(parse_timestamp("<2024-02-30>").is_none());
}

#[test]
fn parse_reports_consumed_length() {
    let (_, len) = parse_timestamp("<2024-01-15> trailing").unwrap();
    assert_eq!(len, "<2024-01-15>".len());
    let (_, len) = parse_timestamp("<2024-01-15>--<2024-01-18> x").unwrap();
    assert_eq!(len, "<2024-01-15>--<2024-01-18>".len());
}

#[test]
fn finds_timestamps_in_a_line() {
    let line = "meet <2024-01-15 Mon> and [2024-02-01]";
    let spans = find_timestamps(line);
    assert_eq!(spans.len(), 2);
    assert_eq!(&line[spans[0].0..spans[0].1], "<2024-01-15 Mon>");
    assert_eq!(&line[spans[1].0..spans[1].1], "[2024-02-01]");
}

#[test]
fn find_skips_non_timestamps() {
    assert!(find_timestamps("a < b > c").is_empty());
    assert!(find_timestamps("no brackets here").is_empty());
}
