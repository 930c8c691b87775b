use kamoshi::model::{is_white_space, MicroblogEntry};
use kamoshi::plugin::twtxt::{entry_lines, holds_entry, newest_first, parse_entries, thought_path};
use kamoshi::time::Timestamp;

fn at(secs: i64) -> Timestamp {
    Timestamp::from_parts(secs, 0).unwrap()
}

#[test]
fn epoch_is_written_by_chrono() {
    let t = at(0);
    assert_eq!(t.year(), 1970);
    assert_eq!(t.to_rfc3339(), "1970-01-01T00:00:00+00:00");
    assert_eq!(t.month_day(), "01/01");
    assert_eq!(t.month_name_day(), "Jan 01");
    assert_eq!(t.long_date(), "1970, January 01");
    assert_eq!(t.iso_date(), "1970-01-01");
}

#[test]
fn formats_a_date_in_march() {
    let t = at(1709798400);
    assert_eq!(t.year(), 2024);
    assert_eq!(t.month_day(), "03/07");
    assert_eq!(t.month_name_day(), "Mar 07");
    assert_eq!(t.long_date(), "2024, March 07");
    assert_eq!(t.iso_date(), "2024-03-07");
    assert_eq!(t.to_rfc3339(), "2024-03-07T08:00:00+00:00");
}

#[test]
fn out_of_range_instant_is_refused() {
    assert!(Timestamp::from_parts(i64::MAX, 0).is_none());
    assert!(Timestamp::from_parts(0, 2_000_000_000).is_none());
    assert!(Timestamp::from_parts(-1, 0).is_some());
}

#[test]
fn rfc3339_is_read_in_utc() {
    let t = Timestamp::parse_rfc3339("2024-03-07T10:00:00+02:00").unwrap();
    assert_eq!(t.secs(), 1709798400);
    assert_eq!(t.nanos(), 0);
    let f = Timestamp::parse_rfc3339("2024-03-07T08:00:00.5Z").unwrap();
    assert_eq!(f.nanos(), 500_000_000);
    assert!(Timestamp::parse_rfc3339("yesterday").is_err());
}

#[test]
fn white_space_follows_unicode() {
    assert!(is_white_space(' '));
    assert!(is_white_space('\t'));
    assert!(is_white_space('\u{3000}'));
    assert!(is_white_space('\u{85}'));
    assert!(!is_white_space('a'));
    assert!(!is_white_space('\u{200b}'));
}

#[test]
fn entry_splits_at_first_white_space() {
    let e = MicroblogEntry::parse("2024-03-07T08:00:00Z \t  hello  world ").unwrap();
    assert_eq!(e.date.secs(), 1709798400);
    assert_eq!(e.text, "hello  world ");
}

#[test]
fn entry_without_text_has_empty_text() {
    let e = MicroblogEntry::parse("2024-03-07T08:00:00Z").unwrap();
    assert_eq!(e.text, "");
    let parsed: MicroblogEntry = "2024-03-07T08:00:00Z x".parse().unwrap();
    assert_eq!(parsed.text, "x");
}

#[test]
fn entry_with_bad_date_is_an_error() {
    assert!(MicroblogEntry::parse("not-a-date hello").is_err());
    assert!(MicroblogEntry::parse("").is_err());
}

#[test]
fn comment_and_blank_lines_hold_no_entry() {
    assert!(!holds_entry(""));
    assert!(!holds_entry("   "));
    assert!(!holds_entry("  # comment"));
    assert!(holds_entry("  2024 x"));
}

#[test]
fn lines_are_split_like_str_lines() {
    let lines = entry_lines("# head\n\n2024-01-01T00:00:00Z a\r\n   \n2024-02-01T00:00:00Z b\n");
    assert_eq!(lines, vec!["2024-01-01T00:00:00Z a".to_string(), "2024-02-01T00:00:00Z b".to_string()]);
    let last = entry_lines("x\ny\r");
    assert_eq!(last, vec!["x".to_string(), "y\r".to_string()]);
    assert!(entry_lines("").is_empty());
}

#[test]
fn twtxt_file_is_read_in_order() {
    let data = "# my feed\n2024-01-01T00:00:00Z first\n\n2024-02-01T00:00:00Z second\n";
    let entries = parse_entries(data).unwrap();
    assert_eq!(entries.len(), 2);
    assert_eq!(entries[0].text, "first");
    assert_eq!(entries[0].date.secs(), 1704067200);
    assert_eq!(entries[1].text, "second");
    assert_eq!(entries[1].date.secs(), 1706745600);
}

#[test]
fn twtxt_file_with_a_bad_line_fails() {
    assert!(parse_entries("2024-01-01T00:00:00Z ok\nbroken line\n").is_err());
}

#[test]
fn entries_are_shown_newest_first_keeping_ties() {
    let entries = vec![
        MicroblogEntry::parse("2024-01-01T00:00:00Z a").unwrap(),
        MicroblogEntry::parse("2024-02-01T00:00:00Z b").unwrap(),
        MicroblogEntry::parse("2024-01-01T00:00:00Z c").unwrap(),
    ];
    let sorted = newest_first(&entries);
    let texts: Vec<&str> = sorted.iter().map(|e| e.text.as_str()).collect();
    assert_eq!(texts, vec!["b", "a", "c"]);
}

#[test]
fn thought_pages_are_named_by_timestamp() {
    let e = MicroblogEntry::parse("2024-01-01T00:00:00Z a").unwrap();
    assert_eq!(thought_path(&e), "thoughts/1704067200");
    let old = MicroblogEntry::parse("1969-12-31T23:59:59Z a").unwrap();
    assert_eq!(thought_path(&old), "thoughts/-1");
}
