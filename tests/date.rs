use journal_store::date::JournalDate;

#[test]
fn parses_iso_date() {
    let d = JournalDate::parse("2024-01-05").unwrap();
    assert_eq!((d.year, d.month, d.day), (2024, 1, 5));
}

#[test]
fn parse_rejects_other_shapes() {
    assert!(JournalDate::parse("05/01/2024").is_none());
    assert!(JournalDate::parse("2024-13-01").is_none());
    assert!(JournalDate::parse("2023-02-29").is_none());
    assert!(JournalDate::parse("").is_none());
    assert!(JournalDate::parse("hello").is_none());
}

#[test]
fn parse_accepts_leap_day() {
    let d = JournalDate::parse("2024-02-29").unwrap();
    assert_eq!(d, JournalDate::from_ymd(2024, 2, 29).unwrap());
}

#[test]
fn from_ymd_checks_month_lengths() {
    assert!(JournalDate::from_ymd(2023, 2, 29).is_none());
    assert!(JournalDate::from_ymd(2000, 2, 29).is_some());
    assert!(JournalDate::from_ymd(1900, 2, 29).is_none());
    assert!(JournalDate::from_ymd(2024, 4, 31).is_none());
    assert!(JournalDate::from_ymd(2024, 12, 31).is_some());
    assert!(JournalDate::from_ymd(2024, 0, 1).is_none());
    assert!(JournalDate::from_ymd(2024, 1, 0).is_none());
}

#[test]
fn from_ymd_keeps_chrono_year_range() {
    assert!(JournalDate::from_ymd(262142, 12, 31).is_some());
    assert!(JournalDate::from_ymd(262143, 1, 1).is_none());
    assert!(JournalDate::from_ymd(-262143, 1, 1).is_some());
    assert!(JournalDate::from_ymd(-262144, 12, 31).is_none());
}
