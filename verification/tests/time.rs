use std::time::{Duration, SystemTime};
use tree_print::time::{date_of, format_seconds, format_time, Date, DAYS, SECONDS};

fn date(year: u64, month: u64, day: u64) -> Date {
    Date { year, month, day }
}

#[test]
fn days_become_dates() {
    assert_eq!(date_of(0), date(1970, 1, 1));
    assert_eq!(date_of(30), date(1970, 1, 31));
    assert_eq!(date_of(31), date(1970, 2, 1));
    assert_eq!(date_of(364), date(1970, 12, 31));
    assert_eq!(date_of(365), date(1971, 1, 1));
    assert_eq!(date_of(789), date(1972, 2, 29));
    assert_eq!(date_of(790), date(1972, 3, 1));
    assert_eq!(date_of(11016), date(2000, 2, 29));
    assert_eq!(date_of(47540), date(2100, 2, 28));
    assert_eq!(date_of(47541), date(2100, 3, 1));
}

#[test]
fn dates_follow_each_other() {
    let mut before = date_of(0);
    for days in 1..60_000u64 {
        let d = date_of(days);
        let key = |d: Date| (d.year, d.month, d.day);
        assert!(key(before) < key(d));
        assert!(d.month >= 1 && d.month <= 12 && d.day >= 1 && d.day <= 31);
        before = d;
    }
}

#[test]
fn seconds_become_text() {
    assert_eq!(format_seconds(0), "1970-01-01 00:00");
    assert_eq!(format_seconds(59), "1970-01-01 00:00");
    assert_eq!(format_seconds(86399), "1970-01-01 23:59");
    assert_eq!(format_seconds(1_000_000_000), "2001-09-09 01:46");
    assert_eq!(format_seconds(1_709_210_096), "2024-02-29 12:34");
    assert_eq!(format_seconds(253_402_300_799), "9999-12-31 23:59");
    assert_eq!(format_seconds(1_000_000_000).len(), 16);
    assert_eq!(format_seconds(253_402_300_800), "10000-01-01 00:00");
}

#[test]
fn texts_sort_as_the_times_do() {
    let seconds = [
        0u64, 59, 60, 3_599, 3_600, 86_399, 86_400, 951_782_399, 951_782_400, 999_999_999,
        1_000_000_000, 1_709_210_096, 253_402_300_740, 253_402_300_799,
    ];
    for s in seconds {
        for t in seconds {
            let (a, b) = (format_seconds(s), format_seconds(t));
            assert_eq!(a < b, s / 60 < t / 60);
            assert_eq!(a == b, s / 60 == t / 60);
        }
    }
}

#[test]
fn times_of_the_system_become_text() {
    let epoch = SystemTime::UNIX_EPOCH;
    assert_eq!(format_time(&epoch).as_deref(), Some("1970-01-01 00:00"));
    let later = epoch + Duration::from_millis(1_000_000_000_999);
    assert_eq!(format_time(&later).as_deref(), Some("2001-09-09 01:46"));
    let earlier = epoch - Duration::from_secs(1_000_000);
    assert_eq!(format_time(&earlier).as_deref(), Some("1970-01-01 00:00"));
}

#[test]
fn a_year_that_is_too_large_is_not_shown() {
    let epoch = SystemTime::UNIX_EPOCH;
    if let Some(t) = epoch.checked_add(Duration::from_secs(SECONDS)) {
        assert!(format_time(&t).is_none());
    }
    assert_eq!(SECONDS, DAYS * 86400);
}
