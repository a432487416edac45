use braze_sync::diff::orphan::{archive_name, is_archived};
use braze_sync::time::CalendarDate;

fn day(y: i32, m: u32, d: u32) -> CalendarDate {
    CalendarDate::from_ymd_opt(y, m, d).unwrap()
}

#[test]
fn archive_prefixes_a_clean_name() {
    let renamed = archive_name(day(2026, 4, 11), "promo");
    assert_eq!(renamed, "[ARCHIVED-2026-04-11] promo");
}

#[test]
fn archive_pads_single_digit_month_and_day() {
    let renamed = archive_name(day(2026, 1, 9), "x");
    assert_eq!(renamed, "[ARCHIVED-2026-01-09] x");
}

#[test]
fn archive_is_idempotent_on_already_archived_name() {
    let once = archive_name(day(2026, 4, 11), "promo");
    let twice = archive_name(day(2026, 4, 12), &once);
    assert_eq!(twice, once);
}

#[test]
fn is_archived_recognizes_canonical_prefix() {
    assert!(is_archived("[ARCHIVED-2026-04-11] x"));
    assert!(is_archived("[ARCHIVED-1999-12-31] legacy thing"));
}

#[test]
fn is_archived_rejects_close_but_wrong_shapes() {
    assert!(!is_archived("ARCHIVED-2026-04-11 x"));
    assert!(!is_archived("[ARCHIVED-2026/04/11] x"));
    assert!(!is_archived("[ARCHIVED-26-4-11] x"));
    assert!(!is_archived("[ARCHIVED-] x"));
    assert!(!is_archived("[ARCHIVED-2026-04-11]x"));
    assert!(!is_archived("plain name"));
}

#[test]
fn empty_original_is_still_archived() {
    let renamed = archive_name(day(2026, 4, 11), "");
    assert_eq!(renamed, "[ARCHIVED-2026-04-11] ");
}

#[test]
fn dates_that_do_not_exist_are_refused() {
    assert!(CalendarDate::from_ymd_opt(2026, 2, 29).is_none());
    assert!(CalendarDate::from_ymd_opt(2024, 2, 29).is_some());
    assert!(CalendarDate::from_ymd_opt(1900, 2, 29).is_none());
    assert!(CalendarDate::from_ymd_opt(2000, 2, 29).is_some());
    assert!(CalendarDate::from_ymd_opt(2026, 13, 1).is_none());
    assert!(CalendarDate::from_ymd_opt(2026, 0, 1).is_none());
    assert!(CalendarDate::from_ymd_opt(2026, 4, 31).is_none());
}

#[test]
fn dates_read_as_chrono_writes_them() {
    for year in [-262_143, -10_000, -9999, -1, 0, 1, 999, 1900, 2000, 2024, 9999, 10_000, 262_142] {
        for month in 0..14 {
            for d in 0..33 {
                let here = CalendarDate::from_ymd_opt(year, month, d).map(|x| x.to_string());
                let there = chrono::NaiveDate::from_ymd_opt(year, month, d)
                    .map(|x| x.format("%Y-%m-%d").to_string());
                assert_eq!(here, there);
            }
        }
    }
}
