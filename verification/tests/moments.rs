//! Moments of the house.

use unidpp_ops::calendar::{civil_from_days, now_epoch, utc_iso, utc_stamp};
use unidpp_ops::listing::{archives_newest_first, newest_by_mtime, newest_by_name, Dated};

#[test]
fn the_epoch_is_the_first_of_1970() {
    assert_eq!(civil_from_days(0), (1970, 1, 1));
    assert_eq!(utc_stamp(0), "19700101T000000Z");
    assert_eq!(utc_iso(0), "1970-01-01T00:00Z");
}

#[test]
fn leap_days_are_there() {
    assert_eq!(civil_from_days(11016), (2000, 2, 29));
    assert_eq!(civil_from_days(11017), (2000, 3, 1));
    assert_eq!(civil_from_days(-25509), (1900, 2, 28));
    assert_eq!(civil_from_days(-25508), (1900, 3, 1));
    assert_eq!(civil_from_days(-719468), (0, 3, 1));
}

#[test]
fn a_moment_has_two_forms() {
    assert_eq!(utc_stamp(1788768959), "20260907T081559Z");
    assert_eq!(utc_iso(1788768959), "2026-09-07T08:15Z");
    assert_eq!(utc_stamp(951868799), "20000229T235959Z");
}

#[test]
fn years_beyond_four_digits_are_written_out() {
    assert_eq!(utc_stamp(253402300799), "99991231T235959Z");
    assert_eq!(utc_stamp(253402300800), "100000101T000000Z");
    assert!(utc_stamp(u64::MAX).ends_with('Z'));
}

#[test]
fn a_clock_before_the_epoch_reads_zero() {
    assert_eq!(now_epoch(None), 0);
    assert_eq!(now_epoch(Some(17)), 17);
}

#[test]
fn stamps_sort_by_time() {
    let moments = [0u64, 59, 60, 3599, 86399, 86400, 951868799, 951868800, 1788768959];
    for pair in moments.windows(2) {
        assert!(utc_stamp(pair[0]) < utc_stamp(pair[1]));
    }
}

fn names(list: &[&str]) -> Vec<String> {
    list.iter().map(|s| s.to_string()).collect()
}

#[test]
fn archives_come_newest_first() {
    let dir = names(&[
        "a-20260101T000000Z.tar.gz",
        "a-20260101T000000Z.json",
        "a-20260301T000000Z.tar.gz",
        "a-20260201T000000Z.tar.gz",
    ]);
    assert_eq!(
        archives_newest_first(&dir),
        names(&[
            "a-20260301T000000Z.tar.gz",
            "a-20260201T000000Z.tar.gz",
            "a-20260101T000000Z.tar.gz",
        ])
    );
}

#[test]
fn the_newest_by_name_carries_the_label() {
    let dir = names(&["b-9.tar.gz", "a-1.tar.gz", "a-2.tar.gz", "a-3.json"]);
    assert_eq!(newest_by_name(&dir, "a-"), Some("a-2.tar.gz".to_string()));
    assert_eq!(newest_by_name(&dir, "c-"), None);
}

#[test]
fn the_newest_by_time_is_the_first_of_the_latest() {
    let dated = |name: &str, modified: i128| Dated { name: name.to_string(), modified };
    let dir = vec![
        dated("a-1.tar.gz", 5),
        dated("a-9.tar.gz", 7),
        dated("a-3.tar.gz", 7),
        dated("b-1.tar.gz", 9),
        dated("a-4.json", 9),
    ];
    assert_eq!(newest_by_mtime(&dir, "a-"), Some("a-9.tar.gz".to_string()));
    assert_eq!(newest_by_mtime(&dir, "x"), None);
}

#[test]
fn the_stamp_decides_before_the_label() {
    let dir = [
        "drill-20250101T000000Z.tar.gz",
        "acme-20260901T000000Z.tar.gz",
        "zulu-data-20260831T235959Z.tar.gz",
        "beta-20260901T000000Z.tar.gz",
    ];
    let names: Vec<String> = dir.iter().map(|n| n.to_string()).collect();
    assert_eq!(
        archives_newest_first(&names),
        [
            "beta-20260901T000000Z.tar.gz",
            "acme-20260901T000000Z.tar.gz",
            "zulu-data-20260831T235959Z.tar.gz",
            "drill-20250101T000000Z.tar.gz",
        ]
    );
}
