use button_store::resolve_partition;
use button_store::tally_outcomes;
use button_store::CORS;

use chrono::TimeZone;
use chrono::Utc;

#[test]
fn resolve_epoch_start() {
    assert_eq!(resolve_partition(0).as_str(), "1970-01-01");
}

#[test]
fn resolve_day_boundary_differs() {
    let before = resolve_partition(86399);
    let after = resolve_partition(86400);
    assert_eq!(before.as_str(), "1970-01-01");
    assert_eq!(after.as_str(), "1970-01-02");
    assert_ne!(before.as_str(), after.as_str());
}

#[test]
fn resolve_same_day_equal() {
    let a = resolve_partition(1700000000);
    let b = resolve_partition(1700000500);
    let c = resolve_partition(1700000999);
    assert_eq!(a.as_str(), "2023-11-14");
    assert_eq!(a.as_str(), b.as_str());
    assert_eq!(b.as_str(), c.as_str());
}

#[test]
fn resolve_leap_days() {
    // 2000 is a leap year (divisible by 400); 951782400 is 2000-02-29 00:00 UTC.
    assert_eq!(resolve_partition(951782400).as_str(), "2000-02-29");
    // 2024 is a leap year; 1709208000 is 2024-02-29 12:00 UTC.
    assert_eq!(resolve_partition(1709208000).as_str(), "2024-02-29");
    // 2100 is not a leap year: the day before 2100-03-01 00:00 UTC is the 28th.
    assert_eq!(resolve_partition(4107542400 - 1).as_str(), "2100-02-28");
}

#[test]
fn resolve_matches_reference_calendar() {
    let samples: [u64; 10] = [
        0,
        1,
        86399,
        86400,
        951782400,
        1700000000,
        1709208000,
        2147483647,
        4107542399,
        16725225600,
    ];
    for &t in samples.iter() {
        let expected = Utc
            .timestamp_opt(t as i64, 0)
            .unwrap()
            .format("%Y-%m-%d")
            .to_string();
        assert_eq!(resolve_partition(t).as_str(), expected);
    }
}

#[test]
fn tally_counts_each_outcome() {
    let records: Vec<(String, bool)> = vec![
        ("a".to_string(), false),
        ("b".to_string(), true),
        ("c".to_string(), false),
        ("d".to_string(), false),
        ("e".to_string(), true),
    ];
    assert_eq!(tally_outcomes(&records), (3, 2));
}

#[test]
fn tally_empty_is_zero() {
    let records: Vec<(String, bool)> = Vec::new();
    assert_eq!(tally_outcomes(&records), (0, 0));
}

#[test]
fn index_greeting() {
    assert_eq!(
        button_store::index(),
        "Hello. Please ignore this page and return to our site https://buttoncorp.org. Thank you."
    );
}

#[test]
fn cors_header_pairs() {
    let headers = CORS::headers();
    assert_eq!(
        headers,
        vec![
            ("Access-Control-Allow-Origin", "https://buttoncorp.org"),
            ("Access-Control-Allow-Methods", "POST, GET, PATCH, OPTIONS"),
            ("Access-Control-Allow-Headers", "*"),
            ("Access-Control-Allow-Credentials", "true"),
        ]
    );
}
