use retention::input::{collect_entries, file_line, parse_decimal, parse_policy, Collected, PolicyError};
use std::collections::BTreeMap;

#[test]
fn policy_from_text() {
    let p = parse_policy("86400", "3").unwrap();
    assert_eq!(p.interval, 86400);
    assert_eq!(p.count, 3);
}

#[test]
fn policy_accepts_plus_sign_and_leading_zeros() {
    let p = parse_policy("+0604800", "+06").unwrap();
    assert_eq!(p.interval, 604800);
    assert_eq!(p.count, 6);
}

#[test]
fn policy_rejects_zero_interval() {
    assert_eq!(parse_policy("0", "3").unwrap_err(), PolicyError::ZeroInterval);
    assert_eq!(parse_policy("000", "x").unwrap_err(), PolicyError::ZeroInterval);
}

#[test]
fn policy_rejects_bad_interval() {
    assert_eq!(parse_policy("", "3").unwrap_err(), PolicyError::BadInterval);
    assert_eq!(parse_policy("+", "3").unwrap_err(), PolicyError::BadInterval);
    assert_eq!(parse_policy("1d", "3").unwrap_err(), PolicyError::BadInterval);
    assert_eq!(parse_policy("-5", "3").unwrap_err(), PolicyError::BadInterval);
    assert_eq!(parse_policy(" 5", "3").unwrap_err(), PolicyError::BadInterval);
    assert_eq!(
        parse_policy("18446744073709551616", "3").unwrap_err(),
        PolicyError::BadInterval
    );
}

#[test]
fn policy_rejects_bad_count() {
    assert_eq!(parse_policy("60", "").unwrap_err(), PolicyError::BadCount);
    assert_eq!(parse_policy("60", "-1").unwrap_err(), PolicyError::BadCount);
    assert_eq!(parse_policy("60", "4294967296").unwrap_err(), PolicyError::BadCount);
}

#[test]
fn policy_takes_largest_values() {
    let p = parse_policy("18446744073709551615", "4294967295").unwrap();
    assert_eq!(p.interval, u64::MAX);
    assert_eq!(p.count, u32::MAX);
}

#[test]
fn decimal_values() {
    assert_eq!(parse_decimal("0", 10), Some(0));
    assert_eq!(parse_decimal("007", 10), Some(7));
    assert_eq!(parse_decimal("10", 10), Some(10));
    assert_eq!(parse_decimal("11", 10), None);
    assert_eq!(parse_decimal("99999999999999999999", u64::MAX), None);
    assert_eq!(parse_decimal("++1", 10), None);
    assert_eq!(parse_decimal("1+", 10), None);
}

fn lines(v: &[&str]) -> Vec<String> {
    v.iter().map(|s| s.to_string()).collect()
}

#[test]
fn lines_filed_by_their_dates() {
    let c = collect_entries(
        &lines(&["20200101-00:00", "not a date", "20200102-06:30", "20200101-00:00"]),
        "%Y%m%d-%H:%M",
    );
    let mut expected = BTreeMap::new();
    expected.insert(1577836800u64, "20200101-00:00".to_string());
    expected.insert(1577946600u64, "20200102-06:30".to_string());
    assert_eq!(c.entries, expected);
    assert_eq!(c.unparsed, vec!["not a date".to_string()]);
}

#[test]
fn dates_before_the_epoch_are_set_aside() {
    let c = collect_entries(&lines(&["19691231-23:59", "19700101-00:00"]), "%Y%m%d-%H:%M");
    assert_eq!(c.entries.keys().copied().collect::<Vec<u64>>(), vec![0]);
    assert_eq!(c.unparsed, vec!["19691231-23:59".to_string()]);
}

#[test]
fn other_formats_are_honoured() {
    let c = collect_entries(&lines(&["2020-01-31T20:30:00", "20200131-20:30"]), "%Y-%m-%dT%H:%M:%S");
    assert_eq!(c.entries.keys().copied().collect::<Vec<u64>>(), vec![1580502600]);
    assert_eq!(c.unparsed.len(), 1);
}

#[test]
fn filing_replaces_same_instant_and_sets_aside_the_rest() {
    let mut c = Collected { entries: BTreeMap::new(), unparsed: Vec::new() };
    file_line(&mut c, "a".to_string(), Some(5));
    file_line(&mut c, "b".to_string(), Some(5));
    file_line(&mut c, "c".to_string(), Some(-1));
    file_line(&mut c, "d".to_string(), None);
    file_line(&mut c, "e".to_string(), Some(0));
    assert_eq!(c.entries.len(), 2);
    assert_eq!(c.entries.get(&5), Some(&"b".to_string()));
    assert_eq!(c.entries.get(&0), Some(&"e".to_string()));
    assert_eq!(c.unparsed, vec!["c".to_string(), "d".to_string()]);
}
