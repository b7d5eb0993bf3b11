use std::collections::BTreeMap;

use chrono::{NaiveDate, NaiveDateTime, NaiveTime};
use retention::retention::{apply, PeriodicRetentionPolicy, RetentionResult};

/// Parse a date into a NaiveDateTime according to a fixed format and return the timestamp as a u64.
#[allow(deprecated)]
fn date(string: &str) -> u64 {
    NaiveDateTime::parse_from_str(string, "%Y-%m-%dT%H:%M:%S")
        .unwrap()
        .timestamp() as u64
}

fn policy(interval: u64, count: u32) -> PeriodicRetentionPolicy {
    PeriodicRetentionPolicy { interval, count }
}

fn daily_and_weekly() -> [PeriodicRetentionPolicy; 2] {
    [policy(86400, 3), policy(86400 * 7, 6)]
}

/// Snapshots on each of the first 30 days of January 2020, at the given hours.
#[allow(deprecated)]
fn january(hours: &[u32]) -> BTreeMap<u64, ()> {
    let mut items = BTreeMap::new();
    for d in 1..31 {
        for &h in hours {
            let t = NaiveDateTime::new(NaiveDate::from_ymd(2020, 1, d), NaiveTime::from_hms(h, 0, 0));
            items.insert(t.timestamp() as u64, ());
        }
    }
    items
}

fn keys<T>(m: &BTreeMap<u64, T>) -> Vec<u64> {
    m.keys().copied().collect()
}

#[test]
fn test_keep_single() {
    let mut items = BTreeMap::new();
    items.insert(3, ());
    let RetentionResult { keep, drop } = apply(
        &[PeriodicRetentionPolicy {
            interval: 1,
            count: 1,
        }],
        items,
    );
    assert_eq!(drop.len(), 0);
    assert_eq!(keep.len(), 1);
    assert_eq!(keep.keys().next(), Some(&3u64));
}

#[test]
#[allow(deprecated)]
fn test_keep_multiple() {
    let mut items = BTreeMap::new();
    let times: Vec<NaiveTime> = (0..5).map(|n| NaiveTime::from_hms(n * 5, 0, 0)).collect();
    for d in 1..31 {
        for time in times.iter() {
            items.insert(
                NaiveDateTime::new(NaiveDate::from_ymd(2020, 01, d), *time).timestamp() as u64,
                (),
            );
        }
    }
    let len_before = items.len();
    let policies = [
        // daily snapshots for a week
        PeriodicRetentionPolicy {
            interval: 86400,
            count: 3,
        },
        // weekly snapshots for 6 weeks
        PeriodicRetentionPolicy {
            interval: 86400 * 7,
            count: 6,
        },
    ];
    let RetentionResult { keep, drop } = apply(&policies, items);
    assert_ne!(drop.len(), 0);
    assert_eq!(drop.len() + keep.len(), len_before);
    // Idempotency
    let RetentionResult {
        keep: mut items,
        drop,
    } = apply(&policies, keep);
    assert_eq!(drop.len(), 0);

    // We should only drop one snapshot if we get a slightly more recent one available
    items.insert(date("2020-01-31T20:30:00"), ());
    let RetentionResult {
        keep: mut items,
        drop,
    } = apply(&policies, items);
    assert_eq!(drop.len(), 1);

    // Now let's advance a bit more
    items.insert(date("2020-03-01T12:00:00"), ());
    let RetentionResult {
        keep: items,
        drop: _,
    } = apply(&policies, items);
    // There shouldn't be any retained by the daily policy, since
    // we're well beyond its timespan, but two or three from older weeks
    // plus the most recent one should be kept
    for &day in items.keys() {
        println!("{:?}", NaiveDateTime::from_timestamp(day as i64, 0));
    }
    assert!(3 <= items.len() && items.len() <= 4);
}

#[test]
fn single_entry_keeps_payload() {
    let mut items = BTreeMap::new();
    items.insert(3u64, "a".to_string());
    let RetentionResult { keep, drop } = apply(&[policy(1, 1)], items);
    assert_eq!(keep.len(), 1);
    assert_eq!(keep.get(&3), Some(&"a".to_string()));
    assert!(drop.is_empty());
}

#[test]
fn empty_input_gives_empty_halves() {
    let items: BTreeMap<u64, ()> = BTreeMap::new();
    let RetentionResult { keep, drop } = apply(&daily_and_weekly(), items);
    assert!(keep.is_empty());
    assert!(drop.is_empty());
}

#[test]
fn six_per_day_month_is_pruned_and_stable() {
    let items = january(&[0, 4, 8, 12, 16, 20]);
    assert_eq!(items.len(), 180);
    let policies = daily_and_weekly();
    let RetentionResult { keep, drop } = apply(&policies, items);
    assert_ne!(drop.len(), 0);
    assert_eq!(keep.len() + drop.len(), 180);
    assert_eq!(keep.len(), 8);
    let RetentionResult { keep: again, drop } = apply(&policies, keep.clone());
    assert!(drop.is_empty());
    assert_eq!(keys(&again), keys(&keep));
}

#[test]
fn newer_snapshot_supersedes_one_bucket_occupant() {
    let policies = daily_and_weekly();
    let RetentionResult { keep, .. } = apply(&policies, january(&[0, 4, 8, 12, 16, 20]));
    let latest = *keep.keys().next_back().unwrap();
    let mut items = keep.clone();
    // 20.5 hours after the newest retained snapshot.
    items.insert(latest + 73800, ());
    let RetentionResult { keep: after, drop } = apply(&policies, items);
    assert_eq!(drop.len(), 1);
    let gone = *drop.keys().next().unwrap();
    assert!(keep.contains_key(&gone));
    assert!(!after.contains_key(&gone));
    assert!(after.contains_key(&(latest + 73800)));
}

#[test]
fn month_later_leaves_anchor_and_weekly_survivors() {
    let policies = daily_and_weekly();
    let RetentionResult { keep, .. } = apply(&policies, january(&[0, 4, 8, 12, 16, 20]));
    let mut items = keep;
    items.insert(date("2020-01-31T20:30:00"), ());
    let RetentionResult { keep, .. } = apply(&policies, items);
    let mut items = keep;
    let newest = date("2020-03-01T12:00:00");
    items.insert(newest, ());
    let RetentionResult { keep, .. } = apply(&policies, items);
    assert_eq!(
        keys(&keep),
        vec![
            date("2020-01-23T00:00:00"),
            date("2020-01-30T00:00:00"),
            date("2020-01-31T20:30:00"),
            newest
        ]
    );
}

#[test]
fn newest_in_bucket_wins() {
    let mut items = BTreeMap::new();
    for t in [5u64, 7, 12, 25] {
        items.insert(t, t * 100);
    }
    let RetentionResult { keep, drop } = apply(&[policy(10, 2)], items);
    assert_eq!(keys(&keep), vec![7, 12, 25]);
    assert_eq!(keys(&drop), vec![5]);
    assert_eq!(keep.get(&7), Some(&700));
    assert_eq!(drop.get(&5), Some(&500));
}

#[test]
fn anchor_on_boundary_fills_its_own_bucket() {
    let mut items = BTreeMap::new();
    for t in [9u64, 15, 20] {
        items.insert(t, ());
    }
    // Buckets are (20, 30] and (10, 20]; the anchor 20 fills the second.
    let RetentionResult { keep, drop } = apply(&[policy(10, 1)], items);
    assert_eq!(keys(&keep), vec![20]);
    assert_eq!(keys(&drop), vec![9, 15]);
}

#[test]
fn buckets_before_the_epoch_are_empty() {
    let mut items = BTreeMap::new();
    items.insert(0u64, ());
    items.insert(1u64, ());
    let RetentionResult { keep, drop } = apply(&[policy(100, 5)], items);
    assert_eq!(keys(&keep), vec![0, 1]);
    assert!(drop.is_empty());
}

#[test]
fn timestamps_near_the_top_of_the_range() {
    let m = u64::MAX;
    let mut items = BTreeMap::new();
    for t in [m, m - 3, m - 10] {
        items.insert(t, ());
    }
    let RetentionResult { keep, drop } = apply(&[policy(7, 1)], items);
    assert_eq!(keys(&keep), vec![m - 3, m]);
    assert_eq!(keys(&drop), vec![m - 10]);
}

#[test]
fn zero_count_keeps_only_the_newest() {
    let items = january(&[0, 12]);
    let RetentionResult { keep, drop } = apply(&[policy(86400, 0), policy(3600, 0)], items);
    assert_eq!(keys(&keep), vec![date("2020-01-30T12:00:00")]);
    assert_eq!(drop.len(), 59);
}

#[test]
fn no_policies_keep_only_the_newest() {
    let items = january(&[6]);
    let RetentionResult { keep, drop } = apply(&[], items);
    assert_eq!(keys(&keep), vec![date("2020-01-30T06:00:00")]);
    assert_eq!(drop.len(), 29);
}

#[test]
fn halves_partition_the_input() {
    let mut items = BTreeMap::new();
    for t in 0u64..200 {
        items.insert(t * 37 + 11, t);
    }
    let original = items.clone();
    let RetentionResult { keep, drop } = apply(&[policy(50, 4), policy(500, 3)], items);
    assert_eq!(keep.len() + drop.len(), original.len());
    for (k, v) in keep.iter().chain(drop.iter()) {
        assert_eq!(original.get(k), Some(v));
    }
    for k in keep.keys() {
        assert!(!drop.contains_key(k));
    }
}

#[test]
fn newest_entry_always_kept() {
    let mut items = BTreeMap::new();
    for t in [100u64, 3, 999, 42] {
        items.insert(t, ());
    }
    let RetentionResult { keep, .. } = apply(&[policy(1, 0)], items);
    assert!(keep.contains_key(&999));
}

#[test]
fn kept_count_bounded_by_policy_counts() {
    let mut items = BTreeMap::new();
    for t in 0u64..1000 {
        items.insert(t * 13, ());
    }
    let policies = [policy(40, 3), policy(400, 2), policy(7, 5)];
    let RetentionResult { keep, .. } = apply(&policies, items);
    assert!(keep.len() <= 1 + 3 + 2 + 5);
    assert!(keep.len() >= 2);
}

#[test]
fn evaluating_kept_set_again_drops_nothing() {
    let mut items = BTreeMap::new();
    for t in 0u64..300 {
        items.insert(t * t, ());
    }
    let policies = [policy(1000, 6), policy(9000, 4)];
    let RetentionResult { keep, .. } = apply(&policies, items);
    let RetentionResult { keep: again, drop } = apply(&policies, keep.clone());
    assert!(drop.is_empty());
    assert_eq!(keys(&again), keys(&keep));
}
