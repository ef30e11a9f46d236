use pc_health_cleaner::clock::{minutes_since, whole_minutes_between};

#[test]
fn whole_minutes_round_toward_zero() {
    assert_eq!(whole_minutes_between((0, 0), (3600, 0)), 60);
    assert_eq!(whole_minutes_between((0, 0), (119, 999_999_999)), 1);
    assert_eq!(whole_minutes_between((100, 500_000_000), (40, 0)), -1);
    assert_eq!(whole_minutes_between((3600, 0), (0, 0)), -60);
    assert_eq!(whole_minutes_between((-86_400, 0), (0, 0)), 1440);
}

#[test]
fn a_leap_second_counts_as_its_minute() {
    // 00:00:59 plus a leap second, then one second and a half later
    assert_eq!(whole_minutes_between((59, 1_500_000_000), (60, 0)), 0);
    assert_eq!(whole_minutes_between((59, 1_500_000_000), (120, 0)), 1);
}

#[test]
fn minutes_since_a_stored_stamp() {
    assert_eq!(minutes_since("not a time"), None);
    let now = chrono::Local::now().to_rfc3339();
    assert_eq!(minutes_since(&now), Some(0));
    let hour_ago = (chrono::Local::now() - chrono::Duration::minutes(61)).to_rfc3339();
    let m = minutes_since(&hour_ago).unwrap();
    assert!(m == 61 || m == 62);
    assert!(minutes_since("2000-01-01T00:00:00+00:00").unwrap() > 12_000_000);
}
