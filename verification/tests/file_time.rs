use std::time::{Duration, UNIX_EPOCH};

use gix_motor::file_time::FileTime;

#[test]
fn system_times_are_normalized_and_ordered() {
    let cases = [
        (UNIX_EPOCH - Duration::new(1, 1), -2, 999_999_999),
        (UNIX_EPOCH - Duration::from_secs(1), -1, 0),
        (UNIX_EPOCH - Duration::from_nanos(1), -1, 999_999_999),
        (UNIX_EPOCH, 0, 0),
        (UNIX_EPOCH + Duration::new(1, 42), 1, 42),
    ];
    let actual: Vec<_> = cases
        .iter()
        .map(|(time, seconds, nanoseconds)| {
            let timestamp = FileTime::from_system_time(*time);
            assert_eq!(timestamp.unix_seconds(), *seconds);
            assert_eq!(timestamp.nanoseconds(), *nanoseconds);
            timestamp
        })
        .collect();

    assert!(actual.windows(2).all(|pair| pair[0] < pair[1]));
}

#[test]
fn the_order_of_time_stamps_agrees_with_their_total_order() {
    let stamps: Vec<FileTime> = [
        UNIX_EPOCH - Duration::new(3, 5),
        UNIX_EPOCH - Duration::new(3, 4),
        UNIX_EPOCH + Duration::new(3, 4),
        UNIX_EPOCH + Duration::new(3, 5),
    ]
    .into_iter()
    .map(FileTime::from_system_time)
    .collect();
    for a in &stamps {
        for b in &stamps {
            assert_eq!(a.partial_cmp(b), Some(a.cmp(b)));
            assert_eq!(a == b, a.cmp(b).is_eq());
        }
    }
}

#[test]
fn the_clock_shows_a_time_in_range() {
    let now = FileTime::now().expect("the clock is in range");
    assert!(now.unix_seconds() > 1_600_000_000);
    assert!(now.nanoseconds() < 1_000_000_000);
}

#[test]
fn distances_before_and_after_the_epoch() {
    let time = FileTime::from_distance(true, i64::MAX as u64, 1);
    assert_eq!((time.unix_seconds(), time.nanoseconds()), (i64::MIN, 999_999_999));
    let time = FileTime::from_distance(false, i64::MAX as u64, 999_999_999);
    assert_eq!((time.unix_seconds(), time.nanoseconds()), (i64::MAX, 999_999_999));
    let time = FileTime::from_distance(true, 0, 0);
    assert_eq!((time.unix_seconds(), time.nanoseconds()), (0, 0));
}

#[test]
fn times_out_of_range_have_no_stamp() {
    let in_range = FileTime::try_from_system_time(UNIX_EPOCH + Duration::from_secs(5));
    assert_eq!(in_range.map(|time| time.unix_seconds()), Some(5));
    if let Some(lowest) = UNIX_EPOCH.checked_sub(Duration::from_secs(1 << 63)) {
        assert_eq!(FileTime::try_from_system_time(lowest), None);
    }
}
