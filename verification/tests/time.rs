use timehistory::time::{compute_abstime, Duration, Timespec};

fn at(tv_sec: i64, tv_nsec: i64) -> Timespec {
    Timespec { tv_sec, tv_nsec }
}

#[test]
fn deadline_after_the_timeout() {
    assert_eq!(
        compute_abstime(Some(at(100, 900_000_000)), Duration::from_millis(20)),
        at(100, 920_000_000)
    );
    assert_eq!(
        compute_abstime(Some(at(100, 900_000_000)), Duration::from_millis(250)),
        at(101, 150_000_000)
    );
    assert_eq!(
        compute_abstime(Some(at(5, 0)), Duration::from_secs(1)),
        at(6, 0)
    );
    // A full second of nanoseconds is not carried.
    assert_eq!(
        compute_abstime(Some(at(5, 500_000_000)), Duration::from_millis(500)),
        at(5, 1_000_000_000)
    );
}

#[test]
fn deadline_without_a_clock() {
    assert_eq!(compute_abstime(None, Duration::from_secs(10)), at(0, 0));
}

#[test]
fn deadline_at_the_end_of_time() {
    assert_eq!(
        compute_abstime(Some(at(i64::MAX, 999_999_999)), Duration::from_millis(1500)),
        at(i64::MAX, 499_999_999)
    );
    assert_eq!(
        compute_abstime(Some(at(1, 0)), Duration { secs: u64::MAX, nanos: 0 }),
        at(i64::MAX, 0)
    );
}

#[test]
fn durations() {
    assert_eq!(Duration::from_millis(1801), Duration { secs: 1, nanos: 801_000_000 });
    assert_eq!(Duration::from_millis(7_500_301).as_secs(), 7500);
    assert_eq!(Duration::from_millis(7_500_301).subsec_nanos(), 301_000_000);
    assert_eq!(Duration::from_secs(3), Duration { secs: 3, nanos: 0 });
}

#[test]
fn elapsed_time_between_readings() {
    assert_eq!(
        at(10, 100).checked_duration_since(&at(9, 999_999_999)),
        Some(Duration { secs: 0, nanos: 101 })
    );
    assert_eq!(
        at(10, 100).checked_duration_since(&at(10, 100)),
        Some(Duration { secs: 0, nanos: 0 })
    );
    assert_eq!(at(10, 100).checked_duration_since(&at(10, 101)), None);
    assert_eq!(
        at(i64::MAX, 0).checked_duration_since(&at(0, 0)),
        Some(Duration { secs: i64::MAX as u64, nanos: 0 })
    );
    assert_eq!(at(i64::MAX, 0).checked_duration_since(&at(i64::MIN, 0)),
        Some(Duration { secs: u64::MAX, nanos: 0 }));
    assert_eq!(at(i64::MAX, 1_000_000_000).checked_duration_since(&at(i64::MIN, 0)), None);
}
