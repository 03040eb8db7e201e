//! Ages at the edge of each bucket, and the clock.

use padloper::timefmt::{clock_reading, relative_time, unix_now};

// One case per bucket edge. The boundaries are where an off-by-one in a divisor shows up.
#[test]
fn each_bucket_boundary_formats_as_expected() {
    assert_eq!(relative_time(1000, 1000), "now");
    assert_eq!(relative_time(1000, 941), "now");
    assert_eq!(relative_time(1000, 940), "1m");
    assert_eq!(relative_time(3600, 0), "1h");
    assert_eq!(relative_time(86400, 0), "1d");
    assert_eq!(relative_time(7 * 86400, 0), "1w");
    assert_eq!(relative_time(30 * 86400, 0), "1mo");
    assert_eq!(relative_time(365 * 86400, 0), "1y");
    assert_eq!(relative_time(2 * 365 * 86400, 0), "2y");
}

#[test]
fn a_timestamp_ahead_of_the_clock_reads_as_now() {
    assert_eq!(relative_time(100, 500), "now");
}

#[test]
fn the_last_second_of_each_bucket_stays_in_it() {
    assert_eq!(relative_time(59, 0), "now");
    assert_eq!(relative_time(3599, 0), "59m");
    assert_eq!(relative_time(86399, 0), "23h");
    assert_eq!(relative_time(7 * 86400 - 1, 0), "6d");
    assert_eq!(relative_time(30 * 86400 - 1, 0), "4w");
    assert_eq!(relative_time(365 * 86400 - 1, 0), "12mo");
}

#[test]
fn the_farthest_times_have_an_age() {
    assert_eq!(relative_time(i64::MIN, i64::MAX), "now");
    assert_eq!(relative_time(i64::MAX, i64::MIN), "584942417355y");
}

#[test]
fn a_clock_before_the_epoch_reads_as_zero() {
    assert_eq!(clock_reading(None), 0);
    assert_eq!(clock_reading(Some(1_700_000_000)), 1_700_000_000);
}

#[test]
fn a_clock_past_the_last_second_reads_as_the_last_second() {
    assert_eq!(clock_reading(Some(9_223_372_036_854_775_807)), i64::MAX);
    assert_eq!(clock_reading(Some(9_223_372_036_854_775_808)), i64::MAX);
    assert_eq!(clock_reading(Some(u64::MAX)), i64::MAX);
}

// Any machine that runs this has a clock past the day the line was written.
#[test]
fn the_clock_is_read() {
    assert!(unix_now() > 1_700_000_000);
}
