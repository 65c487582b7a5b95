//! The time of day, as numbers and as text.

use jmapsyncd::clock::{
    epoch_secs_at, epoch_secs_now, iso_from_epoch_secs, iso_now, subsec_nanos_at, subsec_nanos_now,
    unix_at, unix_now,
};

#[test]
fn reading_is_taken_apart() {
    let reading = Some((1_700_000_000, 250_000_000));
    assert_eq!(epoch_secs_at(reading), 1_700_000_000);
    assert_eq!(unix_at(reading), 1_700_000_000);
    assert_eq!(subsec_nanos_at(reading), 250_000_000);
}

#[test]
fn clock_before_the_epoch_counts_as_zero() {
    assert_eq!(epoch_secs_at(None), 0);
    assert_eq!(unix_at(None), 0);
    assert_eq!(subsec_nanos_at(None), 0);
}

#[test]
fn seconds_beyond_what_a_row_holds_wrap() {
    assert_eq!(unix_at(Some((i64::MAX as u64, 0))), i64::MAX);
    assert_eq!(unix_at(Some((i64::MAX as u64 + 1, 0))), i64::MIN);
}

#[test]
fn present_is_shown_as_a_second() {
    let before = epoch_secs_now();
    let shown = iso_now();
    let after = epoch_secs_now();
    let read = chrono::DateTime::parse_from_rfc3339(&shown).unwrap();
    let secs = read.timestamp() as u64;
    assert!(before <= secs && secs <= after);
    assert_eq!(read.timestamp_subsec_nanos(), 0);
    assert_eq!(shown, iso_from_epoch_secs(secs));
}

#[test]
fn rows_and_records_go_by_one_clock() {
    let before = epoch_secs_now();
    let row = unix_now();
    let after = epoch_secs_now();
    assert!(before as i64 <= row && row <= after as i64);
    assert!(subsec_nanos_now() < 1_000_000_000);
}
