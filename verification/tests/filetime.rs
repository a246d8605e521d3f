use std::time::{Duration, SystemTime};

use pk2::filetime::{MS_EPOCH, RESOLUTION_SCALE};
use pk2::FILETIME;

#[test]
fn test_convert_roundtrip() {
    let now = SystemTime::now();
    let ftime = FILETIME::from_system_time(now);
    let round_trip = ftime.into_systime().unwrap();
    assert_eq!(
        now.duration_since(SystemTime::UNIX_EPOCH)
            .as_ref()
            .map(Duration::as_nanos)
            .map(|nanos| nanos / RESOLUTION_SCALE as u128)
            .unwrap(),
        round_trip
            .duration_since(SystemTime::UNIX_EPOCH)
            .as_ref()
            .map(Duration::as_nanos)
            .map(|nanos| nanos / RESOLUTION_SCALE as u128)
            .unwrap()
    );
}

#[test]
fn default_is_the_unix_epoch() {
    let ft = FILETIME::default();
    assert_eq!(ft.tick_count(), MS_EPOCH);
    assert_eq!(ft.dwLowDateTime, MS_EPOCH as u32);
    assert_eq!(ft.dwHighDateTime, (MS_EPOCH >> 32) as u32);
    assert_eq!(ft.unix_nanos(), Some(0));
    assert_eq!(ft.into_systime(), Some(SystemTime::UNIX_EPOCH));
}

#[test]
fn unix_nanos_roundtrip_drops_below_100ns() {
    let ft = FILETIME::from_unix_nanos(1_234_567_899);
    assert_eq!(ft.tick_count(), 12_345_678 + MS_EPOCH);
    assert_eq!(ft.unix_nanos(), Some(1_234_567_800));
}

#[test]
fn before_epoch_has_no_system_time() {
    let ft = FILETIME::from_tick_count(MS_EPOCH - 1);
    assert_eq!(ft.unix_nanos(), None);
    assert_eq!(ft.into_systime(), None);
}

#[test]
fn tick_count_splits_into_halves() {
    let ft = FILETIME::from_tick_count(0x0123_4567_89AB_CDEF);
    assert_eq!(ft.dwLowDateTime, 0x89AB_CDEF);
    assert_eq!(ft.dwHighDateTime, 0x0123_4567);
    assert_eq!(ft.tick_count(), 0x0123_4567_89AB_CDEF);
}

#[test]
fn now_is_after_the_epoch() {
    assert!(FILETIME::now().tick_count() > MS_EPOCH);
}

#[test]
fn system_time_conversion_matches_nanos() {
    let t = SystemTime::UNIX_EPOCH + Duration::from_nanos(5_000_000_050);
    let ft = FILETIME::from_system_time(t);
    assert_eq!(ft.tick_count(), 50_000_000 + MS_EPOCH);
}

#[test]
fn clock_reading_conversions() {
    assert_eq!(FILETIME::from_clock_reading(None).tick_count(), MS_EPOCH);
    assert_eq!(FILETIME::from_clock_reading(Some(1_234)).tick_count(), MS_EPOCH + 12);
    assert_eq!(FILETIME::from_clock_reading(Some(u128::MAX)).tick_count(), MS_EPOCH);
}

#[test]
fn try_from_system_time_checks_the_range() {
    let t = SystemTime::UNIX_EPOCH + Duration::from_nanos(250);
    assert_eq!(FILETIME::try_from_system_time(t).map(|f| f.tick_count()), Some(MS_EPOCH + 2));
    let before = SystemTime::UNIX_EPOCH - Duration::from_secs(1);
    assert_eq!(FILETIME::try_from_system_time(before), None);
}

#[test]
fn into_systime_gives_the_elapsed_nanoseconds() {
    let ft = FILETIME::from_tick_count(MS_EPOCH + 7);
    assert_eq!(ft.into_systime(), Some(SystemTime::UNIX_EPOCH + Duration::from_nanos(700)));
}
