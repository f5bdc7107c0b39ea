use syscall_core::syscall::process::TimeVal;
use syscall_core::timer::{get_time_ms, get_time_us};

#[test]
fn ticks_to_microseconds() {
    assert_eq!(get_time_us(0), 0);
    assert_eq!(get_time_us(12), 0);
    assert_eq!(get_time_us(13), 1);
    assert_eq!(get_time_us(25), 2);
    assert_eq!(get_time_us(12_500_000), 1_000_000);
    assert_eq!(get_time_us(12_500_001), 1_000_000);
    assert_eq!(get_time_us(31_250_000), 2_500_000);
}

#[test]
fn ticks_to_milliseconds() {
    assert_eq!(get_time_ms(0), 0);
    assert_eq!(get_time_ms(12_499), 0);
    assert_eq!(get_time_ms(12_500), 1);
    assert_eq!(get_time_ms(12_500_000), 1_000);
    assert_eq!(get_time_ms(18_750_000), 1_500);
}

#[test]
fn the_largest_tick_count_does_not_overflow() {
    let ticks = usize::MAX;
    let expected_us = (ticks as u128 * 1_000_000 / 12_500_000) as usize;
    let expected_ms = (ticks as u128 * 1_000 / 12_500_000) as usize;
    assert_eq!(get_time_us(ticks), expected_us);
    assert_eq!(get_time_ms(ticks), expected_ms);
}

#[test]
fn time_never_runs_backwards() {
    let readings = [0usize, 1, 12, 13, 12_499_999, 12_500_000, 12_500_013, 987_654_321];
    for pair in readings.windows(2) {
        let a = TimeVal::from_us(get_time_us(pair[0]));
        let b = TimeVal::from_us(get_time_us(pair[1]));
        assert!((a.sec, a.usec) <= (b.sec, b.usec));
        assert!(a.usec < 1_000_000 && b.usec < 1_000_000);
    }
}

#[test]
fn time_val_splits_seconds_and_microseconds() {
    assert_eq!(TimeVal::from_us(0), TimeVal { sec: 0, usec: 0 });
    assert_eq!(TimeVal::from_us(999_999), TimeVal { sec: 0, usec: 999_999 });
    assert_eq!(TimeVal::from_us(1_000_000), TimeVal { sec: 1, usec: 0 });
    assert_eq!(TimeVal::from_us(3_000_007), TimeVal { sec: 3, usec: 7 });
}

#[test]
fn time_val_bytes_are_two_words_low_byte_first() {
    let bytes = TimeVal { sec: 0x0102, usec: 999_999 }.to_bytes();
    assert_eq!(bytes.len(), 16);
    assert_eq!(&bytes[0..8], &[0x02, 0x01, 0, 0, 0, 0, 0, 0]);
    assert_eq!(&bytes[8..16], &[0x3f, 0x42, 0x0f, 0, 0, 0, 0, 0]);
}
