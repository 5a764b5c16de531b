use vibeos::time::{
    bcd_to_bin, hpet_period_ok, interpolate_ns, interpolate_us, next_deadline, pit_ch0_writes, seq_snapshot_ok,
    tsc_per_ms_from_hpet,
    tsc_per_ms_from_pit, tsc_per_ms_sane, unix_from_civil, wall_unix_s, CalibSource, Instant, WallOrigin,
    IO_WAIT_PORT, PIT_CALIB_COUNT, PIT_CH0, PIT_CMD, PIT_CMD_CH0_MODE2, PIT_DIVISOR, PIT_HZ, PIT_TICK_HZ, TICK_NS,
};

#[test]
fn pit_divisor_is_1khz() {
    assert_eq!(PIT_HZ / PIT_DIVISOR as u64, PIT_TICK_HZ);
    assert_eq!(PIT_CALIB_COUNT, 11_932);
    let w = pit_ch0_writes();
    assert_eq!(w[0], (PIT_CMD, PIT_CMD_CH0_MODE2));
    assert_eq!(w[1], (PIT_CH0, 1193u16 as u8));
    assert_eq!(w[2], (IO_WAIT_PORT, 0));
    assert_eq!(w[3], (PIT_CH0, (1193u16 >> 8) as u8));
}

#[test]
fn interpolate_zero_and_exact_ms() {
    let k = 2_500_000;
    assert_eq!(interpolate_us(0, 100, 100, k), 0);
    assert_eq!(interpolate_us(5, 0, 0, k), 5_000);
    assert_eq!(interpolate_us(5, 0, k, k), 6_000);
    assert_eq!(interpolate_ns(5, 0, k, k), 6_000_000);
    assert_eq!(interpolate_us(1, 0, 0, 0), 1_000);
}

#[test]
fn interpolate_near_u64_max() {
    let k = 1_000_000;
    let tick = u64::MAX / 1000;
    let us = interpolate_us(tick, 0, 0, k);
    assert_eq!(us, tick.saturating_mul(1000));
    assert_eq!(interpolate_us(u64::MAX, 0, 0, k), u64::MAX);
    assert_eq!(interpolate_ns(u64::MAX, 0, 0, k), u64::MAX);
    // wrapping TSC across u64::MAX: one tick of delta
    assert_eq!(interpolate_us(0, u64::MAX, 0, 1000), 1);
}

#[test]
fn hpet_and_pit_calib_math() {
    // 10 ms of 10 ns HPET ticks = 1_000_000 counts, 2.5 GHz TSC.
    let tsc = 2_500_000 * 10;
    assert_eq!(tsc_per_ms_from_hpet(tsc, 1_000_000, 10_000_000), Some(2_500_000));
    assert_eq!(tsc_per_ms_from_hpet(tsc, 0, 10_000_000), None);
    assert_eq!(tsc_per_ms_from_hpet(tsc, 1_000_000, 0), None);
    assert_eq!(tsc_per_ms_from_hpet(100, 1_000_000, 10_000_000), None); // too small
    let v = tsc_per_ms_from_pit(2_500_000 * 10, PIT_CALIB_COUNT).unwrap();
    assert!((2_490_000..=2_510_000).contains(&v), "{v}");
    assert!(!tsc_per_ms_sane(0));
    assert!(!tsc_per_ms_sane(1));
    assert!(!tsc_per_ms_sane(u64::MAX));
    assert!(tsc_per_ms_sane(1_000_000));
}

#[test]
fn next_deadline_is_1ms_ahead() {
    let a = Instant { ns: 0 };
    assert_eq!(next_deadline(a).ns, TICK_NS);
    let b = Instant { ns: u64::MAX - 10 };
    assert_eq!(next_deadline(b).ns, u64::MAX);
}

#[test]
fn unix_civil_epoch_and_known_day() {
    assert_eq!(unix_from_civil(1970, 1, 1, 0, 0, 0), Some(0));
    assert_eq!(unix_from_civil(2000, 1, 1, 0, 0, 0), Some(946_684_800));
    assert_eq!(unix_from_civil(2026, 9, 17, 5, 6, 0), Some(1_789_621_560));
    assert_eq!(unix_from_civil(1970, 13, 1, 0, 0, 0), None);
    assert_eq!(bcd_to_bin(0x59), 59);
    assert_eq!(bcd_to_bin(0x00), 0);
}

#[test]
fn wall_tracks_monotonic_offset() {
    let origin = WallOrigin { unix_s: 1_000, mono_ns: 5_000_000_000 };
    assert_eq!(wall_unix_s(origin, 5_000_000_000), 1_000);
    assert_eq!(wall_unix_s(origin, 8_000_000_000), 1_003);
}

#[test]
fn calib_source_names() {
    assert_eq!(CalibSource::Hpet.as_str(), "hpet");
    assert_eq!(CalibSource::Pit.as_str(), "pit");
}

#[test]
fn hpet_period_bounds() {
    assert!(hpet_period_ok(10_000_000));
    assert!(!hpet_period_ok(0));
    assert!(!hpet_period_ok(100_000_001));
    assert_eq!(unix_from_civil(1969, 12, 31, 23, 59, 59), None);
    assert_eq!(unix_from_civil(2024, 2, 29, 12, 0, 0), Some(1_709_208_000));
}

#[test]
fn seq_snapshot_needs_even_and_unchanged_count() {
    assert!(seq_snapshot_ok(4, 4));
    assert!(!seq_snapshot_ok(5, 5));
    assert!(!seq_snapshot_ok(4, 6));
    assert!(!seq_snapshot_ok(0, 1));
}

#[test]
fn earliest_years_are_before_the_epoch() {
    assert_eq!(unix_from_civil(i32::MIN + 400, 1, 1, 0, 0, 0), None);
    assert_eq!(unix_from_civil(i32::MIN + 399, 3, 1, 0, 0, 0), None);
    assert_eq!(unix_from_civil(1970, 1, 1, 0, 0, 1), Some(1));
}
