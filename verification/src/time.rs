//! Timekeeping arithmetic and PIT/TSC constants.
//!
//! Interpolation, calibration math, deadline math, the wall-clock offset
//! and the civil-date conversion. Port I/O, HPET MMIO, the IRQ0 handler
//! and the seqlock reader loop live in the kernel binary.

use vstd::prelude::*;

verus! {

/// PIT input frequency in Hz.
pub const PIT_HZ: u64 = 1_193_182;
/// Target bootstrap tick rate. Divisor is 1193.
pub const PIT_TICK_HZ: u64 = 1_000;
pub const PIT_DIVISOR: u16 = 1193;
/// Channel 2 count for a ~10 ms calibration window.
pub const PIT_CALIB_COUNT: u16 = 11_932;
pub const PIT_CALIB_MS: u64 = 10;

pub const PIT_CH0: u16 = 0x40;
pub const PIT_CH2: u16 = 0x42;
pub const PIT_CMD: u16 = 0x43;
/// Speaker / channel 2 gate. Bit 0 gates ch2, bit 5 is the OUT pin.
pub const PIT_GATE: u16 = 0x61;
pub const IO_WAIT_PORT: u16 = 0x80;

/// Channel 0, lobyte/hibyte, mode 2 (rate generator), binary.
pub const PIT_CMD_CH0_MODE2: u8 = 0x34;
/// Channel 2, lobyte/hibyte, mode 0 (one-shot), binary.
pub const PIT_CMD_CH2_ONESHOT: u8 = 0xB0;

/// Femtoseconds in one millisecond.
pub const FS_PER_MS: u128 = 1_000_000_000_000;
/// HPET period must be in (1 ns, 100 ns] per the spec's 100 ns cap.
pub const HPET_PERIOD_FS_MIN: u32 = 1_000_000;
pub const HPET_PERIOD_FS_MAX: u32 = 100_000_000;

/// Refuse a calibration that would poison every delay. 50 MHz .. 10 GHz.
pub const TSC_PER_MS_MIN: u64 = 50_000;
pub const TSC_PER_MS_MAX: u64 = 10_000_000;

/// Bootstrap tick period. `next_deadline` uses this so tickless can
/// replace it later without rewriting callers.
pub const TICK_NS: u64 = 1_000_000;

/// Channel 0 program, as `(port, value)` writes: command, low byte of the
/// divisor, an I/O wait, high byte.
pub fn pit_ch0_writes() -> (r: [(u16, u8); 4])
    ensures
        r@ == seq![
            (PIT_CMD, PIT_CMD_CH0_MODE2),
            (PIT_CH0, (PIT_DIVISOR % 256) as u8),
            (IO_WAIT_PORT, 0u8),
            (PIT_CH0, (PIT_DIVISOR / 256) as u8),
        ],
{
    let lo: u8 = (PIT_DIVISOR % 256) as u8;
    let hi: u8 = (PIT_DIVISOR / 256) as u8;
    let r = [(PIT_CMD, PIT_CMD_CH0_MODE2), (PIT_CH0, lo), (IO_WAIT_PORT, 0u8), (PIT_CH0, hi)];
    assert(r@ =~= seq![
        (PIT_CMD, PIT_CMD_CH0_MODE2),
        (PIT_CH0, (PIT_DIVISOR % 256) as u8),
        (IO_WAIT_PORT, 0u8),
        (PIT_CH0, (PIT_DIVISOR / 256) as u8),
    ]);
    r
}

#[derive(Clone, Copy, Debug, PartialEq, Eq, Structural)]
pub enum CalibSource {
    Hpet,
    Pit,
}

impl CalibSource {
    pub fn as_str(self) -> (r: &'static str)
        ensures
            r@ == (match self {
                CalibSource::Hpet => "hpet"@,
                CalibSource::Pit => "pit"@,
            }),
    {
        match self {
            CalibSource::Hpet => "hpet",
            CalibSource::Pit => "pit",
        }
    }
}

/// A point in monotonic time, in nanoseconds.
#[derive(Clone, Copy, Debug, PartialEq, Eq, Structural, PartialOrd, Ord)]
pub struct Instant {
    pub ns: u64,
}

/// `a + b`, or `u64::MAX` when that does not fit.
pub open spec fn sat_add(a: int, b: int) -> int {
    if a + b > u64::MAX { u64::MAX as int } else { a + b }
}

/// `v`, or `u64::MAX` when that does not fit.
pub open spec fn clamp(v: int) -> int {
    if v > u64::MAX { u64::MAX as int } else { v }
}

/// Next deadline after `now`: one tick ahead, saturating.
pub fn next_deadline(now: Instant) -> (r: Instant)
    ensures
        r.ns == sat_add(now.ns as int, TICK_NS as int),
{
    Instant { ns: now.ns.saturating_add(TICK_NS) }
}

pub fn hpet_period_ok(period_fs: u32) -> (r: bool)
    ensures
        r == (HPET_PERIOD_FS_MIN <= period_fs <= HPET_PERIOD_FS_MAX),
{
    period_fs >= HPET_PERIOD_FS_MIN && period_fs <= HPET_PERIOD_FS_MAX
}

pub fn tsc_per_ms_sane(v: u64) -> (r: bool)
    ensures
        r == (TSC_PER_MS_MIN <= v <= TSC_PER_MS_MAX),
{
    v >= TSC_PER_MS_MIN && v <= TSC_PER_MS_MAX
}

/// `a * b`, or `u128::MAX` when that does not fit.
fn sat_mul_u128(a: u128, b: u128) -> (r: u128)
    ensures
        r == (if a * b > u128::MAX { u128::MAX as int } else { a * b }),
{
    if a == 0 {
        return 0;
    }
    if b > u128::MAX / a {
        proof {
            assert(a * b > u128::MAX) by (nonlinear_arith)
                requires
                    a > 0,
                    b > u128::MAX / a,
            ;
        }
        u128::MAX
    } else {
        proof {
            assert(a * b <= u128::MAX) by (nonlinear_arith)
                requires
                    a > 0,
                    b <= u128::MAX / a,
            ;
        }
        a * b
    }
}

/// TSC ticks per millisecond measured over `hpet_delta` HPET ticks of
/// `period_fs` femtoseconds, as the spec functions below compute it.
pub open spec fn hpet_rate(tsc_delta: u64, hpet_delta: u64, period_fs: u32) -> int {
    let num = if tsc_delta * FS_PER_MS > u128::MAX { u128::MAX as int } else { tsc_delta * FS_PER_MS };
    num / (hpet_delta * period_fs)
}

/// `tsc_delta` over `hpet_delta` ticks of `period_fs`. `None` if any
/// input is zero, the period is out of range, or the result is not sane.
pub fn tsc_per_ms_from_hpet(tsc_delta: u64, hpet_delta: u64, period_fs: u32) -> (r: Option<u64>)
    ensures
        (tsc_delta == 0 || hpet_delta == 0 || !(HPET_PERIOD_FS_MIN <= period_fs <= HPET_PERIOD_FS_MAX))
            ==> r.is_none(),
        (tsc_delta != 0 && hpet_delta != 0 && HPET_PERIOD_FS_MIN <= period_fs <= HPET_PERIOD_FS_MAX)
            ==> r == (if TSC_PER_MS_MIN <= hpet_rate(tsc_delta, hpet_delta, period_fs) <= TSC_PER_MS_MAX {
                Some(hpet_rate(tsc_delta, hpet_delta, period_fs) as u64)
            } else {
                None
            }),
{
    if tsc_delta == 0 || hpet_delta == 0 || !hpet_period_ok(period_fs) {
        return None;
    }
    proof {
        assert((hpet_delta as int) * (period_fs as int) <= u64::MAX * u32::MAX) by (nonlinear_arith)
            requires
                hpet_delta <= u64::MAX,
                period_fs <= u32::MAX,
        ;
        assert((hpet_delta as int) * (period_fs as int) > 0) by (nonlinear_arith)
            requires
                hpet_delta > 0,
                period_fs > 0,
        ;
    }
    let elapsed_fs: u128 = hpet_delta as u128 * period_fs as u128;
    let v: u128 = sat_mul_u128(tsc_delta as u128, FS_PER_MS) / elapsed_fs;
    if v > u64::MAX as u128 {
        return None;
    }
    let v64 = v as u64;
    if tsc_per_ms_sane(v64) {
        Some(v64)
    } else {
        None
    }
}

/// TSC ticks per millisecond measured over a PIT one-shot of `count` ticks.
pub open spec fn pit_rate(tsc_delta: u64, count: u16) -> int {
    (tsc_delta * PIT_HZ) / (count * 1000)
}

/// `tsc_delta` over a PIT channel 2 one-shot of `count` ticks. `None` if
/// either is zero or the result is not sane.
pub fn tsc_per_ms_from_pit(tsc_delta: u64, count: u16) -> (r: Option<u64>)
    ensures
        (tsc_delta == 0 || count == 0) ==> r.is_none(),
        (tsc_delta != 0 && count != 0) ==> r == (if TSC_PER_MS_MIN <= pit_rate(tsc_delta, count) <= TSC_PER_MS_MAX {
            Some(pit_rate(tsc_delta, count) as u64)
        } else {
            None
        }),
{
    if tsc_delta == 0 || count == 0 {
        return None;
    }
    proof {
        assert((tsc_delta as int) * (PIT_HZ as int) <= u64::MAX * PIT_HZ) by (nonlinear_arith)
            requires
                tsc_delta <= u64::MAX,
        ;
        assert((count as int) * 1000 > 0) by (nonlinear_arith)
            requires
                count > 0,
        ;
    }
    let num: u128 = tsc_delta as u128 * PIT_HZ as u128;
    let den: u128 = count as u128 * 1000;
    let v: u128 = num / den;
    if v > u64::MAX as u128 {
        return None;
    }
    let v64 = v as u64;
    if tsc_per_ms_sane(v64) {
        Some(v64)
    } else {
        None
    }
}

/// Tick milliseconds scaled by `per_ms`, plus the TSC ticks since the tick
/// scaled the same way, saturating at `u64::MAX`. The TSC delta wraps.
pub open spec fn interpolated(tick_ms: u64, tsc_at_tick: u64, tsc_now: u64, tsc_per_ms: u64, per_ms: int) -> int {
    let base = if tick_ms * per_ms > u128::MAX { u128::MAX as int } else { tick_ms * per_ms };
    let delta = if tsc_now >= tsc_at_tick { tsc_now - tsc_at_tick } else { tsc_now - tsc_at_tick + 0x1_0000_0000_0000_0000 };
    if tsc_per_ms == 0 {
        clamp(base)
    } else {
        let extra = (if delta * per_ms > u128::MAX { u128::MAX as int } else { delta * per_ms }) / (tsc_per_ms as int);
        clamp(if base + extra > u128::MAX { u128::MAX as int } else { base + extra })
    }
}

/// A seqlock read of the tick clock is consistent when the sequence count
/// read before the payload was even (no writer inside) and the count read
/// after it is the same (no writer came and went).
pub fn seq_snapshot_ok(s1: u64, s2: u64) -> (r: bool)
    ensures
        r == (s1 % 2 == 0 && s1 == s2),
{
    s1 % 2 == 0 && s1 == s2
}

/// Tick milliseconds plus TSC interpolation since that tick, in
/// microseconds. Wrapping TSC delta; saturates at `u64::MAX`.
pub fn interpolate_us(tick_ms: u64, tsc_at_tick: u64, tsc_now: u64, tsc_per_ms: u64) -> (r: u64)
    ensures
        r == interpolated(tick_ms, tsc_at_tick, tsc_now, tsc_per_ms, 1_000),
{
    interpolate(tick_ms, tsc_at_tick, tsc_now, tsc_per_ms, 1_000)
}

/// Same as [`interpolate_us`], in nanoseconds.
pub fn interpolate_ns(tick_ms: u64, tsc_at_tick: u64, tsc_now: u64, tsc_per_ms: u64) -> (r: u64)
    ensures
        r == interpolated(tick_ms, tsc_at_tick, tsc_now, tsc_per_ms, 1_000_000),
{
    interpolate(tick_ms, tsc_at_tick, tsc_now, tsc_per_ms, 1_000_000)
}

fn interpolate(tick_ms: u64, tsc_at_tick: u64, tsc_now: u64, tsc_per_ms: u64, per_ms: u128) -> (r: u64)
    ensures
        r == interpolated(tick_ms, tsc_at_tick, tsc_now, tsc_per_ms, per_ms as int),
{
    let base = sat_mul_u128(tick_ms as u128, per_ms);
    if tsc_per_ms == 0 {
        return clamp_u64(base);
    }
    let delta: u128 = tsc_now.wrapping_sub(tsc_at_tick) as u128;
    let extra = sat_mul_u128(delta, per_ms) / tsc_per_ms as u128;
    let sum = if base > u128::MAX - extra { u128::MAX } else { base + extra };
    clamp_u64(sum)
}

fn clamp_u64(v: u128) -> (r: u64)
    ensures
        r == clamp(v as int),
{
    if v > u64::MAX as u128 {
        u64::MAX
    } else {
        v as u64
    }
}

/// Wall clock = RTC unix seconds at boot plus monotonic elapsed.
#[derive(Clone, Copy, Debug, PartialEq, Eq, Structural)]
pub struct WallOrigin {
    pub unix_s: u64,
    pub mono_ns: u64,
}

/// Unix seconds at monotonic `now_ns`: the origin plus whole seconds
/// elapsed since it (none before it), saturating.
pub fn wall_unix_s(origin: WallOrigin, now_ns: u64) -> (r: u64)
    ensures
        r == sat_add(
            origin.unix_s as int,
            (if now_ns >= origin.mono_ns { now_ns - origin.mono_ns } else { 0 }) / 1_000_000_000,
        ),
{
    let elapsed = now_ns.saturating_sub(origin.mono_ns) / 1_000_000_000;
    origin.unix_s.saturating_add(elapsed)
}

/// Days from 1970-01-01 to the civil date `(y, m, d)` of the proleptic
/// Gregorian calendar: years counted from March, in 400-year eras.
pub open spec fn civil_days(y: int, m: int, d: int) -> int {
    let y2 = if m <= 2 { y - 1 } else { y };
    let era = y2 / 400;
    let yoe = y2 - era * 400;
    let mp = if m > 2 { m - 3 } else { m + 9 };
    let doy = (153 * mp + 2) / 5 + d - 1;
    let doe = yoe * 365 + yoe / 4 - yoe / 100 + doy;
    era * 146097 + doe - 719468
}

/// `y` is a Gregorian leap year.
pub open spec fn is_leap(y: int) -> bool {
    y % 4 == 0 && (y % 100 != 0 || y % 400 == 0)
}

/// Days in month `m` of year `y` of the Gregorian calendar.
pub open spec fn month_days(y: int, m: int) -> int {
    if m == 2 {
        if is_leap(y) { 29 } else { 28 }
    } else if m == 4 || m == 6 || m == 9 || m == 11 {
        30
    } else {
        31
    }
}

/// The day after `(y, m, d)`: the next day of the month, else the first
/// of the next month, else New Year's Day.
pub open spec fn next_day(y: int, m: int, d: int) -> (int, int, int) {
    if d < month_days(y, m) {
        (y, m, d + 1)
    } else if m < 12 {
        (y, m + 1, 1)
    } else {
        (y + 1, 1, 1)
    }
}

/// Days from the start of the year from March `y` to that of year 0.
spec fn march_year_start(y: int) -> int {
    let era = y / 400;
    let yoe = y - era * 400;
    era * 146097 + yoe * 365 + yoe / 4 - yoe / 100
}

/// A March-based year is 366 days long when the February that ends it
/// has 29 days, and 365 otherwise.
proof fn lemma_march_year_len(y: int)
    ensures
        march_year_start(y + 1) - march_year_start(y) == if is_leap(y + 1) { 366int } else { 365int },
{
    let e0 = y / 400;
    let r0 = y - e0 * 400;
    let e1 = (y + 1) / 400;
    let r1 = (y + 1) - e1 * 400;
    assert(0 <= r0 < 400);
    if r0 == 399 {
        assert(e1 == e0 + 1 && r1 == 0);
        assert((y + 1) % 400 == 0);
    } else {
        assert(e1 == e0 && r1 == r0 + 1);
        assert((y + 1) % 4 == r1 % 4);
        assert((y + 1) % 100 == r1 % 100);
        assert((y + 1) % 400 == r1);
    }
}

/// `civil_days` counts days one by one: the day after any date of the
/// Gregorian calendar is one day later, across month and year ends and
/// leap days alike.
pub proof fn lemma_civil_days_consecutive(y: int, m: int, d: int)
    requires
        1 <= m <= 12,
        1 <= d <= month_days(y, m),
    ensures
        civil_days(next_day(y, m, d).0, next_day(y, m, d).1, next_day(y, m, d).2) == civil_days(y, m, d) + 1,
{
    if d == month_days(y, m) {
        if m == 2 {
            lemma_march_year_len(y - 1);
            assert(civil_days(y, 3, 1) == march_year_start(y) - 719468);
            assert(civil_days(y, 2, d) == march_year_start(y - 1) + 337 + d - 1 - 719468);
        } else if m == 1 {
            assert(civil_days(y, 2, 1) == march_year_start(y - 1) + 337 - 719468);
            assert(civil_days(y, 1, 31) == march_year_start(y - 1) + 306 + 30 - 719468);
        } else if m == 12 {
            assert(civil_days(y + 1, 1, 1) == march_year_start(y) + 306 - 719468);
            assert(civil_days(y, 12, 31) == march_year_start(y) + 275 + 30 - 719468);
        } else {
            assert(civil_days(y, m + 1, 1) - civil_days(y, m, d) == (153 * (m - 2) + 2) / 5 - (153 * (m - 3) + 2) / 5
                - d + 1);
            if m == 3 {
            } else if m == 4 {
            } else if m == 5 {
            } else if m == 6 {
            } else if m == 7 {
            } else if m == 8 {
            } else if m == 9 {
            } else if m == 10 {
            } else {
            }
        }
    }
}

/// The epoch is day zero: `civil_days(1970, 1, 1) == 0`.
pub proof fn lemma_civil_days_epoch()
    ensures
        civil_days(1970, 1, 1) == 0,
{
}

/// A date and time within the ranges the RTC can report.
pub open spec fn civil_in_range(month: u8, day: u8, hour: u8, min: u8, sec: u8) -> bool {
    1 <= month <= 12 && 1 <= day <= 31 && hour <= 23 && min <= 59 && sec <= 60
}

/// Seconds since the epoch for a civil date and time.
pub open spec fn civil_seconds(year: i32, month: u8, day: u8, hour: u8, min: u8, sec: u8) -> int {
    civil_days(year as int, month as int, day as int) * 86400 + hour * 3600 + min * 60 + sec
}

/// Days from civil date, then unix seconds. `None` for an out-of-range
/// field or a moment before the epoch.
pub fn unix_from_civil(year: i32, month: u8, day: u8, hour: u8, min: u8, sec: u8) -> (r: Option<u64>)
    requires
        civil_in_range(month, day, hour, min, sec) ==> year >= (if month <= 2 {
            i32::MIN + 400
        } else {
            i32::MIN + 399
        }),
    ensures
        !civil_in_range(month, day, hour, min, sec) ==> r.is_none(),
        civil_in_range(month, day, hour, min, sec) ==> r == (if 0 <= civil_seconds(year, month, day, hour, min, sec) <= u64::MAX {
            Some(civil_seconds(year, month, day, hour, min, sec) as u64)
        } else {
            None
        }),
{
    if month < 1 || month > 12 || day == 0 || day > 31 || hour > 23 || min > 59 || sec > 60 {
        return None;
    }
    let days = days_from_civil(year, month as i32, day as i32);
    proof {
        assert(-70_000_000_000_000_000 <= days * 86400 <= 70_000_000_000_000_000) by (nonlinear_arith)
            requires
                -800_000_000_000 <= days <= 800_000_000_000,
        ;
    }
    let secs: i64 = days * 86400 + hour as i64 * 3600 + min as i64 * 60 + sec as i64;
    if secs < 0 {
        None
    } else {
        Some(secs as u64)
    }
}

fn days_from_civil(y: i32, m: i32, d: i32) -> (r: i64)
    requires
        y >= (if m <= 2 {
            i32::MIN + 400
        } else {
            i32::MIN + 399
        }),
        1 <= m <= 12,
        1 <= d <= 31,
    ensures
        r == civil_days(y as int, m as int, d as int),
        -800_000_000_000 <= r <= 800_000_000_000,
{
    let y2: i64 = if m <= 2 { y as i64 - 1 } else { y as i64 };
    let era: i64 = if y2 >= 0 { y2 / 400 } else { (y2 - 399) / 400 };
    proof {
        lemma_floor_div_400(y2 as int);
    }
    assert(era == y2 as int / 400);
    let yoe: i64 = y2 - era * 400;
    let mp: i64 = if m > 2 { m as i64 - 3 } else { m as i64 + 9 };
    let doy: i64 = (153 * mp + 2) / 5 + d as i64 - 1;
    let doe: i64 = yoe * 365 + yoe / 4 - yoe / 100 + doy;
    proof {
        assert(-6_000_000 <= era <= 6_000_000);
        assert(-1_000_000_000_000 <= era * 146097 <= 1_000_000_000_000) by (nonlinear_arith)
            requires
                -6_000_000 <= era <= 6_000_000,
        ;
    }
    era * 146097 + doe - 719468
}

/// Rust's truncating `(y - 399) / 400` for negative `y` is the floor of `y / 400`.
proof fn lemma_floor_div_400(y: int)
    requires
        i32::MIN - 1 <= y <= i32::MAX,
    ensures
        y >= 0 ==> y / 400 == y / 400,
        y < 0 ==> -((399 - y) / 400) == y / 400,
{
    if y < 0 {
        let q = y / 400;
        let r = y % 400;
        assert(y == 400 * q + r && 0 <= r < 400);
        assert((399 - y) / 400 == -q) by (nonlinear_arith)
            requires
                y == 400 * q + r,
                0 <= r < 400,
        ;
    }
}

/// Two binary-coded decimal digits.
pub fn bcd_to_bin(v: u8) -> (r: u8)
    ensures
        r == (v % 16) + (v / 16 % 16) * 10,
{
    assert((v & 0x0F) == v % 16 && ((v >> 4) & 0x0F) == v / 16 % 16) by (bit_vector);
    (v & 0x0F) + ((v >> 4) & 0x0F) * 10
}

} // verus!
