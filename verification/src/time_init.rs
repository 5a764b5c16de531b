//! Reading the wall clock from the CMOS RTC: the registers as the chip
//! gives them (BCD or binary, 12- or 24-hour) decoded into a civil date.
//! Reading the registers themselves is port I/O, left to the driver.

use vstd::prelude::*;
use crate::time::{bcd_to_bin, civil_in_range, civil_seconds, unix_from_civil};

verus! {

/// Status B: the registers hold binary, not BCD.
pub const RTC_DM_BINARY: u8 = 1 << 2;
/// Status B: the hour register counts 0 to 23.
pub const RTC_24H: u8 = 1 << 1;

/// One snapshot of the RTC registers.
#[derive(Clone, Copy, Debug, PartialEq, Eq)]
pub struct RtcRaw {
    pub sec: u8,
    pub min: u8,
    pub hour: u8,
    pub day: u8,
    pub month: u8,
    pub year: u8,
    pub century: u8,
    pub status_b: u8,
}

/// A register's value: as is in binary mode, else decoded from BCD.
pub open spec fn rtc_value(status_b: u8, v: u8) -> u8 {
    if status_b & RTC_DM_BINARY != 0 { v } else { ((v % 16) + (v / 16 % 16) * 10) as u8 }
}

/// The hour 0 to 23: in 12-hour mode bit 7 marks PM, 12 PM stays 12 and
/// 12 AM is 0.
pub open spec fn rtc_hour(status_b: u8, hour: u8) -> u8 {
    if status_b & RTC_24H == 0 {
        let pm = hour & 0x80 != 0;
        let h = rtc_value(status_b, hour & 0x7F);
        if pm && h != 12 {
            if h + 12 > u8::MAX { u8::MAX } else { (h + 12) as u8 }
        } else if !pm && h == 12 {
            0
        } else {
            h
        }
    } else {
        rtc_value(status_b, hour)
    }
}

/// The year: century register times 100 plus the year, when the century
/// reads 19 to 21; else the year in 2000.
pub open spec fn rtc_year(status_b: u8, century: u8, year: u8) -> i32 {
    let c = rtc_value(status_b, century);
    let y = rtc_value(status_b, year);
    if 19 <= c <= 21 { (c * 100 + y) as i32 } else { (2000 + y) as i32 }
}

fn cvt(status_b: u8, v: u8) -> (r: u8)
    ensures
        r == rtc_value(status_b, v),
{
    if status_b & RTC_DM_BINARY != 0 {
        v
    } else {
        bcd_to_bin(v)
    }
}

/// Decode a snapshot into (year, month, day, hour, minute, second).
pub fn rtc_decode(raw: RtcRaw) -> (r: Option<(i32, u8, u8, u8, u8, u8)>)
    ensures
        r == Some((
            rtc_year(raw.status_b, raw.century, raw.year),
            rtc_value(raw.status_b, raw.month),
            rtc_value(raw.status_b, raw.day),
            rtc_hour(raw.status_b, raw.hour),
            rtc_value(raw.status_b, raw.min),
            rtc_value(raw.status_b, raw.sec),
        )),
{
    let sec = cvt(raw.status_b, raw.sec);
    let min = cvt(raw.status_b, raw.min);
    let day = cvt(raw.status_b, raw.day);
    let month = cvt(raw.status_b, raw.month);
    let year_2 = cvt(raw.status_b, raw.year);
    let century = cvt(raw.status_b, raw.century);
    let mut hour = raw.hour;
    if raw.status_b & RTC_24H == 0 {
        let pm = hour & 0x80 != 0;
        hour = cvt(raw.status_b, hour & 0x7F);
        if pm && hour != 12 {
            hour = hour.saturating_add(12);
        } else if !pm && hour == 12 {
            hour = 0;
        }
    } else {
        hour = cvt(raw.status_b, hour);
    }
    let year = if century >= 19 && century <= 21 {
        century as i32 * 100 + year_2 as i32
    } else {
        2000 + year_2 as i32
    };
    Some((year, month, day, hour, min, sec))
}

/// Seconds since the epoch from two snapshots taken back to back: the
/// second wins, since an update may have landed between them.
pub fn rtc_unix(first: RtcRaw, second: RtcRaw) -> (r: Option<u64>)
    ensures
        ({
            let (y, mo, d, h, mi, s) = (
                rtc_year(second.status_b, second.century, second.year),
                rtc_value(second.status_b, second.month),
                rtc_value(second.status_b, second.day),
                rtc_hour(second.status_b, second.hour),
                rtc_value(second.status_b, second.min),
                rtc_value(second.status_b, second.sec),
            );
            r == (if civil_in_range(mo, d, h, mi, s) && 0 <= civil_seconds(y, mo, d, h, mi, s) <= u64::MAX {
                Some(civil_seconds(y, mo, d, h, mi, s) as u64)
            } else {
                None::<u64>
            })
        }),
{
    let civil = match rtc_decode(second) {
        Some(c) => c,
        None => match rtc_decode(first) {
            Some(c) => c,
            None => return None,
        },
    };
    unix_from_civil(civil.0, civil.1, civil.2, civil.3, civil.4, civil.5)
}

} // verus!
