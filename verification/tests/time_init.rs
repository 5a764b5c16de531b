use vibeos::time_init::{rtc_decode, rtc_unix, RtcRaw, RTC_24H, RTC_DM_BINARY};

fn raw(sec: u8, min: u8, hour: u8, day: u8, month: u8, year: u8, century: u8, status_b: u8) -> RtcRaw {
    RtcRaw { sec, min, hour, day, month, year, century, status_b }
}

#[test]
fn bcd_24h_decodes() {
    let r = raw(0x59, 0x30, 0x23, 0x31, 0x12, 0x24, 0x20, RTC_24H);
    assert_eq!(rtc_decode(r), Some((2024, 12, 31, 23, 30, 59)));
}

#[test]
fn twelve_hour_pm_and_midnight() {
    assert_eq!(rtc_decode(raw(0, 0, 0x81, 1, 1, 0x25, 0x20, 0)).unwrap().3, 13);
    assert_eq!(rtc_decode(raw(0, 0, 0x92, 1, 1, 0x25, 0x20, 0)).unwrap().3, 12);
    assert_eq!(rtc_decode(raw(0, 0, 0x12, 1, 1, 0x25, 0x20, 0)).unwrap().3, 0);
    assert_eq!(rtc_decode(raw(0, 0, 0x11, 1, 1, 0x25, 0x20, 0)).unwrap().3, 11);
}

#[test]
fn binary_mode_and_bad_century() {
    let r = raw(5, 6, 7, 8, 9, 25, 0, RTC_DM_BINARY | RTC_24H);
    assert_eq!(rtc_decode(r), Some((2025, 9, 8, 7, 6, 5)));
    let r = raw(5, 6, 7, 8, 9, 99, 19, RTC_DM_BINARY | RTC_24H);
    assert_eq!(rtc_decode(r).unwrap().0, 1999);
}

#[test]
fn unix_time_from_the_second_snapshot() {
    let a = raw(0x59, 0x59, 0x23, 0x31, 0x12, 0x69, 0x19, RTC_24H);
    let b = raw(0x00, 0x00, 0x00, 0x01, 0x01, 0x70, 0x19, RTC_24H);
    assert_eq!(rtc_unix(a, b), Some(0));
    let c = raw(0x00, 0x00, 0x00, 0x01, 0x01, 0x00, 0x20, RTC_24H);
    assert_eq!(rtc_unix(b, c), Some(946_684_800));
    let bad = raw(0, 0, 0, 0, 1, 0x00, 0x20, RTC_24H);
    assert_eq!(rtc_unix(b, bad), None);
}
