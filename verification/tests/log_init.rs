use vibeos::log::{Level, Logger, Record, MSG_CAP, RING_CAP};
use vibeos::log_init::{
    capture_serial, compile_max, contains_msg, dmesg_write, dump_tail, record_at, ring_len, write_record, Stage,
};

fn logger() -> Logger<RING_CAP, MSG_CAP> {
    Logger::new()
}

fn text(v: &[u8]) -> String {
    String::from_utf8(v.to_vec()).unwrap()
}

#[test]
fn serial_capture_assembles_lines() {
    let mut st = Stage::new();
    let lines = capture_serial(&mut st, b"vibeOS: a\r\nvib", false, false, Level::Info);
    assert_eq!(lines, vec![b"vibeOS: a".to_vec()]);
    let lines = capture_serial(&mut st, b"eOS: b\n\n", false, false, Level::Info);
    assert_eq!(lines, vec![b"vibeOS: b".to_vec()]);
    assert!(capture_serial(&mut st, b"x\n", true, false, Level::Info).is_empty());
    assert!(capture_serial(&mut st, b"x\n", false, true, Level::Info).is_empty());
    assert!(capture_serial(&mut st, b"x\n", false, false, Level::Warn).is_empty());
}

#[test]
fn serial_capture_drops_bytes_past_the_record() {
    let mut st = Stage::new();
    let long = vec![b'a'; MSG_CAP + 10];
    assert!(capture_serial(&mut st, &long, false, false, Level::Info).is_empty());
    let lines = capture_serial(&mut st, b"b\n", false, false, Level::Info);
    assert_eq!(lines.len(), 1);
    assert_eq!(lines[0], vec![b'a'; MSG_CAP]);
}

#[test]
fn ring_search_and_access() {
    let mut log = logger();
    assert!(log.emit(Record::from_msg(5, 1, Level::Info, b"vibeOS: pmm: 42 free")));
    assert!(log.emit(Record::from_msg(6, 0, Level::Warn, b"disk slow")));
    assert_eq!(ring_len(&log), 2);
    assert!(contains_msg(&log, "pmm: 42"));
    assert!(contains_msg(&log, "slow"));
    assert!(contains_msg(&log, ""));
    assert!(!contains_msg(&log, "pmm: 43"));
    assert_eq!(record_at(&log, 1).map(|r| r.timestamp), Some(6));
    assert!(record_at(&log, 2).is_none());
    assert_eq!(compile_max(), Level::Trace);
}

#[test]
fn dmesg_lines_filter_by_view() {
    let mut log = logger();
    log.emit(Record::from_msg(12, 1, Level::Info, b"hello"));
    log.emit(Record::from_msg(13, 0, Level::Error, b"boom"));
    log.filter.set(Level::Trace);
    log.emit(Record::from_msg(14, 2, Level::Debug, b"noise"));
    assert_eq!(
        text(&dmesg_write(&log, None, Level::Info, true)),
        "vibeOS: dmesg: 12ms cpu1 info hello\nvibeOS: dmesg: 13ms cpu0 error boom\n"
    );
    assert_eq!(
        text(&dmesg_write(&log, Some(Level::Error), Level::Trace, false)),
        "vibeOS: dmesg: 13tsc cpu0 error boom\n"
    );
    assert_eq!(text(&dmesg_write(&log, Some(Level::Trace), Level::Info, true)).lines().count(), 3);
    let r = Record::<MSG_CAP>::from_msg(7, 3, Level::Warn, &[0xFF, 0xFE]);
    assert_eq!(text(&write_record(&r, true)), "vibeOS: dmesg: 7ms cpu3 warn <bin>\n");
}

#[test]
fn dump_tail_shows_the_newest() {
    let mut log = logger();
    for i in 0..20u64 {
        log.emit(Record::from_msg(i, 0, Level::Info, format!("m{i}").as_bytes()));
    }
    let out = text(&dump_tail(&log, 2, true));
    assert_eq!(
        out,
        "vibeOS: log: last 2 (0 dropped)\nvibeOS: logrec: 18ms cpu0 info m18\nvibeOS: logrec: 19ms cpu0 info m19\n"
    );
    let all = text(&dump_tail(&log, 0, true));
    assert!(all.starts_with("vibeOS: log: last 16 (0 dropped)\n"));
    assert_eq!(all.lines().count(), 17);
}

#[test]
fn staging_does_not_depend_on_chunking() {
    let mut one = Stage::new();
    let all = capture_serial(&mut one, b"ab\r\ncd\n\nef", false, false, Level::Info);
    let mut two = Stage::new();
    let mut parts = Vec::new();
    for chunk in [&b"a"[..], b"b\r", b"\ncd", b"\n", b"\nef"] {
        parts.extend(capture_serial(&mut two, chunk, false, false, Level::Info));
    }
    assert_eq!(all, parts);
    assert_eq!(all, vec![b"ab".to_vec(), b"cd".to_vec()]);
    let rest_one = capture_serial(&mut one, b"\n", false, false, Level::Info);
    let rest_two = capture_serial(&mut two, b"\n", false, false, Level::Info);
    assert_eq!(rest_one, rest_two);
    assert_eq!(rest_one, vec![b"ef".to_vec()]);
}
