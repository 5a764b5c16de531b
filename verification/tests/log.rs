use vibeos::log::{allowed, Filter, Level, Logger, Record, Ring, COMPILE_MAX};

fn rec(ts: u64, lvl: Level, msg: &str) -> Record<8> {
    Record::from_msg(ts, 0, lvl, msg.as_bytes())
}

fn texts(recs: &[Record<8>]) -> Vec<String> {
    recs.iter().map(|x| x.msg_str().to_string()).collect()
}

#[test]
fn levels_are_ordered_by_severity() {
    assert!(Level::Error < Level::Warn);
    assert!(Level::Warn < Level::Info);
    assert!(Level::Info < Level::Debug);
    assert!(Level::Debug < Level::Trace);
    assert_eq!(Level::from_u8(2), Some(Level::Info));
    assert_eq!(Level::from_u8(9), None);
    assert_eq!(Level::Error.as_str(), "error");
    assert_eq!(Level::Trace.as_str(), "trace");
    assert_eq!(Level::from_name("debug"), Some(Level::Debug));
    assert_eq!(Level::from_name("3"), Some(Level::Debug));
    assert_eq!(Level::from_name("nope"), None);
}

#[test]
fn filter_hides_above_runtime_max() {
    let mut f = Filter::new(Level::Info);
    assert!(f.allows(Level::Error));
    assert!(f.allows(Level::Info));
    assert!(!f.allows(Level::Debug));
    f.set(Level::Trace);
    assert!(f.allows(Level::Debug));
    f.set(Level::Error);
    assert!(f.allows(Level::Error));
    assert!(!f.allows(Level::Warn));
}

#[test]
fn wrap_drops_oldest() {
    let mut r: Ring<4, 8> = Ring::new();
    r.push(rec(1, Level::Info, "a"));
    r.push(rec(2, Level::Info, "b"));
    r.push(rec(3, Level::Info, "c"));
    r.push(rec(4, Level::Info, "d"));
    assert_eq!(r.len(), 4);
    assert_eq!(r.dropped(), 0);
    r.push(rec(5, Level::Info, "e"));
    assert_eq!(r.len(), 4);
    assert_eq!(r.dropped(), 1);
    assert_eq!(texts(&r.iter()), ["b", "c", "d", "e"]);
    r.push(rec(6, Level::Info, "f"));
    assert_eq!(texts(&r.iter()), ["c", "d", "e", "f"]);
    assert_eq!(r.dropped(), 2);
    assert_eq!(r.written(), 6);
}

#[test]
fn last_n_is_newest() {
    let mut r: Ring<4, 8> = Ring::new();
    for (i, m) in ["a", "b", "c", "d", "e"].iter().enumerate() {
        r.push(rec(i as u64, Level::Info, m));
    }
    assert_eq!(texts(&r.last_n(3)), ["c", "d", "e"]);
    assert_eq!(texts(&r.last_n(99)), ["b", "c", "d", "e"]);
}

#[test]
fn emit_and_dmesg_honor_runtime_filter() {
    let mut log: Logger<8, 8> = Logger::new();
    assert!(log.emit(rec(1, Level::Info, "boot")));
    assert!(!log.emit(rec(2, Level::Debug, "dbg")));
    assert_eq!(log.ring.len(), 1);
    log.filter.set(Level::Debug);
    assert!(log.emit(rec(3, Level::Debug, "dbg")));
    assert_eq!(log.ring.len(), 2);
    // dmesg at Info hides the debug record still in the ring
    assert_eq!(texts(&log.visible(Level::Info)), ["boot"]);
    assert_eq!(texts(&log.visible(Level::Debug)), ["boot", "dbg"]);
    log.filter.set(Level::Error);
    assert!(!log.emit(rec(4, Level::Warn, "w")));
    assert_eq!(log.ring.len(), 2);
}

#[test]
fn truncates_long_messages() {
    let r = Record::<4>::from_msg(0, 1, Level::Warn, b"hello");
    assert_eq!(r.msg(), b"hell");
    assert_eq!(r.cpu_id, 1);
    assert_eq!(r.level, Level::Warn);
}

#[test]
fn empty_ring_iterates_nothing() {
    let r: Ring<4, 8> = Ring::new();
    assert_eq!(r.iter().len(), 0);
    assert_eq!(r.last_n(4).len(), 0);
    assert!(r.get(0).is_none());
}

#[test]
fn compile_max_is_at_least_info() {
    assert!(COMPILE_MAX >= Level::Info);
    assert!(allowed(Level::Info, Level::Info, COMPILE_MAX));
}

#[test]
fn non_utf8_message_reads_as_bin() {
    let r = Record::<4>::from_msg(0, 0, Level::Info, &[0xFF, 0xFE]);
    assert_eq!(r.msg_str(), "<bin>");
    assert_eq!(r.msg(), &[0xFF, 0xFE]);
}

#[test]
fn level_numbers_roundtrip() {
    for v in 0..5u8 {
        assert_eq!(Level::from_u8(v).unwrap().as_u8(), v);
    }
    assert_eq!(Level::from_name("warn"), Some(Level::Warn));
}

#[test]
fn short_message_leaves_a_zero_tail() {
    let r = Record::<8>::from_msg(7, 2, Level::Warn, b"hi");
    assert_eq!(r.msg(), b"hi");
    assert!(r.msg[2..].iter().all(|&b| b == 0));
}

#[test]
fn emit_counts_only_what_it_stores() {
    let mut lg: Logger<2, 8> = Logger::new();
    assert!(!lg.emit(rec(1, Level::Debug, "quiet")));
    assert_eq!(lg.ring.written(), 0);
    assert_eq!(lg.ring.dropped(), 0);
    assert!(lg.emit(rec(2, Level::Info, "a")));
    assert!(lg.emit(rec(3, Level::Info, "b")));
    assert!(lg.emit(rec(4, Level::Error, "c")));
    assert_eq!(lg.ring.written(), 3);
    assert_eq!(lg.ring.dropped(), 1);
    let mut none: Logger<0, 8> = Logger::new();
    assert!(none.emit(rec(5, Level::Info, "x")));
    assert_eq!(none.ring.written(), 0);
    assert_eq!(none.ring.len(), 0);
}
