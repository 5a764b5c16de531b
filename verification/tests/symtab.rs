use vibeos::symtab::{lookup, offset, Entry};

const T: &[Entry] = &[
    Entry { addr: 0x1000, name: "start" },
    Entry { addr: 0x1100, name: "mid" },
    Entry { addr: 0x2000, name: "end" },
];

#[test]
fn exact_and_interior() {
    assert_eq!(lookup(T, 0x1000).unwrap().name, "start");
    assert_eq!(lookup(T, 0x10FF).unwrap().name, "start");
    assert_eq!(lookup(T, 0x1100).unwrap().name, "mid");
    assert_eq!(lookup(T, 0x1FFF).unwrap().name, "mid");
    assert_eq!(lookup(T, 0x2000).unwrap().name, "end");
    assert_eq!(lookup(T, 0x2001).unwrap().name, "end");
    assert_eq!(offset(&T[1], 0x1105), 5);
}

#[test]
fn before_first_is_none() {
    assert!(lookup(T, 0x0FFF).is_none());
    assert!(lookup(&[], 0x1000).is_none());
}

#[test]
fn single_entry() {
    let t = [Entry { addr: 0x8000, name: "only" }];
    assert!(lookup(&t, 0x7FFF).is_none());
    assert_eq!(lookup(&t, 0x8000).unwrap().name, "only");
    assert_eq!(lookup(&t, 0x9000).unwrap().name, "only");
}

#[test]
fn offset_before_entry_is_zero() {
    assert_eq!(offset(&T[2], 0x1FFF), 0);
    assert_eq!(offset(&T[0], u64::MAX), u64::MAX - 0x1000);
}
