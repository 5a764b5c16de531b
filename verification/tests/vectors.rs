use vibeos::vectors::{
    named, pushes_error_code, DEVICE_VEC_START, IPI_HALT, IPI_RESCHEDULE, IPI_SHOOTDOWN, IRQ_BASE, IRQ_KEYBOARD,
    IRQ_PIT, IRQ_SLAVE_BASE, IRQ_SPURIOUS_MASTER, IRQ_SPURIOUS_SLAVE, LAPIC_SPURIOUS,
};

#[test]
fn named_vectors_are_unique() {
    let all = named();
    for (i, (a, va)) in all.iter().enumerate() {
        for (b, vb) in all.iter().skip(i + 1) {
            assert_ne!(va, vb, "{a} and {b} both claimed vector {va:#x}");
        }
    }
}

#[test]
fn pic_and_exception_ranges_do_not_overlap() {
    assert!(IRQ_BASE >= 0x20);
    assert!(DEVICE_VEC_START > IRQ_SPURIOUS_SLAVE);
    assert_eq!(IRQ_SLAVE_BASE, IRQ_BASE + 8);
    assert_eq!(IRQ_SPURIOUS_MASTER, 0x27);
    assert_eq!(IRQ_SPURIOUS_SLAVE, 0x2F);
    assert_eq!(IRQ_PIT, IRQ_BASE);
    assert_eq!(IRQ_KEYBOARD, IRQ_BASE + 1);
}

#[test]
fn error_code_set_matches_sdm() {
    for v in 0u8..=31 {
        let want = matches!(v, 8 | 10 | 11 | 12 | 13 | 14 | 17 | 21 | 29 | 30);
        assert_eq!(pushes_error_code(v), want, "vec {v}");
    }
    assert!(!pushes_error_code(IRQ_PIT));
    assert!(!pushes_error_code(LAPIC_SPURIOUS));
}

#[test]
fn ipi_vectors_sit_in_the_high_block() {
    for &(_, v) in named().iter() {
        if v >= 0xFB {
            assert!(v >= 0xF0);
        }
    }
    assert_eq!(IPI_SHOOTDOWN, 0xFC);
    assert_eq!(IPI_RESCHEDULE, 0xFD);
    assert_eq!(IPI_HALT, 0xFE);
}
