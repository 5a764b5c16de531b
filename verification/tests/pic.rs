use vibeos::pic::{
    irq15_eoi, irq7_eoi, irq_port_bit, is_spurious_irq15, is_spurious_irq7, remap_writes, should_program, Eoi,
    IO_WAIT_PORT, MASTER_OFFSET, PIC1_DATA, PIC2_DATA, SLAVE_OFFSET,
};

#[test]
fn remap_plan_is_0x20_0x28_then_mask() {
    assert_eq!(MASTER_OFFSET, 0x20);
    assert_eq!(SLAVE_OFFSET, 0x28);
    let mut saw_master_off = false;
    let mut saw_slave_off = false;
    let mut last_pic: Option<(u16, u8)> = None;
    let mut masks = 0usize;
    let writes = remap_writes();
    for &(port, val) in writes.iter() {
        if port == PIC1_DATA && val == MASTER_OFFSET {
            saw_master_off = true;
        }
        if port == PIC2_DATA && val == SLAVE_OFFSET {
            saw_slave_off = true;
        }
        if port != IO_WAIT_PORT {
            last_pic = Some((port, val));
        } else {
            assert!(last_pic.is_some(), "io_wait with no preceding PIC write");
        }
        if (port == PIC1_DATA || port == PIC2_DATA) && val == 0xFF {
            masks += 1;
        }
    }
    assert!(saw_master_off && saw_slave_off);
    assert_eq!(masks, 2, "both PICs masked 0xFF at the end");
    // io_wait between ICWs: more wait pokes than ICW steps.
    let waits = writes.iter().filter(|(p, _)| *p == IO_WAIT_PORT).count();
    assert!(waits >= 8);
    let _ = last_pic;
}

#[test]
fn irq_port_split() {
    assert_eq!(irq_port_bit(0), Some((PIC1_DATA, 0)));
    assert_eq!(irq_port_bit(7), Some((PIC1_DATA, 7)));
    assert_eq!(irq_port_bit(8), Some((PIC2_DATA, 0)));
    assert_eq!(irq_port_bit(15), Some((PIC2_DATA, 7)));
    assert_eq!(irq_port_bit(16), None);
}

#[test]
fn spurious_irq7_skips_eoi() {
    assert_eq!(irq7_eoi(0x00), Eoi::Skip);
    assert_eq!(irq7_eoi(0x7F), Eoi::Skip);
    assert_eq!(irq7_eoi(0x80), Eoi::Master);
    assert_eq!(irq7_eoi(0xFF), Eoi::Master);
}

#[test]
fn spurious_irq15_eoi_master_only() {
    assert_eq!(irq15_eoi(0x00), Eoi::Master);
    assert_eq!(irq15_eoi(0x80), Eoi::SlaveThenMaster);
}

#[test]
fn fadt_skip_only_when_bit0_clear() {
    assert!(should_program(None));
    assert!(should_program(Some(true)));
    assert!(!should_program(Some(false)));
}

#[test]
fn spurious_checks_read_the_top_isr_bit() {
    assert!(is_spurious_irq7(0x7F));
    assert!(!is_spurious_irq7(0x80));
    assert!(is_spurious_irq15(0x00));
    assert!(!is_spurious_irq15(0x81));
    assert_eq!(remap_writes().len(), 19);
}
