use vibeos::smp::{
    blob_fits, pack_idtr, INIT_WAIT_MS, PARAM_CR3, PARAM_ENTRY, PARAM_IDT, PARAM_IDT_LEN, PARAM_OFF, PARAM_STACK,
    READY_TIMEOUT_MS, SIPI_VECTOR, SIPI_WAIT_MS, TRAMPOLINE_PHYS,
};

#[test]
fn trampoline_page_and_sipi_vector() {
    assert_eq!(TRAMPOLINE_PHYS, 0x8000);
    assert_eq!(SIPI_VECTOR, 0x08);
    assert_eq!((SIPI_VECTOR as u64) << 12, TRAMPOLINE_PHYS);
    assert_eq!(TRAMPOLINE_PHYS % 4096, 0);
    assert!(TRAMPOLINE_PHYS < 0x100000);
}

#[test]
fn param_block_offsets() {
    assert_eq!(PARAM_CR3, 0xD0);
    assert_eq!(PARAM_STACK, 0xD8);
    assert_eq!(PARAM_ENTRY, 0xE0);
    assert_eq!(PARAM_IDT, 0xE8);
    assert_eq!(PARAM_IDT_LEN, 10);
    assert!(blob_fits(PARAM_OFF));
    assert!(!blob_fits(PARAM_OFF + 1));
    assert!(blob_fits(0));
    assert!(blob_fits(0xD0));
}

#[test]
fn idtr_pack_limit_then_base() {
    let b = pack_idtr(0x0FFF, 0xFFFF_8000_1234_5678);
    assert_eq!(u16::from_le_bytes([b[0], b[1]]), 0x0FFF);
    let mut base = [0u8; 8];
    base.copy_from_slice(&b[2..10]);
    assert_eq!(u64::from_le_bytes(base), 0xFFFF_8000_1234_5678);
}

#[test]
fn bringup_delays() {
    assert_eq!(INIT_WAIT_MS, 10);
    assert_eq!(SIPI_WAIT_MS, 1);
    assert_eq!(READY_TIMEOUT_MS, 3000);
}
