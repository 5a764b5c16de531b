use vibeos::uart::{
    BAUD_115200_DIVISOR, COM1_BASE, LCR_8N1, LCR_DLAB, LSR_DR, LSR_THRE, REG_DATA, REG_FCR, REG_IER, REG_LCR,
    REG_LSR, REG_MCR,
};

#[test]
fn base_and_offsets_dont_alias() {
    // Guard against a copy-paste rename.
    assert_ne!(REG_DATA, REG_IER);
    assert_ne!(REG_LCR, REG_LSR);
    assert_ne!(REG_FCR, REG_MCR);
    assert_eq!(COM1_BASE, 0x3F8);
}

#[test]
fn dlab_bit_is_high() {
    assert_eq!(LCR_DLAB & 0x80, 0x80);
    assert_eq!(LCR_8N1 & 0x80, 0);
    assert_ne!(LSR_DR, LSR_THRE);
    assert_eq!(LSR_DR, 1);
}

#[test]
fn divisor_matches_115200() {
    // 1.8432 MHz / (16 * 115200) == 1
    assert_eq!(BAUD_115200_DIVISOR, 1);
}
