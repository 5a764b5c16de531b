//! 16550 UART register offsets and the DLAB init recipe. The port I/O
//! lives in the kernel binary.

use vstd::prelude::*;

verus! {

pub const COM1_BASE: u16 = 0x3F8;

/// Offsets from base.
pub const REG_DATA: u16 = 0;
pub const REG_IER: u16 = 1;
pub const REG_FCR: u16 = 2;
pub const REG_LCR: u16 = 3;
pub const REG_MCR: u16 = 4;
pub const REG_LSR: u16 = 5;

/// DLAB overlays (when LCR bit 7 is set).
pub const REG_DLL: u16 = 0;
pub const REG_DLM: u16 = 1;

/// LSR bits.
pub const LSR_DR: u8 = 0x01;
pub const LSR_THRE: u8 = 0x20;

/// Divisor for 115200 baud (input clock 1.8432 MHz / 16 = 115200).
pub const BAUD_115200_DIVISOR: u16 = 1;

/// LCR: 8N1, DLAB clear.
pub const LCR_8N1: u8 = 0b0000_0011;
/// LCR: DLAB set + 8N1 (used briefly during divisor programming).
pub const LCR_DLAB: u8 = 0b1000_0011;

/// FCR: enable + clear RX/TX, 14-byte trigger.
pub const FCR_ENABLE: u8 = 0b1100_0111;

/// MCR: DTR, RTS, OUT2 (OUT2 gates the UART's IRQ into the PIC).
pub const MCR_READY: u8 = 0b0000_1011;

/// Iteration cap on the transmit-holding-register-empty poll: a dead
/// UART drops the byte instead of wedging the panic handler.
pub const TX_POLL_CAP: u32 = 100_000;

} // verus!
