//! 8259 PIC constants and the remap write plan. Port I/O lives in the
//! kernel binary.

use vstd::prelude::*;

verus! {

pub const PIC1_CMD: u16 = 0x20;
pub const PIC1_DATA: u16 = 0x21;
pub const PIC2_CMD: u16 = 0xA0;
pub const PIC2_DATA: u16 = 0xA1;
pub const PIC_EOI: u8 = 0x20;
pub const OCW3_ISR: u8 = 0x0B;

pub const ICW1_INIT: u8 = 0x11;
pub const ICW4_8086: u8 = 0x01;
pub const MASTER_OFFSET: u8 = 0x20;
pub const SLAVE_OFFSET: u8 = 0x28;
/// Slave on IRQ2.
pub const MASTER_CASCADE: u8 = 0x04;
pub const SLAVE_ID: u8 = 0x02;
pub const IO_WAIT_PORT: u16 = 0x80;

pub const IRQ_COUNT: u8 = 16;
pub const IRQ7: u8 = 7;
pub const IRQ15: u8 = 15;

/// The ICW sequence then an immediate mask-all, as `(port, value)` pairs,
/// with an `io_wait` write to port `0x80` after every PIC write but the last.
pub open spec fn spec_remap_writes() -> Seq<(u16, u8)> {
    seq![
        (PIC1_CMD, ICW1_INIT), (IO_WAIT_PORT, 0u8),
        (PIC2_CMD, ICW1_INIT), (IO_WAIT_PORT, 0u8),
        (PIC1_DATA, MASTER_OFFSET), (IO_WAIT_PORT, 0u8),
        (PIC2_DATA, SLAVE_OFFSET), (IO_WAIT_PORT, 0u8),
        (PIC1_DATA, MASTER_CASCADE), (IO_WAIT_PORT, 0u8),
        (PIC2_DATA, SLAVE_ID), (IO_WAIT_PORT, 0u8),
        (PIC1_DATA, ICW4_8086), (IO_WAIT_PORT, 0u8),
        (PIC2_DATA, ICW4_8086), (IO_WAIT_PORT, 0u8),
        (PIC1_DATA, 0xFFu8), (IO_WAIT_PORT, 0u8),
        (PIC2_DATA, 0xFFu8),
    ]
}

/// The remap write plan.
pub fn remap_writes() -> (r: [(u16, u8); 19])
    ensures
        r@ == spec_remap_writes(),
{
    let r = [
        (PIC1_CMD, ICW1_INIT), (IO_WAIT_PORT, 0u8),
        (PIC2_CMD, ICW1_INIT), (IO_WAIT_PORT, 0u8),
        (PIC1_DATA, MASTER_OFFSET), (IO_WAIT_PORT, 0u8),
        (PIC2_DATA, SLAVE_OFFSET), (IO_WAIT_PORT, 0u8),
        (PIC1_DATA, MASTER_CASCADE), (IO_WAIT_PORT, 0u8),
        (PIC2_DATA, SLAVE_ID), (IO_WAIT_PORT, 0u8),
        (PIC1_DATA, ICW4_8086), (IO_WAIT_PORT, 0u8),
        (PIC2_DATA, ICW4_8086), (IO_WAIT_PORT, 0u8),
        (PIC1_DATA, 0xFFu8), (IO_WAIT_PORT, 0u8),
        (PIC2_DATA, 0xFFu8),
    ];
    assert(r@ =~= spec_remap_writes());
    r
}

/// The data port and bit that mask `irq`; `None` past IRQ 15.
pub fn irq_port_bit(irq: u8) -> (r: Option<(u16, u8)>)
    ensures
        irq < 8 ==> r == Some((PIC1_DATA, irq)),
        8 <= irq < 16 ==> r == Some((PIC2_DATA, (irq - 8) as u8)),
        irq >= 16 ==> r is None,
{
    if irq < 8 {
        Some((PIC1_DATA, irq))
    } else if irq < 16 {
        Some((PIC2_DATA, irq - 8))
    } else {
        None
    }
}

/// Bit 7 of a byte is clear exactly below 0x80.
proof fn lemma_top_bit(x: u8)
    by (bit_vector)
    ensures
        (x & 0x80 == 0) == (x < 0x80),
{
}

/// ISR bit 7 clear means the IRQ7 delivery was spurious.
pub fn is_spurious_irq7(master_isr: u8) -> (r: bool)
    ensures
        r == (master_isr < 0x80),
{
    proof {
        lemma_top_bit(master_isr);
    }
    master_isr & 0x80 == 0
}

/// ISR bit 7 clear means the IRQ15 delivery was spurious.
pub fn is_spurious_irq15(slave_isr: u8) -> (r: bool)
    ensures
        r == (slave_isr < 0x80),
{
    proof {
        lemma_top_bit(slave_isr);
    }
    slave_isr & 0x80 == 0
}

/// What EOI a spurious/real IRQ7/15 needs.
#[derive(Clone, Copy, Debug, PartialEq, Eq, Structural)]
pub enum Eoi {
    Skip,
    Master,
    SlaveThenMaster,
}

/// A spurious IRQ7 gets no EOI; a real one gets the master's.
pub fn irq7_eoi(master_isr: u8) -> (r: Eoi)
    ensures
        r == (if master_isr < 0x80 { Eoi::Skip } else { Eoi::Master }),
{
    if is_spurious_irq7(master_isr) {
        Eoi::Skip
    } else {
        Eoi::Master
    }
}

/// A spurious IRQ15 still ACKs the master's cascade; a real one both.
pub fn irq15_eoi(slave_isr: u8) -> (r: Eoi)
    ensures
        r == (if slave_isr < 0x80 { Eoi::Master } else { Eoi::SlaveThenMaster }),
{
    if is_spurious_irq15(slave_isr) {
        Eoi::Master
    } else {
        Eoi::SlaveThenMaster
    }
}

/// FADT `iapc_boot_arch` bit 0. `None` (no FADT) means program the PIC.
pub fn should_program(legacy_8259: Option<bool>) -> (r: bool)
    ensures
        r == (match legacy_8259 {
            Some(present) => present,
            None => true,
        }),
{
    match legacy_8259 {
        Some(present) => present,
        None => true,
    }
}

} // verus!
