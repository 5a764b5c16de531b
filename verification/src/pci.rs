//! PCI config encoding, BAR decode, cap walk, bus scan.
//!
//! No port I/O and no MMIO: the kernel supplies [`CfgIo`], reached
//! through [`Traced`], which keeps every access in a ghost log. Each
//! function's contract names the exact accesses it makes and states its
//! result as what the values they carried decode to. Host tests drive a
//! fake config space.

use vstd::prelude::*;
use vstd::string::StringSliceAdditionalSpecFns;

verus! {

/// Type-1 config address via `0xCF8`. Enable bit set. `offset` is aligned
/// down to a dword; the low two bits are zero.
pub fn cf8_addr(bus: u8, dev: u8, func: u8, offset: u16) -> (r: u32)
    ensures
        r == 0x8000_0000u32 | ((bus as u32) << 16u32) | (((dev as u32) & 0x1F) << 11u32)
            | (((func as u32) & 0x7) << 8u32) | ((offset as u32) & 0xFC),
{
    0x8000_0000u32 | ((bus as u32) << 16u32) | (((dev as u32) & 0x1F) << 11u32) | (((func as u32) & 0x7) << 8u32)
        | ((offset as u32) & 0xFC)
}

/// Byte offset into an ECAM window for one function:
/// `addr = base + ecam_off(bus - start_bus, ...)`.
pub fn ecam_off(bus_rel: u8, dev: u8, func: u8, offset: u16) -> (r: u64)
    ensures
        r == ((bus_rel as u64) << 20u64) | (((dev as u64) & 0x1F) << 15u64) | (((func as u64) & 0x7) << 12u64)
            | ((offset as u64) & 0xFFF),
        r == bus_rel * 0x10_0000 + (dev % 32) * 0x8000 + (func % 8) * 0x1000 + offset % 0x1000,
{
    let r = ((bus_rel as u64) << 20u64) | (((dev as u64) & 0x1F) << 15u64) | (((func as u64) & 0x7) << 12u64)
        | ((offset as u64) & 0xFFF);
    let b = bus_rel as u64;
    let d = dev as u64;
    let f = func as u64;
    let o = offset as u64;
    assert(r == b * 0x10_0000 + (d % 32) * 0x8000 + (f % 8) * 0x1000 + o % 0x1000) by (bit_vector)
        requires
            r == (b << 20u64) | ((d & 0x1F) << 15u64) | ((f & 0x7) << 12u64) | (o & 0xFFF),
            b < 256,
            d < 256,
            f < 256,
            o < 0x1_0000,
    ;
    r
}

/// Physical ECAM address, or `None` if `bus` is outside the window.
pub fn ecam_phys(base: u64, start_bus: u8, end_bus: u8, bus: u8, dev: u8, func: u8, offset: u16) -> (r: Option<u64>)
    ensures
        (bus < start_bus || bus > end_bus) ==> r is None,
        !(bus < start_bus || bus > end_bus) ==> r == Some(
            ((base + (bus - start_bus) * 0x10_0000 + (dev % 32) * 0x8000 + (func % 8) * 0x1000
                + offset % 0x1000) % 0x1_0000_0000_0000_0000) as u64,
        ),
{
    if bus < start_bus || bus > end_bus {
        return None;
    }
    Some(base.wrapping_add(ecam_off(bus - start_bus, dev, func, offset)))
}

pub const CFG_VENDOR: u16 = 0x00;
pub const CFG_DEVICE: u16 = 0x02;
pub const CFG_COMMAND: u16 = 0x04;
pub const CFG_STATUS: u16 = 0x06;
pub const CFG_REVID_CLASS: u16 = 0x08;
pub const CFG_HEADER_TYPE: u16 = 0x0E;
pub const CFG_BAR0: u16 = 0x10;
pub const CFG_CAP_PTR: u16 = 0x34;
pub const CFG_IRQ_LINE: u16 = 0x3C;
pub const CFG_IRQ_PIN: u16 = 0x3D;
pub const CFG_SEC_BUS: u16 = 0x19;

pub const CMD_IO: u16 = 0x1;
pub const CMD_MEM: u16 = 0x2;
pub const CMD_MASTER: u16 = 0x4;

pub const STATUS_CAPS: u16 = 0x10;

pub const HEADER_MULTI: u8 = 0x80;
pub const HEADER_TYPE_MASK: u8 = 0x7F;
pub const HEADER_DEVICE: u8 = 0x00;
pub const HEADER_BRIDGE: u8 = 0x01;
pub const HEADER_CARDBUS: u8 = 0x02;

pub const CAP_PM: u8 = 0x01;
pub const CAP_MSI: u8 = 0x05;
pub const CAP_VENDOR: u8 = 0x09;
pub const CAP_PCIE: u8 = 0x10;
pub const CAP_MSIX: u8 = 0x11;

pub const INVALID_VENDOR: u16 = 0xFFFF;

/// Cap on mapping a memory BAR at boot. Bigger sizes are recorded but
/// not page-walked. 32 MiB covers QEMU VGA (16 MiB) and the usual NIC
/// MMIO without eating the 256 MiB ioremap window.
pub const MAX_BAR_MAP: u64 = 32 * 1024 * 1024;

pub const MAX_BARS: usize = 6;
pub const MAX_SCAN: usize = 64;
pub const MAX_CAP_WALK: usize = 48;

#[derive(Clone, Copy, Debug, PartialEq, Eq, Structural)]
pub struct Bdf {
    pub segment: u16,
    pub bus: u8,
    pub device: u8,
    pub function: u8,
}

/// The ASCII hex digit for `d < 16`.
pub open spec fn hex_digit(d: u8) -> u8 {
    if d < 10 { (0x30 + d) as u8 } else { (0x61 + d - 10) as u8 }
}

/// Two lower-case hex digits of `v`.
pub open spec fn hex2(v: u8) -> Seq<u8> {
    seq![hex_digit(v / 16), hex_digit(v % 16)]
}

/// Four lower-case hex digits of `v`.
pub open spec fn hex4(v: u16) -> Seq<u8> {
    hex2((v / 256) as u8) + hex2((v % 256) as u8)
}

/// Decimal digits of `v`, no leading zeros.
pub open spec fn dec(v: nat) -> Seq<u8>
    decreases v,
{
    if v < 10 {
        seq![(0x30 + v) as u8]
    } else {
        dec(v / 10).push((0x30 + v % 10) as u8)
    }
}

fn hex_digit_exec(d: u8) -> (r: u8)
    requires
        d < 16,
    ensures
        r == hex_digit(d),
{
    if d < 10 { 0x30 + d } else { 0x61 + d - 10 }
}

fn push_hex2(out: &mut Vec<u8>, v: u8)
    ensures
        final(out)@ == old(out)@ + hex2(v),
{
    out.push(hex_digit_exec(v / 16));
    out.push(hex_digit_exec(v % 16));
    assert(out@ =~= old(out)@ + hex2(v));
}

fn push_hex4(out: &mut Vec<u8>, v: u16)
    ensures
        final(out)@ == old(out)@ + hex4(v),
{
    push_hex2(out, (v / 256) as u8);
    push_hex2(out, (v % 256) as u8);
    assert(out@ =~= old(out)@ + hex4(v));
}

fn push_dec(out: &mut Vec<u8>, v: u8)
    ensures
        final(out)@ == old(out)@ + dec(v as nat),
{
    if v >= 100 {
        out.push(0x30 + v / 100);
        out.push(0x30 + (v / 10) % 10);
        out.push(0x30 + v % 10);
        assert(dec(v as nat) =~= seq![(0x30 + v / 100) as u8, (0x30 + (v / 10) % 10) as u8, (0x30 + v % 10) as u8]) by {
            assert(dec((v / 100) as nat) == seq![(0x30 + v / 100) as u8]);
            assert((v / 10) / 10 == v / 100);
            assert(dec((v / 10) as nat) == dec((v / 100) as nat).push((0x30 + (v / 10) % 10) as u8));
        }
    } else if v >= 10 {
        out.push(0x30 + v / 10);
        out.push(0x30 + v % 10);
        assert(dec(v as nat) =~= seq![(0x30 + v / 10) as u8, (0x30 + v % 10) as u8]) by {
            assert(dec((v / 10) as nat) == seq![(0x30 + v / 10) as u8]);
        }
    } else {
        out.push(0x30 + v);
    }
    assert(out@ =~= old(out)@ + dec(v as nat));
}

/// `out` with the decimal digits of `v` appended.
pub(crate) fn push_dec64(out: &mut Vec<u8>, v: u64)
    ensures
        final(out)@ == old(out)@ + dec(v as nat),
    decreases v,
{
    if v >= 10 {
        push_dec64(out, v / 10);
    }
    out.push(0x30 + (v % 10) as u8);
    proof {
        if v >= 10 {
            assert(out@ =~= old(out)@ + dec(v as nat));
        } else {
            assert(out@ =~= old(out)@ + dec(v as nat));
        }
    }
}

/// `bb:dd.f`: bus and device as two hex digits, function in decimal.
pub open spec fn bdf_text(b: Bdf) -> Seq<u8> {
    hex2(b.bus) + seq![0x3Au8] + hex2(b.device) + seq![0x2Eu8] + dec(b.function as nat)
}

impl Bdf {
    pub fn new(bus: u8, device: u8, function: u8) -> (r: Self)
        ensures
            r.segment == 0,
            r.bus == bus,
            r.device == device,
            r.function == function,
    {
        Bdf { segment: 0, bus, device, function }
    }

    /// `bb:dd.f`, as text.
    pub fn fmt(&self) -> (r: Vec<u8>)
        ensures
            r@ == bdf_text(*self),
    {
        let mut out: Vec<u8> = Vec::new();
        push_hex2(&mut out, self.bus);
        out.push(0x3A);
        push_hex2(&mut out, self.device);
        out.push(0x2E);
        push_dec(&mut out, self.function);
        assert(out@ =~= bdf_text(*self));
        out
    }
}


/// Config dword read and write. The kernel backs it with CF8 or ECAM
/// accesses, tests with a byte buffer. Device registers answer as the
/// hardware pleases, so nothing is promised of what a read returns.
pub trait CfgIo {
    fn read32(&mut self, bdf: Bdf, offset: u16) -> u32;

    fn write32(&mut self, bdf: Bdf, offset: u16, value: u32);
}

/// The dword-aligned offset that holds byte `offset`.
pub open spec fn aligned(offset: u16) -> u16 {
    offset & 0xFFFC
}

/// Bit position of byte `offset` inside its dword.
pub open spec fn lane_shift(offset: u16) -> u32 {
    ((offset & 3) * 8) as u32
}

/// The 16-bit field at byte `offset` of the dword `v` (little-endian).
pub open spec fn field16(v: u32, offset: u16) -> u16 {
    ((v >> lane_shift(offset)) & 0xFFFF) as u16
}

/// The byte at `offset` of the dword `v`.
pub open spec fn field8(v: u32, offset: u16) -> u8 {
    ((v >> lane_shift(offset)) & 0xFF) as u8
}

/// `v` with the 16-bit field at `offset` replaced by `val`.
pub open spec fn with_field16(v: u32, offset: u16, val: u16) -> u32 {
    (v & !(0xFFFFu32 << lane_shift(offset))) | ((val as u32) << lane_shift(offset))
}

fn lane(offset: u16) -> (r: u32)
    ensures
        r == lane_shift(offset),
        r <= 24,
{
    assert((offset & 3) <= 3) by (bit_vector);
    ((offset & 3) * 8) as u32
}

/// The 16-bit field at byte `offset` of a dword read from config space.
pub fn extract16(v: u32, offset: u16) -> (r: u16)
    ensures
        r == field16(v, offset),
{
    ((v >> lane(offset)) & 0xFFFF) as u16
}

/// The byte at `offset` of a dword read from config space.
pub fn extract8(v: u32, offset: u16) -> (r: u8)
    ensures
        r == field8(v, offset),
{
    ((v >> lane(offset)) & 0xFF) as u8
}

/// Replace the 16-bit field at `offset` of `v`, keeping the other half.
pub fn merge16(v: u32, offset: u16, val: u16) -> (r: u32)
    ensures
        r == with_field16(v, offset, val),
{
    let shift = lane(offset);
    let mut w = v;
    w &= !(0xFFFFu32 << shift);
    w |= (val as u32) << shift;
    w
}

/// One config-space access and the dword it carried: the value a read
/// returned, or the value a write stored.
#[derive(Clone, Copy, Debug, PartialEq, Eq, Structural)]
pub enum CfgOp {
    Read { bdf: Bdf, offset: u16, value: u32 },
    Write { bdf: Bdf, offset: u16, value: u32 },
}

/// The dword an access carried.
pub open spec fn op_value(op: CfgOp) -> u32 {
    match op {
        CfgOp::Read { value, .. } => value,
        CfgOp::Write { value, .. } => value,
    }
}

/// `op` is a read of the dword at `offset` of `bdf`.
pub open spec fn is_read_at(op: CfgOp, bdf: Bdf, offset: u16) -> bool {
    op == CfgOp::Read { bdf, offset, value: op_value(op) }
}

/// A config-space handle that keeps, as a ghost log, every access made
/// through it in order. Contracts speak of the accesses a call added.
pub struct Traced<C> {
    pub io: C,
    pub log: Ghost<Seq<CfgOp>>,
}

/// The accesses made between `before` and `after`.
pub open spec fn new_ops<C>(before: Traced<C>, after: Traced<C>) -> Seq<CfgOp> {
    after.log@.skip(before.log@.len() as int)
}

/// The log of `after` extends that of `before`.
pub open spec fn extends<C>(before: Traced<C>, after: Traced<C>) -> bool {
    before.log@.is_prefix_of(after.log@)
}

impl<C: CfgIo> Traced<C> {
    /// Start tracing accesses to `io`, with an empty log.
    pub fn new(io: C) -> (r: Self)
        ensures
            r.io == io,
            r.log@ == Seq::<CfgOp>::empty(),
    {
        Traced { io, log: Ghost(Seq::empty()) }
    }

    /// Read the dword at `offset` of `bdf`; the log records what came back.
    pub fn read32(&mut self, bdf: Bdf, offset: u16) -> (v: u32)
        ensures
            final(self).log@ == old(self).log@.push(CfgOp::Read { bdf, offset, value: v }),
    {
        let v = self.io.read32(bdf, offset);
        proof {
            self.log@ = self.log@.push(CfgOp::Read { bdf, offset, value: v });
        }
        v
    }

    /// Write `value` to the dword at `offset` of `bdf`; the log records it.
    pub fn write32(&mut self, bdf: Bdf, offset: u16, value: u32)
        ensures
            final(self).log@ == old(self).log@.push(CfgOp::Write { bdf, offset, value }),
    {
        self.io.write32(bdf, offset, value);
        proof {
            self.log@ = self.log@.push(CfgOp::Write { bdf, offset, value });
        }
    }
}

/// One read of the dword holding `offset`; the 16-bit field there.
pub fn read16<C: CfgIo>(cfg: &mut Traced<C>, bdf: Bdf, offset: u16) -> (r: u16)
    ensures
        final(cfg).log@.len() == old(cfg).log@.len() + 1,
        final(cfg).log@ == old(cfg).log@.push(final(cfg).log@.last()),
        is_read_at(final(cfg).log@.last(), bdf, aligned(offset)),
        r == field16(op_value(final(cfg).log@.last()), offset),
{
    let v = cfg.read32(bdf, offset & !3);
    assert(offset & !3 == aligned(offset)) by (bit_vector);
    extract16(v, offset)
}

/// One read of the dword holding `offset`; the byte there.
pub fn read8<C: CfgIo>(cfg: &mut Traced<C>, bdf: Bdf, offset: u16) -> (r: u8)
    ensures
        final(cfg).log@.len() == old(cfg).log@.len() + 1,
        final(cfg).log@ == old(cfg).log@.push(final(cfg).log@.last()),
        is_read_at(final(cfg).log@.last(), bdf, aligned(offset)),
        r == field8(op_value(final(cfg).log@.last()), offset),
{
    let v = cfg.read32(bdf, offset & !3);
    assert(offset & !3 == aligned(offset)) by (bit_vector);
    extract8(v, offset)
}

/// Read-modify-write of one 16-bit field: the dword at the aligned offset
/// is read, the field replaced, and the dword written back.
pub fn write16<C: CfgIo>(cfg: &mut Traced<C>, bdf: Bdf, offset: u16, val: u16)
    ensures
        new_ops(*old(cfg), *final(cfg)).len() == 2,
        extends(*old(cfg), *final(cfg)),
        is_read_at(new_ops(*old(cfg), *final(cfg))[0], bdf, aligned(offset)),
        new_ops(*old(cfg), *final(cfg))[1] == (CfgOp::Write {
            bdf,
            offset: aligned(offset),
            value: with_field16(op_value(new_ops(*old(cfg), *final(cfg))[0]), offset, val),
        }),
{
    let ghost l0 = cfg.log@;
    let al = offset & !3;
    assert(offset & !3 == aligned(offset)) by (bit_vector);
    let v = cfg.read32(bdf, al);
    cfg.write32(bdf, al, merge16(v, offset, val));
    assert(cfg.log@.skip(l0.len() as int) =~= seq![
        CfgOp::Read { bdf, offset: al, value: v },
        CfgOp::Write { bdf, offset: al, value: with_field16(v, offset, val) },
    ]);
}

/// Write COMMAND without touching STATUS in the same dword. STATUS is
/// RW1C; an RMW that writes 1s back would clear posted errors.
pub fn write_command<C: CfgIo>(cfg: &mut Traced<C>, bdf: Bdf, cmd: u16)
    ensures
        final(cfg).log@ == old(cfg).log@.push(CfgOp::Write { bdf, offset: CFG_COMMAND, value: cmd as u32 }),
{
    cfg.write32(bdf, CFG_COMMAND, cmd as u32);
}

/// One read of the dword at `CFG_VENDOR`; the vendor ID there.
pub fn vendor_id<C: CfgIo>(cfg: &mut Traced<C>, bdf: Bdf) -> (r: u16)
    ensures
        final(cfg).log@ == old(cfg).log@.push(final(cfg).log@.last()),
        is_read_at(final(cfg).log@.last(), bdf, aligned(CFG_VENDOR)),
        r == field16(op_value(final(cfg).log@.last()), CFG_VENDOR),
{
    read16(cfg, bdf, CFG_VENDOR)
}

/// One read of the dword holding `CFG_DEVICE`; the device ID there.
pub fn device_id<C: CfgIo>(cfg: &mut Traced<C>, bdf: Bdf) -> (r: u16)
    ensures
        final(cfg).log@ == old(cfg).log@.push(final(cfg).log@.last()),
        is_read_at(final(cfg).log@.last(), bdf, aligned(CFG_DEVICE)),
        r == field16(op_value(final(cfg).log@.last()), CFG_DEVICE),
{
    read16(cfg, bdf, CFG_DEVICE)
}

/// A vendor ID that names a function: all-ones means nothing answered,
/// zero is never assigned.
pub open spec fn vendor_valid(v: u16) -> bool {
    v != INVALID_VENDOR && v != 0
}

/// One read of the vendor dword; whether a function answers there.
pub fn present<C: CfgIo>(cfg: &mut Traced<C>, bdf: Bdf) -> (r: bool)
    ensures
        final(cfg).log@ == old(cfg).log@.push(final(cfg).log@.last()),
        is_read_at(final(cfg).log@.last(), bdf, aligned(CFG_VENDOR)),
        r == vendor_valid(field16(op_value(final(cfg).log@.last()), CFG_VENDOR)),
{
    let v = vendor_id(cfg, bdf);
    v != INVALID_VENDOR && v != 0
}


#[derive(Clone, Copy, Debug, PartialEq, Eq, Structural)]
pub enum BarKind {
    Empty,
    Io,
    Mem32,
    Mem64,
}

impl BarKind {
    pub fn name(self) -> (r: &'static str)
        ensures
            r@ == (match self {
                BarKind::Empty => "none"@,
                BarKind::Io => "io"@,
                BarKind::Mem32 => "mem32"@,
                BarKind::Mem64 => "mem64"@,
            }),
    {
        match self {
            BarKind::Empty => "none",
            BarKind::Io => "io",
            BarKind::Mem32 => "mem32",
            BarKind::Mem64 => "mem64",
        }
    }

    pub fn is_mem(self) -> (r: bool)
        ensures
            r == (self is Mem32 || self is Mem64),
    {
        match self {
            BarKind::Mem32 | BarKind::Mem64 => true,
            BarKind::Empty | BarKind::Io => false,
        }
    }
}

#[derive(Clone, Copy, Debug, PartialEq, Eq, Structural)]
pub struct Bar {
    pub kind: BarKind,
    pub prefetchable: bool,
    pub addr: u64,
    pub size: u64,
}

/// The BAR slot that decodes nothing.
pub open spec fn bar_none() -> Bar {
    Bar { kind: BarKind::Empty, prefetchable: false, addr: 0, size: 0 }
}

impl Bar {
    /// The BAR slot that decodes nothing.
    pub fn none() -> (r: Self)
        ensures
            r == bar_none(),
    {
        Bar { kind: BarKind::Empty, prefetchable: false, addr: 0, size: 0 }
    }

    pub fn is_none(self) -> (r: bool)
        ensures
            r == (self.kind is Empty || self.size == 0),
    {
        matches!(self.kind, BarKind::Empty) || self.size == 0
    }
}

/// True if this BAR may be mapped at boot (size probe succeeded and is
/// under the physmap/ioremap cap). Callers still refuse a map that would
/// exhaust the ioremap window.
pub fn bar_map_allowed(size: u64) -> (r: bool)
    ensures
        r == (0 < size <= MAX_BAR_MAP),
{
    size > 0 && size <= MAX_BAR_MAP
}

/// Decoded size from a size-probe readback: the writable address bits
/// (`mask` without `flag_bits`) read as a two's-complement negation.
/// A 32-bit or I/O BAR negates within 32 bits.
pub open spec fn spec_size_from_mask(mask: u64, flag_bits: u64, wide: bool) -> u64 {
    let m = mask & !flag_bits;
    if m == 0 {
        0
    } else if wide {
        (0x1_0000_0000_0000_0000 - m) as u64
    } else {
        ((0x1_0000_0000 - m % 0x1_0000_0000) % 0x1_0000_0000) as u64
    }
}

/// Two's-complement negation by `!x + 1`, in 64 and in 32 bits.
proof fn lemma_negate_bits(m: u64)
    by (bit_vector)
    ensures
        m != 0 ==> (!m) < 0xFFFF_FFFF_FFFF_FFFFu64,
        m != 0 ==> (!m) + 1 == 0x1_0000_0000_0000_0000 - m,
        (m as u32) == m % 0x1_0000_0000,
        (m as u32) != 0 ==> (!(m as u32)) + 1 == 0x1_0000_0000 - (m as u32),
        (m as u32) == 0 ==> !(m as u32) == 0xFFFF_FFFFu32,
{
}

fn size_from_mask(mask: u64, flag_bits: u64, wide: bool) -> (r: u64)
    ensures
        r == spec_size_from_mask(mask, flag_bits, wide),
{
    let m = mask & !flag_bits;
    if m == 0 {
        0
    } else if wide {
        proof {
            lemma_negate_bits(m);
        }
        let r = (!m).wrapping_add(1);
        r
    } else {
        let lo = m as u32;
        let r = (!lo).wrapping_add(1);
        proof {
            lemma_negate_bits(m);
        }
        r as u64
    }
}

/// Memory BAR type field (bits 2:1): 0b10 is a 64-bit BAR.
pub open spec fn mem_type(raw0: u32) -> u32 {
    (raw0 >> 1u32) & 0x3
}

/// One BAR from its programmed value and its all-ones probe readback.
/// `raw1`/`mask1` are the next dword, which only a 64-bit memory BAR reads.
/// The flag says that the BAR took two slots.
pub open spec fn spec_decode_bar(raw0: u32, raw1: u32, mask0: u32, mask1: u32) -> (Bar, bool) {
    if raw0 == 0 && mask0 == 0 && raw1 == 0 && mask1 == 0 {
        (bar_none(), false)
    } else if raw0 & 1 != 0 {
        let size = spec_size_from_mask(mask0 as u64, 0x3, false);
        (
            if size == 0 {
                bar_none()
            } else {
                Bar { kind: BarKind::Io, prefetchable: false, addr: (raw0 & 0xFFFF_FFFC) as u64, size }
            },
            false,
        )
    } else {
        let prefetchable = raw0 & 0x8 != 0;
        if mem_type(raw0) == 2 {
            let addr = ((raw1 as u64) << 32u64) | ((raw0 as u64) & 0xFFFF_FFFF_FFFF_FFF0);
            let size = spec_size_from_mask(((mask1 as u64) << 32u64) | (mask0 as u64), 0xF, true);
            (
                if size == 0 && addr == 0 {
                    bar_none()
                } else {
                    Bar { kind: BarKind::Mem64, prefetchable, addr, size }
                },
                true,
            )
        } else {
            let addr = (raw0 & 0xFFFF_FFF0) as u64;
            let size = spec_size_from_mask(mask0 as u64, 0xF, false);
            (
                if size == 0 && addr == 0 {
                    bar_none()
                } else {
                    Bar { kind: BarKind::Mem32, prefetchable, addr, size }
                },
                false,
            )
        }
    }
}

/// The type field of a memory BAR says 64-bit exactly when bits 2:1 are
/// `10`.
proof fn lemma_mem_type_bits(raw0: u32)
    by (bit_vector)
    ensures
        ((raw0 >> 1u32) & 0x3 == 2) == (raw0 & 0x6 == 0x4),
{
}

/// A 64-bit BAR's address: the next dword above, this one's address bits
/// below.
proof fn lemma_mem64_addr_bits(raw0: u32, raw1: u32)
    by (bit_vector)
    ensures
        (((raw1 as u64) << 32u64) | ((raw0 as u64) & 0xFFFF_FFFF_FFFF_FFF0)) >> 32u64 == raw1 as u64,
        (((raw1 as u64) << 32u64) | ((raw0 as u64) & 0xFFFF_FFFF_FFFF_FFF0)) & 0xFFFF_FFFF == (raw0 & 0xFFFF_FFF0) as u64,
{
}

/// What the low bits of a BAR mean, whatever it holds: bit 0 marks an
/// I/O BAR, never prefetchable and never a memory kind; for a memory BAR
/// that decodes to something, the prefetchable flag is bit 3 alone, the
/// kind is 64-bit exactly when bits 2:1 are `10` (otherwise 32-bit), and
/// the BAR takes a second slot exactly when it is 64-bit. The address is
/// the programmed one with the flag bits cleared, a 64-bit BAR taking its
/// upper half from the next dword.
pub proof fn lemma_bar_flags(raw0: u32, raw1: u32, mask0: u32, mask1: u32)
    ensures
        raw0 & 1 != 0 ==> !spec_decode_bar(raw0, raw1, mask0, mask1).0.prefetchable && spec_decode_bar(
            raw0,
            raw1,
            mask0,
            mask1,
        ).0.kind != BarKind::Mem32 && spec_decode_bar(raw0, raw1, mask0, mask1).0.kind != BarKind::Mem64
            && !spec_decode_bar(raw0, raw1, mask0, mask1).1,
        raw0 & 1 == 0 && spec_decode_bar(raw0, raw1, mask0, mask1).0.kind != BarKind::Empty ==> spec_decode_bar(
            raw0,
            raw1,
            mask0,
            mask1,
        ).0.prefetchable == (raw0 & 0x8 != 0),
        raw0 & 1 == 0 && spec_decode_bar(raw0, raw1, mask0, mask1).0.kind != BarKind::Empty ==> (spec_decode_bar(
            raw0,
            raw1,
            mask0,
            mask1,
        ).0.kind == BarKind::Mem64) == (raw0 & 0x6 == 0x4) && spec_decode_bar(raw0, raw1, mask0, mask1).0.kind
            != BarKind::Io,
        raw0 & 1 == 0 ==> spec_decode_bar(raw0, raw1, mask0, mask1).1 == (raw0 & 0x6 == 0x4),
        spec_decode_bar(raw0, raw1, mask0, mask1).0.kind == BarKind::Io ==> spec_decode_bar(raw0, raw1, mask0, mask1).0.addr
            == (raw0 & 0xFFFF_FFFC) as u64,
        spec_decode_bar(raw0, raw1, mask0, mask1).0.kind == BarKind::Mem32 ==> spec_decode_bar(
            raw0,
            raw1,
            mask0,
            mask1,
        ).0.addr == (raw0 & 0xFFFF_FFF0) as u64,
        spec_decode_bar(raw0, raw1, mask0, mask1).0.kind == BarKind::Mem64 ==> spec_decode_bar(
            raw0,
            raw1,
            mask0,
            mask1,
        ).0.addr >> 32u64 == raw1 as u64 && spec_decode_bar(raw0, raw1, mask0, mask1).0.addr & 0xFFFF_FFFF == (raw0
            & 0xFFFF_FFF0) as u64,
{
    lemma_mem64_addr_bits(raw0, raw1);
    lemma_mem_type_bits(raw0);
    if raw0 == 0 {
        assert(raw0 & 0x6 == 0) by (bit_vector)
            requires
                raw0 == 0,
        ;
    }
}

/// Decode one BAR from the programmed address and the all-1s
/// size-probe readback. `raw1`/`mask1` are the next dword for 64-bit mem.
pub fn decode_bar(raw0: u32, raw1: u32, mask0: u32, mask1: u32) -> (r: (Bar, bool))
    ensures
        r == spec_decode_bar(raw0, raw1, mask0, mask1),
{
    if raw0 == 0 && mask0 == 0 && raw1 == 0 && mask1 == 0 {
        return (Bar::none(), false);
    }
    if raw0 & 1 != 0 {
        let addr = (raw0 & 0xFFFF_FFFC) as u64;
        let size = size_from_mask(mask0 as u64, 0x3, false);
        let bar = if size == 0 {
            Bar::none()
        } else {
            Bar { kind: BarKind::Io, prefetchable: false, addr, size }
        };
        return (bar, false);
    }
    let typ = (raw0 >> 1u32) & 0x3;
    let prefetchable = raw0 & 0x8 != 0;
    if typ == 0x2 {
        let addr = ((raw1 as u64) << 32u64) | ((raw0 as u64) & 0xFFFF_FFFF_FFFF_FFF0);
        let mask = ((mask1 as u64) << 32u64) | (mask0 as u64);
        let size = size_from_mask(mask, 0xF, true);
        let bar = if size == 0 && addr == 0 {
            Bar::none()
        } else {
            Bar { kind: BarKind::Mem64, prefetchable, addr, size }
        };
        (bar, true)
    } else {
        let addr = (raw0 & 0xFFFF_FFF0) as u64;
        let size = size_from_mask(mask0 as u64, 0xF, false);
        let bar = if size == 0 && addr == 0 {
            Bar::none()
        } else {
            Bar { kind: BarKind::Mem32, prefetchable, addr, size }
        };
        (bar, false)
    }
}

/// Whether `raw0` programs a 64-bit memory BAR.
pub open spec fn is_mem64(raw0: u32) -> bool {
    raw0 & 1 == 0 && mem_type(raw0) == 2
}

/// Config offset of BAR slot `index`.
pub open spec fn bar_off(index: u8) -> u16 {
    (CFG_BAR0 + 4 * index) as u16
}

/// The four accesses that size the BAR dword at `off`: read it (`raw`),
/// write all ones, read the size mask back (`mask`), and restore `raw`.
pub open spec fn sizing_ops(bdf: Bdf, off: u16, raw: u32, mask: u32) -> Seq<CfgOp> {
    seq![
        CfgOp::Read { bdf, offset: off, value: raw },
        CfgOp::Write { bdf, offset: off, value: 0xFFFF_FFFF },
        CfgOp::Read { bdf, offset: off, value: mask },
        CfgOp::Write { bdf, offset: off, value: raw },
    ]
}

/// How many accesses sizing BAR `index` takes, given that the first read
/// of `ops` is its low dword: eight for a 64-bit memory BAR below the last
/// slot, none past the last slot, four otherwise.
pub open spec fn probe_len(index: u8, ops: Seq<CfgOp>) -> int {
    if index >= 6 {
        0
    } else if is_mem64(op_value(ops[0])) && index < 5 {
        8
    } else {
        4
    }
}

/// `ops` have the shape of the accesses that size BAR `index` of `bdf`:
/// one sizing of the slot, then one of the next slot for a 64-bit BAR.
pub open spec fn probe_shape(bdf: Bdf, index: u8, ops: Seq<CfgOp>) -> bool {
    &&& ops.len() == probe_len(index, ops)
    &&& index < 6 ==> ops.take(4) == sizing_ops(bdf, bar_off(index), op_value(ops[0]), op_value(ops[2]))
    &&& probe_len(index, ops) == 8 ==> ops.skip(4) == sizing_ops(
        bdf,
        (bar_off(index) + 4) as u16,
        op_value(ops[4]),
        op_value(ops[6]),
    )
}

/// The BAR that sizing accesses `ops` of slot `index` decode to.
pub open spec fn probe_result(index: u8, ops: Seq<CfgOp>) -> (Bar, bool) {
    if index >= 6 {
        (bar_none(), false)
    } else if probe_len(index, ops) == 8 {
        spec_decode_bar(op_value(ops[0]), op_value(ops[4]), op_value(ops[2]), op_value(ops[6]))
    } else {
        spec_decode_bar(op_value(ops[0]), 0, op_value(ops[2]), 0)
    }
}

/// `ops` are exactly the accesses that size BAR `index` of `bdf`, and `r`
/// is the decode of what its reads returned.
pub open spec fn probe_bar_ok(bdf: Bdf, index: u8, ops: Seq<CfgOp>, r: (Bar, bool)) -> bool {
    probe_shape(bdf, index, ops) && r == probe_result(index, ops)
}

/// Size one BAR dword: read it, write all ones, read the mask, restore.
fn size_dword<C: CfgIo>(cfg: &mut Traced<C>, bdf: Bdf, off: u16) -> (r: (u32, u32))
    ensures
        final(cfg).log@ == old(cfg).log@ + sizing_ops(bdf, off, r.0, r.1),
{
    let raw = cfg.read32(bdf, off);
    cfg.write32(bdf, off, 0xFFFF_FFFF);
    let mask = cfg.read32(bdf, off);
    cfg.write32(bdf, off, raw);
    assert(cfg.log@ =~= old(cfg).log@ + sizing_ops(bdf, off, raw, mask));
    (raw, mask)
}

/// Size-probe BAR `index` (0..5): read it, write all ones, read the mask,
/// and write the value it held back; likewise the next dword for a 64-bit
/// memory BAR. The result is the decode of what the reads returned.
pub fn probe_bar<C: CfgIo>(cfg: &mut Traced<C>, bdf: Bdf, index: u8) -> (r: (Bar, bool))
    ensures
        extends(*old(cfg), *final(cfg)),
        probe_bar_ok(bdf, index, new_ops(*old(cfg), *final(cfg)), r),
{
    let ghost l0 = cfg.log@;
    if index >= 6 {
        assert(cfg.log@.skip(l0.len() as int) =~= Seq::<CfgOp>::empty());
        return (Bar::none(), false);
    }
    let off = CFG_BAR0 + (index as u16) * 4;
    let (raw0, mask0) = size_dword(cfg, bdf, off);
    let ghost l1 = cfg.log@;
    let is64 = raw0 & 1 == 0 && ((raw0 >> 1u32) & 0x3) == 0x2;
    assert(is64 == is_mem64(raw0));
    let (raw1, mask1) = if is64 && index + 1 < 6 {
        let off1 = off + 4;
        size_dword(cfg, bdf, off1)
    } else {
        (0, 0)
    };
    let ghost ops = cfg.log@.skip(l0.len() as int);
    proof {
        assert(ops.take(4) =~= sizing_ops(bdf, off, raw0, mask0));
        if is64 && index + 1 < 6 {
            assert(ops.skip(4) =~= sizing_ops(bdf, (off + 4) as u16, raw1, mask1));
        } else {
            assert(ops.len() == 4);
        }
    }
    decode_bar(raw0, raw1, mask0, mask1)
}


/// Capability offsets in config space. `None` = not present.
#[derive(Clone, Copy, Debug, PartialEq, Eq, Structural)]
pub struct CapSet {
    pub pm: Option<u8>,
    pub msi: Option<u8>,
    pub msix: Option<u8>,
    pub pcie: Option<u8>,
    pub vendor: Option<u8>,
}

pub open spec fn capset_empty() -> CapSet {
    CapSet { pm: None, msi: None, msix: None, pcie: None, vendor: None }
}

/// `c` after seeing a capability `id` at `ptr`: the known IDs record their
/// latest offset, except vendor-specific, which keeps the first.
pub open spec fn spec_record(c: CapSet, id: u8, ptr: u8) -> CapSet {
    if id == CAP_PM {
        CapSet { pm: Some(ptr), ..c }
    } else if id == CAP_MSI {
        CapSet { msi: Some(ptr), ..c }
    } else if id == CAP_MSIX {
        CapSet { msix: Some(ptr), ..c }
    } else if id == CAP_PCIE {
        CapSet { pcie: Some(ptr), ..c }
    } else if id == CAP_VENDOR && c.vendor is None {
        CapSet { vendor: Some(ptr), ..c }
    } else {
        c
    }
}

/// An offset that can hold a capability: past the standard header.
pub open spec fn cap_ptr_ok(p: Option<u8>) -> bool {
    p matches Some(x) ==> x >= 0x40
}

/// Every recorded capability lies past the standard header.
pub open spec fn caps_in_range(c: CapSet) -> bool {
    cap_ptr_ok(c.pm) && cap_ptr_ok(c.msi) && cap_ptr_ok(c.msix) && cap_ptr_ok(c.pcie)
        && cap_ptr_ok(c.vendor)
}

impl CapSet {
    pub fn empty() -> (r: Self)
        ensures
            r == capset_empty(),
    {
        CapSet { pm: None, msi: None, msix: None, pcie: None, vendor: None }
    }

    /// Record a capability `id` found at `ptr`.
    pub fn record(self, id: u8, ptr: u8) -> (r: Self)
        ensures
            r == spec_record(self, id, ptr),
    {
        let mut out = self;
        match id {
            CAP_PM => out.pm = Some(ptr),
            CAP_MSI => out.msi = Some(ptr),
            CAP_MSIX => out.msix = Some(ptr),
            CAP_PCIE => out.pcie = Some(ptr),
            CAP_VENDOR => {
                if out.vendor.is_none() {
                    out.vendor = Some(ptr);
                }
            },
            _ => {},
        }
        out
    }
}

impl Default for CapSet {
    fn default() -> (r: Self)
        ensures
            r == capset_empty(),
    {
        CapSet::empty()
    }
}

/// `o` with `d` more accesses counted.
pub open spec fn shifted<T>(o: Option<(T, int)>, d: int) -> Option<(T, int)> {
    match o {
        Some((x, k)) => Some((x, k + d)),
        None => None,
    }
}

/// The capability walk that the front of `ops` describes from the link
/// `ptr` on, with `budget` entries left and `c` recorded so far:
/// `Some((caps, k))` when its first `k` accesses are exactly the walk's
/// reads, `None` when they are not. Each entry takes two reads, its id
/// byte and then its next link; the walk ends at a link below the
/// standard header, at a null or self-looping link, or when the budget is
/// spent.
pub open spec fn walk_from(bdf: Bdf, ops: Seq<CfgOp>, ptr: u8, budget: nat, c: CapSet) -> Option<(CapSet, int)>
    decreases budget,
{
    if ptr < 0x40 || budget == 0 {
        Some((c, 0))
    } else if ops.len() >= 2 && is_read_at(ops[0], bdf, aligned(ptr as u16)) && is_read_at(
        ops[1],
        bdf,
        aligned((ptr + 1) as u16),
    ) {
        let c2 = spec_record(c, field8(op_value(ops[0]), ptr as u16), ptr);
        let next = field8(op_value(ops[1]), (ptr + 1) as u16);
        if next == 0 || next == ptr {
            Some((c2, 2))
        } else {
            shifted(walk_from(bdf, ops.skip(2), next, (budget - 1) as nat, c2), 2)
        }
    } else {
        None
    }
}

/// The capabilities that the front of `ops` finds on `bdf`, and how many
/// accesses that takes; `None` when those accesses are not the reads of a
/// walk: the STATUS read, and when it shows a capability list, the
/// pointer read and then the walk from it.
pub open spec fn walk_caps_spec(bdf: Bdf, ops: Seq<CfgOp>) -> Option<(CapSet, int)> {
    if ops.len() >= 1 && is_read_at(ops[0], bdf, aligned(CFG_STATUS)) {
        if field16(op_value(ops[0]), CFG_STATUS) & STATUS_CAPS == 0 {
            Some((capset_empty(), 1))
        } else if ops.len() >= 2 && is_read_at(ops[1], bdf, aligned(CFG_CAP_PTR)) {
            shifted(
                walk_from(bdf, ops.skip(2), field8(op_value(ops[1]), CFG_CAP_PTR), MAX_CAP_WALK as nat, capset_empty()),
                2,
            )
        } else {
            None
        }
    } else {
        None
    }
}

/// How many accesses `o` counts; none for `None`.
pub open spec fn taken<T>(o: Option<(T, int)>) -> int {
    match o {
        Some((_, k)) => k,
        None => 0,
    }
}

/// A walk counts no accesses it did not make: none when it stops at once,
/// at least two otherwise, and never more than `ops` holds.
pub proof fn lemma_walk_from_len(bdf: Bdf, ops: Seq<CfgOp>, ptr: u8, budget: nat, c: CapSet)
    requires
        walk_from(bdf, ops, ptr, budget, c) is Some,
    ensures
        0 <= taken(walk_from(bdf, ops, ptr, budget, c)) <= ops.len(),
        !(ptr < 0x40 || budget == 0) ==> taken(walk_from(bdf, ops, ptr, budget, c)) >= 2,
    decreases budget,
{
    if !(ptr < 0x40 || budget == 0) {
        let c2 = spec_record(c, field8(op_value(ops[0]), ptr as u16), ptr);
        let next = field8(op_value(ops[1]), (ptr + 1) as u16);
        if !(next == 0 || next == ptr) {
            lemma_walk_from_len(bdf, ops.skip(2), next, (budget - 1) as nat, c2);
        }
    }
}

/// A walk that reads the first `k` accesses of `ops` reads the same on
/// anything that starts with those accesses.
pub proof fn lemma_walk_from_prefix(bdf: Bdf, ops: Seq<CfgOp>, ops2: Seq<CfgOp>, ptr: u8, budget: nat, c: CapSet)
    requires
        walk_from(bdf, ops, ptr, budget, c) is Some,
        taken(walk_from(bdf, ops, ptr, budget, c)) <= ops.len(),
        taken(walk_from(bdf, ops, ptr, budget, c)) <= ops2.len(),
        ops2.take(taken(walk_from(bdf, ops, ptr, budget, c))) == ops.take(taken(walk_from(bdf, ops, ptr, budget, c))),
    ensures
        walk_from(bdf, ops2, ptr, budget, c) == walk_from(bdf, ops, ptr, budget, c),
    decreases budget,
{
    lemma_walk_from_len(bdf, ops, ptr, budget, c);
    if !(ptr < 0x40 || budget == 0) {
        let k = taken(walk_from(bdf, ops, ptr, budget, c));
        assert(ops2[0] == ops2.take(k)[0] && ops[0] == ops.take(k)[0]);
        assert(ops2[1] == ops2.take(k)[1] && ops[1] == ops.take(k)[1]);
        let c2 = spec_record(c, field8(op_value(ops[0]), ptr as u16), ptr);
        let next = field8(op_value(ops[1]), (ptr + 1) as u16);
        if !(next == 0 || next == ptr) {
            let a2 = ops2.skip(2).take(k - 2);
            let b2 = ops.skip(2).take(k - 2);
            assert(a2 =~= b2) by {
                assert forall|x: int| 0 <= x < k - 2 implies #[trigger] a2[x] == b2[x] by {
                    assert(ops2.take(k)[x + 2] == ops.take(k)[x + 2]);
                }
            }
            lemma_walk_from_prefix(bdf, ops.skip(2), ops2.skip(2), next, (budget - 1) as nat, c2);
        }
    }
}

/// The capability walk reads only the accesses it counts.
pub proof fn lemma_walk_caps_prefix(bdf: Bdf, ops: Seq<CfgOp>, ops2: Seq<CfgOp>)
    requires
        walk_caps_spec(bdf, ops) is Some,
        taken(walk_caps_spec(bdf, ops)) <= ops.len(),
        taken(walk_caps_spec(bdf, ops)) <= ops2.len(),
        ops2.take(taken(walk_caps_spec(bdf, ops))) == ops.take(taken(walk_caps_spec(bdf, ops))),
    ensures
        walk_caps_spec(bdf, ops2) == walk_caps_spec(bdf, ops),
{
    let k = taken(walk_caps_spec(bdf, ops));
    if field16(op_value(ops[0]), CFG_STATUS) & STATUS_CAPS != 0 {
        lemma_walk_from_len(bdf, ops.skip(2), field8(op_value(ops[1]), CFG_CAP_PTR), MAX_CAP_WALK as nat, capset_empty());
    }
    assert(ops2[0] == ops2.take(k)[0] && ops[0] == ops.take(k)[0]);
    if field16(op_value(ops[0]), CFG_STATUS) & STATUS_CAPS != 0 {
        assert(ops2[1] == ops2.take(k)[1] && ops[1] == ops.take(k)[1]);
        let p = field8(op_value(ops[1]), CFG_CAP_PTR);
        let a2 = ops2.skip(2).take(k - 2);
        let b2 = ops.skip(2).take(k - 2);
        assert(a2 =~= b2) by {
            assert forall|x: int| 0 <= x < k - 2 implies #[trigger] a2[x] == b2[x] by {
                assert(ops2.take(k)[x + 2] == ops.take(k)[x + 2]);
            }
        }
        lemma_walk_from_prefix(bdf, ops.skip(2), ops2.skip(2), p, MAX_CAP_WALK as nat, capset_empty());
    }
}

/// What is left of a walk begun at `p0` once `done` reads have been made.
spec fn walked(bdf: Bdf, done: Seq<CfgOp>, rest: Seq<CfgOp>, p0: u8) -> Option<(CapSet, int)> {
    walk_from(bdf, done + rest, p0, MAX_CAP_WALK as nat, capset_empty())
}

/// Walk the cap list. Records offsets; does not enable MSI/MSI-X. The
/// walk stops at a null or self-looping link, below the header, or after
/// `MAX_CAP_WALK` entries. Reads only.
pub fn walk_caps<C: CfgIo>(cfg: &mut Traced<C>, bdf: Bdf) -> (r: CapSet)
    ensures
        extends(*old(cfg), *final(cfg)),
        walk_caps_spec(bdf, new_ops(*old(cfg), *final(cfg))) == Some((r, new_ops(*old(cfg), *final(cfg)).len() as int)),
        caps_in_range(r),
{
    let ghost l0 = cfg.log@;
    let mut out = CapSet::empty();
    let status = read16(cfg, bdf, CFG_STATUS);
    if status & STATUS_CAPS == 0 {
        assert(cfg.log@.skip(l0.len() as int) =~= seq![cfg.log@.last()]);
        return out;
    }
    let ghost s0 = cfg.log@.last();
    let mut ptr = read8(cfg, bdf, CFG_CAP_PTR);
    let ghost s1 = cfg.log@.last();
    let ghost l2 = cfg.log@;
    assert(l2 =~= l0.push(s0).push(s1));
    let ghost p0 = ptr;
    proof {
        assert forall|rest: Seq<CfgOp>| #[trigger] walked(bdf, l2.skip(l2.len() as int), rest, p0)
            == shifted(walk_from(bdf, rest, ptr, MAX_CAP_WALK as nat, out), 0) by {
            assert(l2.skip(l2.len() as int) + rest =~= rest);
        }
    }
    let mut n = 0usize;
    let mut done = false;
    while !done && ptr >= 0x40 && n < MAX_CAP_WALK
        invariant
            caps_in_range(out),
            n <= MAX_CAP_WALK,
            l2.is_prefix_of(cfg.log@),
            forall|rest: Seq<CfgOp>| #[trigger] walked(bdf, cfg.log@.skip(l2.len() as int), rest, p0) == (if done {
                Some((out, cfg.log@.len() - l2.len()))
            } else {
                shifted(walk_from(bdf, rest, ptr, (MAX_CAP_WALK - n) as nat, out), cfg.log@.len() - l2.len())
            }),
        decreases MAX_CAP_WALK - n,
    {
        let ghost before = cfg.log@.skip(l2.len() as int);
        let ghost out0 = out;
        let ghost ptr0 = ptr;
        let ghost n0 = n;
        n += 1;
        let id = read8(cfg, bdf, ptr as u16);
        let ghost a = cfg.log@.last();
        out = out.record(id, ptr);
        let next = read8(cfg, bdf, ptr as u16 + 1);
        let ghost b = cfg.log@.last();
        if next == 0 || next == ptr {
            done = true;
        } else {
            ptr = next;
        }
        proof {
            let now = cfg.log@.skip(l2.len() as int);
            assert(now =~= before + seq![a, b]);
            assert forall|rest: Seq<CfgOp>| #[trigger] walked(bdf, now, rest, p0) == (if done {
                Some((out, now.len() as int))
            } else {
                shifted(walk_from(bdf, rest, ptr, (MAX_CAP_WALK - n) as nat, out), now.len() as int)
            }) by {
                let ab = seq![a, b] + rest;
                assert(now + rest =~= before + ab);
                assert(walked(bdf, before, ab, p0) == shifted(walk_from(bdf, ab, ptr0, (MAX_CAP_WALK - n0) as nat, out0), before.len() as int));
                assert(ab.skip(2) =~= rest);
                assert(ab[0] == a && ab[1] == b);
            }
        }
    }
    proof {
        let now = cfg.log@.skip(l2.len() as int);
        assert(walked(bdf, now, Seq::empty(), p0) == Some((out, now.len() as int)));
        assert(now + Seq::<CfgOp>::empty() =~= now);
        let all = cfg.log@.skip(l0.len() as int);
        assert(all.skip(2) =~= now);
        assert(cfg.log@.take(l2.len() as int) == l2);
        assert(cfg.log@[l0.len() as int] == cfg.log@.take(l2.len() as int)[l0.len() as int]);
        assert(cfg.log@[l0.len() + 1int] == cfg.log@.take(l2.len() as int)[l0.len() + 1int]);
        assert(all[0] == s0 && all[1] == s1);
        assert(walk_caps_spec(bdf, all) == shifted(walk_from(bdf, now, p0, MAX_CAP_WALK as nat, capset_empty()), 2));
    }
    out
}

#[derive(Clone, Copy, Debug, PartialEq, Eq)]
pub struct FuncInfo {
    pub bdf: Bdf,
    pub vendor: u16,
    pub device: u16,
    pub revision: u8,
    pub prog_if: u8,
    pub subclass: u8,
    pub class: u8,
    pub header: u8,
    pub irq_line: u8,
    pub irq_pin: u8,
    pub secondary_bus: u8,
    pub bars: [Bar; 6],
    pub caps: CapSet,
}

/// Header type without the multi-function bit names a PCI-PCI bridge.
pub open spec fn header_is_bridge(header: u8) -> bool {
    header & HEADER_TYPE_MASK == HEADER_BRIDGE
}

impl FuncInfo {
    /// All fields zero, no BARs, no capabilities.
    pub fn empty() -> (r: Self)
        ensures
            r.bdf == (Bdf { segment: 0, bus: 0, device: 0, function: 0 }),
            r.vendor == 0 && r.device == 0 && r.revision == 0 && r.prog_if == 0,
            r.subclass == 0 && r.class == 0 && r.header == 0,
            r.irq_line == 0 && r.irq_pin == 0 && r.secondary_bus == 0,
            forall|i: int| 0 <= i < 6 ==> r.bars[i] == bar_none(),
            r.caps == capset_empty(),
    {
        let none = Bar::none();
        FuncInfo {
            bdf: Bdf::new(0, 0, 0),
            vendor: 0,
            device: 0,
            revision: 0,
            prog_if: 0,
            subclass: 0,
            class: 0,
            header: 0,
            irq_line: 0,
            irq_pin: 0,
            secondary_bus: 0,
            bars: [none, none, none, none, none, none],
            caps: CapSet::empty(),
        }
    }

    pub fn is_bridge(self) -> (r: bool)
        ensures
            r == header_is_bridge(self.header),
    {
        self.header & HEADER_TYPE_MASK == HEADER_BRIDGE
    }

    pub fn multifunction(self) -> (r: bool)
        ensures
            r == (self.header & HEADER_MULTI != 0),
    {
        self.header & HEADER_MULTI != 0
    }
}

/// How many BAR slots a header type decodes: type-1/2 headers reuse the
/// later slots as bus-number and window registers.
pub open spec fn spec_bar_slots(header: u8) -> u8 {
    let t = header & HEADER_TYPE_MASK;
    if t == HEADER_DEVICE {
        6
    } else if t == HEADER_BRIDGE {
        2
    } else if t == HEADER_CARDBUS {
        1
    } else {
        0
    }
}

fn bar_slots(header: u8) -> (r: u8)
    ensures
        r == spec_bar_slots(header),
{
    match header & HEADER_TYPE_MASK {
        HEADER_DEVICE => 6,
        HEADER_BRIDGE => 2,
        HEADER_CARDBUS => 1,
        _ => 0,
    }
}

/// The revision, prog-if, subclass and class bytes of `info` are those of
/// the class dword `cd`, low byte first.
pub open spec fn class_fields(info: FuncInfo, cd: u32) -> bool {
    &&& info.revision == (cd & 0xFF) as u8
    &&& info.prog_if == ((cd >> 8u32) & 0xFF) as u8
    &&& info.subclass == ((cd >> 16u32) & 0xFF) as u8
    &&& info.class == ((cd >> 24u32) & 0xFF) as u8
}

/// What `read_function` promises of a function it found: its address, a
/// class dword split into bytes, a secondary bus only for a bridge, and no
/// BAR past the slots that its header type decodes.
pub open spec fn func_info_ok(info: FuncInfo, bdf: Bdf) -> bool {
    &&& info.bdf == bdf
    &&& exists|cd: u32| #[trigger] class_fields(info, cd)
    &&& !header_is_bridge(info.header) ==> info.secondary_bus == 0
    &&& forall|k: int| spec_bar_slots(info.header) <= k < 6 ==> info.bars[k] == bar_none()
    &&& caps_in_range(info.caps)
}

/// Six empty BAR slots.
pub open spec fn no_bars() -> Seq<Bar> {
    Seq::new(6, |i: int| bar_none())
}

/// The BARs that the sizing accesses at the front of `ops` find from slot
/// `i` on, for a header that decodes `n` slots, on top of `bars`, and how
/// many accesses that takes; `None` when those accesses are not exactly
/// the probes. A 64-bit BAR fills its slot and empties the next one,
/// which the walk then skips.
pub open spec fn bars_from(bdf: Bdf, ops: Seq<CfgOp>, i: nat, n: nat, bars: Seq<Bar>) -> Option<(Seq<Bar>, int)>
    decreases 8 - i,
{
    if i >= n || i >= 6 {
        Some((bars, 0))
    } else {
        let k = probe_len(i as u8, ops);
        if ops.len() >= k && probe_shape(bdf, i as u8, ops.take(k)) {
            let res = probe_result(i as u8, ops.take(k));
            let b2 = bars.update(i as int, res.0);
            if res.1 {
                shifted(
                    bars_from(
                        bdf,
                        ops.skip(k),
                        i + 2,
                        n,
                        if i + 1 < 6 {
                            b2.update(i + 1int, bar_none())
                        } else {
                            b2
                        },
                    ),
                    k,
                )
            } else {
                shifted(bars_from(bdf, ops.skip(k), i + 1, n, b2), k)
            }
        } else {
            None
        }
    }
}

/// The value `o` holds; arbitrary for `None`.
pub open spec fn got<T>(o: Option<(T, int)>) -> T {
    match o {
        Some((x, _)) => x,
        None => arbitrary(),
    }
}

/// The fixed reads `read_function` makes once a function answers: the
/// vendor, device, class, header and interrupt dwords.
pub open spec fn fixed_reads_ok(bdf: Bdf, ops: Seq<CfgOp>) -> bool {
    &&& ops.len() >= 7
    &&& is_read_at(ops[1], bdf, aligned(CFG_VENDOR))
    &&& is_read_at(ops[2], bdf, aligned(CFG_DEVICE))
    &&& is_read_at(ops[3], bdf, CFG_REVID_CLASS)
    &&& is_read_at(ops[4], bdf, aligned(CFG_HEADER_TYPE))
    &&& is_read_at(ops[5], bdf, aligned(CFG_IRQ_LINE))
    &&& is_read_at(ops[6], bdf, aligned(CFG_IRQ_PIN))
}

/// The header type byte that the fixed reads of `ops` show.
pub open spec fn rf_header(ops: Seq<CfgOp>) -> u8 {
    field8(op_value(ops[4]), CFG_HEADER_TYPE)
}

/// Where the accesses after the capability walk start.
pub open spec fn rf_tail(bdf: Bdf, ops: Seq<CfgOp>) -> Seq<CfgOp> {
    ops.skip(7 + taken(walk_caps_spec(bdf, ops.skip(7))))
}

/// The secondary bus that the accesses show: read for a bridge, else 0.
pub open spec fn rf_sec(bdf: Bdf, ops: Seq<CfgOp>) -> u8 {
    if header_is_bridge(rf_header(ops)) {
        field8(op_value(rf_tail(bdf, ops)[0]), CFG_SEC_BUS)
    } else {
        0
    }
}

/// How `read_function` on `bdf` reads the front of `ops`: `Some((found,
/// k))` when its first `k` accesses are exactly the reads it makes, with
/// `found` whether they show a function; `None` when they are not. One
/// vendor read when nothing answers; else the fixed reads, the capability
/// walk, the secondary-bus read of a bridge, and the BAR probes.
pub open spec fn rf_reads(bdf: Bdf, ops: Seq<CfgOp>) -> Option<(bool, int)> {
    if !(ops.len() >= 1 && is_read_at(ops[0], bdf, aligned(CFG_VENDOR))) {
        None
    } else if !vendor_valid(field16(op_value(ops[0]), CFG_VENDOR)) {
        Some((false, 1))
    } else if fixed_reads_ok(bdf, ops) && walk_caps_spec(bdf, ops.skip(7)) is Some {
        let rest = rf_tail(bdf, ops);
        let bridge = header_is_bridge(rf_header(ops));
        let kb: int = if bridge { 1 } else { 0 };
        if bridge && !(rest.len() >= 1 && is_read_at(rest[0], bdf, aligned(CFG_SEC_BUS))) {
            None
        } else {
            let bs = bars_from(bdf, rest.skip(kb), 0, spec_bar_slots(rf_header(ops)) as nat, no_bars());
            if bs is Some {
                Some((true, ops.len() - rest.len() + kb + taken(bs)))
            } else {
                None
            }
        }
    } else {
        None
    }
}

/// `ops` are exactly the accesses `read_function` makes on `bdf` and `r`
/// is what they show: one vendor read, and `None` when no function answers;
/// else the vendor, device, class, header and interrupt reads, the
/// capability walk, then the bridge's secondary bus and the BAR probes.
pub open spec fn read_function_ok(bdf: Bdf, ops: Seq<CfgOp>, r: Option<FuncInfo>) -> bool {
    &&& rf_reads(bdf, ops) == Some((r is Some, ops.len() as int))
    &&& r is Some ==> {
        let info = r->0;
        let rest = rf_tail(bdf, ops);
        let kb: int = if header_is_bridge(info.header) { 1 } else { 0 };
        &&& info.bdf == bdf
        &&& info.vendor == field16(op_value(ops[1]), CFG_VENDOR)
        &&& info.device == field16(op_value(ops[2]), CFG_DEVICE)
        &&& class_fields(info, op_value(ops[3]))
        &&& info.header == rf_header(ops)
        &&& info.irq_line == field8(op_value(ops[5]), CFG_IRQ_LINE)
        &&& info.irq_pin == field8(op_value(ops[6]), CFG_IRQ_PIN)
        &&& info.caps == got(walk_caps_spec(bdf, ops.skip(7)))
        &&& info.secondary_bus == rf_sec(bdf, ops)
        &&& info.bars@ == got(bars_from(bdf, rest.skip(kb), 0, spec_bar_slots(info.header) as nat, no_bars()))
    }
}

/// The BAR probes count between none and all of `ops`.
pub proof fn lemma_bars_from_len(bdf: Bdf, ops: Seq<CfgOp>, i: nat, n: nat, bars: Seq<Bar>)
    requires
        bars_from(bdf, ops, i, n, bars) is Some,
    ensures
        0 <= taken(bars_from(bdf, ops, i, n, bars)) <= ops.len(),
    decreases 8 - i,
{
    if !(i >= n || i >= 6) {
        let k = probe_len(i as u8, ops);
        let res = probe_result(i as u8, ops.take(k));
        let b2 = bars.update(i as int, res.0);
        let nb = if res.1 {
            if i + 1 < 6 {
                b2.update(i + 1int, bar_none())
            } else {
                b2
            }
        } else {
            b2
        };
        let ni: nat = if res.1 { i + 2 } else { i + 1 };
        lemma_bars_from_len(bdf, ops.skip(k), ni, n, nb);
    }
}

/// The BAR probes read only the accesses they count.
pub proof fn lemma_bars_from_prefix(bdf: Bdf, ops: Seq<CfgOp>, ops2: Seq<CfgOp>, i: nat, n: nat, bars: Seq<Bar>)
    requires
        bars_from(bdf, ops, i, n, bars) is Some,
        taken(bars_from(bdf, ops, i, n, bars)) <= ops2.len(),
        ops2.take(taken(bars_from(bdf, ops, i, n, bars))) == ops.take(taken(bars_from(bdf, ops, i, n, bars))),
    ensures
        0 <= taken(bars_from(bdf, ops, i, n, bars)) <= ops.len(),
        bars_from(bdf, ops2, i, n, bars) == bars_from(bdf, ops, i, n, bars),
    decreases 8 - i,
{
    if !(i >= n || i >= 6) {
        let k = probe_len(i as u8, ops);
        let res = probe_result(i as u8, ops.take(k));
        let b2 = bars.update(i as int, res.0);
        let nb = if res.1 {
            if i + 1 < 6 {
                b2.update(i + 1int, bar_none())
            } else {
                b2
            }
        } else {
            b2
        };
        let ni: nat = if res.1 { i + 2 } else { i + 1 };
        let t = taken(bars_from(bdf, ops, i, n, bars));
        lemma_bars_from_len(bdf, ops.skip(k), ni, n, nb);
        assert(t == k + taken(bars_from(bdf, ops.skip(k), ni, n, nb)));
        assert(ops2[0] == ops2.take(t)[0] && ops[0] == ops.take(t)[0]);
        assert(probe_len(i as u8, ops2) == k);
        assert(ops2.take(k) =~= ops.take(k)) by {
            assert forall|x: int| 0 <= x < k implies #[trigger] ops2.take(k)[x] == ops.take(k)[x] by {
                assert(ops2.take(t)[x] == ops.take(t)[x]);
            }
        }
        let a2 = ops2.skip(k).take(t - k);
        let b2s = ops.skip(k).take(t - k);
        assert(a2 =~= b2s) by {
            assert forall|x: int| 0 <= x < t - k implies #[trigger] a2[x] == b2s[x] by {
                assert(ops2.take(t)[x + k] == ops.take(t)[x + k]);
            }
        }
        lemma_bars_from_prefix(bdf, ops.skip(k), ops2.skip(k), ni, n, nb);
    }
}

/// The capability walk counts at least its STATUS read and at most all
/// of `ops`.
pub proof fn lemma_walk_caps_len(bdf: Bdf, ops: Seq<CfgOp>)
    requires
        walk_caps_spec(bdf, ops) is Some,
    ensures
        1 <= taken(walk_caps_spec(bdf, ops)) <= ops.len(),
{
    if field16(op_value(ops[0]), CFG_STATUS) & STATUS_CAPS != 0 {
        lemma_walk_from_len(bdf, ops.skip(2), field8(op_value(ops[1]), CFG_CAP_PTR), MAX_CAP_WALK as nat, capset_empty());
    }
}

/// `read_function` reads only the accesses it counts: on anything that
/// starts with them it reads the same, and finds the same header and
/// secondary bus.
pub proof fn lemma_rf_prefix(bdf: Bdf, ops: Seq<CfgOp>, ops2: Seq<CfgOp>)
    requires
        rf_reads(bdf, ops) is Some,
        taken(rf_reads(bdf, ops)) <= ops2.len(),
        ops2.take(taken(rf_reads(bdf, ops))) == ops.take(taken(rf_reads(bdf, ops))),
    ensures
        1 <= taken(rf_reads(bdf, ops)) <= ops.len(),
        rf_reads(bdf, ops2) == rf_reads(bdf, ops),
        got(rf_reads(bdf, ops)) ==> rf_header(ops2) == rf_header(ops) && rf_sec(bdf, ops2) == rf_sec(bdf, ops),
{
    let k = taken(rf_reads(bdf, ops));
    if !vendor_valid(field16(op_value(ops[0]), CFG_VENDOR)) {
        assert(k == 1);
        assert(ops2[0] == ops2.take(k)[0] && ops[0] == ops.take(k)[0]);
    } else {
        let w = walk_caps_spec(bdf, ops.skip(7));
        lemma_walk_caps_len(bdf, ops.skip(7));
        let kw = taken(w);
        let rest = rf_tail(bdf, ops);
        let bridge = header_is_bridge(rf_header(ops));
        let kb: int = if bridge { 1 } else { 0 };
        let bs = bars_from(bdf, rest.skip(kb), 0, spec_bar_slots(rf_header(ops)) as nat, no_bars());
        lemma_bars_from_len(bdf, rest.skip(kb), 0, spec_bar_slots(rf_header(ops)) as nat, no_bars());
        assert(k == 7 + kw + kb + taken(bs));
        assert forall|x: int| 0 <= x < k implies #[trigger] ops2[x] == ops[x] by {
            assert(ops2.take(k)[x] == ops.take(k)[x]);
        }
        assert(ops2[1] == ops[1] && ops2[2] == ops[2] && ops2[3] == ops[3] && ops2[4] == ops[4]);
        assert(ops2[5] == ops[5] && ops2[6] == ops[6]);
        let w2s = ops2.skip(7).take(kw);
        let w1s = ops.skip(7).take(kw);
        assert(w2s =~= w1s) by {
            assert forall|x: int| 0 <= x < kw implies #[trigger] w2s[x] == w1s[x] by {
                assert(ops2[x + 7] == ops[x + 7]);
            }
        }
        lemma_walk_caps_prefix(bdf, ops.skip(7), ops2.skip(7));
        let rest2 = rf_tail(bdf, ops2);
        assert(rest2 == ops2.skip(7 + kw));
        if bridge {
            assert(rest2[0] == ops2[7 + kw] && rest[0] == ops[7 + kw]);
        }
        let tb = taken(bs);
        let r2s = rest2.skip(kb).take(tb);
        let r1s = rest.skip(kb).take(tb);
        assert(r2s =~= r1s) by {
            assert forall|x: int| 0 <= x < tb implies #[trigger] r2s[x] == r1s[x] by {
                assert(ops2[x + 7 + kw + kb] == ops[x + 7 + kw + kb]);
            }
        }
        lemma_bars_from_prefix(bdf, rest.skip(kb), rest2.skip(kb), 0, spec_bar_slots(rf_header(ops)) as nat, no_bars());
    }
}

/// What is left of the BAR probes begun at slot 0 once `done` accesses
/// have been made.
spec fn probed(bdf: Bdf, done: Seq<CfgOp>, rest: Seq<CfgOp>, n: nat) -> Option<(Seq<Bar>, int)> {
    bars_from(bdf, done + rest, 0, n, no_bars())
}

/// Read the header, BARs and capabilities of `bdf`, or `None` where no
/// function answers there.
#[verifier::rlimit(60)]
pub fn read_function<C: CfgIo>(cfg: &mut Traced<C>, bdf: Bdf) -> (r: Option<FuncInfo>)
    ensures
        extends(*old(cfg), *final(cfg)),
        read_function_ok(bdf, new_ops(*old(cfg), *final(cfg)), r),
        r matches Some(info) ==> func_info_ok(info, bdf),
{
    let ghost l0 = cfg.log@;
    if !present(cfg, bdf) {
        assert(cfg.log@.skip(l0.len() as int) =~= seq![cfg.log@.last()]);
        return None;
    }
    let ghost o0 = cfg.log@.last();
    let vendor = vendor_id(cfg, bdf);
    let ghost o1 = cfg.log@.last();
    let device = device_id(cfg, bdf);
    let ghost o2 = cfg.log@.last();
    let class_dw = cfg.read32(bdf, CFG_REVID_CLASS);
    let ghost o3 = cfg.log@.last();
    let header = read8(cfg, bdf, CFG_HEADER_TYPE);
    let ghost o4 = cfg.log@.last();
    let irq_line = read8(cfg, bdf, CFG_IRQ_LINE);
    let ghost o5 = cfg.log@.last();
    let irq_pin = read8(cfg, bdf, CFG_IRQ_PIN);
    let ghost o6 = cfg.log@.last();
    let ghost l7 = cfg.log@;
    assert(l7 =~= l0 + seq![o0, o1, o2, o3, o4, o5, o6]);
    let caps = walk_caps(cfg, bdf);
    let ghost lw = cfg.log@;
    let none = Bar::none();
    let mut info = FuncInfo {
        bdf,
        vendor,
        device,
        revision: (class_dw & 0xFF) as u8,
        prog_if: ((class_dw >> 8u32) & 0xFF) as u8,
        subclass: ((class_dw >> 16u32) & 0xFF) as u8,
        class: ((class_dw >> 24u32) & 0xFF) as u8,
        header,
        irq_line,
        irq_pin,
        secondary_bus: 0,
        bars: [none, none, none, none, none, none],
        caps,
    };
    assert(class_fields(info, class_dw));
    assert(forall|k: int| 0 <= k < 6 ==> info.bars[k] == bar_none());
    let ghost lpre = cfg.log@;
    if info.is_bridge() {
        info.secondary_bus = read8(cfg, bdf, CFG_SEC_BUS);
    }
    let ghost lb = cfg.log@;
    proof {
        if header_is_bridge(info.header) {
            assert(lb == lpre.push(lb.last()));
            assert(is_read_at(lb.last(), bdf, aligned(CFG_SEC_BUS)));
            assert(info.secondary_bus == field8(op_value(lb.last()), CFG_SEC_BUS));
        } else {
            assert(lb == lpre);
            assert(info.secondary_bus == 0);
        }
    }
    let ghost sec0 = info.secondary_bus;
    let n_bars = bar_slots(info.header);
    let ghost nb = n_bars as nat;
    proof {
        assert(info.bars@ =~= no_bars());
        assert forall|rest: Seq<CfgOp>| #[trigger] probed(bdf, lb.skip(lb.len() as int), rest, nb) == shifted(bars_from(
            bdf,
            rest,
            0,
            nb,
            info.bars@,
        ), 0) by {
            assert(lb.skip(lb.len() as int) + rest =~= rest);
        }
    }
    let mut i = 0u8;
    while i < n_bars
        invariant
            n_bars == spec_bar_slots(info.header),
            nb == n_bars as nat,
            n_bars <= 6,
            i <= 7,
            info.bdf == bdf,
            class_fields(info, class_dw),
            !header_is_bridge(info.header) ==> info.secondary_bus == 0,
            forall|k: int| n_bars <= k < 6 ==> info.bars[k] == bar_none(),
            caps_in_range(info.caps),
            info.caps == caps,
            info.vendor == vendor,
            info.device == device,
            info.header == header,
            info.irq_line == irq_line,
            info.irq_pin == irq_pin,
            info.secondary_bus == sec0,
            lb.is_prefix_of(cfg.log@),
            forall|rest: Seq<CfgOp>| #[trigger] probed(bdf, cfg.log@.skip(lb.len() as int), rest, nb) == shifted(bars_from(
                bdf,
                rest,
                i as nat,
                nb,
                info.bars@,
            ), cfg.log@.len() - lb.len()),
        decreases 8 - i,
    {
        let ghost before = cfg.log@.skip(lb.len() as int);
        let ghost b0 = info.bars@;
        let ghost lp = cfg.log@;
        let ghost i0 = i;
        let (bar, wide) = probe_bar(cfg, bdf, i);
        let ghost p = cfg.log@.skip(lp.len() as int);
        info.bars[i as usize] = bar;
        if wide {
            if (i as usize) + 1 < MAX_BARS {
                info.bars[(i as usize) + 1] = Bar::none();
            }
            i = i.saturating_add(2);
        } else {
            i = i.saturating_add(1);
        }
        proof {
            let now = cfg.log@.skip(lb.len() as int);
            assert(now =~= before + p);
            assert(p.len() == 4 || p.len() == 8);
            assert forall|rest: Seq<CfgOp>| #[trigger] probed(bdf, now, rest, nb) == shifted(bars_from(
                bdf,
                rest,
                i as nat,
                nb,
                info.bars@,
            ), now.len() as int) by {
                let pr = p + rest;
                assert(now + rest =~= before + pr);
                assert(probed(bdf, before, pr, nb) == shifted(bars_from(bdf, pr, i0 as nat, nb, b0), before.len() as int));
                assert(pr[0] == p[0]);
                assert(probe_len(i0, pr) == probe_len(i0, p));
                assert(pr.take(p.len() as int) =~= p);
                assert(pr.skip(p.len() as int) =~= rest);
                if wide && (i0 as usize) + 1 < MAX_BARS {
                    assert(info.bars@ =~= b0.update(i0 as int, bar).update(i0 + 1, bar_none()));
                } else {
                    assert(info.bars@ =~= b0.update(i0 as int, bar));
                }
            }
        }
    }
    proof {
        let now = cfg.log@.skip(lb.len() as int);
        assert(probed(bdf, now, Seq::empty(), nb) == Some((info.bars@, now.len() as int)));
        assert(now + Seq::<CfgOp>::empty() =~= now);
        let ops = cfg.log@.skip(l0.len() as int);
        let k = lw.len() - l0.len();
        assert(l7.is_prefix_of(lw));
        assert(lw.is_prefix_of(lb));
        assert(lb.is_prefix_of(cfg.log@));
        assert(cfg.log@.take(l7.len() as int) == l7);
        let seven = seq![o0, o1, o2, o3, o4, o5, o6];
        assert forall|j: int| 0 <= j < 7 implies #[trigger] ops[j] == seven[j] by {
            assert(cfg.log@[l0.len() + j] == cfg.log@.take(l7.len() as int)[l0.len() + j]);
            assert(l7[l0.len() + j] == seven[j]);
        }
        assert(cfg.log@.take(lw.len() as int) == lw);
        let wops = lw.skip(l7.len() as int);
        assert(walk_caps_spec(bdf, wops) == Some((info.caps, wops.len() as int)));
        assert(ops.skip(7).take(wops.len() as int) =~= wops);
        assert(wops.take(wops.len() as int) =~= wops);
        lemma_walk_caps_prefix(bdf, wops, ops.skip(7));
        assert(walk_caps_spec(bdf, ops.skip(7)) == Some((info.caps, wops.len() as int)));
        let rest = ops.skip(k);
        assert(rf_tail(bdf, ops) =~= rest);
        assert(cfg.log@.take(lb.len() as int) == lb);
        if header_is_bridge(info.header) {
            assert(rest[0] == lb.last());
            assert(rest.skip(1) =~= now);
        } else {
            assert(rest =~= now);
        }
        assert(ops[0] == o0 && ops[1] == o1 && ops[2] == o2 && ops[3] == o3);
        assert(ops[4] == o4 && ops[5] == o5 && ops[6] == o6);
        assert(op_value(o3) == class_dw);
        assert(fixed_reads_ok(bdf, ops));
        assert(rf_header(ops) == info.header);
        assert(rf_sec(bdf, ops) == info.secondary_bus);
        let kb: int = if header_is_bridge(info.header) { 1 } else { 0 };
        assert(rest.skip(kb) =~= now);
        assert(nb == spec_bar_slots(rf_header(ops)) as nat);
        assert(bars_from(bdf, rest.skip(kb), 0, nb, no_bars()) == Some((info.bars@, now.len() as int)));
        assert(rest.len() == kb + now.len());
        assert(vendor_valid(field16(op_value(ops[0]), CFG_VENDOR)));
        assert(rf_reads(bdf, ops) == Some((true, ops.len() as int)));
        assert(read_function_ok(bdf, ops, Some(info)));
    }
    assert(func_info_ok(info, bdf));
    Some(info)
}


/// Bus `b` is marked in the 256-bit set `seen`.
pub open spec fn bus_seen(seen: [u64; 4], b: u8) -> bool {
    seen[(b / 64) as int] & (1u64 << ((b % 64) as u64)) != 0
}

/// The buses marked in `seen`.
pub open spec fn seen_set(seen: [u64; 4]) -> Set<int> {
    Set::new(|b: int| 0 <= b < 256 && bus_seen(seen, b as u8))
}

proof fn lemma_or_bit(w: u64, j: u64, k: u64)
    requires
        j < 64,
        k < 64,
    ensures
        ((w | (1u64 << k)) & (1u64 << j) != 0) == ((w & (1u64 << j) != 0) || j == k),
{
    assert(((w | (1u64 << k)) & (1u64 << j) != 0) == ((w & (1u64 << j) != 0) || j == k))
        by (bit_vector)
        requires
            j < 64,
            k < 64,
    ;
}

proof fn lemma_seen_bounded(seen: [u64; 4])
    ensures
        seen_set(seen).finite(),
        seen_set(seen).len() <= 256,
{
    vstd::set_lib::lemma_int_range(0, 256);
    vstd::set_lib::lemma_len_subset(seen_set(seen), vstd::set_lib::set_int_range(0, 256));
}

/// Mark `bus` in `seen`; true if it was marked already.
fn bus_bit(seen: &mut [u64; 4], bus: u8) -> (r: bool)
    ensures
        r == bus_seen(*old(seen), bus),
        forall|b: u8| #[trigger] bus_seen(*final(seen), b) == (bus_seen(*old(seen), b) || b == bus),
{
    let i = (bus / 64) as usize;
    let bit = 1u64 << (bus % 64);
    if seen[i] & bit != 0 {
        true
    } else {
        seen[i] = seen[i] | bit;
        proof {
            assert forall|b: u8| #[trigger] bus_seen(*seen, b) == (bus_seen(*old(seen), b) || b == bus) by {
                if (b / 64) as usize == i {
                    lemma_or_bit(old(seen)[i as int], (b % 64) as u64, (bus % 64) as u64);
                }
            }
        }
        false
    }
}

/// What a scan from some point of the log on comes to: the functions it
/// found, each as its address and the stretch of accesses (from, to) that
/// read it, the buses marked seen, the entry count, and the accesses used.
pub ghost struct ScanOut {
    pub found: Seq<(Bdf, int, int)>,
    pub seen: Set<int>,
    pub n: int,
    pub used: int,
}

/// The stretches of `f` moved `d` accesses on.
pub open spec fn moved(f: Seq<(Bdf, int, int)>, d: int) -> Seq<(Bdf, int, int)> {
    f.map_values(|e: (Bdf, int, int)| (e.0, e.1 + d, e.2 + d))
}

/// A scan result that starts `d` accesses later, after the functions `pre`.
pub open spec fn scan_shift(o: Option<ScanOut>, d: int, pre: Seq<(Bdf, int, int)>) -> Option<ScanOut> {
    match o {
        Some(r) => Some(ScanOut { found: pre + moved(r.found, d), seen: r.seen, n: r.n, used: r.used + d }),
        None => None,
    }
}

/// What scanning `bus` reads from the front of `ops`, with `seen` marked
/// already, `n` entries taken and room for `cap`: a bus seen already is
/// skipped; else it is marked and its devices are scanned. `None` when the
/// accesses are not exactly those of the scan. `fuel` bounds the nesting.
pub open spec fn scan_bus_spec(ops: Seq<CfgOp>, bus: u8, seen: Set<int>, n: int, cap: int, fuel: nat) -> Option<ScanOut>
    decreases fuel, 1int, 0int, 0int,
{
    if seen.contains(bus as int) {
        Some(ScanOut { found: Seq::empty(), seen, n, used: 0 })
    } else {
        bus_step(ops, bus, seen.insert(bus as int), n, cap, fuel, 0, -1, 1)
    }
}

/// The rest of the scan of `bus` from device `dev`, function `func` on
/// (`func` below 0: the device's presence read is next), for a device
/// with `max_fn` functions. Each device 0..32 is probed by its function 0
/// vendor read, and the header read tells a multi-function device; each
/// of its functions is read by `read_function` until the entries run out,
/// which ends the scan of this bus. A bridge with a secondary bus that is
/// neither 0 nor this bus is scanned first before the next function.
pub open spec fn bus_step(
    ops: Seq<CfgOp>,
    bus: u8,
    seen: Set<int>,
    n: int,
    cap: int,
    fuel: nat,
    dev: int,
    func: int,
    max_fn: int,
) -> Option<ScanOut>
    decreases fuel, 0int, 32 - dev, 9 - func,
{
    if dev < 0 || dev >= 32 || func > 8 {
        Some(ScanOut { found: Seq::empty(), seen, n, used: 0 })
    } else if func < 0 {
        let b0 = Bdf { segment: 0, bus, device: dev as u8, function: 0 };
        if ops.len() >= 1 && is_read_at(ops[0], b0, aligned(CFG_VENDOR)) {
            if vendor_valid(field16(op_value(ops[0]), CFG_VENDOR)) {
                if ops.len() >= 2 && is_read_at(ops[1], b0, aligned(CFG_HEADER_TYPE)) {
                    let mf: int = if field8(op_value(ops[1]), CFG_HEADER_TYPE) & HEADER_MULTI != 0 { 8 } else { 1 };
                    scan_shift(bus_step(ops.skip(2), bus, seen, n, cap, fuel, dev, 0, mf), 2, Seq::empty())
                } else {
                    None
                }
            } else {
                scan_shift(bus_step(ops.skip(1), bus, seen, n, cap, fuel, dev + 1, -1, 1), 1, Seq::empty())
            }
        } else {
            None
        }
    } else if func >= max_fn {
        bus_step(ops, bus, seen, n, cap, fuel, dev + 1, -1, 1)
    } else if n >= cap {
        Some(ScanOut { found: Seq::empty(), seen, n, used: 0 })
    } else {
        let bdf = Bdf { segment: 0, bus, device: dev as u8, function: func as u8 };
        let rf = rf_reads(bdf, ops);
        if rf is None {
            None
        } else {
            let k = taken(rf);
            if !got(rf) {
                scan_shift(bus_step(ops.skip(k), bus, seen, n, cap, fuel, dev, func + 1, max_fn), k, Seq::empty())
            } else {
                let sec = rf_sec(bdf, ops);
                let entry = seq![(bdf, 0int, k)];
                if header_is_bridge(rf_header(ops)) && sec != 0 && sec != bus {
                    let f2 = 257 - seen.len();
                    if 0 <= f2 < fuel {
                        let sub = scan_bus_spec(ops.skip(k), sec, seen, n + 1, cap, f2 as nat);
                        match sub {
                            Some(sr) => scan_shift(
                                scan_shift(
                                    bus_step(ops.skip(k + sr.used), bus, sr.seen, sr.n, cap, fuel, dev, func + 1, max_fn),
                                    sr.used,
                                    sr.found,
                                ),
                                k,
                                entry,
                            ),
                            None => None,
                        }
                    } else {
                        None
                    }
                } else {
                    scan_shift(bus_step(ops.skip(k), bus, seen, n + 1, cap, fuel, dev, func + 1, max_fn), k, entry)
                }
            }
        }
    }
}

/// Shifting twice is shifting once by the sum, after both prefixes.
pub proof fn lemma_scan_shift_twice(o: Option<ScanOut>, d1: int, p1: Seq<(Bdf, int, int)>, d2: int, p2: Seq<(Bdf, int, int)>)
    ensures
        scan_shift(scan_shift(o, d1, p1), d2, p2) == scan_shift(o, d1 + d2, p2 + moved(p1, d2)),
{
    if o is Some {
        let r = o->0;
        let a = p2 + moved(p1 + moved(r.found, d1), d2);
        let b = p2 + moved(p1, d2) + moved(r.found, d1 + d2);
        assert(a =~= b);
    }
}

/// Entry `e` of a scan over `ops` is the stretch that read `info`.
pub open spec fn entry_ok(ops: Seq<CfgOp>, e: (Bdf, int, int), info: FuncInfo) -> bool {
    &&& 0 <= e.1 <= e.2 <= ops.len()
    &&& info.bdf == e.0
    &&& read_function_ok(e.0, ops.subrange(e.1, e.2), Some(info))
}

/// Stretches of a log stay what they were as the log grows.
proof fn lemma_entries_grow(ops: Seq<CfgOp>, ops2: Seq<CfgOp>, f: Seq<(Bdf, int, int)>, out: Seq<FuncInfo>, base: int)
    requires
        ops.is_prefix_of(ops2),
        forall|t: int| 0 <= t < f.len() ==> entry_ok(ops, #[trigger] f[t], out[base + t]),
    ensures
        forall|t: int| 0 <= t < f.len() ==> entry_ok(ops2, #[trigger] f[t], out[base + t]),
{
    assert forall|t: int| 0 <= t < f.len() implies entry_ok(ops2, #[trigger] f[t], out[base + t]) by {
        let e = f[t];
        assert(entry_ok(ops, e, out[base + t]));
        let a = ops2.subrange(e.1, e.2);
        let b = ops.subrange(e.1, e.2);
        assert(a =~= b) by {
            assert forall|y: int| 0 <= y < e.2 - e.1 implies #[trigger] a[y] == b[y] by {
                assert(ops[e.1 + y] == ops2.subrange(0, ops.len() as int)[e.1 + y]);
            }
        }
    }
}

/// Stretches move along when accesses come before them.
proof fn lemma_entries_shift(p: Seq<CfgOp>, q: Seq<CfgOp>, f: Seq<(Bdf, int, int)>, out: Seq<FuncInfo>, base: int)
    requires
        forall|t: int| 0 <= t < f.len() ==> entry_ok(q, #[trigger] f[t], out[base + t]),
    ensures
        forall|t: int| 0 <= t < f.len() ==> entry_ok(p + q, #[trigger] moved(f, p.len() as int)[t], out[base + t]),
{
    assert forall|t: int| 0 <= t < f.len() implies entry_ok(p + q, #[trigger] moved(f, p.len() as int)[t], out[base + t]) by {
        let e = f[t];
        assert(entry_ok(q, e, out[base + t]));
        let m = moved(f, p.len() as int)[t];
        assert(m == (e.0, e.1 + p.len(), e.2 + p.len()));
        assert((p + q).subrange(m.1, m.2) =~= q.subrange(e.1, e.2));
    }
}

/// What is left of a bus scan begun with `s1` marked once `d` accesses
/// have been made.
spec fn scan_from(bus: u8, s1: Set<int>, n0: int, cap: int, fuel: nat, d: Seq<CfgOp>, rest: Seq<CfgOp>) -> Option<ScanOut> {
    bus_step(d + rest, bus, s1, n0, cap, fuel, 0, -1, 1)
}

/// A scan state: what is left of the scan of `bus` after `d` is the rest
/// from device `dev`, function `func`, behind the functions `f`.
spec fn scan_at(
    bus: u8,
    s1: Set<int>,
    n0: int,
    cap: int,
    fuel: nat,
    d: Seq<CfgOp>,
    f: Seq<(Bdf, int, int)>,
    seen: Set<int>,
    n: int,
    dev: int,
    func: int,
    max_fn: int,
) -> bool {
    forall|rest: Seq<CfgOp>| #[trigger] scan_from(bus, s1, n0, cap, fuel, d, rest) == scan_shift(
        bus_step(rest, bus, seen, n, cap, fuel, dev, func, max_fn),
        d.len() as int,
        f,
    )
}

/// Moving on by `ops` accesses that the step from (`dev`, `func`) reads.
proof fn lemma_scan_advance(
    bus: u8,
    s1: Set<int>,
    n0: int,
    cap: int,
    fuel: nat,
    d: Seq<CfgOp>,
    f: Seq<(Bdf, int, int)>,
    seen: Set<int>,
    n: int,
    dev: int,
    func: int,
    max_fn: int,
    ops: Seq<CfgOp>,
    pre: Seq<(Bdf, int, int)>,
    seen2: Set<int>,
    n2: int,
    dev2: int,
    func2: int,
    max_fn2: int,
)
    requires
        scan_at(bus, s1, n0, cap, fuel, d, f, seen, n, dev, func, max_fn),
        forall|rest: Seq<CfgOp>| #[trigger] bus_step(ops + rest, bus, seen, n, cap, fuel, dev, func, max_fn) == scan_shift(
            bus_step(rest, bus, seen2, n2, cap, fuel, dev2, func2, max_fn2),
            ops.len() as int,
            pre,
        ),
    ensures
        scan_at(bus, s1, n0, cap, fuel, d + ops, f + moved(pre, d.len() as int), seen2, n2, dev2, func2, max_fn2),
{
    assert forall|rest: Seq<CfgOp>| #[trigger] scan_from(bus, s1, n0, cap, fuel, d + ops, rest) == scan_shift(
        bus_step(rest, bus, seen2, n2, cap, fuel, dev2, func2, max_fn2),
        (d + ops).len() as int,
        f + moved(pre, d.len() as int),
    ) by {
        assert((d + ops) + rest =~= d + (ops + rest));
        assert(scan_from(bus, s1, n0, cap, fuel, d, ops + rest) == scan_shift(
            bus_step(ops + rest, bus, seen, n, cap, fuel, dev, func, max_fn),
            d.len() as int,
            f,
        ));
        lemma_scan_shift_twice(
            bus_step(rest, bus, seen2, n2, cap, fuel, dev2, func2, max_fn2),
            ops.len() as int,
            pre,
            d.len() as int,
            f,
        );
    }
}

/// Shifting by nothing after no functions changes nothing.
proof fn lemma_scan_shift_zero(o: Option<ScanOut>)
    ensures
        scan_shift(o, 0, Seq::empty()) == o,
{
    if o is Some {
        assert(Seq::<(Bdf, int, int)>::empty() + moved(o->0.found, 0) =~= o->0.found);
    }
}

/// The scan steps past a device whose function 0 does not answer.
proof fn lemma_step_absent(ops: Seq<CfgOp>, a: CfgOp, bus: u8, seen: Set<int>, n: int, cap: int, fuel: nat, dev: int, max_fn: int)
    requires
        ops == seq![a],
        0 <= dev < 32,
        is_read_at(a, Bdf { segment: 0, bus, device: dev as u8, function: 0 }, aligned(CFG_VENDOR)),
        !vendor_valid(field16(op_value(a), CFG_VENDOR)),
    ensures
        forall|rest: Seq<CfgOp>| #[trigger] bus_step(ops + rest, bus, seen, n, cap, fuel, dev, -1, max_fn) == scan_shift(
            bus_step(rest, bus, seen, n, cap, fuel, dev + 1, -1, 1),
            1,
            Seq::empty(),
        ),
{
    assert forall|rest: Seq<CfgOp>| #[trigger] bus_step(ops + rest, bus, seen, n, cap, fuel, dev, -1, max_fn)
        == scan_shift(bus_step(rest, bus, seen, n, cap, fuel, dev + 1, -1, 1), 1, Seq::empty()) by {
        let o = ops + rest;
        assert(o[0] == a);
        assert(o.skip(1) =~= rest);
    }
}

/// The scan reads the header of a device that answers, and learns how
/// many functions to read.
proof fn lemma_step_present(ops: Seq<CfgOp>, a: CfgOp, b: CfgOp, bus: u8, seen: Set<int>, n: int, cap: int, fuel: nat, dev: int, max_fn: int)
    requires
        ops == seq![a, b],
        0 <= dev < 32,
        is_read_at(a, Bdf { segment: 0, bus, device: dev as u8, function: 0 }, aligned(CFG_VENDOR)),
        vendor_valid(field16(op_value(a), CFG_VENDOR)),
        is_read_at(b, Bdf { segment: 0, bus, device: dev as u8, function: 0 }, aligned(CFG_HEADER_TYPE)),
    ensures
        forall|rest: Seq<CfgOp>| #[trigger] bus_step(ops + rest, bus, seen, n, cap, fuel, dev, -1, max_fn)
            == scan_shift(
            bus_step(
                rest,
                bus,
                seen,
                n,
                cap,
                fuel,
                dev,
                0,
                if field8(op_value(b), CFG_HEADER_TYPE) & HEADER_MULTI != 0 {
                    8
                } else {
                    1
                },
            ),
            2,
            Seq::empty(),
        ),
{
    assert forall|rest: Seq<CfgOp>| #[trigger] bus_step(ops + rest, bus, seen, n, cap, fuel, dev, -1, max_fn)
        == scan_shift(
        bus_step(
            rest,
            bus,
            seen,
            n,
            cap,
            fuel,
            dev,
            0,
            if field8(op_value(b), CFG_HEADER_TYPE) & HEADER_MULTI != 0 {
                8
            } else {
                1
            },
        ),
        2,
        Seq::empty(),
    ) by {
        let o = ops + rest;
        assert(o[0] == a && o[1] == b);
        assert(o.skip(2) =~= rest);
    }
}

/// Past its last function the scan moves to the next device.
proof fn lemma_step_next_dev(bus: u8, seen: Set<int>, n: int, cap: int, fuel: nat, dev: int, func: int, max_fn: int)
    requires
        0 <= dev < 32,
        0 <= max_fn <= func <= 8,
    ensures
        forall|rest: Seq<CfgOp>| #[trigger] bus_step(Seq::<CfgOp>::empty() + rest, bus, seen, n, cap, fuel, dev, func, max_fn)
            == scan_shift(bus_step(rest, bus, seen, n, cap, fuel, dev + 1, -1, 1), 0, Seq::empty()),
{
    assert forall|rest: Seq<CfgOp>| #[trigger] bus_step(Seq::<CfgOp>::empty() + rest, bus, seen, n, cap, fuel, dev, func, max_fn)
        == scan_shift(bus_step(rest, bus, seen, n, cap, fuel, dev + 1, -1, 1), 0, Seq::empty()) by {
        assert(Seq::<CfgOp>::empty() + rest =~= rest);
        lemma_scan_shift_zero(bus_step(rest, bus, seen, n, cap, fuel, dev + 1, -1, 1));
    }
}

/// The scan reads one function with `read_function`; nothing there, or a
/// function that leads to no other bus.
proof fn lemma_step_function(
    r: Seq<CfgOp>,
    bus: u8,
    seen: Set<int>,
    n: int,
    cap: int,
    fuel: nat,
    dev: int,
    func: int,
    max_fn: int,
)
    requires
        0 <= dev < 32,
        0 <= func < max_fn <= 8,
        n < cap,
        rf_reads(Bdf { segment: 0, bus, device: dev as u8, function: func as u8 }, r) is Some,
        taken(rf_reads(Bdf { segment: 0, bus, device: dev as u8, function: func as u8 }, r)) == r.len(),
        !(got(rf_reads(Bdf { segment: 0, bus, device: dev as u8, function: func as u8 }, r)) && header_is_bridge(
            rf_header(r),
        ) && rf_sec(Bdf { segment: 0, bus, device: dev as u8, function: func as u8 }, r) != 0 && rf_sec(
            Bdf { segment: 0, bus, device: dev as u8, function: func as u8 },
            r,
        ) != bus),
    ensures
        ({
            let bdf = Bdf { segment: 0, bus, device: dev as u8, function: func as u8 };
            let f = got(rf_reads(bdf, r));
            forall|rest: Seq<CfgOp>| #[trigger] bus_step(r + rest, bus, seen, n, cap, fuel, dev, func, max_fn) == scan_shift(
                bus_step(rest, bus, seen, if f { n + 1 } else { n }, cap, fuel, dev, func + 1, max_fn),
                r.len() as int,
                if f { seq![(bdf, 0int, r.len() as int)] } else { Seq::empty() },
            )
        }),
{
    let bdf = Bdf { segment: 0, bus, device: dev as u8, function: func as u8 };
    assert forall|rest: Seq<CfgOp>| #[trigger] bus_step(r + rest, bus, seen, n, cap, fuel, dev, func, max_fn) == scan_shift(
        bus_step(rest, bus, seen, if got(rf_reads(bdf, r)) { n + 1 } else { n }, cap, fuel, dev, func + 1, max_fn),
        r.len() as int,
        if got(rf_reads(bdf, r)) { seq![(bdf, 0int, r.len() as int)] } else { Seq::empty() },
    ) by {
        let o = r + rest;
        assert(o.take(r.len() as int) =~= r.take(r.len() as int));
        lemma_rf_prefix(bdf, r, o);
        assert(o.skip(r.len() as int) =~= rest);
    }
}

/// The scan reads a bridge with `read_function` and then scans its
/// secondary bus, which takes the accesses `q`.
proof fn lemma_step_bridge(
    r: Seq<CfgOp>,
    q: Seq<CfgOp>,
    sub: ScanOut,
    bus: u8,
    seen: Set<int>,
    n: int,
    cap: int,
    fuel: nat,
    dev: int,
    func: int,
    max_fn: int,
)
    requires
        0 <= dev < 32,
        0 <= func < max_fn <= 8,
        n < cap,
        0 <= 257 - seen.len() < fuel,
        rf_reads(Bdf { segment: 0, bus, device: dev as u8, function: func as u8 }, r) == Some((true, r.len() as int)),
        header_is_bridge(rf_header(r)),
        rf_sec(Bdf { segment: 0, bus, device: dev as u8, function: func as u8 }, r) != 0,
        rf_sec(Bdf { segment: 0, bus, device: dev as u8, function: func as u8 }, r) != bus,
        sub.used == q.len(),
        forall|rest: Seq<CfgOp>| #[trigger] scan_bus_spec(
            q + rest,
            rf_sec(Bdf { segment: 0, bus, device: dev as u8, function: func as u8 }, r),
            seen,
            n + 1,
            cap,
            (257 - seen.len()) as nat,
        ) == Some(sub),
    ensures
        ({
            let bdf = Bdf { segment: 0, bus, device: dev as u8, function: func as u8 };
            forall|rest: Seq<CfgOp>| #[trigger] bus_step((r + q) + rest, bus, seen, n, cap, fuel, dev, func, max_fn) == scan_shift(
                bus_step(rest, bus, sub.seen, sub.n, cap, fuel, dev, func + 1, max_fn),
                (r + q).len() as int,
                seq![(bdf, 0int, r.len() as int)] + moved(sub.found, r.len() as int),
            )
        }),
{
    let bdf = Bdf { segment: 0, bus, device: dev as u8, function: func as u8 };
    assert forall|rest: Seq<CfgOp>| #[trigger] bus_step((r + q) + rest, bus, seen, n, cap, fuel, dev, func, max_fn)
        == scan_shift(
        bus_step(rest, bus, sub.seen, sub.n, cap, fuel, dev, func + 1, max_fn),
        (r + q).len() as int,
        seq![(bdf, 0int, r.len() as int)] + moved(sub.found, r.len() as int),
    ) by {
        let o = (r + q) + rest;
        assert(o.take(r.len() as int) =~= r.take(r.len() as int));
        lemma_rf_prefix(bdf, r, o);
        assert(o.skip(r.len() as int) =~= q + rest);
        assert(scan_bus_spec(q + rest, rf_sec(bdf, r), seen, n + 1, cap, (257 - seen.len()) as nat) == Some(sub));
        assert(o.skip(r.len() + sub.used) =~= rest);
        lemma_scan_shift_twice(
            bus_step(rest, bus, sub.seen, sub.n, cap, fuel, dev, func + 1, max_fn),
            sub.used,
            sub.found,
            r.len() as int,
            seq![(bdf, 0int, r.len() as int)],
        );
    }
}

/// What `enumerate` promises of each function it lists.
pub open spec fn found_ok(info: FuncInfo) -> bool {
    func_info_ok(info, info.bdf)
}

/// What `enumerate` promises: the accesses `ops` are exactly the scan
/// from `start_bus` with room for `cap` entries, the scan found `r`
/// functions, and entry `t` of `out` is the function read by the `t`-th
/// stretch the scan found.
pub open spec fn enumerate_ok(ops: Seq<CfgOp>, start_bus: u8, cap: int, out: Seq<FuncInfo>, r: int) -> bool {
    let sc = scan_bus_spec(ops, start_bus, Set::empty(), 0, cap, 257);
    &&& sc is Some
    &&& sc->0.used == ops.len()
    &&& sc->0.n == r
    &&& sc->0.found.len() == r
    &&& forall|t: int| 0 <= t < r ==> entry_ok(ops, #[trigger] sc->0.found[t], out[t])
}

/// Recursive scan from `start_bus`. Bridges with a non-zero secondary
/// bus are followed, each bus at most once. Does not assign bus numbers.
/// Fills `out` from the front and returns how many entries it wrote.
pub fn enumerate<C: CfgIo>(cfg: &mut Traced<C>, start_bus: u8, out: &mut [FuncInfo]) -> (r: usize)
    ensures
        final(out)@.len() == old(out)@.len(),
        r <= final(out)@.len(),
        forall|k: int| 0 <= k < r ==> found_ok(#[trigger] final(out)@[k]),
        forall|k: int| r <= k < final(out)@.len() ==> #[trigger] final(out)@[k] == old(out)@[k],
        extends(*old(cfg), *final(cfg)),
        enumerate_ok(new_ops(*old(cfg), *final(cfg)), start_bus, old(out)@.len() as int, final(out)@, r as int),
{
    let mut n = 0usize;
    let mut seen = [0u64; 4];
    proof {
        assert(seen_set(seen) =~= Set::<int>::empty()) by {
            assert forall|b: int| !seen_set(seen).contains(b) by {
                if 0 <= b < 256 {
                    assert(0u64 & (1u64 << ((b as u8 % 64) as u64)) == 0) by (bit_vector);
                }
            }
        }
    }
    let ghost l0 = cfg.log@;
    let found = scan_bus(cfg, start_bus, out, &mut n, &mut seen);
    proof {
        let ops = cfg.log@.skip(l0.len() as int);
        assert(ops + Seq::<CfgOp>::empty() =~= ops);
        assert(scan_bus_spec(ops + Seq::<CfgOp>::empty(), start_bus, Set::<int>::empty(), 0, out@.len() as int, 257) == Some(
            ScanOut { found: found@, seen: seen_set(seen), n: n as int, used: ops.len() as int },
        ));
    }
    n
}

/// Scan `bus` unless it is marked in `seen`: mark it, then probe its 32
/// devices, reading each function that answers into `out` at `n` and
/// following bridges. Stops early once `out` is full.
#[verifier::rlimit(100)]
fn scan_bus<C: CfgIo>(cfg: &mut Traced<C>, bus: u8, out: &mut [FuncInfo], n: &mut usize, seen: &mut [u64; 4]) -> (found: Ghost<
    Seq<(Bdf, int, int)>,
>)
    requires
        *old(n) <= old(out)@.len(),
    ensures
        final(out)@.len() == old(out)@.len(),
        *old(n) <= *final(n) <= final(out)@.len(),
        forall|k: int| 0 <= k < *old(n) ==> #[trigger] final(out)@[k] == old(out)@[k],
        forall|k: int| *old(n) <= k < *final(n) ==> found_ok(#[trigger] final(out)@[k]),
        forall|k: int| *final(n) <= k < final(out)@.len() ==> #[trigger] final(out)@[k] == old(out)@[k],
        seen_set(*old(seen)).subset_of(seen_set(*final(seen))),
        seen_set(*final(seen)).contains(bus as int),
        extends(*old(cfg), *final(cfg)),
        found@.len() == *final(n) - *old(n),
        forall|t: int| 0 <= t < found@.len() ==> entry_ok(
            new_ops(*old(cfg), *final(cfg)),
            #[trigger] found@[t],
            final(out)@[*old(n) + t],
        ),
        forall|rest: Seq<CfgOp>| #[trigger] scan_bus_spec(
            new_ops(*old(cfg), *final(cfg)) + rest,
            bus,
            seen_set(*old(seen)),
            *old(n) as int,
            old(out)@.len() as int,
            (257 - seen_set(*old(seen)).len()) as nat,
        ) == Some(
            ScanOut {
                found: found@,
                seen: seen_set(*final(seen)),
                n: *final(n) as int,
                used: new_ops(*old(cfg), *final(cfg)).len() as int,
            },
        ),
    decreases 256 - seen_set(*old(seen)).len(),
{
    let ghost entry = seen_set(*seen);
    let ghost lg0 = cfg.log@;
    proof {
        lemma_seen_bounded(*seen);
    }
    if bus_bit(seen, bus) {
        proof {
            assert(seen_set(*seen) =~= entry);
            assert(cfg.log@.skip(lg0.len() as int) =~= Seq::<CfgOp>::empty());
            assert forall|rest: Seq<CfgOp>| #[trigger] scan_bus_spec(
                cfg.log@.skip(lg0.len() as int) + rest,
                bus,
                entry,
                *n as int,
                out@.len() as int,
                (257 - entry.len()) as nat,
            ) == Some(ScanOut { found: Seq::empty(), seen: seen_set(*seen), n: *n as int, used: 0 }) by {}
        }
        return Ghost(Seq::empty());
    }
    proof {
        assert(seen_set(*seen) =~= entry.insert(bus as int));
        lemma_seen_bounded(*seen);
    }
    let ghost out0 = out@;
    let ghost n0 = *n;
    let ghost s1 = entry.insert(bus as int);
    let ghost fuel0: nat = (257 - entry.len()) as nat;
    let ghost cap = out@.len() as int;
    let ghost mut fnd: Seq<(Bdf, int, int)> = Seq::empty();
    proof {
        assert forall|rest: Seq<CfgOp>| #[trigger] scan_from(bus, s1, n0 as int, cap, fuel0, cfg.log@.skip(lg0.len() as int), rest)
            == scan_shift(bus_step(rest, bus, seen_set(*seen), *n as int, cap, fuel0, 0, -1, 1), 0, fnd) by {
            assert(cfg.log@.skip(lg0.len() as int) + rest =~= rest);
            lemma_scan_shift_zero(bus_step(rest, bus, seen_set(*seen), *n as int, cap, fuel0, 0, -1, 1));
        }
        assert(scan_at(bus, s1, n0 as int, cap, fuel0, cfg.log@.skip(lg0.len() as int), fnd, seen_set(*seen), *n as int, 0, -1, 1));
    }
    let mut dev = 0u8;
    while dev < 32
        invariant
            out@.len() == out0.len(),
            n0 <= *n <= out@.len(),
            forall|k: int| 0 <= k < n0 ==> #[trigger] out@[k] == out0[k],
            forall|k: int| n0 <= k < *n ==> found_ok(#[trigger] out@[k]),
            forall|k: int| *n <= k < out@.len() ==> #[trigger] out@[k] == out0[k],
            entry.insert(bus as int).subset_of(seen_set(*seen)),
            entry == seen_set(*old(seen)),
            out0 == old(out)@,
            n0 == *old(n),
            entry.finite(),
            entry.len() < 256,
            !entry.contains(bus as int),
            lg0 == old(cfg).log@,
            lg0.is_prefix_of(cfg.log@),
            s1 == entry.insert(bus as int),
            fuel0 == 257 - entry.len(),
            cap == out@.len(),
            fnd.len() == *n - n0,
            forall|t: int| 0 <= t < fnd.len() ==> entry_ok(cfg.log@.skip(lg0.len() as int), #[trigger] fnd[t], out@[n0 + t]),
            scan_at(bus, s1, n0 as int, cap, fuel0, cfg.log@.skip(lg0.len() as int), fnd, seen_set(*seen), *n as int, dev as int, -1, 1),
        decreases 32 - dev,
    {
        let bdf0 = Bdf::new(bus, dev, 0);
        let ghost la = cfg.log@;
        let is_present = present(cfg, bdf0);
        let ghost oa = cfg.log@.last();
        proof {
            assert(cfg.log@ == la.push(oa));
            assert(la.skip(lg0.len() as int).is_prefix_of(cfg.log@.skip(lg0.len() as int)));
            lemma_entries_grow(la.skip(lg0.len() as int), cfg.log@.skip(lg0.len() as int), fnd, out@, n0 as int);
        }
        if is_present {
            let hdr = read8(cfg, bdf0, CFG_HEADER_TYPE);
            let ghost ob = cfg.log@.last();
            let max_fn = if hdr & HEADER_MULTI != 0 { 8u8 } else { 1u8 };
            proof {
                let ops = seq![oa, ob];
                assert(cfg.log@ =~= la + ops);
                assert(cfg.log@.skip(lg0.len() as int) =~= la.skip(lg0.len() as int) + ops);
                lemma_step_present(ops, oa, ob, bus, seen_set(*seen), *n as int, cap, fuel0, dev as int, 1);
                lemma_scan_advance(bus, s1, n0 as int, cap, fuel0, la.skip(lg0.len() as int), fnd, seen_set(*seen), *n as int,
                    dev as int, -1, 1, ops, Seq::empty(), seen_set(*seen), *n as int, dev as int, 0, max_fn as int);
                assert(fnd + moved(Seq::<(Bdf, int, int)>::empty(), la.skip(lg0.len() as int).len() as int) =~= fnd);
                assert(la.skip(lg0.len() as int).is_prefix_of(cfg.log@.skip(lg0.len() as int)));
                lemma_entries_grow(la.skip(lg0.len() as int), cfg.log@.skip(lg0.len() as int), fnd, out@, n0 as int);
            }
            let mut func = 0u8;
            while func < max_fn
                invariant
                    max_fn <= 8,
                    func <= max_fn,
                    dev < 32,
                    out@.len() == out0.len(),
                    n0 <= *n <= out@.len(),
                    forall|k: int| 0 <= k < n0 ==> #[trigger] out@[k] == out0[k],
                    forall|k: int| n0 <= k < *n ==> found_ok(#[trigger] out@[k]),
                    forall|k: int| *n <= k < out@.len() ==> #[trigger] out@[k] == out0[k],
                    entry.insert(bus as int).subset_of(seen_set(*seen)),
                    entry == seen_set(*old(seen)),
                    out0 == old(out)@,
                    n0 == *old(n),
                    entry.finite(),
                    entry.len() < 256,
                    !entry.contains(bus as int),
                    lg0 == old(cfg).log@,
                    lg0.is_prefix_of(cfg.log@),
                    s1 == entry.insert(bus as int),
                    fuel0 == 257 - entry.len(),
                    cap == out@.len(),
                    fnd.len() == *n - n0,
                    forall|t: int| 0 <= t < fnd.len() ==> entry_ok(cfg.log@.skip(lg0.len() as int), #[trigger] fnd[t], out@[n0 + t]),
                    scan_at(bus, s1, n0 as int, cap, fuel0, cfg.log@.skip(lg0.len() as int), fnd, seen_set(*seen), *n as int, dev as int,
                        func as int, max_fn as int),
                decreases 8 - func,
            {
                if *n >= out.len() {
                    proof {
                        let d = cfg.log@.skip(lg0.len() as int);
                        assert forall|rest: Seq<CfgOp>| #[trigger] scan_bus_spec(d + rest, bus, entry, n0 as int, cap, fuel0)
                            == Some(ScanOut { found: fnd, seen: seen_set(*seen), n: *n as int, used: d.len() as int }) by {
                            assert(scan_from(bus, s1, n0 as int, cap, fuel0, d, rest) == scan_shift(
                                bus_step(rest, bus, seen_set(*seen), *n as int, cap, fuel0, dev as int, func as int, max_fn as int),
                                d.len() as int,
                                fnd,
                            ));
                            assert(fnd + moved(Seq::<(Bdf, int, int)>::empty(), d.len() as int) =~= fnd);
                        }
                    }
                    return Ghost(fnd);
                }
                let bdf = Bdf::new(bus, dev, func);
                let ghost lc = cfg.log@;
                let got_fn = read_function(cfg, bdf);
                let ghost r = cfg.log@.skip(lc.len() as int);
                let ghost dc = lc.skip(lg0.len() as int);
                proof {
                    assert(cfg.log@.skip(lg0.len() as int) =~= dc + r);
                    assert(dc.is_prefix_of(cfg.log@.skip(lg0.len() as int)));
                    lemma_entries_grow(dc, cfg.log@.skip(lg0.len() as int), fnd, out@, n0 as int);
                    assert(rf_reads(bdf, r) == Some((got_fn is Some, r.len() as int)));
                }
                match got_fn {
                    Some(info) => {
                        let bridge = info.is_bridge();
                        let sec = info.secondary_bus;
                        let ghost o1 = out@;
                        out[*n] = info;
                        let ghost e: (Bdf, int, int) = (bdf, dc.len() as int, (dc.len() + r.len()) as int);
                        proof {
                            let d2 = cfg.log@.skip(lg0.len() as int);
                            assert(d2.subrange(e.1, e.2) =~= r);
                            assert(entry_ok(d2, e, info));
                            assert forall|t: int| 0 <= t < fnd.len() + 1 implies entry_ok(d2, #[trigger] fnd.push(e)[t], out@[n0 + t]) by {
                                if t < fnd.len() {
                                    assert(fnd.push(e)[t] == fnd[t]);
                                    assert(out@[n0 + t] == o1[n0 + t]);
                                }
                            }
                            assert(seq![(bdf, 0int, r.len() as int)].len() == 1);
                            assert(moved(seq![(bdf, 0int, r.len() as int)], dc.len() as int) =~= seq![e]);
                            assert(fnd + seq![e] =~= fnd.push(e));
                        }
                        *n += 1;
                        if bridge && sec != 0 && sec != bus {
                            proof {
                                lemma_seen_bounded(*seen);
                                vstd::set_lib::lemma_len_subset(entry.insert(bus as int), seen_set(*seen));
                            }
                            let ghost ld = cfg.log@;
                            let ghost o2 = out@;
                            let ghost n2 = *n;
                            let ghost sn = seen_set(*seen);
                            let g = scan_bus(cfg, sec, out, n, seen);
                            proof {
                                let q = cfg.log@.skip(ld.len() as int);
                                let d3 = cfg.log@.skip(lg0.len() as int);
                                assert(d3 =~= dc + (r + q));
                                let sub = ScanOut { found: g@, seen: seen_set(*seen), n: *n as int, used: q.len() as int };
                                lemma_step_bridge(r, q, sub, bus, sn, n2 - 1, cap, fuel0, dev as int, func as int, max_fn as int);
                                lemma_scan_advance(bus, s1, n0 as int, cap, fuel0, dc, fnd, sn, n2 - 1, dev as int, func as int,
                                    max_fn as int, r + q, seq![(bdf, 0int, r.len() as int)] + moved(g@, r.len() as int),
                                    seen_set(*seen), *n as int, dev as int, func + 1, max_fn as int);
                                let fnew = fnd + moved(seq![(bdf, 0int, r.len() as int)] + moved(g@, r.len() as int), dc.len() as int);
                                assert(fnew =~= fnd.push(e) + moved(g@, (dc.len() + r.len()) as int));
                                lemma_entries_grow(ld.skip(lg0.len() as int), d3, fnd.push(e), out@, n0 as int);
                                lemma_entries_shift(dc + r, q, g@, out@, n2 as int);
                                assert(dc + r + q =~= d3);
                                assert forall|t: int| 0 <= t < fnew.len() implies entry_ok(d3, #[trigger] fnew[t], out@[n0 + t]) by {
                                    if t < fnd.len() + 1 {
                                        assert(fnew[t] == fnd.push(e)[t]);
                                        assert(out@[n0 + t] == o2[n0 + t]);
                                    } else {
                                        let u = t - fnd.len() - 1;
                                        assert(fnew[t] == moved(g@, (dc + r).len() as int)[u]);
                                        assert(n0 + t == n2 + u);
                                    }
                                }
                                fnd = fnew;
                            }
                        } else {
                            proof {
                                lemma_step_function(r, bus, seen_set(*seen), (*n - 1) as int, cap, fuel0, dev as int, func as int, max_fn as int);
                                lemma_scan_advance(bus, s1, n0 as int, cap, fuel0, dc, fnd, seen_set(*seen), (*n - 1) as int, dev as int,
                                    func as int, max_fn as int, r, seq![(bdf, 0int, r.len() as int)], seen_set(*seen), *n as int,
                                    dev as int, func + 1, max_fn as int);
                                fnd = fnd.push(e);
                            }
                        }
                    },
                    None => {
                        proof {
                            lemma_step_function(r, bus, seen_set(*seen), *n as int, cap, fuel0, dev as int, func as int, max_fn as int);
                            lemma_scan_advance(bus, s1, n0 as int, cap, fuel0, dc, fnd, seen_set(*seen), *n as int, dev as int,
                                func as int, max_fn as int, r, Seq::empty(), seen_set(*seen), *n as int, dev as int, func + 1,
                                max_fn as int);
                            assert(fnd + moved(Seq::<(Bdf, int, int)>::empty(), dc.len() as int) =~= fnd);
                        }
                    },
                }
                func += 1;
            }
            proof {
                let d = cfg.log@.skip(lg0.len() as int);
                lemma_step_next_dev(bus, seen_set(*seen), *n as int, cap, fuel0, dev as int, func as int, max_fn as int);
                lemma_scan_advance(bus, s1, n0 as int, cap, fuel0, d, fnd, seen_set(*seen), *n as int, dev as int, func as int,
                    max_fn as int, Seq::empty(), Seq::empty(), seen_set(*seen), *n as int, dev + 1, -1, 1);
                assert(d + Seq::<CfgOp>::empty() =~= d);
                assert(fnd + moved(Seq::<(Bdf, int, int)>::empty(), d.len() as int) =~= fnd);
            }
        } else {
            proof {
                let ops = seq![oa];
                assert(cfg.log@ =~= la + ops);
                assert(cfg.log@.skip(lg0.len() as int) =~= la.skip(lg0.len() as int) + ops);
                lemma_step_absent(ops, oa, bus, seen_set(*seen), *n as int, cap, fuel0, dev as int, 1);
                lemma_scan_advance(bus, s1, n0 as int, cap, fuel0, la.skip(lg0.len() as int), fnd, seen_set(*seen), *n as int,
                    dev as int, -1, 1, ops, Seq::empty(), seen_set(*seen), *n as int, dev + 1, -1, 1);
                assert(fnd + moved(Seq::<(Bdf, int, int)>::empty(), la.skip(lg0.len() as int).len() as int) =~= fnd);
            }
        }
        dev += 1;
    }
    proof {
        let d = cfg.log@.skip(lg0.len() as int);
        assert forall|rest: Seq<CfgOp>| #[trigger] scan_bus_spec(d + rest, bus, entry, n0 as int, cap, fuel0)
            == Some(ScanOut { found: fnd, seen: seen_set(*seen), n: *n as int, used: d.len() as int }) by {
            assert(scan_from(bus, s1, n0 as int, cap, fuel0, d, rest) == scan_shift(
                bus_step(rest, bus, seen_set(*seen), *n as int, cap, fuel0, 32, -1, 1),
                d.len() as int,
                fnd,
            ));
            assert(fnd + moved(Seq::<(Bdf, int, int)>::empty(), d.len() as int) =~= fnd);
        }
    }
    Ghost(fnd)
}


pub fn enable_mem_master(cmd: u16) -> (r: u16)
    ensures
        r == cmd | CMD_MEM | CMD_MASTER,
{
    cmd | CMD_MEM | CMD_MASTER
}

/// Class/subclass one-liner for `lspci`. Unknown stays `device`.
pub open spec fn spec_class_name(class: u8, subclass: u8) -> Seq<char> {
    if class == 0x01 && subclass == 0x01 {
        "ide"@
    } else if class == 0x01 && subclass == 0x06 {
        "sata"@
    } else if class == 0x01 {
        "storage"@
    } else if class == 0x02 {
        "ethernet"@
    } else if class == 0x03 && subclass == 0x00 {
        "vga"@
    } else if class == 0x03 {
        "display"@
    } else if class == 0x06 && subclass == 0x00 {
        "host bridge"@
    } else if class == 0x06 && subclass == 0x01 {
        "isa bridge"@
    } else if class == 0x06 && subclass == 0x04 {
        "pci bridge"@
    } else if class == 0x06 {
        "bridge"@
    } else if class == 0x0c && subclass == 0x03 {
        "usb"@
    } else if class == 0x0c && subclass == 0x05 {
        "smbus"@
    } else if class == 0x0c {
        "serial bus"@
    } else {
        "device"@
    }
}

/// Class/subclass one-liner for `lspci`. Unknown stays `device`.
pub fn class_name(class: u8, subclass: u8) -> (r: &'static str)
    ensures
        r@ == spec_class_name(class, subclass),
{
    match (class, subclass) {
        (0x01, 0x01) => "ide",
        (0x01, 0x06) => "sata",
        (0x01, _) => "storage",
        (0x02, _) => "ethernet",
        (0x03, 0x00) => "vga",
        (0x03, _) => "display",
        (0x06, 0x00) => "host bridge",
        (0x06, 0x01) => "isa bridge",
        (0x06, 0x04) => "pci bridge",
        (0x06, _) => "bridge",
        (0x0c, 0x03) => "usb",
        (0x0c, 0x05) => "smbus",
        (0x0c, _) => "serial bus",
        (_, _) => "device",
    }
}

/// Handful of names worth printing. Unknown is `None`.
pub open spec fn spec_friendly_name(vendor: u16, device: u16) -> Option<Seq<char>> {
    if vendor == 0x8086 && device == 0x1237 {
        Some("440FX"@)
    } else if vendor == 0x8086 && device == 0x7000 {
        Some("PIIX3"@)
    } else if vendor == 0x8086 && device == 0x7010 {
        Some("PIIX3 IDE"@)
    } else if vendor == 0x8086 && device == 0x7020 {
        Some("PIIX3 USB"@)
    } else if vendor == 0x8086 && device == 0x7113 {
        Some("PIIX4 ACPI"@)
    } else if vendor == 0x8086 && device == 0x100e {
        Some("e1000"@)
    } else if vendor == 0x8086 && device == 0x10d3 {
        Some("e1000e"@)
    } else if vendor == 0x8086 && device == 0x29c0 {
        Some("Q35"@)
    } else if vendor == 0x8086 && device == 0x2918 {
        Some("ICH9 LPC"@)
    } else if vendor == 0x8086 && device == 0x2922 {
        Some("ICH9 SATA"@)
    } else if vendor == 0x8086 && device == 0x2930 {
        Some("ICH9 SMBus"@)
    } else if vendor == 0x1234 && device == 0x1111 {
        Some("bochs"@)
    } else if vendor == 0x1af4 && device == 0x1000 {
        Some("virtio-net"@)
    } else if vendor == 0x1af4 && device == 0x1001 {
        Some("virtio-blk"@)
    } else if vendor == 0x1af4 && device == 0x1041 {
        Some("virtio-net"@)
    } else if vendor == 0x1af4 && device == 0x1042 {
        Some("virtio-blk"@)
    } else if vendor == 0x1af4 && device == 0x1050 {
        Some("virtio-gpu"@)
    } else {
        None
    }
}

/// Handful of names worth printing. Unknown is `None`.
pub fn friendly_name(vendor: u16, device: u16) -> (r: Option<&'static str>)
    ensures
        (match r {
            Some(n) => spec_friendly_name(vendor, device) == Some(n@),
            None => spec_friendly_name(vendor, device) is None,
        }),
{
    match (vendor, device) {
        (0x8086, 0x1237) => Some("440FX"),
        (0x8086, 0x7000) => Some("PIIX3"),
        (0x8086, 0x7010) => Some("PIIX3 IDE"),
        (0x8086, 0x7020) => Some("PIIX3 USB"),
        (0x8086, 0x7113) => Some("PIIX4 ACPI"),
        (0x8086, 0x100e) => Some("e1000"),
        (0x8086, 0x10d3) => Some("e1000e"),
        (0x8086, 0x29c0) => Some("Q35"),
        (0x8086, 0x2918) => Some("ICH9 LPC"),
        (0x8086, 0x2922) => Some("ICH9 SATA"),
        (0x8086, 0x2930) => Some("ICH9 SMBus"),
        (0x1234, 0x1111) => Some("bochs"),
        (0x1af4, 0x1000) => Some("virtio-net"),
        (0x1af4, 0x1001) => Some("virtio-blk"),
        (0x1af4, 0x1041) => Some("virtio-net"),
        (0x1af4, 0x1042) => Some("virtio-blk"),
        (0x1af4, 0x1050) => Some("virtio-gpu"),
        _ => None,
    }
}

pub(crate) fn push_str(out: &mut Vec<u8>, s: &str)
    ensures
        final(out)@ == old(out)@ + s.spec_bytes(),
{
    let b = s.as_bytes();
    let mut i = 0usize;
    while i < b.len()
        invariant
            i <= b@.len(),
            b@ == s.spec_bytes(),
            out@ == old(out)@ + b@.take(i as int),
        decreases b@.len() - i,
    {
        out.push(b[i]);
        i += 1;
        assert(out@ =~= old(out)@ + b@.take(i as int));
    }
    assert(b@.take(i as int) =~= b@);
}

/// One `lspci` line: `bb:dd.f vvvv:dddd class`, then ` [name]` where the
/// device has a friendly name.
pub open spec fn lspci_text(info: FuncInfo) -> Seq<u8> {
    bdf_text(info.bdf) + seq![0x20u8] + hex4(info.vendor) + seq![0x3Au8] + hex4(info.device)
        + seq![0x20u8] + vstd::utf8::encode_utf8(spec_class_name(info.class, info.subclass))
        + match spec_friendly_name(info.vendor, info.device) {
        Some(n) => seq![0x20u8, 0x5Bu8] + vstd::utf8::encode_utf8(n) + seq![0x5Du8],
        None => Seq::empty(),
    }
}

/// Append the `lspci` line of `info` to `out`.
pub fn write_lspci_line(out: &mut Vec<u8>, info: &FuncInfo)
    ensures
        final(out)@ == old(out)@ + lspci_text(*info),
{
    let line = info.bdf.fmt();
    let mut i = 0usize;
    while i < line.len()
        invariant
            i <= line@.len(),
            line@ == bdf_text(info.bdf),
            out@ == old(out)@ + line@.take(i as int),
        decreases line@.len() - i,
    {
        out.push(line[i]);
        i += 1;
        assert(out@ =~= old(out)@ + line@.take(i as int));
    }
    assert(line@.take(i as int) =~= line@);
    out.push(0x20);
    push_hex4(out, info.vendor);
    out.push(0x3A);
    push_hex4(out, info.device);
    out.push(0x20);
    push_str(out, class_name(info.class, info.subclass));
    let ghost before = out@;
    match friendly_name(info.vendor, info.device) {
        Some(n) => {
            out.push(0x20);
            out.push(0x5B);
            push_str(out, n);
            out.push(0x5D);
            assert(out@ =~= before + (seq![0x20u8, 0x5Bu8] + n.spec_bytes() + seq![0x5Du8]));
        },
        None => {
            assert(out@ =~= before + Seq::<u8>::empty());
        },
    }
    assert(out@ =~= old(out)@ + lspci_text(*info));
}

} // verus!
