//! MBR/GPT partition tables.
//!
//! Children are offset-limited ranges on a parent. The protective MBR
//! entry (0xEE) is not a data partition. GPT validates the header and
//! entry CRCs and falls back to the backup header. The logical EBR walk
//! is depth-bounded.

use vstd::prelude::*;

verus! {

pub const MAX_PARTS: usize = 16;
pub const MAX_EBR_DEPTH: u32 = 128;
pub const MBR_SIG_OFF: usize = 510;
pub const MBR_PART_OFF: usize = 446;
pub const MBR_ENTRY_LEN: usize = 16;
pub const GPT_HEADER_SIZE: u32 = 92;
pub const GPT_ENTRY_SIZE: u32 = 128;
pub const GPT_REVISION: u32 = 0x0001_0000;

pub const MBR_LINUX: u8 = 0x83;
pub const MBR_FAT32_LBA: u8 = 0x0C;
pub const MBR_NTFS: u8 = 0x07;
pub const MBR_EFI: u8 = 0xEF;
pub const MBR_SWAP: u8 = 0x82;
pub const MBR_EXTENDED: u8 = 0x05;
pub const MBR_EXTENDED_LBA: u8 = 0x0F;
pub const MBR_LINUX_EXTENDED: u8 = 0x85;
pub const MBR_PROTECTIVE: u8 = 0xEE;

/// `EFI PART`, the GPT header signature.
pub open spec fn spec_gpt_sig() -> Seq<u8> {
    seq![0x45u8, 0x46, 0x49, 0x20, 0x50, 0x41, 0x52, 0x54]
}

pub fn gpt_sig() -> (r: [u8; 8])
    ensures
        r@ == spec_gpt_sig(),
{
    let r = [0x45u8, 0x46, 0x49, 0x20, 0x50, 0x41, 0x52, 0x54];
    assert(r@ =~= spec_gpt_sig());
    r
}

/// EFI System Partition. On-disk mixed-endian GUID.
pub open spec fn spec_guid_efi() -> Seq<u8> {
    seq![0x28u8, 0x73, 0x2A, 0xC1, 0x1F, 0xF8, 0xD2, 0x11, 0xBA, 0x4B, 0x00, 0xA0, 0xC9, 0x3E, 0xC9, 0x3B]
}

pub fn guid_efi() -> (r: [u8; 16])
    ensures
        r@ == spec_guid_efi(),
{
    let r = [0x28, 0x73, 0x2A, 0xC1, 0x1F, 0xF8, 0xD2, 0x11, 0xBA, 0x4B, 0x00, 0xA0, 0xC9, 0x3E, 0xC9, 0x3B];
    assert(r@ =~= spec_guid_efi());
    r
}

/// Linux filesystem.
pub open spec fn spec_guid_linux() -> Seq<u8> {
    seq![0xAFu8, 0x3D, 0xC6, 0x0F, 0x83, 0x84, 0x72, 0x47, 0x8E, 0x79, 0x3D, 0x69, 0xD8, 0x47, 0x7D, 0xE4]
}

pub fn guid_linux() -> (r: [u8; 16])
    ensures
        r@ == spec_guid_linux(),
{
    let r = [0xAF, 0x3D, 0xC6, 0x0F, 0x83, 0x84, 0x72, 0x47, 0x8E, 0x79, 0x3D, 0x69, 0xD8, 0x47, 0x7D, 0xE4];
    assert(r@ =~= spec_guid_linux());
    r
}

/// Linux swap.
pub open spec fn spec_guid_swap() -> Seq<u8> {
    seq![0x6Du8, 0xFD, 0x57, 0x06, 0xAB, 0xA4, 0xC4, 0x43, 0x84, 0xE5, 0x09, 0x33, 0xC8, 0x4B, 0x4F, 0x4F]
}

pub fn guid_swap() -> (r: [u8; 16])
    ensures
        r@ == spec_guid_swap(),
{
    let r = [0x6D, 0xFD, 0x57, 0x06, 0xAB, 0xA4, 0xC4, 0x43, 0x84, 0xE5, 0x09, 0x33, 0xC8, 0x4B, 0x4F, 0x4F];
    assert(r@ =~= spec_guid_swap());
    r
}

/// Microsoft basic data.
pub open spec fn spec_guid_basic() -> Seq<u8> {
    seq![0xA2u8, 0xA0, 0xD0, 0xEB, 0xE5, 0xB9, 0x33, 0x44, 0x87, 0xC0, 0x68, 0xB6, 0xB7, 0x26, 0x99, 0xC7]
}

pub fn guid_basic() -> (r: [u8; 16])
    ensures
        r@ == spec_guid_basic(),
{
    let r = [0xA2, 0xA0, 0xD0, 0xEB, 0xE5, 0xB9, 0x33, 0x44, 0x87, 0xC0, 0x68, 0xB6, 0xB7, 0x26, 0x99, 0xC7];
    assert(r@ =~= spec_guid_basic());
    r
}

/// Linux LVM.
pub open spec fn spec_guid_lvm() -> Seq<u8> {
    seq![0x79u8, 0xD3, 0xD6, 0xE6, 0x07, 0xF5, 0xC2, 0x44, 0xA2, 0x3C, 0x23, 0x8F, 0x2A, 0x3D, 0xF9, 0x28]
}

pub fn guid_lvm() -> (r: [u8; 16])
    ensures
        r@ == spec_guid_lvm(),
{
    let r = [0x79, 0xD3, 0xD6, 0xE6, 0x07, 0xF5, 0xC2, 0x44, 0xA2, 0x3C, 0x23, 0x8F, 0x2A, 0x3D, 0xF9, 0x28];
    assert(r@ =~= spec_guid_lvm());
    r
}

/// BIOS boot (GRUB).
pub open spec fn spec_guid_bios_boot() -> Seq<u8> {
    seq![0x48u8, 0x61, 0x68, 0x21, 0x49, 0x64, 0x6F, 0x6E, 0x74, 0x4E, 0x65, 0x65, 0x64, 0x45, 0x46, 0x49]
}

pub fn guid_bios_boot() -> (r: [u8; 16])
    ensures
        r@ == spec_guid_bios_boot(),
{
    let r = [0x48, 0x61, 0x68, 0x21, 0x49, 0x64, 0x6F, 0x6E, 0x74, 0x4E, 0x65, 0x65, 0x64, 0x45, 0x46, 0x49];
    assert(r@ =~= spec_guid_bios_boot());
    r
}

pub open spec fn spec_guid_unused() -> Seq<u8> {
    Seq::new(16, |i: int| 0u8)
}

/// The all-zero type of an unused GPT entry.
pub fn guid_unused() -> (r: [u8; 16])
    ensures
        r@ == spec_guid_unused(),
{
    let r = [0u8; 16];
    assert(r@ =~= spec_guid_unused());
    r
}

/// Why a block request was refused.
#[derive(Clone, Copy, Debug, PartialEq, Eq, Structural)]
pub enum BlockError {
    /// Out of range or malformed request.
    Inval,
    /// The device failed the transfer.
    Failed,
}

#[derive(Clone, Copy, Debug, PartialEq, Eq, Structural)]
pub enum PartError {
    Truncated,
    BadCrc,
    Invalid,
    Empty,
}

impl PartError {
    pub fn as_str(self) -> (r: &'static str)
        ensures
            r@ == (match self {
                PartError::Truncated => "truncated"@,
                PartError::BadCrc => "bad crc"@,
                PartError::Invalid => "invalid"@,
                PartError::Empty => "empty"@,
            }),
    {
        match self {
            PartError::Truncated => "truncated",
            PartError::BadCrc => "bad crc",
            PartError::Invalid => "invalid",
            PartError::Empty => "empty",
        }
    }
}

#[derive(Clone, Copy, Debug, PartialEq, Eq, Structural)]
pub enum TableOrigin {
    Mbr,
    Gpt { used_backup: bool },
}

#[derive(Clone, Copy, Debug, PartialEq, Eq)]
pub enum PartKind {
    Mbr { sys: u8 },
    Gpt { type_guid: [u8; 16] },
}

#[derive(Clone, Copy, Debug, PartialEq, Eq)]
pub struct Part {
    pub index: u8,
    pub start_lba: u64,
    pub nsectors: u64,
    pub kind: PartKind,
}

#[derive(Clone, Copy, Debug, PartialEq, Eq)]
pub struct Table {
    pub origin: TableOrigin,
    pub n: usize,
    pub parts: [Part; MAX_PARTS],
}

/// A child the parser may hand out on a disk of `nsectors`: a non-empty
/// range inside the disk (its end saturating at the top of the LBA space),
/// never the protective entry nor an extended container.
pub open spec fn part_ok(p: Part, nsectors: u64) -> bool {
    &&& p.nsectors > 0
    &&& crate::time::sat_add(p.start_lba as int, p.nsectors as int) <= nsectors
    &&& match p.kind {
        PartKind::Mbr { sys } => sys != 0 && sys != MBR_PROTECTIVE && !spec_is_extended(sys),
        PartKind::Gpt { type_guid } => type_guid@ != spec_guid_unused(),
    }
}

impl Table {
    /// At most `MAX_PARTS` children, numbered from 1 in order, each a
    /// valid range of a disk of `nsectors`.
    pub open spec fn valid_for(self, nsectors: u64) -> bool {
        &&& self.n <= MAX_PARTS
        &&& forall|i: int| 0 <= i < self.n ==> {
            &&& (#[trigger] self.parts@[i]).index == i + 1
            &&& part_ok(self.parts@[i], nsectors)
        }
    }

    pub fn empty(origin: TableOrigin) -> (r: Self)
        ensures
            r.origin == origin,
            r.n == 0,
    {
        Table {
            origin,
            n: 0,
            parts: [Part { index: 0, start_lba: 0, nsectors: 0, kind: PartKind::Mbr { sys: 0 } }; MAX_PARTS],
        }
    }

    /// Child `i`, if there is one.
    pub fn get(self, i: usize) -> (r: Option<Part>)
        requires
            self.n <= MAX_PARTS,
        ensures
            r == (if i < self.n { Some(self.parts@[i as int]) } else { None }),
    {
        if i < self.n {
            Some(self.parts[i])
        } else {
            None
        }
    }
}

/// Map a child LBA range onto the parent. Rejects an empty range, one
/// past the child's end, and overflow.
pub fn map_child_lba(start: u64, nsect: u64, lba: u64, count: u64) -> (r: Result<u64, BlockError>)
    ensures
        (lba + count > u64::MAX || count == 0 || lba + count > nsect || start + lba > u64::MAX)
            ==> r == Err::<u64, BlockError>(BlockError::Inval),
        !(lba + count > u64::MAX || count == 0 || lba + count > nsect || start + lba > u64::MAX)
            ==> r == Ok::<u64, BlockError>((start + lba) as u64),
{
    let end = match lba.checked_add(count) {
        Some(e) => e,
        None => return Err(BlockError::Inval),
    };
    if count == 0 || end > nsect {
        return Err(BlockError::Inval);
    }
    match start.checked_add(lba) {
        Some(v) => Ok(v),
        None => Err(BlockError::Inval),
    }
}

pub open spec fn spec_is_extended(sys: u8) -> bool {
    sys == MBR_EXTENDED || sys == MBR_EXTENDED_LBA || sys == MBR_LINUX_EXTENDED
}

#[verifier::when_used_as_spec(spec_is_extended)]
pub fn is_extended(sys: u8) -> (r: bool)
    ensures
        r == spec_is_extended(sys),
{
    sys == MBR_EXTENDED || sys == MBR_EXTENDED_LBA || sys == MBR_LINUX_EXTENDED
}

/// The short name of a GPT partition type.
pub open spec fn spec_gpt_type_name(g: Seq<u8>) -> Seq<char> {
    if g == spec_guid_unused() { "unused"@ }
    else if g == spec_guid_efi() { "efi"@ }
    else if g == spec_guid_linux() { "linux"@ }
    else if g == spec_guid_swap() { "swap"@ }
    else if g == spec_guid_basic() { "basic"@ }
    else if g == spec_guid_lvm() { "lvm"@ }
    else if g == spec_guid_bios_boot() { "bios"@ }
    else { "other"@ }
}

pub fn gpt_type_name(guid: &[u8; 16]) -> (r: &'static str)
    ensures
        r@ == spec_gpt_type_name(guid@),
{
    let g = guid.as_slice();
    if bytes_eq(g, guid_unused().as_slice()) {
        "unused"
    } else if bytes_eq(g, guid_efi().as_slice()) {
        "efi"
    } else if bytes_eq(g, guid_linux().as_slice()) {
        "linux"
    } else if bytes_eq(g, guid_swap().as_slice()) {
        "swap"
    } else if bytes_eq(g, guid_basic().as_slice()) {
        "basic"
    } else if bytes_eq(g, guid_lvm().as_slice()) {
        "lvm"
    } else if bytes_eq(g, guid_bios_boot().as_slice()) {
        "bios"
    } else {
        "other"
    }
}

/// Element-wise equality of two byte slices.
fn bytes_eq(x: &[u8], y: &[u8]) -> (r: bool)
    ensures
        r == (x@ == y@),
{
    crate::log::bytes_eq(x, y)
}

/// The short name of an MBR system id.
pub open spec fn spec_mbr_type_name(sys: u8) -> Seq<char> {
    if sys == MBR_LINUX { "linux"@ }
    else if sys == MBR_FAT32_LBA { "fat"@ }
    else if sys == MBR_NTFS { "ntfs"@ }
    else if sys == MBR_EFI { "efi"@ }
    else if sys == MBR_SWAP { "swap"@ }
    else if sys == MBR_PROTECTIVE { "protective"@ }
    else if spec_is_extended(sys) { "extended"@ }
    else { "other"@ }
}

pub fn mbr_type_name(sys: u8) -> (r: &'static str)
    ensures
        r@ == spec_mbr_type_name(sys),
{
    match sys {
        MBR_LINUX => "linux",
        MBR_FAT32_LBA => "fat",
        MBR_NTFS => "ntfs",
        MBR_EFI => "efi",
        MBR_SWAP => "swap",
        MBR_PROTECTIVE => "protective",
        s if is_extended(s) => "extended",
        _ => "other",
    }
}

/// One shift of the reflected CRC-32 register.
pub open spec fn crc_shift(c: u32) -> u32 {
    if c & 1 != 0 { (c >> 1) ^ 0xEDB8_8320 } else { c >> 1 }
}

/// `k` shifts of the register.
pub open spec fn crc_shifts(c: u32, k: nat) -> u32
    decreases k,
{
    if k == 0 { c } else { crc_shifts(crc_shift(c), (k - 1) as nat) }
}

/// The register after feeding `s` into a register preset to all ones.
pub open spec fn crc_reg(s: Seq<u8>) -> u32
    decreases s.len(),
{
    if s.len() == 0 {
        0xFFFF_FFFF
    } else {
        crc_shifts(crc_reg(s.drop_last()) ^ (s.last() as u32), 8)
    }
}

/// IEEE 802.3 / GPT CRC-32 of `s`.
pub open spec fn spec_crc32(s: Seq<u8>) -> u32 {
    !crc_reg(s)
}

/// IEEE 802.3 / GPT CRC-32.
pub fn crc32_ieee(data: &[u8]) -> (r: u32)
    ensures
        r == spec_crc32(data@),
{
    let mut crc: u32 = 0xFFFF_FFFF;
    let mut i: usize = 0;
    while i < data.len()
        invariant
            i <= data@.len(),
            crc == crc_reg(data@.take(i as int)),
        decreases data@.len() - i,
    {
        crc = crc ^ data[i] as u32;
        let ghost start = crc;
        let mut b: u8 = 0;
        while b < 8
            invariant
                b <= 8,
                crc_shifts(crc, (8 - b) as nat) == crc_shifts(start, 8),
            decreases 8 - b,
        {
            if crc & 1 != 0 {
                crc = (crc >> 1) ^ 0xEDB8_8320;
            } else {
                crc = crc >> 1;
            }
            b += 1;
        }
        assert(data@.take(i + 1).drop_last() =~= data@.take(i as int));
        i += 1;
    }
    assert(data@.take(data@.len() as int) =~= data@);
    !crc
}

/// Little-endian 32-bit value at `o`.
#[verifier::opaque]
pub open spec fn le32(b: Seq<u8>, o: int) -> u32 {
    (b[o] + b[o + 1] * 0x100 + b[o + 2] * 0x1_0000 + b[o + 3] * 0x100_0000) as u32
}

/// Little-endian 64-bit value at `o`.
#[verifier::opaque]
pub open spec fn le64(b: Seq<u8>, o: int) -> u64 {
    (le32(b, o) + le32(b, o + 4) * 0x1_0000_0000) as u64
}

/// A value depends only on its own bytes.
pub proof fn lemma_le32_frame(a: Seq<u8>, b: Seq<u8>, o: int)
    requires
        0 <= o,
        o + 4 <= a.len(),
        o + 4 <= b.len(),
        forall|j: int| o <= j < o + 4 ==> a[j] == b[j],
    ensures
        le32(a, o) == le32(b, o),
{
    reveal(le32);
    assert(a[o] == b[o] && a[o + 1] == b[o + 1] && a[o + 2] == b[o + 2] && a[o + 3] == b[o + 3]);
}

/// A value depends only on its own bytes.
pub proof fn lemma_le64_frame(a: Seq<u8>, b: Seq<u8>, o: int)
    requires
        0 <= o,
        o + 8 <= a.len(),
        o + 8 <= b.len(),
        forall|j: int| o <= j < o + 8 ==> a[j] == b[j],
    ensures
        le64(a, o) == le64(b, o),
{
    reveal(le64);
    lemma_le32_frame(a, b, o);
    lemma_le32_frame(a, b, o + 4);
}

fn r32(b: &[u8], o: usize) -> (r: u32)
    requires
        o + 4 <= b@.len(),
    ensures
        r == le32(b@, o as int),
{
    let b0 = b[o];
    let b1 = b[o + 1];
    let b2 = b[o + 2];
    let b3 = b[o + 3];
    let r: u32 = (b0 as u32) | ((b1 as u32) << 8) | ((b2 as u32) << 16) | ((b3 as u32) << 24);
    assert(r == b0 + b1 * 0x100 + b2 * 0x1_0000 + b3 * 0x100_0000) by (bit_vector)
        requires
            r == (b0 as u32) | ((b1 as u32) << 8) | ((b2 as u32) << 16) | ((b3 as u32) << 24),
    ;
    reveal(le32);
    r
}

fn r64(b: &[u8], o: usize) -> (r: u64)
    requires
        o + 8 <= b@.len(),
    ensures
        r == le64(b@, o as int),
{
    let _n = b.len();
    let lo = r32(b, o);
    let hi = r32(b, o + 4);
    let r: u64 = (lo as u64) | ((hi as u64) << 32);
    assert(r == lo + hi * 0x1_0000_0000) by (bit_vector)
        requires
            r == (lo as u64) | ((hi as u64) << 32),
    ;
    reveal(le64);
    r
}

fn w32(b: &mut [u8], o: usize, v: u32)
    requires
        o + 4 <= old(b)@.len(),
    ensures
        final(b)@.len() == old(b)@.len(),
        le32(final(b)@, o as int) == v,
        forall|i: int| 0 <= i < old(b)@.len() && !(o <= i < o + 4) ==> final(b)@[i] == old(b)@[i],
{
    let b0 = (v & 0xFF) as u8;
    let b1 = ((v >> 8) & 0xFF) as u8;
    let b2 = ((v >> 16) & 0xFF) as u8;
    let b3 = ((v >> 24) & 0xFF) as u8;
    assert(v == b0 + b1 * 0x100 + b2 * 0x1_0000 + b3 * 0x100_0000) by (bit_vector)
        requires
            b0 == (v & 0xFF) as u8,
            b1 == ((v >> 8) & 0xFF) as u8,
            b2 == ((v >> 16) & 0xFF) as u8,
            b3 == ((v >> 24) & 0xFF) as u8,
    ;
    b[o] = b0;
    b[o + 1] = b1;
    b[o + 2] = b2;
    b[o + 3] = b3;
    reveal(le32);
}

fn w64(b: &mut [u8], o: usize, v: u64)
    requires
        o + 8 <= old(b)@.len(),
    ensures
        final(b)@.len() == old(b)@.len(),
        le64(final(b)@, o as int) == v,
        forall|i: int| 0 <= i < old(b)@.len() && !(o <= i < o + 8) ==> final(b)@[i] == old(b)@[i],
{
    let _n = b.len();
    let lo = (v & 0xFFFF_FFFF) as u32;
    let hi = (v >> 32) as u32;
    assert(v == lo + hi * 0x1_0000_0000) by (bit_vector)
        requires
            lo == (v & 0xFFFF_FFFF) as u32,
            hi == (v >> 32) as u32,
    ;
    w32(b, o, lo);
    let ghost mid = b@;
    w32(b, o + 4, hi);
    proof {
        lemma_le32_frame(mid, b@, o as int);
        reveal(le64);
    }
}

/// Append `p` unless the table is full. Whether it was added.
fn push_part(t: &mut Table, p: Part) -> (r: bool)
    requires
        old(t).n <= MAX_PARTS,
    ensures
        r == (old(t).n < MAX_PARTS),
        r ==> final(t).n == old(t).n + 1 && final(t).parts@ == old(t).parts@.update(old(t).n as int, p),
        !r ==> *final(t) == *old(t),
        final(t).origin == old(t).origin,
{
    if t.n >= MAX_PARTS {
        return false;
    }
    t.parts[t.n] = p;
    t.n = t.n + 1;
    true
}

/// The 1-based index the next child gets.
fn next_index(t: &Table) -> (r: u8)
    requires
        t.n <= MAX_PARTS,
    ensures
        r == t.n + 1,
{
    (t.n as u8) + 1
}

/// `(sys, start, count)` of MBR slot `i` in `sector`.
pub open spec fn spec_mbr_entry(sector: Seq<u8>, i: int) -> (u8, u64, u64) {
    let o = MBR_PART_OFF + i * MBR_ENTRY_LEN;
    (sector[o + 4], le32(sector, o + 8) as u64, le32(sector, o + 12) as u64)
}

fn mbr_entry(sector: &[u8], i: usize) -> (r: (u8, u64, u64))
    requires
        sector@.len() >= 512,
        i < 4,
    ensures
        r == spec_mbr_entry(sector@, i as int),
{
    let o = MBR_PART_OFF + i * MBR_ENTRY_LEN;
    let sys = sector[o + 4];
    let start = r32(sector, o + 8) as u64;
    let count = r32(sector, o + 12) as u64;
    (sys, start, count)
}

/// Write MBR slot `i`: a non-bootable entry of type `sys`.
pub fn write_mbr_entry(sector: &mut [u8], i: usize, sys: u8, start: u32, count: u32)
    requires
        old(sector)@.len() >= 512,
        i < 4,
    ensures
        final(sector)@.len() == old(sector)@.len(),
        spec_mbr_entry(final(sector)@, i as int) == (sys, start as u64, count as u64),
        final(sector)@[MBR_PART_OFF + i * MBR_ENTRY_LEN] == 0,
        forall|j: int| 0 <= j < old(sector)@.len() && !(MBR_PART_OFF + i * MBR_ENTRY_LEN <= j < MBR_PART_OFF
            + i * MBR_ENTRY_LEN + MBR_ENTRY_LEN) ==> final(sector)@[j] == old(sector)@[j],
{
    let o = MBR_PART_OFF + i * MBR_ENTRY_LEN;
    sector[o] = 0;
    sector[o + 4] = sys;
    w32(sector, o + 8, start);
    let ghost mid = sector@;
    w32(sector, o + 12, count);
    proof {
        lemma_le32_frame(mid, sector@, o + 8);
    }
}

/// An MBR sector holding `slots` (an empty type or count leaves the slot
/// zero) and the `55 AA` signature.
pub open spec fn mbr_image(buf: Seq<u8>, slots: Seq<(u8, u32, u32)>) -> bool {
    &&& buf[MBR_SIG_OFF as int] == 0x55
    &&& buf[MBR_SIG_OFF + 1] == 0xAA
    &&& forall|i: int| 0 <= i < 4 ==> {
        let (sys, start, count) = #[trigger] slots[i];
        if sys != 0 && count != 0 {
            spec_mbr_entry(buf, i) == (sys, start as u64, count as u64)
        } else {
            spec_mbr_entry(buf, i) == (0u8, 0u64, 0u64)
        }
    }
}

/// Fill the first 512 bytes of `buf` with an MBR holding `slots`. A
/// buffer shorter than a sector is left alone.
pub fn pack_mbr(buf: &mut [u8], slots: &[(u8, u32, u32); 4])
    ensures
        final(buf)@.len() == old(buf)@.len(),
        old(buf)@.len() < 512 ==> final(buf)@ == old(buf)@,
        old(buf)@.len() >= 512 ==> mbr_image(final(buf)@, slots@),
        forall|j: int| 512 <= j < old(buf)@.len() ==> final(buf)@[j] == old(buf)@[j],
{
    if buf.len() < 512 {
        return;
    }
    let mut i: usize = 0;
    while i < 512
        invariant
            i <= 512,
            buf@.len() == old(buf)@.len(),
            buf@.len() >= 512,
            forall|j: int| 0 <= j < i ==> buf@[j] == 0,
            forall|j: int| 512 <= j < old(buf)@.len() ==> buf@[j] == old(buf)@[j],
        decreases 512 - i,
    {
        buf[i] = 0;
        i += 1;
    }
    i = 0;
    while i < 4
        invariant
            i <= 4,
            buf@.len() == old(buf)@.len(),
            buf@.len() >= 512,
            forall|j: int| 512 <= j < old(buf)@.len() ==> buf@[j] == old(buf)@[j],
            forall|j: int| 0 <= j < 512 && !(MBR_PART_OFF <= j < MBR_PART_OFF + i * MBR_ENTRY_LEN) ==> buf@[j] == 0,
            forall|k: int| 0 <= k < i ==> {
                let (sys, start, count) = #[trigger] slots@[k];
                if sys != 0 && count != 0 {
                    spec_mbr_entry(buf@, k) == (sys, start as u64, count as u64)
                } else {
                    spec_mbr_entry(buf@, k) == (0u8, 0u64, 0u64)
                }
            },
        decreases 4 - i,
    {
        let (sys, start, count) = slots[i];
        let ghost before = buf@;
        if sys != 0 && count != 0 {
            write_mbr_entry(buf, i, sys, start, count);
        }
        proof {
            assert forall|k: int| 0 <= k < i implies spec_mbr_entry(buf@, k) == spec_mbr_entry(before, k) by {
                let o = MBR_PART_OFF + k * MBR_ENTRY_LEN;
                lemma_le32_frame(before, buf@, o + 8);
                lemma_le32_frame(before, buf@, o + 12);
            }
            if !(sys != 0 && count != 0) {
                let o = MBR_PART_OFF + i * MBR_ENTRY_LEN;
                reveal(le32);
                assert(buf@[o + 4] == 0);
                assert(buf@[o + 8] == 0 && buf@[o + 9] == 0 && buf@[o + 10] == 0 && buf@[o + 11] == 0);
                assert(buf@[o + 12] == 0 && buf@[o + 13] == 0 && buf@[o + 14] == 0 && buf@[o + 15] == 0);
            }
        }
        i += 1;
    }
    let ghost before = buf@;
    buf[MBR_SIG_OFF] = 0x55;
    buf[MBR_SIG_OFF + 1] = 0xAA;
    assert forall|k: int| 0 <= k < 4 implies spec_mbr_entry(buf@, k) == spec_mbr_entry(before, k) by {
        let o = MBR_PART_OFF + k * MBR_ENTRY_LEN;
        lemma_le32_frame(before, buf@, o + 8);
        lemma_le32_frame(before, buf@, o + 12);
    }
}

/// The count a protective MBR gives its one entry: the disk past sector 0,
/// capped to 32 bits.
pub open spec fn protective_count(nsectors: u64) -> u32 {
    if nsectors > 1 {
        if nsectors - 1 > u32::MAX { u32::MAX } else { (nsectors - 1) as u32 }
    } else {
        0
    }
}

/// A protective MBR: one 0xEE entry from sector 1 over the rest of the disk.
pub fn pack_protective_mbr(buf: &mut [u8], nsectors: u64)
    ensures
        final(buf)@.len() == old(buf)@.len(),
        old(buf)@.len() < 512 ==> final(buf)@ == old(buf)@,
        old(buf)@.len() >= 512 ==> mbr_image(final(buf)@, seq![
            (MBR_PROTECTIVE, 1u32, protective_count(nsectors)), (0u8, 0u32, 0u32), (0u8, 0u32, 0u32), (0u8, 0u32, 0u32)]),
{
    let count = if nsectors > 1 {
        let n = nsectors - 1;
        if n > u32::MAX as u64 {
            u32::MAX
        } else {
            n as u32
        }
    } else {
        0
    };
    let slots = [(MBR_PROTECTIVE, 1u32, count), (0u8, 0u32, 0u32), (0u8, 0u32, 0u32), (0u8, 0u32, 0u32)];
    assert(slots@ =~= seq![
        (MBR_PROTECTIVE, 1u32, protective_count(nsectors)), (0u8, 0u32, 0u32), (0u8, 0u32, 0u32), (0u8, 0u32, 0u32)]);
    pack_mbr(buf, &slots);
}

/// An extended boot record: the logical partition, then the link to the
/// next EBR (typed extended only when there is one).
pub fn pack_ebr(buf: &mut [u8], sys: u8, first_rel: u32, first_count: u32, next_rel: u32, next_count: u32)
    ensures
        final(buf)@.len() == old(buf)@.len(),
        old(buf)@.len() < 512 ==> final(buf)@ == old(buf)@,
        old(buf)@.len() >= 512 ==> mbr_image(final(buf)@, seq![
            (sys, first_rel, first_count),
            (if next_rel == 0 { 0u8 } else { MBR_EXTENDED }, next_rel, next_count),
            (0u8, 0u32, 0u32), (0u8, 0u32, 0u32)]),
{
    let next_sys = if next_rel == 0 { 0 } else { MBR_EXTENDED };
    let slots = [(sys, first_rel, first_count), (next_sys, next_rel, next_count), (0u8, 0u32, 0u32), (0u8, 0u32, 0u32)];
    assert(slots@ =~= seq![
        (sys, first_rel, first_count),
        (if next_rel == 0 { 0u8 } else { MBR_EXTENDED }, next_rel, next_count),
        (0u8, 0u32, 0u32), (0u8, 0u32, 0u32)]);
    pack_mbr(buf, &slots);
}

#[derive(Clone, Copy)]
pub struct GptHeaderInfo {
    pub my_lba: u64,
    pub alt_lba: u64,
    pub first_usable: u64,
    pub last_usable: u64,
    pub disk_guid: [u8; 16],
    pub part_lba: u64,
    pub part_count: u32,
    pub part_size: u32,
    pub entries_crc: u32,
}

/// The header fields of `h` in place, with a zero CRC.
pub open spec fn gpt_header_fields(b: Seq<u8>, h: GptHeaderInfo) -> bool {
    &&& b.len() >= 512
    &&& b.take(8) == spec_gpt_sig()
    &&& le32(b, 8) == GPT_REVISION
    &&& le32(b, 12) == GPT_HEADER_SIZE
    &&& le64(b, 24) == h.my_lba
    &&& le64(b, 32) == h.alt_lba
    &&& le64(b, 40) == h.first_usable
    &&& le64(b, 48) == h.last_usable
    &&& b.subrange(56, 72) == h.disk_guid@
    &&& le64(b, 72) == h.part_lba
    &&& le32(b, 80) == h.part_count
    &&& le32(b, 84) == h.part_size
    &&& le32(b, 88) == h.entries_crc
    &&& forall|j: int| 92 <= j < 512 ==> b[j] == 0
}

/// `b` holds a GPT header sector for `h`: signature, revision, size, the
/// fields of `h`, the header CRC, and zeros elsewhere in the sector.
pub open spec fn gpt_header_image(b: Seq<u8>, h: GptHeaderInfo) -> bool {
    &&& gpt_header_fields(b, h)
    &&& le32(b, 16) == spec_crc32(b.take(92).update(16, 0).update(17, 0).update(18, 0).update(19, 0))
}

/// Zero the first 512 bytes of `buf`.
fn zero_sector(buf: &mut [u8])
    requires
        old(buf)@.len() >= 512,
    ensures
        final(buf)@.len() == old(buf)@.len(),
        forall|j: int| 0 <= j < 512 ==> final(buf)@[j] == 0,
        forall|j: int| 512 <= j < old(buf)@.len() ==> final(buf)@[j] == old(buf)@[j],
{
    let mut i: usize = 0;
    while i < 512
        invariant
            i <= 512,
            buf@.len() == old(buf)@.len(),
            buf@.len() >= 512,
            forall|j: int| 0 <= j < i ==> buf@[j] == 0,
            forall|j: int| 512 <= j < old(buf)@.len() ==> buf@[j] == old(buf)@[j],
        decreases 512 - i,
    {
        buf[i] = 0;
        i += 1;
    }
}

/// Copy `src` to `buf[at..at + src.len()]`.
fn put_bytes(buf: &mut [u8], at: usize, src: &[u8])
    requires
        at + src@.len() <= old(buf)@.len(),
    ensures
        final(buf)@.len() == old(buf)@.len(),
        final(buf)@.subrange(at as int, at + src@.len()) == src@,
        forall|j: int| 0 <= j < old(buf)@.len() && !(at <= j < at + src@.len()) ==> final(buf)@[j] == old(buf)@[j],
{
    let _n = buf.len();
    let mut i: usize = 0;
    while i < src.len()
        invariant
            i <= src@.len(),
            at + src@.len() <= old(buf)@.len(),
            old(buf)@.len() <= usize::MAX,
            buf@.len() == old(buf)@.len(),
            forall|j: int| 0 <= j < i ==> buf@[at + j] == src@[j],
            forall|j: int| 0 <= j < old(buf)@.len() && !(at <= j < at + i) ==> buf@[j] == old(buf)@[j],
        decreases src@.len() - i,
    {
        buf[at + i] = src[i];
        i += 1;
    }
    assert(buf@.subrange(at as int, at + src@.len()) =~= src@);
}

/// Write the header fields of `h` (CRC left zero) into a zeroed sector.
fn put_gpt_fields(buf: &mut [u8], h: &GptHeaderInfo)
    requires
        old(buf)@.len() >= 512,
        forall|j: int| 0 <= j < 512 ==> old(buf)@[j] == 0,
    ensures
        final(buf)@.len() == old(buf)@.len(),
        gpt_header_fields(final(buf)@, *h),
        le32(final(buf)@, 16) == 0,
{
    let sig = gpt_sig();
    put_bytes(buf, 0, sig.as_slice());
    let ghost b0 = buf@;
    w32(buf, 8, GPT_REVISION);
    let ghost b0a = buf@;
    w32(buf, 12, GPT_HEADER_SIZE);
    let ghost b1 = buf@;
    w32(buf, 16, 0);
    let ghost b2 = buf@;
    w64(buf, 24, h.my_lba);
    let ghost b3 = buf@;
    w64(buf, 32, h.alt_lba);
    let ghost b4 = buf@;
    w64(buf, 40, h.first_usable);
    let ghost b5 = buf@;
    w64(buf, 48, h.last_usable);
    let ghost b6 = buf@;
    put_bytes(buf, 56, h.disk_guid.as_slice());
    let ghost b7 = buf@;
    w64(buf, 72, h.part_lba);
    let ghost b8 = buf@;
    w32(buf, 80, h.part_count);
    let ghost b9 = buf@;
    w32(buf, 84, h.part_size);
    let ghost b10 = buf@;
    w32(buf, 88, h.entries_crc);
    proof {
        let f = buf@;
        assert forall|j: int| 0 <= j < 8 implies f[j] == sig@[j] by {
            assert(b0[j] == sig@[j]);
        }
        assert(f.take(8) =~= spec_gpt_sig());
        lemma_le32_frame(b0a, f, 8);
        assert forall|j: int| 92 <= j < 512 implies f[j] == 0 by {
            assert(f[j] == b10[j] && b10[j] == b9[j] && b9[j] == b8[j] && b8[j] == b7[j]);
            assert(b7[j] == b6[j] && b6[j] == b5[j] && b5[j] == b4[j] && b4[j] == b3[j]);
            assert(b3[j] == b2[j] && b2[j] == b1[j] && b1[j] == b0a[j] && b0a[j] == b0[j]);
        }
        lemma_le32_frame(b1, f, 12);
        lemma_le32_frame(b2, f, 16);
        lemma_le64_frame(b3, f, 24);
        lemma_le64_frame(b4, f, 32);
        lemma_le64_frame(b5, f, 40);
        lemma_le64_frame(b6, f, 48);
        assert forall|j: int| 56 <= j < 72 implies f[j] == b7[j] by {}
        assert(f.subrange(56, 72) =~= b7.subrange(56, 72));
        lemma_le64_frame(b8, f, 72);
        lemma_le32_frame(b9, f, 80);
        lemma_le32_frame(b10, f, 84);
    }
}

/// Write the GPT header for `h` into the first 512 bytes of `buf`. A
/// buffer shorter than a sector is left alone.
pub fn pack_gpt_header(buf: &mut [u8], h: &GptHeaderInfo)
    ensures
        final(buf)@.len() == old(buf)@.len(),
        old(buf)@.len() < 512 ==> final(buf)@ == old(buf)@,
        old(buf)@.len() >= 512 ==> gpt_header_image(final(buf)@, *h),
{
    if buf.len() < 512 {
        return;
    }
    zero_sector(buf);
    put_gpt_fields(buf, h);
    let crc = {
        let s: &[u8] = buf;
        crc32_ieee(&s[0..92])
    };
    let ghost before = buf@;
    proof {
        reveal(le32);
        assert(before.take(92) =~= before.take(92).update(16, 0).update(17, 0).update(18, 0).update(19, 0));
    }
    w32(buf, 16, crc);
    proof {
        let f = buf@;
        assert(f.take(92).update(16, 0).update(17, 0).update(18, 0).update(19, 0) =~= before.take(92));
        assert(f.take(8) =~= before.take(8));
        assert(f.subrange(56, 72) =~= before.subrange(56, 72));
        lemma_le32_frame(before, f, 8);
        lemma_le32_frame(before, f, 12);
        lemma_le64_frame(before, f, 24);
        lemma_le64_frame(before, f, 32);
        lemma_le64_frame(before, f, 40);
        lemma_le64_frame(before, f, 48);
        lemma_le64_frame(before, f, 72);
        lemma_le32_frame(before, f, 80);
        lemma_le32_frame(before, f, 84);
        lemma_le32_frame(before, f, 88);
    }
}

/// How many characters of `s`, from the `k`-th on, a name field of `cap`
/// bytes takes as UTF-16LE units: while a whole unit fits, up to the first
/// character outside the basic plane.
pub open spec fn name_units(s: Seq<char>, k: int, cap: int) -> int
    decreases s.len() - k,
{
    if k < 0 || k >= s.len() || 2 * k + 1 >= cap || (s[k] as u32) > 0xFFFF {
        k
    } else {
        name_units(s, k + 1, cap)
    }
}

/// The units taken from the `k`-th character on are at least `k` and fit
/// in the field.
proof fn lemma_name_units(s: Seq<char>, k: int, cap: int)
    requires
        0 <= k,
        2 * k <= cap,
    ensures
        k <= name_units(s, k, cap),
        2 * name_units(s, k, cap) <= cap,
    decreases s.len() - k,
{
    if !(k >= s.len() || 2 * k + 1 >= cap || (s[k] as u32) > 0xFFFF) {
        lemma_name_units(s, k + 1, cap);
    }
}

/// Low byte of the UTF-16 unit of `c`.
pub open spec fn unit_lo(c: char) -> u8 {
    ((c as u32) & 0xFF) as u8
}

/// High byte of the UTF-16 unit of `c`.
pub open spec fn unit_hi(c: char) -> u8 {
    (((c as u32) >> 8) & 0xFF) as u8
}

/// Encode `s` as UTF-16LE into `dst[at..at + cap]` while a whole unit
/// fits and the characters stay in the basic plane; nothing outside that
/// window is touched.
fn utf16le_name(dst: &mut [u8], at: usize, cap: usize, s: &str)
    requires
        at + cap <= old(dst)@.len(),
    ensures
        final(dst)@.len() == old(dst)@.len(),
        forall|j: int| 0 <= j < old(dst)@.len() && !(at <= j < at + 2 * name_units(s@, 0, cap as int)) ==> final(dst)@[j] == old(dst)@[j],
        forall|k: int|
            0 <= k < name_units(s@, 0, cap as int) ==> final(dst)@[at + 2 * k] == unit_lo(s@[k]) && final(dst)@[at
                + 2 * k + 1] == unit_hi(s@[k]),
{
    let _len = dst.len();
    let n = s.unicode_len();
    let mut o: usize = 0;
    let mut k: usize = 0;
    while k < n && o + 1 < cap
        invariant
            at + cap <= old(dst)@.len(),
            old(dst)@.len() <= usize::MAX,
            dst@.len() == old(dst)@.len(),
            o == 2 * k,
            o <= cap,
            k <= n,
            n == s@.len(),
            name_units(s@, k as int, cap as int) == name_units(s@, 0, cap as int),
            forall|j: int| 0 <= j < old(dst)@.len() && !(at <= j < at + 2 * k) ==> dst@[j] == old(dst)@[j],
            forall|q: int| 0 <= q < k ==> dst@[at + 2 * q] == unit_lo(s@[q]) && dst@[at + 2 * q + 1] == unit_hi(s@[q]),
        decreases n - k,
    {
        let c = s.get_char(k);
        let u = c as u32;
        if u > 0xFFFF {
            return;
        }
        dst[at + o] = (u & 0xFF) as u8;
        dst[at + o + 1] = ((u >> 8) & 0xFF) as u8;
        o += 2;
        k += 1;
    }
}

/// `b` starts with the GPT entry of type `type_guid`, unique id `uniq`,
/// LBAs `first..=last` and the name `name` as UTF-16LE (as much as fits),
/// every other byte of the 128 zero.
pub open spec fn gpt_entry_image(
    b: Seq<u8>,
    type_guid: Seq<u8>,
    uniq: Seq<u8>,
    first: u64,
    last: u64,
    name: Seq<char>,
) -> bool {
    &&& b.len() >= GPT_ENTRY_SIZE
    &&& b.subrange(0, 16) == type_guid
    &&& b.subrange(16, 32) == uniq
    &&& le64(b, 32) == first
    &&& le64(b, 40) == last
    &&& forall|j: int| 48 <= j < 56 ==> b[j] == 0
    &&& forall|k: int|
        0 <= k < name_units(name, 0, 72) ==> b[56 + 2 * k] == unit_lo(name[k]) && b[57 + 2 * k] == unit_hi(name[k])
    &&& forall|j: int| 56 + 2 * name_units(name, 0, 72) <= j < 128 ==> b[j] == 0
}

/// An entry image lies in its first 128 bytes.
pub proof fn lemma_entry_image_frame(
    a: Seq<u8>,
    b: Seq<u8>,
    type_guid: Seq<u8>,
    uniq: Seq<u8>,
    first: u64,
    last: u64,
    name: Seq<char>,
)
    requires
        gpt_entry_image(a, type_guid, uniq, first, last, name),
        b.len() >= GPT_ENTRY_SIZE,
        forall|j: int| 0 <= j < GPT_ENTRY_SIZE ==> a[j] == b[j],
    ensures
        gpt_entry_image(b, type_guid, uniq, first, last, name),
{
    lemma_name_units(name, 0, 72);
    lemma_le64_frame(a, b, 32);
    lemma_le64_frame(a, b, 40);
    assert(b.subrange(0, 16) =~= a.subrange(0, 16));
    assert(b.subrange(16, 32) =~= a.subrange(16, 32));
}

/// Write one GPT entry into the first 128 bytes of `buf`: type, unique
/// id, first and last LBA, and the name as UTF-16LE.
pub fn pack_gpt_entry(buf: &mut [u8], type_guid: &[u8; 16], uniq: &[u8; 16], first: u64, last: u64, name: &str)
    ensures
        final(buf)@.len() == old(buf)@.len(),
        old(buf)@.len() < GPT_ENTRY_SIZE ==> final(buf)@ == old(buf)@,
        old(buf)@.len() >= GPT_ENTRY_SIZE ==> gpt_entry_image(final(buf)@, type_guid@, uniq@, first, last, name@),
        forall|j: int| GPT_ENTRY_SIZE <= j < old(buf)@.len() ==> final(buf)@[j] == old(buf)@[j],
{
    if buf.len() < GPT_ENTRY_SIZE as usize {
        return;
    }
    let mut i: usize = 0;
    while i < 128
        invariant
            i <= 128,
            buf@.len() == old(buf)@.len(),
            buf@.len() >= 128,
            forall|j: int| 128 <= j < old(buf)@.len() ==> buf@[j] == old(buf)@[j],
            forall|j: int| 0 <= j < i ==> buf@[j] == 0,
        decreases 128 - i,
    {
        buf[i] = 0;
        i += 1;
    }
    i = 0;
    while i < 16
        invariant
            i <= 16,
            buf@.len() == old(buf)@.len(),
            buf@.len() >= 128,
            forall|j: int| 0 <= j < i ==> buf@[j] == type_guid@[j] && buf@[16 + j] == uniq@[j],
            forall|j: int| 128 <= j < old(buf)@.len() ==> buf@[j] == old(buf)@[j],
            forall|j: int| 32 <= j < 128 ==> buf@[j] == 0,
        decreases 16 - i,
    {
        buf[i] = type_guid[i];
        buf[16 + i] = uniq[i];
        i += 1;
    }
    w64(buf, 32, first);
    let ghost mid = buf@;
    w64(buf, 40, last);
    let ghost before = buf@;
    proof {
        lemma_le64_frame(mid, before, 32);
    }
    utf16le_name(buf, 56, 72, name);
    proof {
        lemma_name_units(name@, 0, 72);
        lemma_le64_frame(before, buf@, 32);
        lemma_le64_frame(before, buf@, 40);
        assert(buf@.subrange(0, 16) =~= type_guid@);
        assert(buf@.subrange(16, 32) =~= uniq@);
    }
}


/// CRC of a GPT entry array.
pub fn entries_crc(entries: &[u8]) -> (r: u32)
    ensures
        r == spec_crc32(entries@),
{
    crc32_ieee(entries)
}

/// `s` starts with a GPT header this disk can hold: signature, a size
/// from 92 bytes up to the sector (and at most 512), a CRC that matches
/// with its own field zeroed, its own LBA on the disk, and 1 to 128
/// entries of 128 bytes.
pub open spec fn gpt_header_ok(s: Seq<u8>, nsectors: u64) -> bool {
    &&& s.len() >= GPT_HEADER_SIZE
    &&& s.take(8) == spec_gpt_sig()
    &&& GPT_HEADER_SIZE <= le32(s, 12) <= s.len()
    &&& le32(s, 12) <= 512
    &&& spec_crc32(s.take(le32(s, 12) as int).update(16, 0).update(17, 0).update(18, 0).update(19, 0)) == le32(s, 16)
    &&& le64(s, 24) < nsectors
    &&& le32(s, 84) == GPT_ENTRY_SIZE
    &&& 0 < le32(s, 80) <= 128
}

fn header_ok(sec: &[u8], nsectors: u64) -> (r: bool)
    ensures
        r == gpt_header_ok(sec@, nsectors),
{
    if sec.len() < GPT_HEADER_SIZE as usize {
        return false;
    }
    let sig = gpt_sig();
    if !bytes_eq(&sec[0..8], sig.as_slice()) {
        assert(sec@.subrange(0, 8) =~= sec@.take(8));
        return false;
    }
    assert(sec@.subrange(0, 8) =~= sec@.take(8));
    let size = r32(sec, 12);
    if size < 92 || size as usize > sec.len() {
        return false;
    }
    let stored = r32(sec, 16);
    let mut tmp = [0u8; 512];
    if size as usize > 512 {
        return false;
    }
    let n = size as usize;
    put_bytes(&mut tmp, 0, &sec[0..n]);
    let ghost t0 = tmp@;
    w32(&mut tmp, 16, 0);
    let crc = {
        let t: &[u8] = &tmp;
        crc32_ieee(&t[0..n])
    };
    proof {
        reveal(le32);
        assert(tmp@.subrange(0, n as int) =~= sec@.take(n as int).update(16, 0).update(17, 0).update(18, 0).update(19, 0)) by {
            assert(t0.subrange(0, n as int) =~= sec@.subrange(0, n as int));
        }
    }
    if crc != stored {
        return false;
    }
    let my = r64(sec, 24);
    if my >= nsectors {
        return false;
    }
    let psz = r32(sec, 84);
    let nent = r32(sec, 80);
    psz == GPT_ENTRY_SIZE && nent > 0 && nent <= 128
}

/// A child as the parser reports it: its range, and its type as an MBR
/// system byte (`gpt` false) or a GPT type GUID (`gpt` true).
pub ghost struct PartSpec {
    pub start: u64,
    pub len: u64,
    pub gpt: bool,
    pub sys: u8,
    pub guid: Seq<u8>,
}

pub open spec fn part_view(p: Part) -> PartSpec {
    match p.kind {
        PartKind::Mbr { sys } => PartSpec { start: p.start_lba, len: p.nsectors, gpt: false, sys, guid: Seq::empty() },
        PartKind::Gpt { type_guid } => PartSpec {
            start: p.start_lba,
            len: p.nsectors,
            gpt: true,
            sys: 0,
            guid: type_guid@,
        },
    }
}

/// The children of `t`, in order.
pub open spec fn table_view(t: Table) -> Seq<PartSpec> {
    t.parts@.take(t.n as int).map_values(|p: Part| part_view(p))
}

/// A table holds at most `MAX_PARTS` children: the first of `s`.
pub open spec fn cap_parts(s: Seq<PartSpec>) -> Seq<PartSpec> {
    if s.len() > MAX_PARTS {
        s.take(MAX_PARTS as int)
    } else {
        s
    }
}

/// Appending a child to a table that has room appends its view.
proof fn lemma_table_push(t0: Table, t1: Table, p: Part)
    requires
        t0.n < MAX_PARTS,
        t1.n == t0.n + 1,
        t1.parts@ == t0.parts@.update(t0.n as int, p),
    ensures
        table_view(t1) == table_view(t0).push(part_view(p)),
{
    assert(table_view(t1) =~= table_view(t0).push(part_view(p)));
}

/// A full table takes no more children.
proof fn lemma_cap_full(a: Seq<PartSpec>, b: Seq<PartSpec>)
    requires
        a.len() == MAX_PARTS,
    ensures
        cap_parts(a + b) == a,
{
    assert((a + b).take(MAX_PARTS as int) =~= a);
}

/// GPT entry `e` (128 bytes) names a child of a disk of `nsectors`: a used
/// type GUID and `first..=last` (its length saturating) inside the disk.
pub open spec fn gpt_entry_child(e: Seq<u8>, nsectors: u64) -> Option<PartSpec> {
    let first = le64(e, 32);
    let last = le64(e, 40);
    let n = crate::time::sat_add(last - first, 1);
    if e.take(16) == spec_guid_unused() || last < first || n == 0 || crate::time::sat_add(first as int, n)
        > nsectors {
        None
    } else {
        Some(PartSpec { start: first, len: n as u64, gpt: true, sys: 0, guid: e.take(16) })
    }
}

/// The children that entries `i..nent` of the array `es` list, in order,
/// up to the first entry that does not fit in `es`.
pub open spec fn gpt_children(es: Seq<u8>, i: int, nent: int, nsectors: u64) -> Seq<PartSpec>
    decreases nent - i,
{
    if i >= nent || i < 0 || i * 128 + 128 > es.len() {
        Seq::empty()
    } else {
        let rest = gpt_children(es, i + 1, nent, nsectors);
        match gpt_entry_child(es.subrange(i * 128, i * 128 + 128), nsectors) {
            Some(p) => seq![p] + rest,
            None => rest,
        }
    }
}

/// What reads of a sector source do: for a sector and what the buffer
/// held, whether the read succeeds and what the buffer holds afterwards.
pub type ReadFn = spec_fn(u64, Seq<u8>) -> (bool, Seq<u8>);

/// The reads of the sector source `r`.
pub open spec fn reads_of<R: SectorRead>(r: R) -> ReadFn {
    |l: u64, b: Seq<u8>| r.spec_read(l, b)
}

/// Two sources whose reads agree have the same reads.
proof fn lemma_reads_of<R: SectorRead>(r1: R, r2: R)
    requires
        forall|l: u64, b: Seq<u8>| #[trigger] r1.spec_read(l, b) == r2.spec_read(l, b),
    ensures
        reads_of(r1) == reads_of(r2),
{
    assert(reads_of(r1) =~= reads_of(r2));
}

/// A block source the parser reads sectors from. `read_sector` fills
/// `buf` from sector `lba`: whether it succeeds and what the buffer holds
/// afterwards are `spec_read` of the sector and of what the buffer held,
/// and reading changes neither.
pub trait SectorRead {
    spec fn spec_read(&self, lba: u64, buf: Seq<u8>) -> (bool, Seq<u8>);

    fn read_sector(&mut self, lba: u64, buf: &mut [u8]) -> (r: Result<(), BlockError>)
        ensures
            final(buf)@.len() == old(buf)@.len(),
            (r is Ok, final(buf)@) == old(self).spec_read(lba, old(buf)@),
            forall|l: u64, b: Seq<u8>| #[trigger] final(self).spec_read(l, b) == old(self).spec_read(l, b);
}

/// A whole-disk image in memory, read sector by sector.
pub struct ImageReader<'a> {
    pub disk: &'a [u8],
    pub sector_size: u32,
}

impl<'a> SectorRead for ImageReader<'a> {
    /// The first bytes of sector `lba` (as many as the shorter of a sector
    /// and the buffer holds) over the start of the buffer; a failure,
    /// leaving the buffer alone, past the end of the image.
    open spec fn spec_read(&self, lba: u64, buf: Seq<u8>) -> (bool, Seq<u8>) {
        let bs = self.sector_size as int;
        let off = lba * bs;
        let n = if buf.len() < bs { buf.len() as int } else { bs };
        if lba > usize::MAX || off + bs > self.disk@.len() {
            (false, buf)
        } else {
            (true, self.disk@.subrange(off, off + n) + buf.subrange(n, buf.len() as int))
        }
    }

    fn read_sector(&mut self, lba: u64, buf: &mut [u8]) -> (r: Result<(), BlockError>) {
        let _dlen = self.disk.len();
        let bs = self.sector_size as usize;
        if lba > usize::MAX as u64 {
            return Err(BlockError::Inval);
        }
        let off = match (lba as usize).checked_mul(bs) {
            Some(o) => o,
            None => return Err(BlockError::Inval),
        };
        match off.checked_add(bs) {
            Some(e) => {
                if e > self.disk.len() {
                    return Err(BlockError::Inval);
                }
            },
            None => return Err(BlockError::Inval),
        }
        let n = if buf.len() < bs { buf.len() } else { bs };
        put_bytes(buf, 0, &self.disk[off..off + n]);
        Ok(())
    }
}

/// Reading bytes `done..want` of an entry array from sector `lba` on, a
/// sector of `bs` bytes at a time through `buf`, into `scr`: whether every
/// read succeeded, and what the buffer and the scratch hold afterwards.
pub open spec fn spec_load_from(
    rd: ReadFn,
    lba: u64,
    done: int,
    want: int,
    bs: int,
    buf: Seq<u8>,
    scr: Seq<u8>,
) -> (bool, Seq<u8>, Seq<u8>)
    decreases want - done,
{
    if done >= want || bs <= 0 {
        (true, buf, scr)
    } else {
        let (ok, b1) = rd(lba, buf);
        if !ok {
            (false, b1, scr)
        } else {
            let n = if want - done < bs { want - done } else { bs };
            let s1 = scr.subrange(0, done) + b1.subrange(0, n) + scr.subrange(done + n, scr.len() as int);
            spec_load_from(rd, crate::time::sat_add(lba as int, 1) as u64, done + n, want, bs, b1, s1)
        }
    }
}

/// Loading `nent` entries from `part_lba`: the array must fit in `scr` and
/// its sectors on the disk.
pub open spec fn spec_load_entries(
    rd: ReadFn,
    part_lba: u64,
    nent: u32,
    nsectors: u64,
    bs: u32,
    buf: Seq<u8>,
    scr: Seq<u8>,
) -> (Result<u32, PartError>, Seq<u8>, Seq<u8>) {
    let want = nent * 128;
    let nsec = want / (bs as int) + if want % (bs as int) != 0 { 1int } else { 0int };
    if scr.len() < want {
        (Err(PartError::Truncated), buf, scr)
    } else if part_lba + nsec > u64::MAX || part_lba + nsec > nsectors {
        (Err(PartError::Truncated), buf, scr)
    } else {
        let (ok, b, s) = spec_load_from(rd, part_lba, 0, want, bs as int, buf, scr);
        (if ok { Ok(nent) } else { Err(PartError::Truncated) }, b, s)
    }
}

/// Read `nent` GPT entries starting at `part_lba` into `scratch`, a
/// sector at a time through `sector_buf`. How many entries.
fn load_entries<R: SectorRead>(
    read: &mut R,
    part_lba: u64,
    nent: u32,
    nsectors: u64,
    sector_size: u32,
    sector_buf: &mut [u8],
    scratch: &mut [u8],
) -> (r: Result<u32, PartError>)
    requires
        sector_size > 0,
        old(sector_buf)@.len() >= sector_size,
        nent <= 128,
    ensures
        final(sector_buf)@.len() == old(sector_buf)@.len(),
        final(scratch)@.len() == old(scratch)@.len(),
        r matches Ok(k) ==> k == nent && nent * GPT_ENTRY_SIZE <= old(scratch)@.len(),
        (r, final(sector_buf)@, final(scratch)@) == spec_load_entries(
            reads_of(*old(read)),
            part_lba,
            nent,
            nsectors,
            sector_size,
            old(sector_buf)@,
            old(scratch)@,
        ),
        forall|l: u64, b: Seq<u8>| #[trigger] final(read).spec_read(l, b) == old(read).spec_read(l, b),
{
    let want: usize = nent as usize * 128;
    if scratch.len() < want {
        return Err(PartError::Truncated);
    }
    let bs = sector_size as u64;
    let nbytes = want as u64;
    proof {
        assert(nbytes / bs <= nbytes) by (nonlinear_arith)
            requires
                bs > 0,
        ;
    }
    let nsec = nbytes / bs + if nbytes % bs != 0 { 1 } else { 0 };
    match part_lba.checked_add(nsec) {
        Some(e) => {
            if e > nsectors {
                return Err(PartError::Truncated);
            }
        },
        None => return Err(PartError::Truncated),
    }
    let mut done: usize = 0;
    let mut lba = part_lba;
    let ghost rd0 = *old(read);
    let ghost rd = reads_of(rd0);
    let ghost bs_i = sector_size as int;
    while done < want
        invariant
            want == nent * GPT_ENTRY_SIZE,
            want <= scratch@.len(),
            scratch@.len() == old(scratch)@.len(),
            sector_buf@.len() == old(sector_buf)@.len(),
            sector_buf@.len() >= sector_size,
            sector_size > 0,
            bs_i == sector_size,
            rd0 == *old(read),
            rd == reads_of(rd0),
            spec_load_entries(rd, part_lba, nent, nsectors, sector_size, old(sector_buf)@, old(scratch)@) == ({
                let (ok, b, sc) = spec_load_from(rd, part_lba, 0, want as int, bs_i, old(sector_buf)@, old(scratch)@);
                (if ok { Ok(nent) } else { Err(PartError::Truncated) }, b, sc)
            }),
            done <= want,
            forall|l: u64, b: Seq<u8>| #[trigger] read.spec_read(l, b) == rd0.spec_read(l, b),
            spec_load_from(rd, lba, done as int, want as int, bs_i, sector_buf@, scratch@) == spec_load_from(
                rd,
                part_lba,
                0,
                want as int,
                bs_i,
                old(sector_buf)@,
                old(scratch)@,
            ),
        decreases want - done,
    {
        let ghost b0 = sector_buf@;
        let ghost s0 = scratch@;
        match read.read_sector(lba, sector_buf) {
            Ok(()) => {},
            Err(_) => {
                return Err(PartError::Truncated);
            },
        }
        let n = if want - done < sector_size as usize { want - done } else { sector_size as usize };
        put_bytes(scratch, done, &sector_buf[0..n]);
        proof {
            assert(scratch@ =~= s0.subrange(0, done as int) + sector_buf@.subrange(0, n as int) + s0.subrange(
                done + n,
                s0.len() as int,
            ));
        }
        done += n;
        lba = lba.saturating_add(1);
    }
    Ok(nent)
}

/// Append the used, in-range entries of `entries` (the first `nent`
/// that fit) to `t`, in order, until it is full.
fn parse_gpt_entries(t: &mut Table, entries: &[u8], nent: u32, nsectors: u64)
    requires
        old(t).valid_for(nsectors),
    ensures
        final(t).valid_for(nsectors),
        final(t).origin == old(t).origin,
        table_view(*final(t)) == cap_parts(table_view(*old(t)) + gpt_children(entries@, 0, nent as int, nsectors)),
{
    let mut i: u32 = 0;
    proof {
        assert(table_view(*t) + gpt_children(entries@, 0, nent as int, nsectors) == table_view(*old(t))
            + gpt_children(entries@, 0, nent as int, nsectors));
    }
    while i < nent
        invariant
            t.valid_for(nsectors),
            t.origin == old(t).origin,
            cap_parts(table_view(*t) + gpt_children(entries@, i as int, nent as int, nsectors)) == cap_parts(
                table_view(*old(t)) + gpt_children(entries@, 0, nent as int, nsectors),
            ),
        decreases nent - i,
    {
        let o64: u64 = i as u64 * 128;
        if o64 > entries.len() as u64 || (entries.len() as u64) - o64 < GPT_ENTRY_SIZE as u64 {
            proof {
                assert(table_view(*t) + gpt_children(entries@, i as int, nent as int, nsectors) =~= table_view(*t));
            }
            return;
        }
        let o = o64 as usize;
        let e = &entries[o..o + GPT_ENTRY_SIZE as usize];
        let mut guid = [0u8; 16];
        let mut k: usize = 0;
        while k < 16
            invariant
                k <= 16,
                e@.len() == GPT_ENTRY_SIZE,
                forall|j: int| 0 <= j < k ==> guid@[j] == e@[j],
            decreases 16 - k,
        {
            guid[k] = e[k];
            k += 1;
        }
        let ghost es = entries@;
        let ghost ii = i as int;
        proof {
            assert(guid@ =~= e@.take(16));
            assert(e@ == es.subrange(ii * 128, ii * 128 + 128));
        }
        let ghost child = gpt_entry_child(e@, nsectors);
        proof {
            assert(gpt_children(es, ii, nent as int, nsectors) == match child {
                Some(c) => seq![c] + gpt_children(es, ii + 1, nent as int, nsectors),
                None => gpt_children(es, ii + 1, nent as int, nsectors),
            });
        }
        if bytes_eq(guid.as_slice(), guid_unused().as_slice()) {
            i += 1;
            continue;
        }
        let first = r64(e, 32);
        let last = r64(e, 40);
        if last < first {
            i += 1;
            continue;
        }
        let n = (last - first).saturating_add(1);
        let end = first.saturating_add(n);
        if n == 0 || end > nsectors {
            i += 1;
            continue;
        }
        let p = Part {
            index: next_index(t),
            start_lba: first,
            nsectors: n,
            kind: PartKind::Gpt { type_guid: guid },
        };
        let ghost t0 = *t;
        let ghost rest = gpt_children(es, ii + 1, nent as int, nsectors);
        proof {
            assert(child == Some(part_view(p)));
        }
        if !push_part(t, p) {
            proof {
                lemma_cap_full(table_view(*t), gpt_children(es, ii, nent as int, nsectors));
            }
            return;
        }
        proof {
            lemma_table_push(t0, *t, p);
            assert(table_view(t0) + (seq![part_view(p)] + rest) =~= table_view(*t) + rest);
        }
        i += 1;
    }
}

/// Reading the GPT at `hlba`: the header must read and check out, its
/// entry array load and match the header's CRC; then the table is the
/// children the entries list. Also what the buffer and the scratch hold
/// afterwards.
pub open spec fn spec_try_gpt(
    rd: ReadFn,
    nsectors: u64,
    bs: u32,
    buf: Seq<u8>,
    scr: Seq<u8>,
    hlba: u64,
) -> (Result<Seq<PartSpec>, PartError>, Seq<u8>, Seq<u8>) {
    if hlba >= nsectors {
        (Err(PartError::Truncated), buf, scr)
    } else {
        let (ok, b1) = rd(hlba, buf);
        if !ok {
            (Err(PartError::Truncated), b1, scr)
        } else if !gpt_header_ok(b1, nsectors) {
            (Err(PartError::BadCrc), b1, scr)
        } else {
            let (lr, b2, s2) = spec_load_entries(rd, le64(b1, 72), le32(b1, 80), nsectors, bs, b1, scr);
            match lr {
                Err(e) => (Err(e), b2, s2),
                Ok(got) => if spec_crc32(s2.take(got * 128)) != le32(b1, 88) {
                    (Err(PartError::BadCrc), b2, s2)
                } else {
                    (Ok(cap_parts(gpt_children(s2, 0, got as int, nsectors))), b2, s2)
                },
            }
        }
    }
}

/// Read and check the GPT header at `header_lba` and its entry array,
/// and build the table from its entries.
fn try_gpt<R: SectorRead>(
    nsectors: u64,
    sector_size: u32,
    read: &mut R,
    sector_buf: &mut [u8],
    scratch: &mut [u8],
    header_lba: u64,
    used_backup: bool,
) -> (r: Result<Table, PartError>)
    requires
        sector_size > 0,
        old(sector_buf)@.len() >= sector_size,
    ensures
        final(sector_buf)@.len() == old(sector_buf)@.len(),
        final(scratch)@.len() == old(scratch)@.len(),
        r matches Ok(t) ==> t.valid_for(nsectors) && t.origin == (TableOrigin::Gpt { used_backup }),
        ({
            let (sr, b, sc) = spec_try_gpt(
                reads_of(*old(read)),
                nsectors,
                sector_size,
                old(sector_buf)@,
                old(scratch)@,
                header_lba,
            );
            &&& final(sector_buf)@ == b
            &&& final(scratch)@ == sc
            &&& match sr {
                Ok(ps) => r matches Ok(t) && table_view(t) == ps,
                Err(e) => r == Err::<Table, PartError>(e),
            }
        }),
        forall|l: u64, b: Seq<u8>| #[trigger] final(read).spec_read(l, b) == old(read).spec_read(l, b),
{
    if header_lba >= nsectors {
        return Err(PartError::Truncated);
    }
    match read.read_sector(header_lba, sector_buf) {
        Ok(()) => {},
        Err(_) => return Err(PartError::Truncated),
    }
    if !header_ok(sector_buf, nsectors) {
        return Err(PartError::BadCrc);
    }
    let part_lba = r64(sector_buf, 72);
    let nent = r32(sector_buf, 80);
    let stored_ecrc = r32(sector_buf, 88);
    let ghost mid = *read;
    proof {
        lemma_reads_of(mid, *old(read));
    }
    let got = match load_entries(read, part_lba, nent, nsectors, sector_size, sector_buf, scratch) {
        Ok(g) => g,
        Err(e) => {
            return Err(e);
        },
    };
    let want = got as usize * GPT_ENTRY_SIZE as usize;
    proof {
        assert(scratch@.subrange(0, want as int) =~= scratch@.take(want as int));
    }
    if crc32_ieee(&scratch[0..want]) != stored_ecrc {
        return Err(PartError::BadCrc);
    }
    let mut t = Table::empty(TableOrigin::Gpt { used_backup });
    proof {
        assert(table_view(t) =~= Seq::<PartSpec>::empty());
        assert(table_view(t) + gpt_children(scratch@, 0, got as int, nsectors) =~= gpt_children(
            scratch@,
            0,
            got as int,
            nsectors,
        ));
    }
    parse_gpt_entries(&mut t, scratch, got, nsectors);
    Ok(t)
}

/// A sector that ends in the MBR signature.
pub open spec fn mbr_sig_ok(b: Seq<u8>) -> bool {
    b.len() >= 512 && b[MBR_SIG_OFF as int] == 0x55 && b[MBR_SIG_OFF + 1] == 0xAA
}

/// An MBR child of type `sys` over `count` sectors from `start`.
pub open spec fn mbr_part(sys: u8, start: u64, count: u64) -> PartSpec {
    PartSpec { start, len: count, gpt: false, sys, guid: Seq::empty() }
}

/// Following the chain of extended boot records from `ebr` (record
/// `depth` of at most `MAX_EBR_DEPTH`) inside `[ext_start, ext_end)` on a
/// disk of `nsectors`, after the children `acc`: the children and what the
/// buffer holds afterwards. A record's data slot adds a child relative to
/// the record; its link slot leads on relative to the extended partition.
/// The walk stops at the first failed read, missing signature, bad range,
/// full table, bad or self link, or missing link.
pub open spec fn spec_logical(
    rd: ReadFn,
    nsectors: u64,
    ext_start: u64,
    ext_end: u64,
    ebr: u64,
    depth: int,
    acc: Seq<PartSpec>,
    buf: Seq<u8>,
) -> (Seq<PartSpec>, Seq<u8>)
    decreases MAX_EBR_DEPTH - depth,
{
    if depth >= MAX_EBR_DEPTH || ebr >= nsectors || ebr >= ext_end {
        (acc, buf)
    } else {
        let (ok, b1) = rd(ebr, buf);
        if !ok || !mbr_sig_ok(b1) {
            (acc, b1)
        } else {
            let (sys, rel, count) = spec_mbr_entry(b1, 0);
            let data = sys != 0 && count != 0 && !spec_is_extended(sys) && sys != MBR_PROTECTIVE;
            let start = ebr + rel;
            let end = start + count;
            if data && (end > u64::MAX || start >= nsectors || end > nsectors || start < ext_start || end > ext_end
                || acc.len() >= MAX_PARTS) {
                (acc, b1)
            } else {
                let acc1 = if data { acc.push(mbr_part(sys, start as u64, count)) } else { acc };
                let (nsys, nrel, _) = spec_mbr_entry(b1, 1);
                let next = ext_start + nrel;
                if nrel == 0 || !spec_is_extended(nsys) || next >= nsectors || next == ebr || next < ext_start || next
                    >= ext_end {
                    (acc1, b1)
                } else {
                    spec_logical(rd, nsectors, ext_start, ext_end, next as u64, depth + 1, acc1, b1)
                }
            }
        }
    }
}

/// Walk the chain of extended boot records inside the extended
/// partition `[ext_start, ext_start + ext_count)`, appending each
/// in-range logical partition to `t`. Stops at the first bad link, a
/// self-link, or after `MAX_EBR_DEPTH` records.
fn parse_logical<R: SectorRead>(
    t: &mut Table,
    nsectors: u64,
    read: &mut R,
    sector_buf: &mut [u8],
    ext_start: u64,
    ext_count: u64,
)
    requires
        old(t).valid_for(nsectors),
    ensures
        final(t).valid_for(nsectors),
        final(t).origin == old(t).origin,
        final(sector_buf)@.len() == old(sector_buf)@.len(),
        (table_view(*final(t)), final(sector_buf)@) == spec_logical(
            reads_of(*old(read)),
            nsectors,
            ext_start,
            crate::time::sat_add(ext_start as int, ext_count as int) as u64,
            ext_start,
            0,
            table_view(*old(t)),
            old(sector_buf)@,
        ),
        forall|l: u64, b: Seq<u8>| #[trigger] final(read).spec_read(l, b) == old(read).spec_read(l, b),
{
    let ext_end = ext_start.saturating_add(ext_count);
    let mut ebr = ext_start;
    let mut depth: u32 = 0;
    let ghost rd0 = *old(read);
    let ghost rd = reads_of(rd0);
    while depth < MAX_EBR_DEPTH
        invariant
            t.valid_for(nsectors),
            t.origin == old(t).origin,
            sector_buf@.len() == old(sector_buf)@.len(),
            rd0 == *old(read),
            rd == reads_of(rd0),
            forall|l: u64, b: Seq<u8>| #[trigger] read.spec_read(l, b) == rd0.spec_read(l, b),
            ext_end == crate::time::sat_add(ext_start as int, ext_count as int) as u64,
            spec_logical(rd, nsectors, ext_start, ext_end, ebr, depth as int, table_view(*t), sector_buf@)
                == spec_logical(
                rd,
                nsectors,
                ext_start,
                ext_end,
                ext_start,
                0,
                table_view(*old(t)),
                old(sector_buf)@,
            ),
        decreases MAX_EBR_DEPTH - depth,
    {
        let ghost d = depth as int;
        let ghost b0 = sector_buf@;
        let ghost tv0 = table_view(*t);
        let ghost t0 = *t;
        depth += 1;
        if ebr >= nsectors || ebr >= ext_end {
            return;
        }
        match read.read_sector(ebr, sector_buf) {
            Ok(()) => {},
            Err(_) => {
                return;
            },
        }
        if sector_buf.len() < 512 || sector_buf[MBR_SIG_OFF] != 0x55 || sector_buf[MBR_SIG_OFF + 1] != 0xAA {
            return;
        }
        let (sys, rel, count) = mbr_entry(sector_buf, 0);
        if sys != 0 && count != 0 && !is_extended(sys) && sys != MBR_PROTECTIVE {
            let start = match ebr.checked_add(rel) {
                Some(s) => s,
                None => {
                    return;
                },
            };
            let end = match start.checked_add(count) {
                Some(e) => e,
                None => {
                    return;
                },
            };
            if start >= nsectors || end > nsectors || start < ext_start || end > ext_end {
                return;
            }
            let p = Part {
                index: next_index(t),
                start_lba: start,
                nsectors: count,
                kind: PartKind::Mbr { sys },
            };
            if !push_part(t, p) {
                return;
            }
            proof {
                lemma_table_push(t0, *t, p);
            }
        }
        let (nsys, nrel, _) = mbr_entry(sector_buf, 1);
        if nrel == 0 || !is_extended(nsys) {
            return;
        }
        let next = match ext_start.checked_add(nrel) {
            Some(n) => n,
            None => {
                return;
            },
        };
        if next >= nsectors || next == ebr || next < ext_start || next >= ext_end {
            return;
        }
        ebr = next;
    }
}

/// The children of MBR slots `i..4` of the sector in `buf`, after `acc`,
/// and what the buffer holds afterwards: an in-range data slot adds a
/// child (the walk ends once the table is full), an extended slot adds its
/// logical children, and empty, protective and out-of-range slots nothing.
/// The walk of an extended slot reads its EBRs into the buffer, so the
/// slots after an extended one are read from the last EBR it read, not
/// from the primary MBR.
pub open spec fn spec_mbr_from(rd: ReadFn, nsectors: u64, i: int, acc: Seq<PartSpec>, buf: Seq<u8>) -> (
    Seq<PartSpec>,
    Seq<u8>,
)
    decreases 4 - i,
{
    if i >= 4 || i < 0 {
        (acc, buf)
    } else {
        let (sys, start, count) = spec_mbr_entry(buf, i);
        if sys == 0 || count == 0 || sys == MBR_PROTECTIVE {
            spec_mbr_from(rd, nsectors, i + 1, acc, buf)
        } else if spec_is_extended(sys) {
            let (acc1, b1) = spec_logical(
                rd,
                nsectors,
                start,
                crate::time::sat_add(start as int, count as int) as u64,
                start,
                0,
                acc,
                buf,
            );
            spec_mbr_from(rd, nsectors, i + 1, acc1, b1)
        } else if start + count > u64::MAX || start >= nsectors || start + count > nsectors {
            spec_mbr_from(rd, nsectors, i + 1, acc, buf)
        } else if acc.len() >= MAX_PARTS {
            (acc, buf)
        } else {
            spec_mbr_from(rd, nsectors, i + 1, acc.push(mbr_part(sys, start, count)), buf)
        }
    }
}

/// The primary MBR in `sector_buf`: an in-range data slot becomes a
/// child, an extended slot contributes its logical partitions, and the
/// protective slot is skipped. The EBR walk of an extended slot reads
/// into `sector_buf`, so the slots after it are taken from the last EBR
/// that walk read, not from the primary MBR.
fn parse_mbr<R: SectorRead>(nsectors: u64, read: &mut R, sector_buf: &mut [u8]) -> (r: Result<Table, PartError>)
    requires
        old(sector_buf)@.len() >= 512,
    ensures
        final(sector_buf)@.len() == old(sector_buf)@.len(),
        r matches Ok(t) ==> t.valid_for(nsectors) && t.origin == TableOrigin::Mbr,
        r matches Ok(t) && (table_view(t), final(sector_buf)@) == spec_mbr_from(
            reads_of(*old(read)),
            nsectors,
            0,
            Seq::empty(),
            old(sector_buf)@,
        ),
        forall|l: u64, b: Seq<u8>| #[trigger] final(read).spec_read(l, b) == old(read).spec_read(l, b),
{
    let mut t = Table::empty(TableOrigin::Mbr);
    let mut i: usize = 0;
    let ghost rd0 = *old(read);
    let ghost rd = reads_of(rd0);
    proof {
        assert(table_view(t) =~= Seq::<PartSpec>::empty());
    }
    while i < 4
        invariant
            t.valid_for(nsectors),
            t.origin == TableOrigin::Mbr,
            sector_buf@.len() == old(sector_buf)@.len(),
            sector_buf@.len() >= 512,
            i <= 4,
            rd0 == *old(read),
            rd == reads_of(rd0),
            forall|l: u64, b: Seq<u8>| #[trigger] read.spec_read(l, b) == rd0.spec_read(l, b),
            spec_mbr_from(rd, nsectors, i as int, table_view(t), sector_buf@) == spec_mbr_from(
                rd,
                nsectors,
                0,
                Seq::empty(),
                old(sector_buf)@,
            ),
        decreases 4 - i,
    {
        let ghost t0 = t;
        let (sys, start, count) = mbr_entry(sector_buf, i);
        if sys == 0 || count == 0 || sys == MBR_PROTECTIVE {
            i += 1;
            continue;
        }
        if is_extended(sys) {
            proof {
                lemma_reads_of(*read, rd0);
            }
            parse_logical(&mut t, nsectors, read, sector_buf, start, count);
            i += 1;
            continue;
        }
        let end = match start.checked_add(count) {
            Some(e) => e,
            None => {
                i += 1;
                continue;
            },
        };
        if start >= nsectors || end > nsectors {
            i += 1;
            continue;
        }
        let p = Part { index: next_index(&t), start_lba: start, nsectors: count, kind: PartKind::Mbr { sys } };
        if !push_part(&mut t, p) {
            i = 4;
            continue;
        }
        proof {
            lemma_table_push(t0, t, p);
        }
        i += 1;
    }
    Ok(t)
}

/// One of the four MBR slots of `b` is the protective entry.
pub open spec fn has_protective(b: Seq<u8>) -> bool {
    spec_mbr_entry(b, 0).0 == MBR_PROTECTIVE || spec_mbr_entry(b, 1).0 == MBR_PROTECTIVE || spec_mbr_entry(b, 2).0
        == MBR_PROTECTIVE || spec_mbr_entry(b, 3).0 == MBR_PROTECTIVE
}

/// The MBR reading that ends a parse: sector 0 again, then its primary
/// table when it is signed (`sig`, from the first read).
pub open spec fn spec_mbr_tail(rd: ReadFn, nsectors: u64, sig: bool, buf: Seq<u8>) -> Result<
    (TableOrigin, Seq<PartSpec>),
    PartError,
> {
    let (ok, b) = rd(0, buf);
    if !ok {
        Err(PartError::Truncated)
    } else if !sig {
        Err(PartError::Empty)
    } else {
        Ok((TableOrigin::Mbr, spec_mbr_from(rd, nsectors, 0, Seq::empty(), b).0))
    }
}

/// What a parse of a disk of `nsectors` sectors of `ss` bytes, read
/// through `rd` with the buffer `buf` and the scratch `scr`, gives: the
/// table's origin and children, or the error.
pub open spec fn spec_parse(rd: ReadFn, nsectors: u64, ss: u32, buf: Seq<u8>, scr: Seq<u8>) -> Result<
    (TableOrigin, Seq<PartSpec>),
    PartError,
> {
    if ss == 0 || buf.len() < ss {
        Err(PartError::Invalid)
    } else if nsectors == 0 {
        Err(PartError::Empty)
    } else {
        let (ok, b1) = rd(0, buf);
        if !ok {
            Err(PartError::Truncated)
        } else {
            let sig = mbr_sig_ok(b1);
            let prot = sig && has_protective(b1);
            if nsectors >= 2 {
                let (r1, b2, s2) = spec_try_gpt(rd, nsectors, ss, b1, scr, 1);
                match r1 {
                    Ok(ps) => Ok((TableOrigin::Gpt { used_backup: false }, ps)),
                    Err(e1) => if e1 == PartError::Truncated && !prot {
                        spec_mbr_tail(rd, nsectors, sig, b2)
                    } else {
                        let (r2, b3, s3) = spec_try_gpt(rd, nsectors, ss, b2, s2, (nsectors - 1) as u64);
                        match r2 {
                            Ok(ps) => Ok((TableOrigin::Gpt { used_backup: true }, ps)),
                            Err(_) => if prot {
                                Err(PartError::BadCrc)
                            } else {
                                spec_mbr_tail(rd, nsectors, sig, b3)
                            },
                        }
                    },
                }
            } else if prot {
                Err(PartError::Truncated)
            } else {
                spec_mbr_tail(rd, nsectors, sig, b1)
            }
        }
    }
}

/// Parse MBR and/or GPT. `sector_buf` holds at least a sector; `scratch`
/// holds the GPT entry array when present (typically 128 x 128 bytes).
///
/// GPT wins when its primary or backup header and entries check out; a
/// protective MBR whose GPT cannot be read is `BadCrc` (or `Truncated` on
/// a one-sector disk); otherwise a signed MBR is parsed, and no signature
/// at all is `Empty`. Every child is a non-empty range inside the disk,
/// and the protective entry is never a child.
pub fn parse<R: SectorRead>(
    nsectors: u64,
    sector_size: u32,
    read: &mut R,
    sector_buf: &mut [u8],
    scratch: &mut [u8],
) -> (r: Result<Table, PartError>)
    ensures
        (sector_size == 0 || old(sector_buf)@.len() < sector_size) ==> r == Err::<Table, PartError>(
            PartError::Invalid),
        !(sector_size == 0 || old(sector_buf)@.len() < sector_size) && nsectors == 0 ==> r == Err::<
            Table,
            PartError,
        >(PartError::Empty),
        (sector_size == 0 || old(sector_buf)@.len() < sector_size || nsectors == 0) ==> *final(read) == *old(read)
            && final(sector_buf)@ == old(sector_buf)@ && final(scratch)@ == old(scratch)@,
        r matches Ok(t) ==> t.valid_for(nsectors),
        match spec_parse(reads_of(*old(read)), nsectors, sector_size, old(sector_buf)@, old(scratch)@) {
            Ok((o, ps)) => r matches Ok(t) && t.origin == o && table_view(t) == ps,
            Err(e) => r == Err::<Table, PartError>(e),
        },
{
    if sector_size == 0 || sector_buf.len() < sector_size as usize {
        return Err(PartError::Invalid);
    }
    if nsectors == 0 {
        return Err(PartError::Empty);
    }
    let ghost rd0 = *old(read);
    let ghost rd = reads_of(rd0);
    match read.read_sector(0, sector_buf) {
        Ok(()) => {},
        Err(_) => return Err(PartError::Truncated),
    }
    let ghost b1 = sector_buf@;
    let mbr_sig = sector_buf.len() >= 512 && sector_buf[MBR_SIG_OFF] == 0x55 && sector_buf[MBR_SIG_OFF + 1] == 0xAA;
    let mut protective = false;
    if mbr_sig {
        let mut i: usize = 0;
        while i < 4
            invariant
                sector_buf@.len() >= 512,
                sector_buf@ == b1,
                i <= 4,
                protective == ((i > 0 && spec_mbr_entry(b1, 0).0 == MBR_PROTECTIVE) || (i > 1 && spec_mbr_entry(
                    b1,
                    1,
                ).0 == MBR_PROTECTIVE) || (i > 2 && spec_mbr_entry(b1, 2).0 == MBR_PROTECTIVE) || (i > 3
                    && spec_mbr_entry(b1, 3).0 == MBR_PROTECTIVE)),
            decreases 4 - i,
        {
            let (sys, _, _) = mbr_entry(sector_buf, i);
            if sys == MBR_PROTECTIVE {
                protective = true;
            }
            i += 1;
        }
    }
    proof {
        assert(mbr_sig == mbr_sig_ok(b1));
        assert(protective == (mbr_sig && has_protective(b1)));
        lemma_reads_of(*read, rd0);
    }
    if nsectors >= 2 {
        let primary = try_gpt(nsectors, sector_size, read, sector_buf, scratch, 1, false);
        proof {
            lemma_reads_of(*read, rd0);
        }
        match primary {
            Ok(t) => return Ok(t),
            Err(e) => {
                if e == PartError::Truncated && !protective {
                } else {
                    let backup = try_gpt(nsectors, sector_size, read, sector_buf, scratch, nsectors - 1, true);
                    proof {
                        lemma_reads_of(*read, rd0);
                    }
                    match backup {
                        Ok(t) => return Ok(t),
                        Err(_) => {},
                    }
                    if protective {
                        return Err(PartError::BadCrc);
                    }
                }
            },
        }
    } else if protective {
        return Err(PartError::Truncated);
    }
    match read.read_sector(0, sector_buf) {
        Ok(()) => {},
        Err(_) => return Err(PartError::Truncated),
    }
    if !mbr_sig {
        return Err(PartError::Empty);
    }
    proof {
        lemma_reads_of(*read, rd0);
    }
    parse_mbr(nsectors, read, sector_buf)
}

/// Parse a whole-disk image with sectors of `sector_size` bytes (at most
/// 512).
pub fn parse_image(disk: &[u8], sector_size: u32) -> (r: Result<Table, PartError>)
    ensures
        (sector_size == 0 || sector_size > 512) ==> r == Err::<Table, PartError>(PartError::Invalid),
        (0 < sector_size <= 512 && disk@.len() < sector_size) ==> r == Err::<Table, PartError>(PartError::Empty),
        r matches Ok(t) ==> t.valid_for(((disk@.len() as int) / (sector_size as int)) as u64),
        0 < sector_size <= 512 ==> match spec_parse(
            reads_of((ImageReader { disk: disk, sector_size: sector_size })),
            ((disk@.len() as int) / (sector_size as int)) as u64,
            sector_size,
            Seq::new(512, |i: int| 0u8),
            Seq::new(0x4000, |i: int| 0u8),
        ) {
            Ok((o, ps)) => r matches Ok(t) && t.origin == o && table_view(t) == ps,
            Err(e) => r == Err::<Table, PartError>(e),
        },
{
    if sector_size == 0 {
        return Err(PartError::Invalid);
    }
    let nsectors = (disk.len() as u64) / (sector_size as u64);
    proof {
        let l = disk@.len() as int;
        let d = sector_size as int;
        assert(l < d ==> l / d == 0) by (nonlinear_arith)
            requires
                0 <= l,
                0 < d,
        ;
    }
    let mut sec = [0u8; 512];
    if sector_size as usize > 512 {
        return Err(PartError::Invalid);
    }
    let mut scratch: Vec<u8> = vec_of_zeros(128 * 128);
    let mut reader = ImageReader { disk, sector_size };
    proof {
        assert(sec@ =~= Seq::new(512, |i: int| 0u8));
        assert(scratch@ =~= Seq::new(0x4000, |i: int| 0u8));
    }
    parse(nsectors, sector_size, &mut reader, &mut sec, scratch.as_mut_slice())
}

/// The children an MBR's slots give, from slot `i` on after `acc`: one
/// per slot with a type and a size, in slot order.
pub open spec fn slot_children(slots: Seq<(u8, u32, u32)>, i: int, acc: Seq<PartSpec>) -> Seq<PartSpec>
    decreases 4 - i,
{
    if i < 0 || i >= 4 {
        acc
    } else {
        let (sys, start, count) = slots[i];
        if sys == 0 || count == 0 {
            slot_children(slots, i + 1, acc)
        } else {
            slot_children(slots, i + 1, acc.push(mbr_part(sys, start as u64, count as u64)))
        }
    }
}

/// Four slots, each empty or a data partition (neither protective nor
/// extended) inside a disk of `nsectors`.
pub open spec fn data_slots(slots: Seq<(u8, u32, u32)>, nsectors: u64) -> bool {
    &&& slots.len() == 4
    &&& forall|i: int| 0 <= i < 4 ==> {
        let (sys, start, count) = #[trigger] slots[i];
        sys == 0 || count == 0 || (sys != MBR_PROTECTIVE && !spec_is_extended(sys) && start + count <= nsectors)
    }
}

/// Reading the primary table of an MBR sector holding data slots gives
/// their children and reads nothing more.
proof fn lemma_mbr_from_slots(
    rd: ReadFn,
    nsectors: u64,
    b: Seq<u8>,
    slots: Seq<(u8, u32, u32)>,
    i: int,
    acc: Seq<PartSpec>,
)
    requires
        mbr_image(b, slots),
        data_slots(slots, nsectors),
        0 <= i <= 4,
        acc.len() + (4 - i) <= MAX_PARTS,
    ensures
        spec_mbr_from(rd, nsectors, i, acc, b) == (slot_children(slots, i, acc), b),
    decreases 4 - i,
{
    if i < 4 {
        let (sys, start, count) = slots[i];
        assert(spec_mbr_entry(b, i) == (if sys != 0 && count != 0 {
            (sys, start as u64, count as u64)
        } else {
            (0u8, 0u64, 0u64)
        }));
        if sys == 0 || count == 0 {
            lemma_mbr_from_slots(rd, nsectors, b, slots, i + 1, acc);
        } else {
            lemma_mbr_from_slots(rd, nsectors, b, slots, i + 1, acc.push(mbr_part(sys, start as u64, count as u64)));
        }
    }
}

/// What an MBR written by `pack_mbr` reads back as: a disk whose first
/// sector holds data slots `slots`, and whose second and last sectors hold
/// no GPT header, parses as that MBR, one child per slot with a type and
/// a size, in slot order.
pub proof fn lemma_mbr_roundtrip(disk: &[u8], slots: Seq<(u8, u32, u32)>)
    requires
        1024 <= disk@.len() <= usize::MAX,
        disk@.len() % 512 == 0,
        mbr_image(disk@.subrange(0, 512), slots),
        data_slots(slots, (disk@.len() / 512) as u64),
        disk@.subrange(512, 520) != spec_gpt_sig(),
        disk@.subrange(disk@.len() - 512, disk@.len() - 504) != spec_gpt_sig(),
    ensures
        spec_parse(
            reads_of((ImageReader { disk: disk, sector_size: 512 })),
            (disk@.len() / 512) as u64,
            512,
            Seq::new(512, |i: int| 0u8),
            Seq::new(0x4000, |i: int| 0u8),
        ) == Ok::<(TableOrigin, Seq<PartSpec>), PartError>((TableOrigin::Mbr, slot_children(slots, 0, Seq::empty()))),
{
    let r = ImageReader { disk: disk, sector_size: 512 };
    let rd = reads_of(r);
    let d = disk@;
    let n = (d.len() / 512) as u64;
    let z = Seq::new(512, |i: int| 0u8);
    let s0 = d.subrange(0, 512);
    let s1 = d.subrange(512, 1024);
    let sl = d.subrange(d.len() - 512, d.len() as int);
    assert(n >= 2 && n * 512 == d.len());
    assert(rd(0, z) == r.spec_read(0, z));
    assert(r.spec_read(0, z) == (true, s0)) by {
        assert(d.subrange(0, 512) + z.subrange(512, 512) =~= s0);
    }
    assert(r.spec_read(1, s0) == (true, s1)) by {
        assert(d.subrange(512, 1024) + s0.subrange(512, 512) =~= s1);
    }
    assert(s1.take(8) != spec_gpt_sig()) by {
        assert(s1.take(8) =~= d.subrange(512, 520));
    }
    assert((n - 1) * 512 == d.len() - 512);
    assert(r.spec_read((n - 1) as u64, s1) == (true, sl)) by {
        assert(d.subrange(d.len() - 512, d.len() as int) + s1.subrange(512, 512) =~= sl);
    }
    assert(sl.take(8) != spec_gpt_sig()) by {
        assert(sl.take(8) =~= d.subrange(d.len() - 512, d.len() - 504));
    }
    assert(r.spec_read(0, sl) == (true, s0)) by {
        assert(d.subrange(0, 512) + sl.subrange(512, 512) =~= s0);
    }
    assert(mbr_sig_ok(s0));
    assert(!has_protective(s0)) by {
        assert forall|i: int| 0 <= i < 4 implies (#[trigger] spec_mbr_entry(s0, i)).0 != MBR_PROTECTIVE by {
            let (sys, start, count) = slots[i];
            assert(data_slots(slots, n));
        }
        assert(spec_mbr_entry(s0, 0).0 != MBR_PROTECTIVE);
        assert(spec_mbr_entry(s0, 1).0 != MBR_PROTECTIVE);
        assert(spec_mbr_entry(s0, 2).0 != MBR_PROTECTIVE);
        assert(spec_mbr_entry(s0, 3).0 != MBR_PROTECTIVE);
    }
    lemma_mbr_from_slots(rd, n, s0, slots, 0, Seq::empty());
}

/// Sector `l` of the 512-byte-sector disk `d`.
pub open spec fn disk_sector(d: Seq<u8>, l: int) -> Seq<u8> {
    d.subrange(l * 512, l * 512 + 512)
}

/// The slots `pack_ebr` writes for record `k` of `chain`: its logical
/// partition, and the link to the next record (at that record's offset
/// from the extended partition's start), none for the last record. A
/// record is `(offset from the extended start, type, data start relative
/// to the record, data size, link size)`.
pub open spec fn ebr_slots(chain: Seq<(u32, u8, u32, u32, u32)>, k: int) -> Seq<(u8, u32, u32)> {
    let next: u32 = if k + 1 < chain.len() { chain[k + 1].0 } else { 0u32 };
    seq![
        (chain[k].1, chain[k].2, chain[k].3),
        (if next == 0 { 0u8 } else { MBR_EXTENDED }, next, chain[k].4),
        (0u8, 0u32, 0u32),
        (0u8, 0u32, 0u32),
    ]
}

/// A chain of EBRs inside the extended partition `[ext_start, ext_end)`:
/// the first at its start, each further one past the one before, at most
/// `MAX_EBR_DEPTH` of them, each holding a data partition inside the
/// extended partition and, but the last, a link with a size.
pub open spec fn ebr_chain_ok(chain: Seq<(u32, u8, u32, u32, u32)>, ext_start: u64, ext_end: u64) -> bool {
    &&& 1 <= chain.len() <= MAX_EBR_DEPTH
    &&& chain[0].0 == 0
    &&& forall|k: int, l: int| 0 <= k < l < chain.len() ==> (#[trigger] chain[k]).0 < (#[trigger] chain[l]).0
    &&& forall|k: int|
        0 <= k < chain.len() ==> {
            let (off, sys, rel, count, link) = #[trigger] chain[k];
            &&& sys != 0 && count != 0 && !spec_is_extended(sys) && sys != MBR_PROTECTIVE
            &&& ext_start + off + rel + count <= ext_end
            &&& k + 1 < chain.len() ==> link != 0
        }
}

/// The logical children a chain gives: one per record, in chain order,
/// each starting at its data start relative to its record.
pub open spec fn chain_children(ext_start: u64, chain: Seq<(u32, u8, u32, u32, u32)>) -> Seq<PartSpec> {
    Seq::new(
        chain.len(),
        |k: int| mbr_part(chain[k].1, (ext_start + chain[k].0 + chain[k].2) as u64, chain[k].3 as u64),
    )
}

/// The disk `d` holds, for each record of `chain`, the EBR `pack_ebr`
/// writes at `ext_start` plus the record's offset.
pub open spec fn holds_chain(d: Seq<u8>, ext_start: u64, chain: Seq<(u32, u8, u32, u32, u32)>) -> bool {
    forall|k: int| 0 <= k < chain.len() ==> mbr_image(disk_sector(d, ext_start + (#[trigger] chain[k]).0), ebr_slots(chain, k))
}

/// A read of an in-range sector into a sector-sized buffer gives that
/// sector.
proof fn lemma_image_read(disk: &[u8], l: u64, buf: Seq<u8>)
    requires
        disk@.len() % 512 == 0,
        disk@.len() <= usize::MAX,
        (l + 1) * 512 <= disk@.len(),
        buf.len() == 512,
    ensures
        reads_of((ImageReader { disk: disk, sector_size: 512 }))(l, buf) == (true, disk_sector(disk@, l as int)),
{
    let r = ImageReader { disk: disk, sector_size: 512 };
    assert(l <= usize::MAX);
    assert(disk@.subrange(l * 512, l * 512 + 512) + buf.subrange(512, 512) =~= disk_sector(disk@, l as int));
    assert(reads_of(r)(l, buf) == r.spec_read(l, buf));
}

/// One EBR of a walk whose data slot is an in-range data partition: it
/// adds that child, then stops at a missing link or follows a good one.
proof fn lemma_logical_step(
    rd: ReadFn,
    n: u64,
    es: u64,
    ee: u64,
    ebr: u64,
    depth: int,
    acc: Seq<PartSpec>,
    buf: Seq<u8>,
    b1: Seq<u8>,
)
    requires
        0 <= depth < MAX_EBR_DEPTH,
        es <= ebr,
        ee <= n,
        rd(ebr, buf) == (true, b1),
        mbr_sig_ok(b1),
        spec_mbr_entry(b1, 0).0 != 0,
        spec_mbr_entry(b1, 0).2 != 0,
        !spec_is_extended(spec_mbr_entry(b1, 0).0),
        spec_mbr_entry(b1, 0).0 != MBR_PROTECTIVE,
        ebr + spec_mbr_entry(b1, 0).1 + spec_mbr_entry(b1, 0).2 <= ee,
        acc.len() < MAX_PARTS,
    ensures
        ({
            let (sys, rel, count) = spec_mbr_entry(b1, 0);
            let acc1 = acc.push(mbr_part(sys, (ebr + rel) as u64, count));
            let (nsys, nrel, _) = spec_mbr_entry(b1, 1);
            &&& nrel == 0 ==> spec_logical(rd, n, es, ee, ebr, depth, acc, buf) == (acc1, b1)
            &&& (nrel != 0 && spec_is_extended(nsys) && es + nrel < ee && es + nrel != ebr) ==> spec_logical(
                rd,
                n,
                es,
                ee,
                ebr,
                depth,
                acc,
                buf,
            ) == spec_logical(rd, n, es, ee, (es + nrel) as u64, depth + 1, acc1, b1)
        }),
{
}

/// Walking a chain from record `j` gives one child per remaining record
/// and leaves the last record's sector in the buffer.
proof fn lemma_logical_chain(
    disk: &[u8],
    ext_start: u64,
    ext_end: u64,
    chain: Seq<(u32, u8, u32, u32, u32)>,
    j: int,
    acc: Seq<PartSpec>,
    buf: Seq<u8>,
)
    requires
        disk@.len() % 512 == 0,
        disk@.len() <= usize::MAX,
        ext_end <= disk@.len() / 512,
        ebr_chain_ok(chain, ext_start, ext_end),
        holds_chain(disk@, ext_start, chain),
        0 <= j < chain.len(),
        acc.len() + chain.len() - j <= MAX_PARTS,
        buf.len() == 512,
    ensures
        spec_logical(
            reads_of((ImageReader { disk: disk, sector_size: 512 })),
            (disk@.len() / 512) as u64,
            ext_start,
            ext_end,
            (ext_start + chain[j].0) as u64,
            j,
            acc,
            buf,
        ) == (acc + chain_children(ext_start, chain).skip(j), disk_sector(
            disk@,
            ext_start + chain[chain.len() - 1].0,
        )),
    decreases chain.len() - j,
{
    let rd = reads_of((ImageReader { disk: disk, sector_size: 512 }));
    let n = (disk@.len() / 512) as u64;
    let (off, sys, rel, count, link) = chain[j];
    let ebr = (ext_start + off) as u64;
    assert(ext_start + off + rel + count <= ext_end);
    assert((ebr + 1) * 512 <= disk@.len()) by (nonlinear_arith)
        requires
            ebr + 1 <= n,
            n == disk@.len() / 512,
            disk@.len() % 512 == 0,
    ;
    lemma_image_read(disk, ebr, buf);
    let b1 = disk_sector(disk@, ebr as int);
    let last = j + 1 == chain.len();
    let next: u32 = if last { 0u32 } else { chain[j + 1].0 };
    assert(spec_mbr_entry(b1, 0) == (sys, rel as u64, count as u64) && mbr_sig_ok(b1) && spec_mbr_entry(b1, 1).1
        == next as u64 && (!last ==> spec_mbr_entry(b1, 1).0 == MBR_EXTENDED)) by {
        let sl = ebr_slots(chain, j);
        assert(mbr_image(b1, sl));
        assert(sl[0] == (sys, rel, count));
        if !last {
            assert(chain[j].0 < chain[j + 1].0);
            assert(sl[1] == (MBR_EXTENDED, next, link));
        } else {
            assert(sl[1] == (0u8, 0u32, link));
        }
    }
    lemma_logical_step(rd, n, ext_start, ext_end, ebr, j, acc, buf, b1);
    let cc = chain_children(ext_start, chain);
    let acc1 = acc.push(cc[j]);
    assert(cc[j] == mbr_part(sys, (ebr + rel) as u64, count as u64));
    lemma_children_skip(cc, j, acc);
    if !last {
        let (o2, s2, r2, c2, l2) = chain[j + 1];
        assert(ext_start + o2 + r2 + c2 <= ext_end);
        lemma_logical_chain(disk, ext_start, ext_end, chain, j + 1, acc1, b1);
    }
}

/// Taking child `j` off the front of the children from `j` on.
proof fn lemma_children_skip(cc: Seq<PartSpec>, j: int, acc: Seq<PartSpec>)
    requires
        0 <= j < cc.len(),
    ensures
        acc.push(cc[j]) + cc.skip(j + 1) == acc + cc.skip(j),
        j + 1 == cc.len() ==> acc + cc.skip(j) == acc.push(cc[j]),
{
    assert(acc.push(cc[j]) + cc.skip(j + 1) =~= acc + cc.skip(j));
    if j + 1 == cc.len() {
        assert(acc + cc.skip(j) =~= acc.push(cc[j]));
    }
}

/// An MBR whose slots after `i` are all empty adds nothing from them.
proof fn lemma_mbr_from_empty(rd: ReadFn, nsectors: u64, b: Seq<u8>, i: int, acc: Seq<PartSpec>)
    requires
        0 <= i <= 4,
        forall|q: int| i <= q < 4 ==> (#[trigger] spec_mbr_entry(b, q)).0 == 0,
    ensures
        spec_mbr_from(rd, nsectors, i, acc, b) == (acc, b),
    decreases 4 - i,
{
    if i < 4 {
        assert(spec_mbr_entry(b, i).0 == 0);
        lemma_mbr_from_empty(rd, nsectors, b, i + 1, acc);
    }
}

/// The slots of `slots` before `x`, and the rest empty.
pub open spec fn slots_before(slots: Seq<(u8, u32, u32)>, x: int) -> Seq<(u8, u32, u32)> {
    Seq::new(4, |i: int| if i < x { slots[i] } else { (0u8, 0u32, 0u32) })
}

/// Reading an MBR whose slots before `x` are data partitions and whose
/// slot `x` is the extended partition holding `chain` gives the data
/// children, then the chain's, and reads nothing more.
proof fn lemma_mbr_from_chain(
    disk: &[u8],
    b: Seq<u8>,
    slots: Seq<(u8, u32, u32)>,
    x: int,
    chain: Seq<(u32, u8, u32, u32, u32)>,
    i: int,
    acc: Seq<PartSpec>,
)
    requires
        disk@.len() % 512 == 0,
        disk@.len() <= usize::MAX,
        mbr_image(b, slots),
        data_slots(slots_before(slots, x), (disk@.len() / 512) as u64),
        0 <= x < 4,
        slots[x].0 == MBR_EXTENDED,
        slots[x].2 != 0,
        slots[x].1 + slots[x].2 <= disk@.len() / 512,
        ebr_chain_ok(chain, slots[x].1 as u64, (slots[x].1 + slots[x].2) as u64),
        holds_chain(disk@, slots[x].1 as u64, chain),
        b.len() == 512,
        0 <= i <= x,
        acc.len() + (x - i) + chain.len() <= MAX_PARTS,
    ensures
        spec_mbr_from(
            reads_of((ImageReader { disk: disk, sector_size: 512 })),
            (disk@.len() / 512) as u64,
            i,
            acc,
            b,
        ).0 == slot_children(slots_before(slots, x), i, acc) + chain_children(slots[x].1 as u64, chain),
    decreases 4 - i,
{
    let rd = reads_of((ImageReader { disk: disk, sector_size: 512 }));
    let n = (disk@.len() / 512) as u64;
    let sb = slots_before(slots, x);
    let (sys, start, count) = slots[i];
    assert(spec_mbr_entry(b, i) == (if sys != 0 && count != 0 {
        (sys, start as u64, count as u64)
    } else {
        (0u8, 0u64, 0u64)
    }));
    if i < x {
        assert(sb[i] == slots[i]);
        assert(data_slots(sb, n));
        if sys == 0 || count == 0 {
            lemma_mbr_from_chain(disk, b, slots, x, chain, i + 1, acc);
        } else {
            lemma_mbr_from_chain(disk, b, slots, x, chain, i + 1, acc.push(mbr_part(sys, start as u64, count as u64)));
        }
    } else {
        let e0 = start as u64;
        let e1 = (start + count) as u64;
        assert(crate::time::sat_add(start as int, count as int) == start + count);
        lemma_logical_chain(disk, e0, e1, chain, 0, acc, b);
        let last = disk_sector(disk@, e0 + chain[chain.len() - 1].0);
        let k = chain.len() - 1;
        assert(mbr_image(last, ebr_slots(chain, k)));
        assert forall|q: int| x + 1 <= q < 4 implies (#[trigger] spec_mbr_entry(last, q)).0 == 0 by {
            assert(ebr_slots(chain, k)[q].0 == 0);
        }
        lemma_mbr_from_empty(rd, n, last, x + 1, acc + chain_children(e0, chain));
        assert(chain_children(e0, chain).skip(0) =~= chain_children(e0, chain));
        lemma_slot_children_empty(sb, x, acc);
    }
}

/// Empty slots add no children.
proof fn lemma_slot_children_empty(slots: Seq<(u8, u32, u32)>, i: int, acc: Seq<PartSpec>)
    requires
        0 <= i,
        forall|q: int| i <= q < 4 ==> (#[trigger] slots[q]).0 == 0,
    ensures
        slot_children(slots, i, acc) == acc,
    decreases 4 - i,
{
    if i < 4 {
        assert(slots[i].0 == 0);
        lemma_slot_children_empty(slots, i + 1, acc);
    }
}

/// What a chain of EBRs written by `pack_ebr` reads back as: a disk whose
/// first sector holds an MBR with data slots before slot `x`, the
/// extended partition in slot `x` and nothing after it, whose extended
/// partition holds the chain, with every link an offset from the
/// extended partition's start, and whose second and last sectors hold no
/// GPT header, parses as that MBR: the data children in slot order, then
/// one logical child per EBR, in chain order.
pub proof fn lemma_ebr_chain_roundtrip(
    disk: &[u8],
    slots: Seq<(u8, u32, u32)>,
    x: int,
    chain: Seq<(u32, u8, u32, u32, u32)>,
)
    requires
        1024 <= disk@.len() <= usize::MAX,
        disk@.len() % 512 == 0,
        mbr_image(disk@.subrange(0, 512), slots),
        0 <= x < 4,
        data_slots(slots_before(slots, x), (disk@.len() / 512) as u64),
        slots[x].0 == MBR_EXTENDED,
        slots[x].1 >= 1,
        slots[x].2 != 0,
        slots[x].1 + slots[x].2 <= disk@.len() / 512,
        forall|q: int| x < q < 4 ==> (#[trigger] slots[q]).0 == 0,
        ebr_chain_ok(chain, slots[x].1 as u64, (slots[x].1 + slots[x].2) as u64),
        holds_chain(disk@, slots[x].1 as u64, chain),
        x + chain.len() <= MAX_PARTS,
        disk@.subrange(512, 520) != spec_gpt_sig(),
        disk@.subrange(disk@.len() - 512, disk@.len() - 504) != spec_gpt_sig(),
    ensures
        spec_parse(
            reads_of((ImageReader { disk: disk, sector_size: 512 })),
            (disk@.len() / 512) as u64,
            512,
            Seq::new(512, |i: int| 0u8),
            Seq::new(0x4000, |i: int| 0u8),
        ) == Ok::<(TableOrigin, Seq<PartSpec>), PartError>((
            TableOrigin::Mbr,
            slot_children(slots_before(slots, x), 0, Seq::empty()) + chain_children(slots[x].1 as u64, chain),
        )),
{
    let r = ImageReader { disk: disk, sector_size: 512 };
    let rd = reads_of(r);
    let d = disk@;
    let n = (d.len() / 512) as u64;
    let z = Seq::new(512, |i: int| 0u8);
    let s0 = d.subrange(0, 512);
    let s1 = d.subrange(512, 1024);
    let sl = d.subrange(d.len() - 512, d.len() as int);
    assert(n >= 2 && n * 512 == d.len());
    assert(rd(0, z) == r.spec_read(0, z));
    assert(r.spec_read(0, z) == (true, s0)) by {
        assert(d.subrange(0, 512) + z.subrange(512, 512) =~= s0);
    }
    assert(r.spec_read(1, s0) == (true, s1)) by {
        assert(d.subrange(512, 1024) + s0.subrange(512, 512) =~= s1);
    }
    assert(s1.take(8) != spec_gpt_sig()) by {
        assert(s1.take(8) =~= d.subrange(512, 520));
    }
    assert((n - 1) * 512 == d.len() - 512);
    assert(r.spec_read((n - 1) as u64, s1) == (true, sl)) by {
        assert(d.subrange(d.len() - 512, d.len() as int) + s1.subrange(512, 512) =~= sl);
    }
    assert(sl.take(8) != spec_gpt_sig()) by {
        assert(sl.take(8) =~= d.subrange(d.len() - 512, d.len() - 504));
    }
    assert(r.spec_read(0, sl) == (true, s0)) by {
        assert(d.subrange(0, 512) + sl.subrange(512, 512) =~= s0);
    }
    assert(mbr_sig_ok(s0));
    let sb = slots_before(slots, x);
    assert(!has_protective(s0)) by {
        assert forall|i: int| 0 <= i < 4 implies (#[trigger] spec_mbr_entry(s0, i)).0 != MBR_PROTECTIVE by {
            let (sys, start, count) = slots[i];
            if i < x {
                assert(sb[i] == slots[i]);
                assert(data_slots(sb, n));
            }
        }
        assert(spec_mbr_entry(s0, 0).0 != MBR_PROTECTIVE);
        assert(spec_mbr_entry(s0, 1).0 != MBR_PROTECTIVE);
        assert(spec_mbr_entry(s0, 2).0 != MBR_PROTECTIVE);
        assert(spec_mbr_entry(s0, 3).0 != MBR_PROTECTIVE);
    }
    lemma_mbr_from_chain(disk, s0, slots, x, chain, 0, Seq::empty());
}

/// A vector of `n` zero bytes.
pub(crate) fn vec_of_zeros(n: usize) -> (r: Vec<u8>)
    ensures
        r@ == Seq::new(n as nat, |i: int| 0u8),
{
    let mut v: Vec<u8> = Vec::new();
    let mut i: usize = 0;
    while i < n
        invariant
            i <= n,
            v@ == Seq::new(i as nat, |q: int| 0u8),
        decreases n - i,
    {
        v.push(0);
        i += 1;
        assert(v@ =~= Seq::new(i as nat, |q: int| 0u8));
    }
    v
}

} // verus!
