//! Partition children: offset-limited windows on `ram0` and `vda`.
//!
//! The registry numbers the children of the parsed tables, names them
//! (`ram0p1`.., `vdap1`..), maps a child request onto its parent and
//! prints the shell's block lines. The test-disk stamps are the fixed
//! layouts the test build writes on the RAM disk (an MBR with one
//! extended chain) and on an all-zero `vda` (a two-entry GPT with its
//! backup), as lists of sector writes; the driver performs the I/O.

use vstd::prelude::*;
use vstd::string::StringSliceAdditionalSpecFns;
use crate::part::{
    BlockError, GptHeaderInfo, MAX_PARTS, PartKind, Table, gpt_type_name, map_child_lba,
    mbr_type_name, spec_gpt_type_name, spec_mbr_type_name, GPT_ENTRY_SIZE, MBR_EXTENDED, MBR_LINUX, MBR_PROTECTIVE, entries_crc,
    gpt_entry_image, gpt_header_image, guid_efi, guid_linux, lemma_entry_image_frame, mbr_image,
    pack_ebr, pack_gpt_entry, pack_gpt_header, pack_mbr, pack_protective_mbr, protective_count,
    spec_crc32, spec_guid_efi, spec_guid_linux, ImageReader, PartError, PartSpec, ReadFn, TableOrigin, gpt_children,
    gpt_entry_child, gpt_header_ok, gpt_header_fields, le32, le64, reads_of, spec_guid_unused, spec_load_from,
    spec_parse, spec_try_gpt, cap_parts,
};

verus! {

pub const RAM0_P1: u32 = 80;
pub const RAM0_P1_N: u32 = 32;
pub const RAM0_EXT: u32 = 120;
pub const RAM0_EXT_N: u32 = 80;
pub const RAM0_EBR2: u32 = 160;

/// The whole disk a child lives on.
#[derive(Clone, Copy, Debug, PartialEq, Eq, Structural)]
pub enum ParentDisk {
    Ram0,
    Vda,
}

/// One registered child.
#[derive(Clone, Copy)]
pub struct Slot {
    pub name: &'static str,
    pub parent: ParentDisk,
    pub start: u64,
    pub nsect: u64,
    pub bs: u32,
    pub kind: PartKind,
}

/// The registered children, numbered from 0 in registration order.
pub struct Registry {
    slots: Vec<Slot>,
    live: bool,
}

impl View for Registry {
    type V = Seq<Slot>;

    closed spec fn view(&self) -> Seq<Slot> {
        self.slots@
    }
}

impl Registry {
    /// At most `MAX_PARTS` children.
    pub closed spec fn wf(&self) -> bool {
        self.slots@.len() <= MAX_PARTS
    }

    /// Registration is over.
    pub closed spec fn is_live(&self) -> bool {
        self.live
    }

    pub fn new() -> (r: Self)
        ensures
            r.wf(),
            r@.len() == 0,
            !r.is_live(),
    {
        Registry { slots: Vec::new(), live: false }
    }

    /// Mark registration as over.
    pub fn set_live(&mut self)
        ensures
            final(self)@ == old(self)@,
            final(self).wf() == old(self).wf(),
            final(self).is_live(),
    {
        self.live = true;
    }
}

/// The name of child `i` of `parent`: `ram0p1` to `ram0p5`, `vdap1` to
/// `vdap4`.
pub open spec fn spec_name_for(parent: ParentDisk, i: int) -> Option<Seq<char>> {
    match parent {
        ParentDisk::Ram0 => if i == 0 { Some("ram0p1"@) } else if i == 1 { Some("ram0p2"@) }
            else if i == 2 { Some("ram0p3"@) } else if i == 3 { Some("ram0p4"@) }
            else if i == 4 { Some("ram0p5"@) } else { None },
        ParentDisk::Vda => if i == 0 { Some("vdap1"@) } else if i == 1 { Some("vdap2"@) }
            else if i == 2 { Some("vdap3"@) } else if i == 3 { Some("vdap4"@) } else { None },
    }
}

/// How many children of `parent` have a name.
pub open spec fn names_of(parent: ParentDisk) -> int {
    match parent {
        ParentDisk::Ram0 => 5,
        ParentDisk::Vda => 4,
    }
}

pub fn name_for(parent: ParentDisk, i: usize) -> (r: Option<&'static str>)
    ensures
        r is Some <==> i < names_of(parent),
        r matches Some(n) ==> spec_name_for(parent, i as int) == Some(n@),
{
    match parent {
        ParentDisk::Ram0 => match i {
            0 => Some("ram0p1"),
            1 => Some("ram0p2"),
            2 => Some("ram0p3"),
            3 => Some("ram0p4"),
            4 => Some("ram0p5"),
            _ => None,
        },
        ParentDisk::Vda => match i {
            0 => Some("vdap1"),
            1 => Some("vdap2"),
            2 => Some("vdap3"),
            3 => Some("vdap4"),
            _ => None,
        },
    }
}

/// How many children of `t` the registry takes: while a name is left and
/// a slot is free.
pub open spec fn taken(parent: ParentDisk, t: Table, have: int) -> int {
    let a = if t.n < names_of(parent) { t.n as int } else { names_of(parent) };
    if a < MAX_PARTS - have { a } else { MAX_PARTS - have }
}

/// Register the children of `t` on `parent` (sectors of `bs` bytes), in
/// table order; returns how many were added.
pub fn register_table(reg: &mut Registry, parent: ParentDisk, bs: u32, t: &Table) -> (added: usize)
    requires
        old(reg).wf(),
        t.n <= MAX_PARTS,
    ensures
        final(reg).wf(),
        final(reg).is_live() == old(reg).is_live(),
        added == taken(parent, *t, old(reg)@.len() as int),
        final(reg)@.len() == old(reg)@.len() + added,
        final(reg)@.subrange(0, old(reg)@.len() as int) == old(reg)@,
        forall|k: int| 0 <= k < added ==> {
            let s = #[trigger] final(reg)@[old(reg)@.len() + k];
            &&& spec_name_for(parent, k) == Some(s.name@)
            &&& s.parent == parent
            &&& s.start == t.parts@[k].start_lba
            &&& s.nsect == t.parts@[k].nsectors
            &&& s.bs == bs
            &&& s.kind == t.parts@[k].kind
        },
{
    let ghost start_len = reg.slots@.len();
    let mut added: usize = 0;
    let mut i: usize = 0;
    let mut more = i < t.n;
    while more
        invariant
            start_len == old(reg)@.len(),
            start_len <= MAX_PARTS,
            t.n <= MAX_PARTS,
            added == i,
            i <= t.n,
            i <= names_of(parent),
            reg.slots@.len() == start_len + i,
            reg.slots@.len() <= MAX_PARTS,
            reg.live == old(reg).live,
            more ==> i < t.n,
            !more ==> i == taken(parent, *t, start_len as int),
            i <= taken(parent, *t, start_len as int),
            reg.slots@.subrange(0, start_len as int) == old(reg)@,
            forall|k: int| 0 <= k < i ==> {
                let s = #[trigger] reg.slots@[start_len + k];
                &&& spec_name_for(parent, k) == Some(s.name@)
                &&& s.parent == parent
                &&& s.start == t.parts@[k].start_lba
                &&& s.nsect == t.parts@[k].nsectors
                &&& s.bs == bs
                &&& s.kind == t.parts@[k].kind
            },
        decreases t.n - i + (if more { 1int } else { 0int }),
    {
        let p = t.parts[i];
        match name_for(parent, i) {
            Some(name) => {
                if reg.slots.len() >= MAX_PARTS {
                    more = false;
                } else {
                    reg.slots.push(Slot { name, parent, start: p.start_lba, nsect: p.nsectors, bs, kind: p.kind });
                    added += 1;
                    i += 1;
                    more = i < t.n;
                }
            },
            None => {
                more = false;
            },
        }
    }
    added
}

/// How many children are registered.
pub fn count(reg: &Registry) -> (r: usize)
    ensures
        r == reg@.len(),
{
    reg.slots.len()
}

/// Child `i`: its name, size in sectors, sector size and type.
pub fn info(reg: &Registry, i: usize) -> (r: Option<(&'static str, u64, u32, PartKind)>)
    ensures
        i >= reg@.len() ==> r is None,
        i < reg@.len() ==> r == Some((reg@[i as int].name, reg@[i as int].nsect, reg@[i as int].bs, reg@[i as int].kind)),
{
    if i < reg.slots.len() {
        let s = reg.slots[i];
        Some((s.name, s.nsect, s.bs, s.kind))
    } else {
        None
    }
}

/// Where a request of `count` sectors at child LBA `lba` lands on a
/// parent, for a child at `start` of `nsect` sectors.
pub open spec fn spec_child_map(start: u64, nsect: u64, lba: u64, count: u64) -> Result<u64, BlockError> {
    if lba + count > u64::MAX || count == 0 || lba + count > nsect || start + lba > u64::MAX {
        Err(BlockError::Inval)
    } else {
        Ok((start + lba) as u64)
    }
}

/// Where a transfer of `len` bytes at LBA `lba` of child `i` lands: the
/// parent disk and the parent LBA.
pub open spec fn spec_child_request(s: Seq<Slot>, i: int, lba: u64, len: int) -> Result<(ParentDisk, u64), BlockError> {
    if i < 0 || i >= s.len() {
        Err(BlockError::Failed)
    } else if s[i].bs == 0 || len % (s[i].bs as int) != 0 {
        Err(BlockError::Inval)
    } else {
        match spec_child_map(s[i].start, s[i].nsect, lba, (len / (s[i].bs as int)) as u64) {
            Ok(p) => Ok((s[i].parent, p)),
            Err(e) => Err(e),
        }
    }
}

fn child_request(reg: &Registry, i: usize, lba: u64, len: usize) -> (r: Result<(ParentDisk, u64), BlockError>)
    ensures
        r == spec_child_request(reg@, i as int, lba, len as int),
{
    if i >= reg.slots.len() {
        return Err(BlockError::Failed);
    }
    let s = reg.slots[i];
    if s.bs == 0 || len % (s.bs as usize) != 0 {
        return Err(BlockError::Inval);
    }
    let nsect = (len / s.bs as usize) as u64;
    match map_child_lba(s.start, s.nsect, lba, nsect) {
        Ok(p) => Ok((s.parent, p)),
        Err(e) => Err(e),
    }
}

/// Where a read of `len` bytes at LBA `lba` of child `i` goes.
pub fn read(reg: &Registry, i: usize, lba: u64, len: usize) -> (r: Result<(ParentDisk, u64), BlockError>)
    ensures
        r == spec_child_request(reg@, i as int, lba, len as int),
{
    child_request(reg, i, lba, len)
}

/// Where a write of `len` bytes at LBA `lba` of child `i` goes.
pub fn write(reg: &Registry, i: usize, lba: u64, len: usize) -> (r: Result<(ParentDisk, u64), BlockError>)
    ensures
        r == spec_child_request(reg@, i as int, lba, len as int),
{
    child_request(reg, i, lba, len)
}

/// The parent a flush of child `i` goes to.
pub fn flush(reg: &Registry, i: usize) -> (r: Result<ParentDisk, BlockError>)
    ensures
        i >= reg@.len() ==> r == Err::<ParentDisk, BlockError>(BlockError::Failed),
        i < reg@.len() ==> r == Ok::<ParentDisk, BlockError>(reg@[i as int].parent),
{
    if i < reg.slots.len() {
        Ok(reg.slots[i].parent)
    } else {
        Err(BlockError::Failed)
    }
}

/// The first child named `name`.
pub fn find_name(reg: &Registry, name: &str) -> (r: Option<usize>)
    ensures
        r is None <==> forall|i: int| 0 <= i < reg@.len() ==> (#[trigger] reg@[i]).name@ != name@,
        r matches Some(i) ==> i < reg@.len() && reg@[i as int].name@ == name@
            && forall|j: int| 0 <= j < i ==> (#[trigger] reg@[j]).name@ != name@,
{
    let mut i: usize = 0;
    while i < reg.slots.len()
        invariant
            i <= reg@.len(),
            reg@ == reg.slots@,
            forall|j: int| 0 <= j < i ==> (#[trigger] reg@[j]).name@ != name@,
        decreases reg@.len() - i,
    {
        if crate::log::str_eq(reg.slots[i].name, name) {
            return Some(i);
        }
        i += 1;
    }
    None
}

/// The block device exposed for child `i`: one of the first eight
/// children.
pub fn device(reg: &Registry, i: usize) -> (r: Option<usize>)
    ensures
        r == (if i < reg@.len() && i < 8 { Some(i) } else { None::<usize> }),
{
    if i >= reg.slots.len() {
        return None;
    }
    if i < 8 {
        Some(i)
    } else {
        None
    }
}

/// The short type name of a child.
pub open spec fn spec_type_str(k: PartKind) -> Seq<char> {
    match k {
        PartKind::Mbr { sys } => spec_mbr_type_name(sys),
        PartKind::Gpt { type_guid } => spec_gpt_type_name(type_guid@),
    }
}

pub fn type_str(k: PartKind) -> (r: &'static str)
    ensures
        r@ == spec_type_str(k),
{
    match k {
        PartKind::Mbr { sys } => mbr_type_name(sys),
        PartKind::Gpt { type_guid } => gpt_type_name(&type_guid),
    }
}

/// Registration is over.
pub fn live(reg: &Registry) -> (r: bool)
    ensures
        r == reg.is_live(),
{
    reg.live
}

/// The shell's line for one child:
/// `vibeOS: blk: <name> <bs> <sectors> sectors ready <type>`.
pub open spec fn blk_line(s: Slot) -> Seq<u8> {
    "vibeOS: blk: ".spec_bytes() + s.name.spec_bytes() + seq![0x20u8] + crate::pci::dec(s.bs as nat)
        + seq![0x20u8] + crate::pci::dec(s.nsect as nat) + " sectors ready ".spec_bytes()
        + vstd::utf8::encode_utf8(spec_type_str(s.kind)) + seq![0x0Au8]
}

/// The lines of the first `n` children.
pub open spec fn blk_lines(s: Seq<Slot>, n: int) -> Seq<u8>
    decreases n,
{
    if n <= 0 { Seq::empty() } else { blk_lines(s, n - 1) + blk_line(s[n - 1]) }
}

/// The shell's block lines, one per child in order.
pub fn shell_lines(reg: &Registry) -> (r: Vec<u8>)
    ensures
        r@ == blk_lines(reg@, reg@.len() as int),
{
    let mut out: Vec<u8> = Vec::new();
    let mut i: usize = 0;
    while i < reg.slots.len()
        invariant
            i <= reg@.len(),
            reg@ == reg.slots@,
            out@ == blk_lines(reg@, i as int),
        decreases reg@.len() - i,
    {
        let s = reg.slots[i];
        let ghost before = out@;
        crate::pci::push_str(&mut out, "vibeOS: blk: ");
        crate::pci::push_str(&mut out, s.name);
        out.push(0x20);
        crate::pci::push_dec64(&mut out, s.bs as u64);
        out.push(0x20);
        crate::pci::push_dec64(&mut out, s.nsect);
        crate::pci::push_str(&mut out, " sectors ready ");
        crate::pci::push_str(&mut out, type_str(s.kind));
        out.push(0x0A);
        i += 1;
        assert(out@ =~= before + blk_line(s));
    }
    out
}

pub const VDA_P1: u64 = 256;
pub const VDA_P1_N: u64 = 128;
pub const VDA_P2: u64 = 512;

/// One sector to write: its LBA and its bytes.
pub struct SectorWrite {
    pub lba: u64,
    pub data: Vec<u8>,
}

/// A zeroed sector.
fn zero_sector_vec() -> (r: Vec<u8>)
    ensures
        r@ == Seq::new(512, |i: int| 0u8),
{
    crate::part::vec_of_zeros(512)
}

/// The RAM-disk stamp: an MBR with a Linux partition at 80 (32 sectors)
/// and an extended partition at 120 (80 sectors), whose chain holds two
/// logical Linux partitions of 24 sectors each, one EBR at 120 and the
/// last at 160.
pub fn ram0_mbr_sectors() -> (r: Vec<SectorWrite>)
    ensures
        r@.len() == 3,
        r@[0].lba == 0,
        r@[1].lba == RAM0_EXT,
        r@[2].lba == RAM0_EBR2,
        forall|i: int| 0 <= i < 3 ==> (#[trigger] r@[i]).data@.len() == 512,
        mbr_image(r@[0].data@, seq![
            (MBR_LINUX, RAM0_P1, RAM0_P1_N), (MBR_EXTENDED, RAM0_EXT, RAM0_EXT_N),
            (0u8, 0u32, 0u32), (0u8, 0u32, 0u32)]),
        mbr_image(r@[1].data@, seq![
            (MBR_LINUX, 1u32, 24u32), (MBR_EXTENDED, (RAM0_EBR2 - RAM0_EXT) as u32, 32u32),
            (0u8, 0u32, 0u32), (0u8, 0u32, 0u32)]),
        mbr_image(r@[2].data@, seq![
            (MBR_LINUX, 1u32, 24u32), (0u8, 0u32, 0u32), (0u8, 0u32, 0u32), (0u8, 0u32, 0u32)]),
{
    let mut mbr = zero_sector_vec();
    let slots = [
        (MBR_LINUX, RAM0_P1, RAM0_P1_N),
        (MBR_EXTENDED, RAM0_EXT, RAM0_EXT_N),
        (0u8, 0u32, 0u32),
        (0u8, 0u32, 0u32),
    ];
    pack_mbr(mbr.as_mut_slice(), &slots);
    let mut e1 = zero_sector_vec();
    pack_ebr(e1.as_mut_slice(), MBR_LINUX, 1, 24, RAM0_EBR2 - RAM0_EXT, 32);
    let mut e2 = zero_sector_vec();
    pack_ebr(e2.as_mut_slice(), MBR_LINUX, 1, 24, 0, 0);
    proof {
        assert(slots@ =~= seq![
            (MBR_LINUX, RAM0_P1, RAM0_P1_N), (MBR_EXTENDED, RAM0_EXT, RAM0_EXT_N),
            (0u8, 0u32, 0u32), (0u8, 0u32, 0u32)]);
    }
    let mut r: Vec<SectorWrite> = Vec::new();
    r.push(SectorWrite { lba: 0, data: mbr });
    r.push(SectorWrite { lba: RAM0_EXT as u64, data: e1 });
    r.push(SectorWrite { lba: RAM0_EBR2 as u64, data: e2 });
    r
}

/// The LBAs that the blank check of `vda` reads on a disk of `cap`
/// sectors: 0 to 33 and the last 33 sectors, or every sector when the
/// two ranges would meet.
pub open spec fn blank_scanned(cap: u64, l: int) -> bool {
    &&& 0 <= l < cap
    &&& (l <= 33 || l >= cap - 33 || cap - 33 <= 34)
}

/// The LBA that the blank check reads after `lba` (which read as zeros),
/// or `cap` when the check is done.
pub fn blank_scan_next(lba: u64, cap: u64) -> (r: u64)
    requires
        cap >= 33,
        lba < cap,
    ensures
        r == (if lba == 33 && cap - 33 > 34 { (cap - 33) as u64 } else { (lba + 1) as u64 }),
        lba < r <= cap,
        forall|l: int| lba < l < r ==> !blank_scanned(cap, l),
        blank_scanned(cap, lba as int) && r < cap ==> blank_scanned(cap, r as int),
{
    let tail = cap - 33;
    if lba == 33 && tail > 34 {
        tail
    } else {
        lba + 1
    }
}

/// The unique id of the `k`-th stamped entry.
pub open spec fn vda_uniq(k: u8) -> Seq<u8> {
    Seq::new(16, |i: int| if i == 0 { k } else { 0u8 })
}

/// The disk GUID of the stamped GPT.
pub open spec fn vda_disk_guid() -> Seq<u8> {
    Seq::new(16, |i: int| if i == 0 { 0x7Bu8 } else if i == 15 { 0xC7u8 } else { 0u8 })
}

/// The last usable LBA of the stamped GPT on a disk of `cap` sectors.
pub open spec fn vda_last_usable(cap: u64) -> u64 {
    (cap - 34) as u64
}

/// `e` is the stamped entry array: 128 entries of 128 bytes, the first an
/// EFI system partition over `VDA_P1` (`VDA_P1_N` sectors), the second a
/// Linux partition from `VDA_P2` to the last usable LBA, the rest empty.
pub open spec fn vda_entries_ok(e: Seq<u8>, cap: u64) -> bool {
    &&& e.len() == 0x4000
    &&& gpt_entry_image(e.subrange(0, 128), spec_guid_efi(), vda_uniq(1), VDA_P1,
        (VDA_P1 + VDA_P1_N - 1) as u64, seq!['E', 'F', 'I'])
    &&& gpt_entry_image(e.subrange(128, 256), spec_guid_linux(), vda_uniq(2), VDA_P2,
        vda_last_usable(cap), seq!['L', 'i', 'n', 'u', 'x'])
    &&& forall|j: int| 256 <= j < 0x4000 ==> e[j] == 0
}

/// `b` is a stamped GPT header sector: it sits at `my_lba`, names its
/// twin at `alt_lba` and its entries at `part_lba` with CRC `crc`.
pub open spec fn vda_header_image(b: Seq<u8>, cap: u64, my_lba: u64, alt_lba: u64, part_lba: u64, crc: u32) -> bool {
    &&& b.len() == 512
    &&& exists|h: GptHeaderInfo|
        #[trigger] gpt_header_image(b, h) && h.my_lba == my_lba && h.alt_lba == alt_lba
            && h.first_usable == 34 && h.last_usable == vda_last_usable(cap) && h.disk_guid@ == vda_disk_guid()
            && h.part_lba == part_lba && h.part_count == 128 && h.part_size == GPT_ENTRY_SIZE
            && h.entries_crc == crc
}

/// The writes of the `vda` stamp on a disk of `cap` sectors with entry
/// array `e`, in order: the protective MBR, the primary header, the
/// entries after it, the entries again before the end of the disk, and
/// the backup header in the last sector.
pub open spec fn vda_writes_ok(w: Seq<SectorWrite>, cap: u64, e: Seq<u8>) -> bool {
    &&& w.len() == 67
    &&& w[0].lba == 0
    &&& w[0].data@.len() == 512
    &&& mbr_image(w[0].data@, seq![
        (MBR_PROTECTIVE, 1u32, protective_count(cap)), (0u8, 0u32, 0u32), (0u8, 0u32, 0u32), (0u8, 0u32, 0u32)])
    &&& w[1].lba == 1
    &&& vda_header_image(w[1].data@, cap, 1, (cap - 1) as u64, 2, spec_crc32(e))
    &&& forall|i: int| 2 <= i < 34 ==> (#[trigger] w[i]).lba == i
        && w[i].data@ == e.subrange(512 * (i - 2), 512 * (i - 2) + 512)
    &&& forall|i: int| 34 <= i < 66 ==> (#[trigger] w[i]).lba == cap - 33 + (i - 34)
        && w[i].data@ == e.subrange(512 * (i - 34), 512 * (i - 34) + 512)
    &&& w[66].lba == cap - 1
    &&& vda_header_image(w[66].data@, cap, (cap - 1) as u64, 1, (cap - 33) as u64, spec_crc32(e))
}

/// `w` is the `vda` stamp for a disk of `cap` sectors: the writes of
/// `vda_writes_ok` for the one entry array that `vda_entries_ok` allows.
pub open spec fn vda_stamp(w: Seq<SectorWrite>, cap: u64) -> bool {
    exists|e: Seq<u8>| vda_entries_ok(e, cap) && #[trigger] vda_writes_ok(w, cap, e)
}

/// Sector `s` of the entry array.
fn entry_sector(e: &Vec<u8>, s: usize) -> (r: Vec<u8>)
    requires
        e@.len() == 0x4000,
        s < 32,
    ensures
        r@ == e@.subrange(512 * s, 512 * s + 512),
{
    let mut r: Vec<u8> = Vec::new();
    let o = s * 512;
    let mut i: usize = 0;
    while i < 512
        invariant
            i <= 512,
            o == 512 * s,
            s < 32,
            e@.len() == 0x4000,
            r@ == e@.subrange(o as int, o + i),
        decreases 512 - i,
    {
        r.push(e[o + i]);
        i += 1;
        assert(r@ =~= e@.subrange(o as int, o + i));
    }
    r
}

/// A stamped GPT header sector.
fn vda_header(cap: u64, my_lba: u64, alt_lba: u64, part_lba: u64, crc: u32) -> (r: Vec<u8>)
    requires
        cap >= 1024,
    ensures
        vda_header_image(r@, cap, my_lba, alt_lba, part_lba, crc),
{
    let disk_guid: [u8; 16] = [0x7B, 0, 0, 0, 0, 0, 0, 0, 0, 0, 0, 0, 0, 0, 0, 0xC7];
    let h = GptHeaderInfo {
        my_lba,
        alt_lba,
        first_usable: 34,
        last_usable: cap - 34,
        disk_guid,
        part_lba,
        part_count: 128,
        part_size: GPT_ENTRY_SIZE,
        entries_crc: crc,
    };
    let mut b = zero_sector_vec();
    pack_gpt_header(b.as_mut_slice(), &h);
    proof {
        assert(disk_guid@ =~= vda_disk_guid());
        assert(gpt_header_image(b@, h));
    }
    b
}

/// The `vda` stamp on a disk of `cap` sectors of `bs` bytes: refused
/// unless the sectors are 512 bytes and the disk holds at least 1024.
pub fn vda_gpt_sectors(cap: u64, bs: u32) -> (r: Result<Vec<SectorWrite>, BlockError>)
    ensures
        r is Err <==> (bs != 512 || cap < 1024),
        r is Err ==> r == Err::<Vec<SectorWrite>, BlockError>(BlockError::Inval),
        r matches Ok(w) ==> vda_stamp(w@, cap),
{
    if bs != 512 || cap < 1024 {
        return Err(BlockError::Inval);
    }
    let last_usable = cap - 34;
    let mut entries = crate::part::vec_of_zeros(0x4000);
    let uniq1: [u8; 16] = [1, 0, 0, 0, 0, 0, 0, 0, 0, 0, 0, 0, 0, 0, 0, 0];
    let uniq2: [u8; 16] = [2, 0, 0, 0, 0, 0, 0, 0, 0, 0, 0, 0, 0, 0, 0, 0];
    let efi = guid_efi();
    let linux = guid_linux();
    pack_gpt_entry(entries.as_mut_slice(), &efi, &uniq1, VDA_P1, VDA_P1 + VDA_P1_N - 1, "EFI");
    let mut second = crate::part::vec_of_zeros(128);
    pack_gpt_entry(second.as_mut_slice(), &linux, &uniq2, VDA_P2, last_usable, "Linux");
    let ghost first_img = entries@;
    let mut i: usize = 0;
    while i < 128
        invariant
            i <= 128,
            entries@.len() == 0x4000,
            second@.len() == 128,
            forall|j: int| 0 <= j < 128 ==> entries@[j] == first_img[j],
            forall|j: int| 0 <= j < i ==> entries@[128 + j] == second@[j],
            forall|j: int| 128 + i <= j < 0x4000 ==> entries@[j] == 0,
            first_img.len() == 0x4000,
            forall|j: int| 128 <= j < 0x4000 ==> first_img[j] == 0,
        decreases 128 - i,
    {
        entries.set(128 + i, second[i]);
        i += 1;
    }
    proof {
        reveal_strlit("EFI");
        reveal_strlit("Linux");
        assert(uniq1@ =~= vda_uniq(1));
        assert(uniq2@ =~= vda_uniq(2));
        assert("EFI"@ =~= seq!['E', 'F', 'I']);
        assert("Linux"@ =~= seq!['L', 'i', 'n', 'u', 'x']);
        let e = entries@;
        lemma_entry_image_frame(first_img, e.subrange(0, 128), efi@, uniq1@, VDA_P1,
            (VDA_P1 + VDA_P1_N - 1) as u64, "EFI"@);
        lemma_entry_image_frame(second@, e.subrange(128, 256), linux@, uniq2@, VDA_P2,
            last_usable, "Linux"@);
        assert(vda_entries_ok(e, cap));
    }
    let ecrc = entries_crc(entries.as_slice());
    let mut pmbr = zero_sector_vec();
    pack_protective_mbr(pmbr.as_mut_slice(), cap);
    let mut w: Vec<SectorWrite> = Vec::new();
    w.push(SectorWrite { lba: 0, data: pmbr });
    w.push(SectorWrite { lba: 1, data: vda_header(cap, 1, cap - 1, 2, ecrc) });
    let mut s: usize = 0;
    while s < 32
        invariant
            s <= 32,
            cap >= 1024,
            entries@.len() == 0x4000,
            w@.len() == 2 + s,
            w@[0].lba == 0,
            w@[0].data@.len() == 512,
            mbr_image(w@[0].data@, seq![
                (MBR_PROTECTIVE, 1u32, protective_count(cap)), (0u8, 0u32, 0u32), (0u8, 0u32, 0u32), (0u8, 0u32, 0u32)]),
            w@[1].lba == 1,
            vda_header_image(w@[1].data@, cap, 1, (cap - 1) as u64, 2, ecrc),
            forall|i: int| 2 <= i < 2 + s ==> (#[trigger] w@[i]).lba == i
                && w@[i].data@ == entries@.subrange(512 * (i - 2), 512 * (i - 2) + 512),
        decreases 32 - s,
    {
        let data = entry_sector(&entries, s);
        w.push(SectorWrite { lba: 2 + s as u64, data });
        s += 1;
    }
    let back = cap - 33;
    s = 0;
    while s < 32
        invariant
            s <= 32,
            cap >= 1024,
            back == cap - 33,
            entries@.len() == 0x4000,
            w@.len() == 34 + s,
            w@[0].lba == 0,
            w@[0].data@.len() == 512,
            mbr_image(w@[0].data@, seq![
                (MBR_PROTECTIVE, 1u32, protective_count(cap)), (0u8, 0u32, 0u32), (0u8, 0u32, 0u32), (0u8, 0u32, 0u32)]),
            w@[1].lba == 1,
            vda_header_image(w@[1].data@, cap, 1, (cap - 1) as u64, 2, ecrc),
            forall|i: int| 2 <= i < 34 ==> (#[trigger] w@[i]).lba == i
                && w@[i].data@ == entries@.subrange(512 * (i - 2), 512 * (i - 2) + 512),
            forall|i: int| 34 <= i < 34 + s ==> (#[trigger] w@[i]).lba == cap - 33 + (i - 34)
                && w@[i].data@ == entries@.subrange(512 * (i - 34), 512 * (i - 34) + 512),
        decreases 32 - s,
    {
        let data = entry_sector(&entries, s);
        w.push(SectorWrite { lba: back + s as u64, data });
        s += 1;
    }
    w.push(SectorWrite { lba: cap - 1, data: vda_header(cap, cap - 1, 1, back, ecrc) });
    proof {
        assert(vda_entries_ok(entries@, cap));
        assert(vda_writes_ok(w@, cap, entries@));
        assert(vda_stamp(w@, cap));
    }
    Ok(w)
}

/// `disk` holds what the writes `w` wrote: each at its sector.
pub open spec fn holds_writes(disk: Seq<u8>, w: Seq<SectorWrite>) -> bool {
    forall|i: int| 0 <= i < w.len() ==> #[trigger] disk.subrange(w[i].lba * 512, w[i].lba * 512 + 512) == w[i].data@
}

/// The two children of the stamped `vda`: the EFI system partition and
/// the Linux partition up to the last usable LBA.
pub open spec fn vda_children(cap: u64) -> Seq<PartSpec> {
    seq![
        PartSpec { start: VDA_P1, len: VDA_P1_N, gpt: true, sys: 0, guid: spec_guid_efi() },
        PartSpec { start: VDA_P2, len: (vda_last_usable(cap) - VDA_P2 + 1) as u64, gpt: true, sys: 0, guid: spec_guid_linux() },
    ]
}

/// Loading the stamped entry array sector by sector from `lba` gives it
/// back whole.
proof fn lemma_load_entries(rd: ReadFn, d: Seq<u8>, e: Seq<u8>, k: int, buf: Seq<u8>, scr: Seq<u8>)
    requires
        e.len() == 0x4000,
        0 <= k <= 32,
        buf.len() == 512,
        scr.len() == 0x4000,
        scr.subrange(0, 512 * k) == e.subrange(0, 512 * k),
        forall|j: int, b: Seq<u8>| 0 <= j < 32 && b.len() == 512 ==> #[trigger] rd((2 + j) as u64, b) == (true, e.subrange(512 * j, 512 * j + 512)),
    ensures
        spec_load_from(rd, (2 + k) as u64, 512 * k, 0x4000, 512, buf, scr).0,
        spec_load_from(rd, (2 + k) as u64, 512 * k, 0x4000, 512, buf, scr).2 == e,
    decreases 32 - k,
{
    if k == 32 {
        assert(scr =~= scr.subrange(0, 512 * k));
        assert(e =~= e.subrange(0, 512 * k));
    } else {
        let b1 = e.subrange(512 * k, 512 * k + 512);
        assert(rd((2 + k) as u64, buf) == (true, b1));
        let s1 = scr.subrange(0, 512 * k) + b1.subrange(0, 512) + scr.subrange(512 * k + 512, scr.len() as int);
        assert(s1.subrange(0, 512 * (k + 1)) =~= e.subrange(0, 512 * (k + 1)));
        lemma_load_entries(rd, d, e, k + 1, b1, s1);
    }
}

/// Entries `i..128` of the stamped array name no child.
proof fn lemma_empty_entries(e: Seq<u8>, i: int, cap: u64)
    requires
        e.len() == 0x4000,
        2 <= i <= 128,
        forall|j: int| 256 <= j < 0x4000 ==> e[j] == 0,
    ensures
        gpt_children(e, i, 128, cap) == Seq::<PartSpec>::empty(),
    decreases 128 - i,
{
    if i < 128 {
        lemma_empty_entries(e, i + 1, cap);
        assert(e.subrange(i * 128, i * 128 + 128).take(16) =~= spec_guid_unused());
    }
}

/// What the `vda` stamp reads back as: a disk of `cap` sectors holding
/// the stamp's writes parses as a GPT from its primary header, with the
/// EFI system partition and the Linux partition as its two children.
pub proof fn lemma_vda_stamp_parses(disk: &[u8], cap: u64, w: Seq<SectorWrite>)
    requires
        vda_stamp(w, cap),
        cap >= 1024,
        disk@.len() == cap * 512,
        disk@.len() <= usize::MAX,
        holds_writes(disk@, w),
    ensures
        spec_parse(
            reads_of((ImageReader { disk: disk, sector_size: 512 })),
            cap,
            512,
            Seq::new(512, |i: int| 0u8),
            Seq::new(0x4000, |i: int| 0u8),
        ) == Ok::<(TableOrigin, Seq<PartSpec>), PartError>((TableOrigin::Gpt { used_backup: false }, vda_children(cap))),
{
    let e = choose|e: Seq<u8>| vda_entries_ok(e, cap) && #[trigger] vda_writes_ok(w, cap, e);
    let r = ImageReader { disk: disk, sector_size: 512 };
    let rd = reads_of(r);
    let d = disk@;
    let z = Seq::new(512, |i: int| 0u8);
    let scr0 = Seq::new(0x4000, |i: int| 0u8);
    // Sector reads land on what the writes wrote.
    assert forall|l: u64, b: Seq<u8>| l < cap && b.len() == 512 implies #[trigger] rd(l, b) == (true, d.subrange(l * 512, l * 512 + 512)) by {
        assert(d.subrange(l * 512, l * 512 + 512) + b.subrange(512, 512) =~= d.subrange(l * 512, l * 512 + 512));
    }
    let s0 = w[0].data@;
    let b1 = w[1].data@;
    assert(holds_writes(d, w));
    assert(d.subrange(0, 512) == s0);
    assert(d.subrange(512, 1024) == b1);
    assert(rd(0, z) == (true, s0));
    assert(rd(1, s0) == (true, b1));
    // The primary header checks out.
    let h = choose|h: GptHeaderInfo|
        #[trigger] gpt_header_image(b1, h) && h.my_lba == 1 && h.alt_lba == (cap - 1) as u64 && h.first_usable == 34
            && h.last_usable == vda_last_usable(cap) && h.disk_guid@ == vda_disk_guid() && h.part_lba == 2
            && h.part_count == 128 && h.part_size == GPT_ENTRY_SIZE && h.entries_crc == spec_crc32(e);
    assert(gpt_header_fields(b1, h));
    assert(gpt_header_ok(b1, cap));
    // The entry array loads back whole.
    assert forall|j: int, b: Seq<u8>| 0 <= j < 32 && b.len() == 512 implies #[trigger] rd((2 + j) as u64, b) == (true, e.subrange(512 * j, 512 * j + 512)) by {
        assert(w[2 + j].lba == 2 + j);
        assert(d.subrange((2 + j) * 512, (2 + j) * 512 + 512) == w[2 + j].data@);
    }
    assert(scr0.subrange(0, 0) =~= e.subrange(0, 0));
    lemma_load_entries(rd, d, e, 0, b1, scr0);
    let (ok, b2, s2) = spec_load_from(rd, 2, 0, 0x4000, 512, b1, scr0);
    assert(s2.take(128int * 128) =~= e);
    // The children.
    let e0 = e.subrange(0, 128);
    let e1 = e.subrange(128, 256);
    assert(e.subrange(0int * 128, 0int * 128 + 128) == e0);
    assert(e.subrange(1int * 128, 1int * 128 + 128) == e1);
    assert(e0.take(16) =~= e0.subrange(0, 16));
    assert(e1.take(16) =~= e1.subrange(0, 16));
    assert(spec_guid_efi() != spec_guid_unused()) by {
        assert(spec_guid_efi()[0] != spec_guid_unused()[0]);
    }
    assert(spec_guid_linux() != spec_guid_unused()) by {
        assert(spec_guid_linux()[0] != spec_guid_unused()[0]);
    }
    assert(gpt_entry_child(e0, cap) == Some(vda_children(cap)[0]));
    assert(gpt_entry_child(e1, cap) == Some(vda_children(cap)[1]));
    lemma_empty_entries(e, 2, cap);
    assert(gpt_children(e, 1, 128, cap) =~= seq![vda_children(cap)[1]]);
    assert(gpt_children(e, 0, 128, cap) =~= vda_children(cap));
    assert(cap_parts(vda_children(cap)) == vda_children(cap));
    let (r1, bb, ss) = spec_try_gpt(rd, cap, 512, s0, scr0, 1);
    assert(r1 == Ok::<Seq<PartSpec>, PartError>(vda_children(cap)));
}

} // verus!
