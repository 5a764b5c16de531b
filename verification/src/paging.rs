//! Kernel page tables. Portable half.
//!
//! A 4-level x86_64 walker (`PageTables`), PTE flag constants,
//! `map_page`, `map_2m`, `unmap_page`, `translate`, and the MMIO-attribute
//! patch the kernel applies after installing CR3.
//!
//! The walker keeps the table frames it manages itself, each keyed by its
//! physical address, and draws fresh frames from a [`FrameAllocator`].
//! The kernel copies them out through its direct map.

use vstd::prelude::*;

verus! {

pub type PhysAddr = u64;

pub type VirtAddr = u64;

pub const PAGE_BITS: u32 = 12;

pub const PAGE_BITS_2M: u32 = 21;

pub const PAGE_SIZE: u64 = 4096;

pub const PAGE_SIZE_2M: u64 = 0x20_0000;

pub const ENTRIES_PER_TABLE: usize = 512;

pub const PTE_PRESENT: u64 = 0x1;

pub const PTE_WRITABLE: u64 = 0x2;

pub const PTE_USER: u64 = 0x4;

pub const PTE_PWT: u64 = 0x8;

pub const PTE_PCD: u64 = 0x10;

pub const PTE_ACCESSED: u64 = 0x20;

pub const PTE_DIRTY: u64 = 0x40;

/// PS at PDPT/PD level marks a huge (1 GiB / 2 MiB) leaf.
pub const PTE_HUGE: u64 = 0x80;

pub const PTE_GLOBAL: u64 = 0x100;

pub const PTE_NX: u64 = 0x8000_0000_0000_0000;

/// Bits 12..=51 of a PTE hold the frame physical address. Everything else
/// is flags or reserved. Same range at every level, huge or not.
pub const PTE_ADDR_MASK: u64 = 0x000F_FFFF_FFFF_F000;

/// PCD+PWT together encode "uncacheable" (UC) in the default PAT layout.
/// LAPIC, I/O APIC, HPET, and every device MMIO page gets these bits.
pub const PTE_UC: u64 = 0x18;

/// Low identity window. First 2 MiB is executable so the AP trampoline
/// at 0x8000 can run in real mode after paging is enabled.
pub const LOW_IDENT_LIMIT: u64 = 512 * 1024 * 1024;

pub const LOW_IDENT_EXEC_LIMIT: u64 = 2 * 1024 * 1024;

/// Physmap cap. Firmware sometimes describes MMIO BARs as multi-terabyte
/// regions; walking that at boot does not finish.
pub const PHYSMAP_CAP: u64 = 8 * 1024 * 1024 * 1024;

/// Dedicated MMIO window for devices that should not go through the
/// physmap: 256 MiB starting at 0xFFFF_E000_0000_0000.
pub const MMIO_WINDOW_START: u64 = 0xFFFF_E000_0000_0000;

pub const MMIO_WINDOW_END: u64 = 0xFFFF_E000_1000_0000;

pub const MMIO_WINDOW_LEN: u64 = MMIO_WINDOW_END - MMIO_WINDOW_START;

/// Index into the PML4 (bits 39..=47).
pub open spec fn idx4(v: u64) -> int {
    ((v >> 39u64) & 0x1FF) as int
}

/// Index into a PDPT (bits 30..=38).
pub open spec fn idx3(v: u64) -> int {
    ((v >> 30u64) & 0x1FF) as int
}

/// Index into a PD (bits 21..=29).
pub open spec fn idx2(v: u64) -> int {
    ((v >> 21u64) & 0x1FF) as int
}

/// Index into a PT (bits 12..=20).
pub open spec fn idx1(v: u64) -> int {
    ((v >> 12u64) & 0x1FF) as int
}

proof fn lemma_idx_bits(v: u64)
    by (bit_vector)
    ensures
        (v >> 39u64) & 0x1FF < 512,
        (v >> 30u64) & 0x1FF < 512,
        (v >> 21u64) & 0x1FF < 512,
        (v >> 12u64) & 0x1FF < 512,
        v & 0xFFF == v % 4096,
        v & 0x1F_FFFF == v % 0x20_0000,
{
}

proof fn lemma_idx_bound(v: u64)
    ensures
        0 <= idx4(v) < 512,
        0 <= idx3(v) < 512,
        0 <= idx2(v) < 512,
        0 <= idx1(v) < 512,
{
    lemma_idx_bits(v);
}

/// Facts about the zero entry and the page-size constants.
proof fn lemma_const_bits()
    by (bit_vector)
    ensures
        !pte_present(0u64),
        4096u64 & ((4096u64 - 1) as u64) == 0,
        0x20_0000u64 & ((0x20_0000u64 - 1) as u64) == 0,
        0u64 & 0xFFF == 0,
        0u64 & 0x1F_FFFF == 0,
{
}

/// What the entries this module writes decode to.
proof fn lemma_entry_bits(frame: u64, phys: u64, flags: u64, cur: u64, e: u64)
    by (bit_vector)
    ensures
        pte_present((frame & PTE_ADDR_MASK) | PTE_PRESENT | PTE_WRITABLE),
        !pte_huge((frame & PTE_ADDR_MASK) | PTE_PRESENT | PTE_WRITABLE),
        pte_addr((frame & PTE_ADDR_MASK) | PTE_PRESENT | PTE_WRITABLE) == frame & PTE_ADDR_MASK,
        pte_present((phys & PTE_ADDR_MASK) | (flags & !PTE_HUGE) | PTE_PRESENT),
        pte_addr((phys & PTE_ADDR_MASK) | (flags & !PTE_HUGE) | PTE_PRESENT) == (phys | flags) & PTE_ADDR_MASK,
        pte_present((phys & PTE_ADDR_MASK) | (flags & !PTE_PRESENT) | PTE_PRESENT | PTE_HUGE),
        pte_huge((phys & PTE_ADDR_MASK) | (flags & !PTE_PRESENT) | PTE_PRESENT | PTE_HUGE),
        pte_addr((phys & PTE_ADDR_MASK) | (flags & !PTE_PRESENT) | PTE_PRESENT | PTE_HUGE) == (phys | flags)
            & PTE_ADDR_MASK,
        cur & PTE_PRESENT != 0 ==> pte_present(cur | PTE_UC),
        cur & PTE_HUGE != 0 ==> pte_huge(cur | PTE_UC),
        pte_addr(cur | PTE_UC) == pte_addr(cur),
        (cur | PTE_UC) & PTE_UC == PTE_UC,
        (e & PTE_ADDR_MASK) & 0xFFF == 0,
        e | 0u64 == e,
{
}

/// A canonical address with the table indices of an aligned canonical
/// page lies inside that page.
pub proof fn lemma_page_bits(a: u64, w: u64)
    by (bit_vector)
    ensures
        spec_canonical(a) == a && spec_canonical(w) == w && a & 0xFFF == 0 && (a >> 39u64) & 0x1FF == (w
            >> 39u64) & 0x1FF && (a >> 30u64) & 0x1FF == (w >> 30u64) & 0x1FF && (a >> 21u64) & 0x1FF == (w
            >> 21u64) & 0x1FF && (a >> 12u64) & 0x1FF == (w >> 12u64) & 0x1FF ==> a <= w && w < a + 0x1000,
        spec_canonical(a) == a && spec_canonical(w) == w && a & 0x1F_FFFF == 0 && (a >> 39u64) & 0x1FF == (w
            >> 39u64) & 0x1FF && (a >> 30u64) & 0x1FF == (w >> 30u64) & 0x1FF && (a >> 21u64) & 0x1FF == (w
            >> 21u64) & 0x1FF ==> a <= w && w < a + 0x20_0000,
{
}

/// One page step from an aligned offset below an aligned bound.
proof fn lemma_aligned_step(off: u64, end: u64, m: u64)
    by (bit_vector)
    requires
        m == 0xFFF || m == 0x1F_FFFF,
        off & m == 0,
        end & m == 0,
        off < end,
    ensures
        ((off + m + 1) as u64) & m == 0,
        off + m + 1 <= end,
{
}

/// Between an aligned offset and the next page there is no other aligned
/// offset.
proof fn lemma_aligned_between(p: u64, q: u64, m: u64)
    by (bit_vector)
    requires
        m == 0xFFF || m == 0x1F_FFFF,
        p & m == 0,
        q & m == 0,
        p <= q,
        q < p + m + 1,
    ensures
        q == p,
{
}

/// A 4 KiB-aligned offset below `len` rounded up is below `len`.
proof fn lemma_below_rounded(off: u64, end: u64, len: u64)
    by (bit_vector)
    requires
        off & 0xFFF == 0,
        end & 0xFFF == 0,
        off < end,
        end < len + 4096,
    ensures
        off < len,
{
}

pub fn pml4_index(v: u64) -> (r: usize)
    ensures
        r == idx4(v),
        r < 512,
{
    proof {
        lemma_idx_bound(v);
    }
    ((v >> 39u64) & 0x1FF) as usize
}

pub fn pdpt_index(v: u64) -> (r: usize)
    ensures
        r == idx3(v),
        r < 512,
{
    proof {
        lemma_idx_bound(v);
    }
    ((v >> 30u64) & 0x1FF) as usize
}

pub fn pd_index(v: u64) -> (r: usize)
    ensures
        r == idx2(v),
        r < 512,
{
    proof {
        lemma_idx_bound(v);
    }
    ((v >> 21u64) & 0x1FF) as usize
}

pub fn pt_index(v: u64) -> (r: usize)
    ensures
        r == idx1(v),
        r < 512,
{
    proof {
        lemma_idx_bound(v);
    }
    ((v >> 12u64) & 0x1FF) as usize
}

pub fn page_offset(v: u64) -> (r: u64)
    ensures
        r == v & 0xFFF,
        r == v % 4096,
{
    proof {
        lemma_idx_bits(v);
    }
    v & (PAGE_SIZE - 1)
}

pub fn page_offset_2m(v: u64) -> (r: u64)
    ensures
        r == v & 0x1F_FFFF,
        r == v % 0x20_0000,
{
    proof {
        lemma_idx_bits(v);
    }
    v & (PAGE_SIZE_2M - 1)
}

/// `v` with bit 47 copied into bits 48..=63.
pub open spec fn spec_canonical(v: u64) -> u64 {
    if v & 0x0000_8000_0000_0000 != 0 {
        v | 0xFFFF_0000_0000_0000
    } else {
        v & 0x0000_FFFF_FFFF_FFFF
    }
}

/// Sign-extend a 48-bit linear address. The CPU faults on non-canonical
/// pointers; producing them by accident (arithmetic that overflows bit 47)
/// is one of the classes of bugs the address map's non-canonical hole
/// exists to catch.
pub fn canonical(v: u64) -> (r: u64)
    ensures
        r == spec_canonical(v),
{
    if v & 0x0000_8000_0000_0000 != 0 {
        v | 0xFFFF_0000_0000_0000
    } else {
        v & 0x0000_FFFF_FFFF_FFFF
    }
}

pub fn is_canonical(v: u64) -> (r: bool)
    ensures
        r == (spec_canonical(v) == v),
{
    canonical(v) == v
}

/// Canonicalising twice changes nothing.
pub proof fn lemma_canonical_idempotent(v: u64)
    by (bit_vector)
    ensures
        spec_canonical(spec_canonical(v)) == spec_canonical(v),
{
}

/// `x` rounded up to a multiple of the power of two `a`.
pub fn align_up(x: u64, a: u64) -> (r: u64)
    requires
        a > 0,
        a & ((a - 1) as u64) == 0,
        x + a - 1 <= u64::MAX,
    ensures
        r == ((x + a - 1) as u64) & !((a - 1) as u64),
        r & ((a - 1) as u64) == 0,
        x <= r,
        r - x < a,
{
    let m = a - 1;
    let s = x + m;
    let r = s & !m;
    assert(r & m == 0 && x <= r && r - x < a) by (bit_vector)
        requires
            a > 0,
            a & ((a - 1) as u64) == 0,
            m == a - 1,
            s == x + m,
            r == s & !m,
    ;
    r
}

/// `x` rounded down to a multiple of the power of two `a`.
pub fn align_down(x: u64, a: u64) -> (r: u64)
    requires
        a > 0,
        a & ((a - 1) as u64) == 0,
    ensures
        r == x & !((a - 1) as u64),
        r & ((a - 1) as u64) == 0,
        r <= x,
        x - r < a,
{
    let m = a - 1;
    let r = x & !m;
    assert(r & m == 0 && r <= x && x - r < a) by (bit_vector)
        requires
            a > 0,
            a & ((a - 1) as u64) == 0,
            m == a - 1,
            r == x & !m,
    ;
    r
}

#[derive(Debug, PartialEq, Eq, Copy, Clone, Structural)]
pub enum MapError {
    /// The frame allocator returned `None`.
    NoFrame,
    /// The 4 KiB request lands inside an existing HUGE entry, or a 2 MiB
    /// request lands inside an existing 4 KiB entry. Nothing is split, so
    /// both are hard failures rather than an automatic split.
    Overlap,
    /// The target entry is already present and `remap` was not set.
    AlreadyMapped,
    /// `virt` or `phys` was not aligned to the requested page size.
    Misaligned,
    /// Virtual address is not canonical.
    NonCanonical,
}

/// Backing for fresh page-table frames. The buddy allocator is the
/// production impl; host tests supply a counter over a pool.
pub trait FrameAllocator {
    /// Return a fresh, zeroed 4 KiB frame.
    fn alloc_zeroed(&mut self) -> Option<u64>;
}


pub open spec fn pte_present(e: u64) -> bool {
    e & PTE_PRESENT != 0
}

pub open spec fn pte_huge(e: u64) -> bool {
    e & PTE_HUGE != 0
}

pub open spec fn pte_addr(e: u64) -> u64 {
    e & PTE_ADDR_MASK
}

/// An entry of a table at `level` that points on down to a child table:
/// present, and not a huge leaf (the PML4 has none).
pub open spec fn down_entry(level: int, e: u64) -> bool {
    level >= 2 && pte_present(e) && (level == 4 || !pte_huge(e))
}

/// Entry `i` of the table at `t` in `m`; zero where `m` holds no such table.
pub open spec fn entry(m: Map<u64, Seq<u64>>, t: u64, i: int) -> u64 {
    if m.dom().contains(t) && 0 <= i < m[t].len() {
        m[t][i]
    } else {
        0
    }
}

/// What the MMU makes of `v` under the tables `m` rooted at `root`: a
/// 4-level walk that stops at a missing entry (no mapping) or at a huge
/// leaf (1 GiB at the PDPT, 2 MiB at the PD), keeping the offset within
/// the page.
pub open spec fn walk(m: Map<u64, Seq<u64>>, root: u64, v: u64) -> Option<u64> {
    let e1 = entry(m, root, idx4(v));
    if !pte_present(e1) {
        None
    } else {
        let e2 = entry(m, pte_addr(e1), idx3(v));
        if !pte_present(e2) {
            None
        } else if pte_huge(e2) {
            Some(pte_addr(e2) | (v & 0x3FFF_FFFF))
        } else {
            let e3 = entry(m, pte_addr(e2), idx2(v));
            if !pte_present(e3) {
                None
            } else if pte_huge(e3) {
                Some(pte_addr(e3) | (v & 0x1F_FFFF))
            } else {
                let e4 = entry(m, pte_addr(e3), idx1(v));
                if !pte_present(e4) {
                    None
                } else {
                    Some(pte_addr(e4) | (v & 0xFFF))
                }
            }
        }
    }
}

/// `translate`'s answer: no mapping for a non-canonical address.
pub open spec fn spec_translate(m: Map<u64, Seq<u64>>, root: u64, v: u64) -> Option<u64> {
    if spec_canonical(v) != v {
        None
    } else {
        walk(m, root, v)
    }
}

/// `w` and `v` share a 4 KiB page as far as the tables can tell: all four
/// table indices agree.
pub open spec fn same_page_4k(w: u64, v: u64) -> bool {
    idx4(w) == idx4(v) && idx3(w) == idx3(v) && idx2(w) == idx2(v) && idx1(w) == idx1(v)
}

/// `w` and `v` share a 2 MiB page: the PML4, PDPT and PD indices agree.
pub open spec fn same_page_2m(w: u64, v: u64) -> bool {
    idx4(w) == idx4(v) && idx3(w) == idx3(v) && idx2(w) == idx2(v)
}

/// The PD entry on the walk of `v`: zero where the walk stops above the
/// PD (a missing entry, or a 1 GiB leaf).
pub open spec fn pd_entry(m: Map<u64, Seq<u64>>, root: u64, v: u64) -> u64 {
    let e1 = entry(m, root, idx4(v));
    let e2 = entry(m, pte_addr(e1), idx3(v));
    if pte_present(e1) && pte_present(e2) && !pte_huge(e2) {
        entry(m, pte_addr(e2), idx2(v))
    } else {
        0
    }
}

/// The PD entry on the walk of `v` is a 2 MiB leaf.
pub open spec fn is_2m_leaf(m: Map<u64, Seq<u64>>, root: u64, v: u64) -> bool {
    pte_present(pd_entry(m, root, v)) && pte_huge(pd_entry(m, root, v))
}

/// The walk of `w` under `m` reads entry `i` of the table at `t`.
pub open spec fn walk_reads(m: Map<u64, Seq<u64>>, root: u64, w: u64, t: u64, i: int) -> bool {
    let e1 = entry(m, root, idx4(w));
    let e2 = entry(m, pte_addr(e1), idx3(w));
    let e3 = entry(m, pte_addr(e2), idx2(w));
    ||| root == t && idx4(w) == i
    ||| pte_present(e1) && pte_addr(e1) == t && idx3(w) == i
    ||| pte_present(e1) && pte_present(e2) && !pte_huge(e2) && pte_addr(e2) == t && idx2(w) == i
    ||| pte_present(e1) && pte_present(e2) && !pte_huge(e2) && pte_present(e3) && !pte_huge(e3) && pte_addr(e3)
        == t && idx1(w) == i
}

/// Tables that agree on every entry but one give every address whose walk
/// does not read that entry the same walk.
proof fn lemma_walk_frame(m0: Map<u64, Seq<u64>>, m1: Map<u64, Seq<u64>>, root: u64, t: u64, i: int, w: u64)
    requires
        forall|a: u64, k: int| !(a == t && k == i) ==> #[trigger] entry(m1, a, k) == entry(m0, a, k),
        !walk_reads(m0, root, w, t, i),
    ensures
        walk(m1, root, w) == walk(m0, root, w),
{
    let e1 = entry(m0, root, idx4(w));
    let e2 = entry(m0, pte_addr(e1), idx3(w));
    let e3 = entry(m0, pte_addr(e2), idx2(w));
    let e4 = entry(m0, pte_addr(e3), idx1(w));
    assert(entry(m1, root, idx4(w)) == e1);
    if pte_present(e1) {
        assert(entry(m1, pte_addr(e1), idx3(w)) == e2);
        if pte_present(e2) && !pte_huge(e2) {
            assert(entry(m1, pte_addr(e2), idx2(w)) == e3);
            if pte_present(e3) && !pte_huge(e3) {
                assert(entry(m1, pte_addr(e3), idx1(w)) == e4);
            }
        }
    }
}

/// The walk of `w` reads entry `i` of the table at `t` on its way to
/// its PD entry (at the PML4, the PDPT or the PD).
pub open spec fn pd_reads(m: Map<u64, Seq<u64>>, root: u64, w: u64, t: u64, i: int) -> bool {
    let e1 = entry(m, root, idx4(w));
    let e2 = entry(m, pte_addr(e1), idx3(w));
    ||| root == t && idx4(w) == i
    ||| pte_present(e1) && pte_addr(e1) == t && idx3(w) == i
    ||| pte_present(e1) && pte_present(e2) && !pte_huge(e2) && pte_addr(e2) == t && idx2(w) == i
}

/// Tables that agree on every entry but one give every address whose
/// walk does not read that entry on its way down the same PD entry.
proof fn lemma_pd_frame(m0: Map<u64, Seq<u64>>, m1: Map<u64, Seq<u64>>, root: u64, t: u64, i: int, w: u64)
    requires
        forall|a: u64, k: int| !(a == t && k == i) ==> #[trigger] entry(m1, a, k) == entry(m0, a, k),
        !pd_reads(m0, root, w, t, i),
    ensures
        pd_entry(m1, root, w) == pd_entry(m0, root, w),
{
    let e1 = entry(m0, root, idx4(w));
    let e2 = entry(m0, pte_addr(e1), idx3(w));
    assert(entry(m1, root, idx4(w)) == e1);
    if pte_present(e1) {
        assert(entry(m1, pte_addr(e1), idx3(w)) == e2);
        if pte_present(e2) && !pte_huge(e2) {
            assert(entry(m1, pte_addr(e2), idx2(w)) == entry(m0, pte_addr(e2), idx2(w)));
        }
    }
}

/// Tables that differ only where a missing entry now points at a table of
/// zeros give every address the same PD entry, but for an address whose
/// PD entry that was.
proof fn lemma_pd_into_zero(
    m0: Map<u64, Seq<u64>>,
    m1: Map<u64, Seq<u64>>,
    root: u64,
    t: u64,
    i: int,
    f: u64,
    w: u64,
)
    requires
        forall|a: u64, k: int| !(a == t && k == i) ==> #[trigger] entry(m1, a, k) == entry(m0, a, k),
        !pte_present(entry(m0, t, i)),
        pte_present(entry(m1, t, i)),
        !pte_huge(entry(m1, t, i)),
        pte_addr(entry(m1, t, i)) == f,
        forall|k: int| #[trigger] entry(m1, f, k) == 0,
        !(reaches_pd(m0, root, w, t) && idx2(w) == i),
    ensures
        pd_entry(m1, root, w) == pd_entry(m0, root, w),
{
    lemma_const_bits();
    if !pd_reads(m0, root, w, t, i) {
        lemma_pd_frame(m0, m1, root, t, i, w);
    } else {
        let e1 = entry(m0, root, idx4(w));
        let e2 = entry(m0, pte_addr(e1), idx3(w));
        if root == t && idx4(w) == i {
            assert(pd_entry(m0, root, w) == 0);
            assert(entry(m1, f, idx3(w)) == 0);
        } else {
            assert(entry(m1, root, idx4(w)) == e1);
            assert(pte_present(e1) && pte_addr(e1) == t && idx3(w) == i);
            assert(pd_entry(m0, root, w) == 0);
            assert(entry(m1, f, idx2(w)) == 0);
        }
    }
}

/// `v` can take a 4 KiB mapping with no new table: its walk reaches a PT
/// and the PT entry for `v` is empty.
pub open spec fn ready_4k(m: Map<u64, Seq<u64>>, root: u64, v: u64) -> bool {
    reaches_pt(m, root, v, leaf_table(m, root, v)) && !pte_present(entry(m, leaf_table(m, root, v), idx1(v)))
}

/// `v` can take a 2 MiB mapping with no new table: its walk reaches a PD
/// and the PD entry for `v` is empty.
pub open spec fn ready_2m(m: Map<u64, Seq<u64>>, root: u64, v: u64) -> bool {
    reaches_pd(m, root, v, pd_of(m, root, v)) && !pte_present(entry(m, pd_of(m, root, v), idx2(v)))
}

/// Every page of the `len` bytes at `virt` is canonical and can take a
/// 4 KiB mapping with no new table.
pub open spec fn range_ready_4k(m: Map<u64, Seq<u64>>, root: u64, virt: u64, len: int) -> bool {
    forall|o: u64|
        #![trigger ready_4k(m, root, (virt + o) as u64)]
        #![trigger spec_canonical((virt + o) as u64)]
        o < len && o & 0xFFF == 0 ==> spec_canonical((virt + o) as u64) == (virt + o) as u64 && ready_4k(
            m,
            root,
            (virt + o) as u64,
        )
}

/// Every 2 MiB page of the `len` bytes at `virt` is canonical and can
/// take a 2 MiB mapping with no new table.
pub open spec fn range_ready_2m(m: Map<u64, Seq<u64>>, root: u64, virt: u64, len: int) -> bool {
    forall|o: u64|
        #![trigger ready_2m(m, root, (virt + o) as u64)]
        #![trigger spec_canonical((virt + o) as u64)]
        o < len && o & 0x1F_FFFF == 0 ==> spec_canonical((virt + o) as u64) == (virt + o) as u64 && ready_2m(
            m,
            root,
            (virt + o) as u64,
        )
}

/// The next page of a ready range can be mapped with no new table.
proof fn lemma_range_4k_page(p0: PageTables, s0: PageTables, virt: u64, phys: u64, off: u64, end: u64)
    requires
        virt & 0xFFF == 0,
        phys & 0xFFF == 0,
        off & 0xFFF == 0,
        off < end,
        virt + end <= 0x1_0000_0000_0000_0000,
        phys + off < 0x1_0000_0000_0000_0000,
        range_ready_4k(p0.mem(), p0.root(), virt, end as int),
        forall|o: u64| off <= o < end && o & 0xFFF == 0 ==> #[trigger] ready_4k(s0.mem(), s0.root(), (virt + o) as u64),
    ensures
        spec_canonical((virt + off) as u64) == (virt + off) as u64,
        ((virt + off) as u64) & 0xFFF == 0,
        ((phys + off) as u64) & 0xFFF == 0,
        reaches_pt(s0.mem(), s0.root(), (virt + off) as u64, leaf_table(s0.mem(), s0.root(), (virt + off) as u64)),
        !pte_present(entry(s0.mem(), leaf_table(s0.mem(), s0.root(), (virt + off) as u64), idx1((virt + off) as u64))),
{
    lemma_idx_bits(virt);
    lemma_idx_bits(phys);
    lemma_idx_bits(off);
    lemma_idx_bits((virt + off) as u64);
    lemma_idx_bits((phys + off) as u64);
    assert(ready_4k(s0.mem(), s0.root(), (virt + off) as u64));
    assert(spec_canonical((virt + off) as u64) == (virt + off) as u64);
}

/// The next 2 MiB page of a ready range can be mapped with no new table.
proof fn lemma_range_2m_page(p0: PageTables, s0: PageTables, virt: u64, phys: u64, off: u64, len: u64)
    requires
        virt & 0x1F_FFFF == 0,
        phys & 0x1F_FFFF == 0,
        off & 0x1F_FFFF == 0,
        off < len,
        virt + len <= 0x1_0000_0000_0000_0000,
        phys + len <= 0x1_0000_0000_0000_0000,
        range_ready_2m(p0.mem(), p0.root(), virt, len as int),
        forall|o: u64| off <= o < len && o & 0x1F_FFFF == 0 ==> #[trigger] ready_2m(s0.mem(), s0.root(), (virt + o) as u64),
    ensures
        spec_canonical((virt + off) as u64) == (virt + off) as u64,
        ((virt + off) as u64) & 0x1F_FFFF == 0,
        ((phys + off) as u64) & 0x1F_FFFF == 0,
        reaches_pd(s0.mem(), s0.root(), (virt + off) as u64, pd_of(s0.mem(), s0.root(), (virt + off) as u64)),
        !pte_present(entry(s0.mem(), pd_of(s0.mem(), s0.root(), (virt + off) as u64), idx2((virt + off) as u64))),
{
    lemma_idx_bits(virt);
    lemma_idx_bits(phys);
    lemma_idx_bits(off);
    lemma_idx_bits((virt + off) as u64);
    lemma_idx_bits((phys + off) as u64);
    assert(ready_2m(s0.mem(), s0.root(), (virt + off) as u64));
    assert(spec_canonical((virt + off) as u64) == (virt + off) as u64);
}

/// One 2 MiB page of a ready range mapped: the pages after it stay ready,
/// and so does every ready address outside the part mapped so far.
proof fn lemma_range_2m_step(p0: PageTables, s0: PageTables, s1: PageTables, virt: u64, off: u64, len: u64)
    requires
        virt & 0x1F_FFFF == 0,
        off & 0x1F_FFFF == 0,
        len & 0x1F_FFFF == 0,
        off < len,
        virt + len <= 0x1_0000_0000_0000_0000,
        range_ready_2m(p0.mem(), p0.root(), virt, len as int),
        forall|o: u64| off <= o < len && o & 0x1F_FFFF == 0 ==> #[trigger] ready_2m(s0.mem(), s0.root(), (virt + o) as u64),
        forall|w: u64|
            spec_canonical(w) == w && !(virt <= w < virt + off) && #[trigger] ready_2m(p0.mem(), p0.root(), w)
                ==> ready_2m(s0.mem(), s0.root(), w),
        ready_2m(s0.mem(), s0.root(), (virt + off) as u64) ==> forall|w: u64|
            !same_page_2m(w, (virt + off) as u64) && #[trigger] ready_2m(s0.mem(), s0.root(), w) ==> ready_2m(
                s1.mem(),
                s1.root(),
                w,
            ),
    ensures
        forall|o: u64| off + 0x20_0000 <= o < len && o & 0x1F_FFFF == 0 ==> #[trigger] ready_2m(s1.mem(), s1.root(), (virt + o) as u64),
        forall|w: u64|
            spec_canonical(w) == w && !(virt <= w < virt + off + 0x20_0000) && #[trigger] ready_2m(p0.mem(), p0.root(), w)
                ==> ready_2m(s1.mem(), s1.root(), w),
{
    let a = (virt + off) as u64;
    lemma_idx_bits(virt);
    lemma_idx_bits(off);
    lemma_idx_bits(a);
    assert(ready_2m(s0.mem(), s0.root(), a));
    assert(spec_canonical(a) == a);
    assert forall|o: u64| off + 0x20_0000 <= o < len && o & 0x1F_FFFF == 0 implies #[trigger] ready_2m(
        s1.mem(),
        s1.root(),
        (virt + o) as u64,
    ) by {
        let b = (virt + o) as u64;
        lemma_idx_bits(o);
        assert(ready_2m(s0.mem(), s0.root(), b));
        assert(spec_canonical(b) == b);
        if same_page_2m(b, a) {
            lemma_idx_bound(b);
            lemma_page_bits(a, b);
        }
    }
    assert forall|w: u64|
        spec_canonical(w) == w && !(virt <= w < virt + off + 0x20_0000) && #[trigger] ready_2m(p0.mem(), p0.root(), w)
            implies ready_2m(s1.mem(), s1.root(), w) by {
        assert(ready_2m(s0.mem(), s0.root(), w));
        if same_page_2m(w, a) {
            lemma_idx_bound(w);
            lemma_page_bits(a, w);
        }
    }
}

/// Every PD entry that differs between `m0` and `m1` is that of a 2 MiB
/// page holding one of the canonical `step`-aligned addresses below
/// `virt + len`, from `virt` on.
pub open spec fn pd_changes_within(
    m0: Map<u64, Seq<u64>>,
    r0: u64,
    m1: Map<u64, Seq<u64>>,
    r1: u64,
    virt: u64,
    len: int,
    mask: u64,
) -> bool {
    forall|w: u64|
        #[trigger] pd_entry(m1, r1, w) != pd_entry(m0, r0, w) ==> exists|o: u64|
            o < len && o & mask == 0 && spec_canonical((virt + o) as u64) == (virt + o) as u64 && same_page_2m(
                w,
                (virt + o) as u64,
            )
}

/// A step that changes PD entries only within the 2 MiB page of the
/// canonical `virt + off` extends the range of changes by that page.
proof fn lemma_pd_changes_step(
    p0: PageTables,
    s0: PageTables,
    s1: PageTables,
    virt: u64,
    off: u64,
    mask: u64,
    len: int,
)
    requires
        pd_changes_within(p0.mem(), p0.root(), s0.mem(), s0.root(), virt, off as int, mask),
        off < len,
        off & mask == 0,
        forall|w: u64| !same_page_2m(w, (virt + off) as u64) ==> #[trigger] pd_entry(s1.mem(), s1.root(), w) == pd_entry(
            s0.mem(),
            s0.root(),
            w,
        ),
        spec_canonical((virt + off) as u64) != (virt + off) as u64 ==> s1 == s0,
    ensures
        pd_changes_within(p0.mem(), p0.root(), s1.mem(), s1.root(), virt, len, mask),
{
    assert forall|w: u64| #[trigger] pd_entry(s1.mem(), s1.root(), w) != pd_entry(p0.mem(), p0.root(), w) implies exists|o: u64|
        o < len && o & mask == 0 && spec_canonical((virt + o) as u64) == (virt + o) as u64 && same_page_2m(
            w,
            (virt + o) as u64,
        ) by {
        if pd_entry(s0.mem(), s0.root(), w) != pd_entry(p0.mem(), p0.root(), w) {
            let o = choose|o: u64|
                o < off && o & mask == 0 && spec_canonical((virt + o) as u64) == (virt + o) as u64 && same_page_2m(
                    w,
                    (virt + o) as u64,
                );
        } else {
            assert(same_page_2m(w, (virt + off) as u64));
        }
    }
}

/// The 2 MiB page at `virt + off` lies past every page changed so far,
/// so its PD entry is as it was.
proof fn lemma_pd_unchanged_next(p0: PageTables, s0: PageTables, virt: u64, off: u64)
    requires
        pd_changes_within(p0.mem(), p0.root(), s0.mem(), s0.root(), virt, off as int, 0x1F_FFFF),
        virt + off < 0x1_0000_0000_0000_0000,
        spec_canonical((virt + off) as u64) == (virt + off) as u64,
        ((virt + off) as u64) & 0x1F_FFFF == 0,
        off & 0x1F_FFFF == 0,
    ensures
        pd_entry(s0.mem(), s0.root(), (virt + off) as u64) == pd_entry(p0.mem(), p0.root(), (virt + off) as u64),
{
    let a = (virt + off) as u64;
    if pd_entry(s0.mem(), s0.root(), a) != pd_entry(p0.mem(), p0.root(), a) {
        let o = choose|o: u64|
            o < off && o & 0x1F_FFFF == 0 && spec_canonical((virt + o) as u64) == (virt + o) as u64 && same_page_2m(
                a,
                (virt + o) as u64,
            );
        let b = (virt + o) as u64;
        lemma_idx_bits(virt);
        lemma_idx_bits(off);
        lemma_idx_bits(o);
        lemma_idx_bits(a);
        lemma_idx_bits(b);
        assert(b == virt + o);
        assert(b & 0x1F_FFFF == 0);
        lemma_idx_bound(a);
        lemma_idx_bound(b);
        lemma_page_bits(b, a);
    }
}

/// One page of a ready range mapped: the pages after it stay ready, and
/// so does every ready address outside the part mapped so far.
proof fn lemma_range_4k_step(p0: PageTables, s0: PageTables, s1: PageTables, virt: u64, off: u64, end: u64)
    requires
        virt & 0xFFF == 0,
        off & 0xFFF == 0,
        end & 0xFFF == 0,
        off < end,
        virt + end <= 0x1_0000_0000_0000_0000,
        range_ready_4k(p0.mem(), p0.root(), virt, end as int),
        forall|o: u64| off <= o < end && o & 0xFFF == 0 ==> #[trigger] ready_4k(s0.mem(), s0.root(), (virt + o) as u64),
        forall|w: u64|
            spec_canonical(w) == w && !(virt <= w < virt + off) && #[trigger] ready_4k(p0.mem(), p0.root(), w)
                ==> ready_4k(s0.mem(), s0.root(), w),
        forall|w: u64| #[trigger] ready_2m(p0.mem(), p0.root(), w) ==> ready_2m(s0.mem(), s0.root(), w),
        ready_4k(s0.mem(), s0.root(), (virt + off) as u64) ==> forall|w: u64|
            !same_page_4k(w, (virt + off) as u64) && #[trigger] ready_4k(s0.mem(), s0.root(), w) ==> ready_4k(
                s1.mem(),
                s1.root(),
                w,
            ),
        ready_4k(s0.mem(), s0.root(), (virt + off) as u64) ==> forall|w: u64|
            #[trigger] ready_2m(s0.mem(), s0.root(), w) ==> ready_2m(s1.mem(), s1.root(), w),
    ensures
        forall|o: u64| off + 4096 <= o < end && o & 0xFFF == 0 ==> #[trigger] ready_4k(s1.mem(), s1.root(), (virt + o) as u64),
        forall|w: u64|
            spec_canonical(w) == w && !(virt <= w < virt + off + 4096) && #[trigger] ready_4k(p0.mem(), p0.root(), w)
                ==> ready_4k(s1.mem(), s1.root(), w),
        forall|w: u64| #[trigger] ready_2m(p0.mem(), p0.root(), w) ==> ready_2m(s1.mem(), s1.root(), w),
{
    let a = (virt + off) as u64;
    lemma_idx_bits(virt);
    lemma_idx_bits(off);
    lemma_idx_bits(a);
    assert(ready_4k(s0.mem(), s0.root(), a));
    assert(spec_canonical(a) == a);
    assert forall|o: u64| off + 4096 <= o < end && o & 0xFFF == 0 implies #[trigger] ready_4k(
        s1.mem(),
        s1.root(),
        (virt + o) as u64,
    ) by {
        let b = (virt + o) as u64;
        lemma_idx_bits(o);
        assert(ready_4k(s0.mem(), s0.root(), b));
        assert(spec_canonical(b) == b);
        if same_page_4k(b, a) {
            lemma_idx_bound(b);
            lemma_page_bits(a, b);
        }
    }
    assert forall|w: u64|
        spec_canonical(w) == w && !(virt <= w < virt + off + 4096) && #[trigger] ready_4k(p0.mem(), p0.root(), w)
            implies ready_4k(s1.mem(), s1.root(), w) by {
        assert(ready_4k(s0.mem(), s0.root(), w));
        if same_page_4k(w, a) {
            lemma_idx_bound(w);
            lemma_page_bits(a, w);
        }
    }
    assert forall|w: u64| #[trigger] ready_2m(p0.mem(), p0.root(), w) implies ready_2m(s1.mem(), s1.root(), w) by {
        assert(ready_2m(s0.mem(), s0.root(), w));
    }
}

/// Tables that agree on every entry but one leave an address whose walk
/// does not read that entry exactly as ready as it was.
proof fn lemma_ready_frame(m0: Map<u64, Seq<u64>>, m1: Map<u64, Seq<u64>>, root: u64, t: u64, i: int, w: u64)
    requires
        forall|a: u64, k: int| !(a == t && k == i) ==> #[trigger] entry(m1, a, k) == entry(m0, a, k),
        !walk_reads(m0, root, w, t, i),
    ensures
        ready_4k(m1, root, w) == ready_4k(m0, root, w),
        ready_2m(m1, root, w) == ready_2m(m0, root, w),
{
    let e1 = entry(m0, root, idx4(w));
    let e2 = entry(m0, pte_addr(e1), idx3(w));
    let e3 = entry(m0, pte_addr(e2), idx2(w));
    assert(entry(m1, root, idx4(w)) == e1);
    if pte_present(e1) {
        assert(entry(m1, pte_addr(e1), idx3(w)) == e2);
        if pte_present(e2) && !pte_huge(e2) {
            assert(entry(m1, pte_addr(e2), idx2(w)) == e3);
            if pte_present(e3) && !pte_huge(e3) {
                assert(entry(m1, pte_addr(e3), idx1(w)) == entry(m0, pte_addr(e3), idx1(w)));
            }
        }
    }
}

/// Tables that differ only where a missing entry now points at a table of
/// zeros (not the PT of `w`) give `w` the same walk: both stop unmapped.
proof fn lemma_walk_into_zero(
    m0: Map<u64, Seq<u64>>,
    m1: Map<u64, Seq<u64>>,
    root: u64,
    t: u64,
    i: int,
    f: u64,
    w: u64,
)
    requires
        forall|a: u64, k: int| !(a == t && k == i) ==> #[trigger] entry(m1, a, k) == entry(m0, a, k),
        !pte_present(entry(m0, t, i)),
        pte_present(entry(m1, t, i)),
        !pte_huge(entry(m1, t, i)),
        pte_addr(entry(m1, t, i)) == f,
        forall|k: int| #[trigger] entry(m1, f, k) == 0,
        ({
            let e1 = entry(m0, root, idx4(w));
            let e2 = entry(m0, pte_addr(e1), idx3(w));
            let e3 = entry(m0, pte_addr(e2), idx2(w));
            !(pte_present(e1) && pte_present(e2) && !pte_huge(e2) && pte_present(e3) && !pte_huge(e3)
                && pte_addr(e3) == t)
        }),
    ensures
        walk(m1, root, w) == walk(m0, root, w),
{
    lemma_const_bits();
    if !walk_reads(m0, root, w, t, i) {
        lemma_walk_frame(m0, m1, root, t, i, w);
    } else {
        let e1 = entry(m0, root, idx4(w));
        let e2 = entry(m0, pte_addr(e1), idx3(w));
        let e3 = entry(m0, pte_addr(e2), idx2(w));
        assert(walk(m0, root, w) is None);
        if root == t && idx4(w) == i {
            assert(entry(m1, f, idx3(w)) == 0);
        } else {
            assert(entry(m1, root, idx4(w)) == e1);
            if pte_addr(e1) == t && idx3(w) == i {
                assert(entry(m1, f, idx2(w)) == 0);
            } else {
                assert(entry(m1, pte_addr(e1), idx3(w)) == e2);
                assert(entry(m1, f, idx1(w)) == 0);
            }
        }
    }
}

/// A walker over the tables it manages: the root (PML4) frame, the
/// direct-map offset the kernel reads them through, and each table frame
/// with its 512 entries. The ghost levels say what each table is: 4 for
/// the PML4 down to 1 for a PT.
pub struct PageTables {
    pml4_phys: u64,
    hhdm_offset: u64,
    frames: Vec<u64>,
    tables: Vec<Vec<u64>>,
    levels: Ghost<Seq<int>>,
}

impl PageTables {
    /// The tables, keyed by the frame that holds each.
    pub closed spec fn mem(&self) -> Map<u64, Seq<u64>> {
        Map::new(|t: u64| self.frames@.contains(t), |t: u64| self.tables@[self.frames@.index_of(t)]@)
    }

    /// 4 for the PML4 frame, down to 1 for a PT.
    pub closed spec fn level(&self, t: u64) -> int {
        self.levels@[self.frames@.index_of(t)]
    }

    pub closed spec fn root(&self) -> u64 {
        self.pml4_phys
    }

    pub closed spec fn hhdm(&self) -> u64 {
        self.hhdm_offset
    }

    /// Frames and levels line up, no frame holds two tables, the root is
    /// the first table, every table has 512 entries, and a present entry
    /// that points on down (any at the PML4, non-huge at the PDPT and PD)
    /// points at a table one level lower.
    pub closed spec fn wf(&self) -> bool {
        &&& self.frames@.len() == self.tables@.len()
        &&& self.frames@.len() == self.levels@.len()
        &&& self.frames@.len() >= 1
        &&& self.frames@.no_duplicates()
        &&& self.frames@[0] == self.pml4_phys
        &&& self.levels@[0] == 4
        &&& forall|j: int| 0 <= j < self.tables@.len() ==> (#[trigger] self.tables@[j])@.len() == 512
        &&& forall|j: int| 0 <= j < self.levels@.len() ==> 1 <= #[trigger] self.levels@[j] <= 4
        &&& forall|j: int, i: int|
            #![trigger self.tables@[j]@[i]]
            0 <= j < self.tables@.len() && 0 <= i < 512 && self.levels@[j] >= 2 && pte_present(
                self.tables@[j]@[i],
            ) && (self.levels@[j] == 4 || !pte_huge(self.tables@[j]@[i])) ==> self.frames@.contains(
                pte_addr(self.tables@[j]@[i]),
            ) && self.levels@[self.frames@.index_of(pte_addr(self.tables@[j]@[i]))] == self.levels@[j] - 1
        &&& self.unique_parents()
    }

    /// No two entries point down at the same child table.
    #[verifier::opaque]
    pub closed spec fn unique_parents(&self) -> bool {
        forall|j1: int, i1: int, j2: int, i2: int|
            #![trigger self.tables@[j1]@[i1], self.tables@[j2]@[i2]]
            0 <= j1 < self.tables@.len() && 0 <= i1 < 512 && 0 <= j2 < self.tables@.len() && 0 <= i2 < 512
                && down_entry(self.levels@[j1], self.tables@[j1]@[i1]) && down_entry(
                self.levels@[j2],
                self.tables@[j2]@[i2],
            ) && pte_addr(self.tables@[j1]@[i1]) == pte_addr(self.tables@[j2]@[i2]) ==> j1 == j2 && i1 == i2
    }

    /// Wrap a zeroed PML4 frame.
    pub fn new(pml4_phys: u64, hhdm_offset: u64) -> (r: Self)
        ensures
            r.wf(),
            r.root() == pml4_phys,
            r.hhdm() == hhdm_offset,
            r.mem().dom() == set![pml4_phys],
            r.mem()[pml4_phys] == Seq::new(512, |i: int| 0u64),
    {
        let mut frames: Vec<u64> = Vec::new();
        frames.push(pml4_phys);
        let mut tables: Vec<Vec<u64>> = Vec::new();
        tables.push(zero_table());
        let ghost lv: Seq<int> = seq![4int];
        let r = PageTables { pml4_phys, hhdm_offset, frames, tables, levels: Ghost(lv) };
        proof {
            assert(r.frames@ =~= seq![pml4_phys]);
            lemma_index_of(r.frames@, 0);
            assert(r.mem().dom() =~= set![pml4_phys]);
            assert(r.tables@[0]@ =~= Seq::new(512, |i: int| 0u64));
            lemma_const_bits();
            reveal(PageTables::unique_parents);
        }
        r
    }

    pub fn pml4_phys(&self) -> (r: u64)
        ensures
            r == self.root(),
    {
        self.pml4_phys
    }

    pub fn hhdm_offset(&self) -> (r: u64)
        ensures
            r == self.hhdm(),
    {
        self.hhdm_offset
    }

    /// Where the table at `t` sits among the managed tables.
    fn find(&self, t: u64) -> (r: Option<usize>)
        requires
            self.wf(),
        ensures
            r matches Some(j) ==> j < self.frames@.len() && self.frames@[j as int] == t
                && self.frames@.index_of(t) == j,
            r is None ==> !self.frames@.contains(t),
    {
        let mut j = 0usize;
        while j < self.frames.len()
            invariant
                self.wf(),
                j <= self.frames@.len(),
                forall|q: int| 0 <= q < j ==> self.frames@[q] != t,
            decreases self.frames@.len() - j,
        {
            if self.frames[j] == t {
                proof {
                    lemma_index_of(self.frames@, j as int);
                }
                return Some(j);
            }
            j += 1;
        }
        None
    }

    /// Entry `i` of the table at `t`; zero where no table is kept there.
    pub fn entry(&self, t: u64, i: usize) -> (r: u64)
        requires
            self.wf(),
        ensures
            r == entry(self.mem(), t, i as int),
    {
        match self.find(t) {
            Some(j) => {
                if i < 512 {
                    self.tables[j][i]
                } else {
                    0
                }
            },
            None => 0,
        }
    }

    /// Read-only walk. Resolves `virt` to the mapped physical address,
    /// preserving the offset within a huge page.
    pub fn translate(&self, virt: u64) -> (r: Option<u64>)
        requires
            self.wf(),
        ensures
            r == spec_translate(self.mem(), self.root(), virt),
    {
        if !is_canonical(virt) {
            return None;
        }
        let e = self.entry(self.pml4_phys, pml4_index(virt));
        if e & PTE_PRESENT == 0 {
            return None;
        }
        let e = self.entry(e & PTE_ADDR_MASK, pdpt_index(virt));
        if e & PTE_PRESENT == 0 {
            return None;
        }
        if e & PTE_HUGE != 0 {
            return Some((e & PTE_ADDR_MASK) | (virt & 0x3FFF_FFFF));
        }
        let e = self.entry(e & PTE_ADDR_MASK, pd_index(virt));
        if e & PTE_PRESENT == 0 {
            return None;
        }
        if e & PTE_HUGE != 0 {
            return Some((e & PTE_ADDR_MASK) | page_offset_2m(virt));
        }
        let e = self.entry(e & PTE_ADDR_MASK, pt_index(virt));
        if e & PTE_PRESENT == 0 {
            return None;
        }
        Some((e & PTE_ADDR_MASK) | page_offset(virt))
    }
}

fn zero_table() -> (r: Vec<u64>)
    ensures
        r@ == Seq::new(512, |i: int| 0u64),
{
    let mut t: Vec<u64> = Vec::new();
    let mut i = 0usize;
    while i < 512
        invariant
            i <= 512,
            t@ == Seq::new(i as nat, |q: int| 0u64),
        decreases 512 - i,
    {
        t.push(0);
        i += 1;
        assert(t@ =~= Seq::new(i as nat, |q: int| 0u64));
    }
    t
}

proof fn lemma_index_of(s: Seq<u64>, j: int)
    requires
        s.no_duplicates(),
        0 <= j < s.len(),
    ensures
        s.index_of(s[j]) == j,
        s.contains(s[j]),
{
    let c = s.index_of(s[j]);
    assert(0 <= j < s.len() && s[j] == s[j]);
    assert(0 <= c < s.len() && s[c] == s[j]);
}


/// The walk of `v` reaches the PD at `pd`: a present PML4 entry, then a
/// present non-huge PDPT entry that points at `pd`.
pub open spec fn reaches_pd(m: Map<u64, Seq<u64>>, root: u64, v: u64, pd: u64) -> bool {
    let e1 = entry(m, root, idx4(v));
    let e2 = entry(m, pte_addr(e1), idx3(v));
    &&& pte_present(e1)
    &&& pte_present(e2)
    &&& !pte_huge(e2)
    &&& pte_addr(e2) == pd
}

/// The PD the walk of `v` reads its third entry from, when it gets that
/// far: the address in its PDPT entry.
pub open spec fn pd_of(m: Map<u64, Seq<u64>>, root: u64, v: u64) -> u64 {
    let e1 = entry(m, root, idx4(v));
    pte_addr(entry(m, pte_addr(e1), idx3(v)))
}

/// The table the walk of `v` reads its last entry from, when it gets
/// that far: the address in its PD entry.
pub open spec fn leaf_table(m: Map<u64, Seq<u64>>, root: u64, v: u64) -> u64 {
    let e1 = entry(m, root, idx4(v));
    let e2 = entry(m, pte_addr(e1), idx3(v));
    pte_addr(entry(m, pte_addr(e2), idx2(v)))
}

/// The walk of `v` goes on from its PD to the PT at `pt`.
pub open spec fn reaches_pt(m: Map<u64, Seq<u64>>, root: u64, v: u64, pt: u64) -> bool {
    let e1 = entry(m, root, idx4(v));
    let e2 = entry(m, pte_addr(e1), idx3(v));
    let e3 = entry(m, pte_addr(e2), idx2(v));
    &&& reaches_pd(m, root, v, pte_addr(e2))
    &&& pte_present(e3)
    &&& !pte_huge(e3)
    &&& pte_addr(e3) == pt
}

/// The tables `m1` keep every table of `m0` at its level, and change none
/// but the one at `t`.
pub open spec fn keeps_others(pt0: PageTables, pt1: PageTables, t: u64) -> bool {
    &&& pt1.root() == pt0.root()
    &&& pt1.hhdm() == pt0.hhdm()
    &&& forall|x: u64| #[trigger] pt0.mem().dom().contains(x) ==> pt1.mem().dom().contains(x)
        && pt1.level(x) == pt0.level(x) && (x != t ==> pt1.mem()[x] == pt0.mem()[x])
}

impl PageTables {
    proof fn lemma_entry(&self, j: int, i: int)
        requires
            self.wf(),
            0 <= j < self.frames@.len(),
            0 <= i < 512,
        ensures
            entry(self.mem(), self.frames@[j], i) == self.tables@[j]@[i],
            self.mem().dom().contains(self.frames@[j]),
            self.level(self.frames@[j]) == self.levels@[j],
    {
        lemma_index_of(self.frames@, j);
    }

    /// Overwrite entry `i` of table `j`.
    fn set_entry(&mut self, j: usize, i: usize, val: u64)
        requires
            old(self).wf(),
            j < old(self).frames@.len(),
            i < 512,
            old(self).levels@[j as int] >= 2 && pte_present(val) && (old(self).levels@[j as int] == 4
                || !pte_huge(val)) ==> old(self).frames@.contains(pte_addr(val)) && old(self).levels@[old(
                self,
            ).frames@.index_of(pte_addr(val))] == old(self).levels@[j as int] - 1,
            down_entry(old(self).levels@[j as int], val) ==> forall|j2: int, i2: int|
                #![trigger old(self).tables@[j2]@[i2]]
                0 <= j2 < old(self).tables@.len() && 0 <= i2 < 512 && !(j2 == j && i2 == i) && down_entry(
                    old(self).levels@[j2],
                    old(self).tables@[j2]@[i2],
                ) ==> pte_addr(old(self).tables@[j2]@[i2]) != pte_addr(val),
        ensures
            final(self).wf(),
            final(self).frames@ == old(self).frames@,
            final(self).levels@ == old(self).levels@,
            final(self).pml4_phys == old(self).pml4_phys,
            final(self).hhdm_offset == old(self).hhdm_offset,
            forall|q: int| 0 <= q < old(self).tables@.len() && q != j ==> #[trigger] final(self).tables@[q]
                == old(self).tables@[q],
            final(self).tables@[j as int]@ == old(self).tables@[j as int]@.update(i as int, val),
            keeps_others(*old(self), *final(self), old(self).frames@[j as int]),
            final(self).mem()[old(self).frames@[j as int]] == old(self).mem()[old(
                self,
            ).frames@[j as int]].update(i as int, val),
            forall|a: u64, k: int| !(a == old(self).frames@[j as int] && k == i) ==> #[trigger] entry(
                final(self).mem(),
                a,
                k,
            ) == entry(old(self).mem(), a, k),
            entry(final(self).mem(), old(self).frames@[j as int], i as int) == val,
    {
        let ghost t0 = self.tables@;
        let mut t: Vec<u64> = Vec::new();
        std::mem::swap(&mut t, &mut self.tables[j]);
        t.set(i, val);
        self.tables.set(j, t);
        proof {
            assert forall|q: int| 0 <= q < t0.len() && q != j implies #[trigger] self.tables@[q] == t0[q] by {}
            lemma_index_of(self.frames@, j as int);
            let m0 = old(self).mem();
            let m1 = self.mem();
            assert forall|x: u64| #[trigger] m0.dom().contains(x) implies m1.dom().contains(x)
                && self.level(x) == old(self).level(x) && (x != self.frames@[j as int] ==> m1[x] == m0[x]) by {
                let q = self.frames@.index_of(x);
                assert(0 <= q < self.frames@.len() && self.frames@[q] == x);
                if x != self.frames@[j as int] {
                    assert(q != j);
                }
            }
            assert forall|jj: int, ii: int|
                #![trigger self.tables@[jj]@[ii]]
                0 <= jj < self.tables@.len() && 0 <= ii < 512 && self.levels@[jj] >= 2 && pte_present(
                    self.tables@[jj]@[ii],
                ) && (self.levels@[jj] == 4 || !pte_huge(self.tables@[jj]@[ii])) implies self.frames@.contains(
                    pte_addr(self.tables@[jj]@[ii]),
                ) && self.levels@[self.frames@.index_of(pte_addr(self.tables@[jj]@[ii]))] == self.levels@[jj]
                - 1 by {
                if jj != j || ii != i {
                    assert(self.tables@[jj]@[ii] == t0[jj]@[ii]);
                }
            }
            assert forall|a: u64, k: int| !(a == self.frames@[j as int] && k == i) implies #[trigger] entry(
                self.mem(),
                a,
                k,
            ) == entry(old(self).mem(), a, k) by {
                assert(m1.dom() =~= m0.dom());
            }
            reveal(PageTables::unique_parents);
            assert forall|j1: int, i1: int, j2: int, i2: int|
                #![trigger self.tables@[j1]@[i1], self.tables@[j2]@[i2]]
                0 <= j1 < self.tables@.len() && 0 <= i1 < 512 && 0 <= j2 < self.tables@.len() && 0 <= i2 < 512
                    && down_entry(self.levels@[j1], self.tables@[j1]@[i1]) && down_entry(
                    self.levels@[j2],
                    self.tables@[j2]@[i2],
                ) && pte_addr(self.tables@[j1]@[i1]) == pte_addr(self.tables@[j2]@[i2]) implies j1 == j2 && i1
                == i2 by {
                if !(j1 == j && i1 == i) {
                    assert(self.tables@[j1]@[i1] == t0[j1]@[i1]);
                }
                if !(j2 == j && i2 == i) {
                    assert(self.tables@[j2]@[i2] == t0[j2]@[i2]);
                }
            }
        }
    }

    /// Add a zeroed table at the frame `f`, at `level`.
    fn add_table(&mut self, f: u64, level: Ghost<int>) -> (r: usize)
        requires
            old(self).wf(),
            !old(self).frames@.contains(f),
            1 <= level@ <= 3,
        ensures
            final(self).wf(),
            r == old(self).frames@.len(),
            final(self).frames@ == old(self).frames@.push(f),
            final(self).levels@ == old(self).levels@.push(level@),
            final(self).tables@.len() == old(self).tables@.len() + 1,
            forall|q: int| 0 <= q < old(self).tables@.len() ==> #[trigger] final(self).tables@[q] == old(
                self,
            ).tables@[q],
            final(self).tables@[r as int]@ == Seq::new(512, |i: int| 0u64),
            final(self).pml4_phys == old(self).pml4_phys,
            final(self).hhdm_offset == old(self).hhdm_offset,
            keeps_others(*old(self), *final(self), f),
            final(self).mem().dom().contains(f),
            final(self).level(f) == level@,
            forall|j2: int, i2: int|
                #![trigger final(self).tables@[j2]@[i2]]
                0 <= j2 < final(self).tables@.len() && 0 <= i2 < 512 && down_entry(
                    final(self).levels@[j2],
                    final(self).tables@[j2]@[i2],
                ) ==> pte_addr(final(self).tables@[j2]@[i2]) != f,
            forall|a: u64, k: int| #[trigger] entry(final(self).mem(), a, k) == entry(old(self).mem(), a, k),
    {
        let r = self.frames.len();
        let ghost t0 = self.tables@;
        let ghost f0 = self.frames@;
        self.frames.push(f);
        self.tables.push(zero_table());
        let ghost lv = self.levels@.push(level@);
        self.levels = Ghost(lv);
        proof {
            lemma_const_bits();
            assert forall|q: int| 0 <= q < t0.len() implies #[trigger] self.tables@[q] == t0[q] by {}
            assert(self.frames@.no_duplicates()) by {
                assert forall|a: int, b: int| 0 <= a < b < self.frames@.len() implies self.frames@[a]
                    != self.frames@[b] by {
                    if b == r {
                        assert(f0.contains(f0[a]));
                    }
                }
            }
            lemma_index_of(self.frames@, r as int);
            let m0 = old(self).mem();
            let m1 = self.mem();
            assert forall|x: u64| #[trigger] m0.dom().contains(x) implies m1.dom().contains(x)
                && self.level(x) == old(self).level(x) && (x != f ==> m1[x] == m0[x]) by {
                let q = f0.index_of(x);
                assert(0 <= q < f0.len() && f0[q] == x);
                lemma_index_of(self.frames@, q);
                lemma_index_of(f0, q);
            }
            assert forall|jj: int, ii: int|
                #![trigger self.tables@[jj]@[ii]]
                0 <= jj < self.tables@.len() && 0 <= ii < 512 && self.levels@[jj] >= 2 && pte_present(
                    self.tables@[jj]@[ii],
                ) && (self.levels@[jj] == 4 || !pte_huge(self.tables@[jj]@[ii])) implies self.frames@.contains(
                    pte_addr(self.tables@[jj]@[ii]),
                ) && self.levels@[self.frames@.index_of(pte_addr(self.tables@[jj]@[ii]))] == self.levels@[jj]
                - 1 by {
                if jj < r {
                    let a = pte_addr(t0[jj]@[ii]);
                    assert(f0.contains(a));
                    let q = f0.index_of(a);
                    assert(0 <= q < f0.len() && f0[q] == a);
                    lemma_index_of(self.frames@, q);
                    lemma_index_of(f0, q);
                }
            }
            assert forall|j2: int, i2: int|
                #![trigger self.tables@[j2]@[i2]]
                0 <= j2 < self.tables@.len() && 0 <= i2 < 512 && down_entry(
                    self.levels@[j2],
                    self.tables@[j2]@[i2],
                ) implies pte_addr(self.tables@[j2]@[i2]) != f by {
                if j2 < r {
                    assert(f0.contains(pte_addr(t0[j2]@[i2])));
                }
            }
            assert forall|a: u64, k: int| #[trigger] entry(m1, a, k) == entry(m0, a, k) by {
                if a == f {
                    assert(!m0.dom().contains(f));
                }
            }
            reveal(PageTables::unique_parents);
        }
        r
    }
}


impl PageTables {
    /// Read entry `i` of table `j`; if it does not point at a child table,
    /// take a fresh frame, make it a zeroed table one level down, and
    /// point the entry at it. A frame that already holds one of these
    /// tables is refused as no frame. Returns the child table.
    fn ensure_next<A: FrameAllocator>(&mut self, j: usize, i: usize, alloc: &mut A) -> (r: Result<
        usize,
        MapError,
    >)
        requires
            old(self).wf(),
            j < old(self).frames@.len(),
            i < 512,
            old(self).levels@[j as int] >= 2,
            old(self).levels@[j as int] == 4 || !(pte_present(old(self).tables@[j as int]@[i as int])
                && pte_huge(old(self).tables@[j as int]@[i as int])),
        ensures
            final(self).wf(),
            keeps_others(*old(self), *final(self), old(self).frames@[j as int]),
            final(self).frames@.len() >= old(self).frames@.len(),
            forall|q: int| 0 <= q < old(self).frames@.len() ==> #[trigger] final(self).frames@[q] == old(
                self,
            ).frames@[q],
            pte_present(old(self).tables@[j as int]@[i as int]) ==> *final(self) == *old(self),
            pte_present(old(self).tables@[j as int]@[i as int]) && (old(self).levels@[j as int] == 4 || !pte_huge(
                old(self).tables@[j as int]@[i as int],
            )) ==> r is Ok && final(self).frames@[r->Ok_0 as int] == pte_addr(old(self).tables@[j as int]@[i as int]),
            forall|a: u64, k: int| pte_present(#[trigger] entry(old(self).mem(), a, k)) ==> entry(final(self).mem(), a, k)
                == entry(old(self).mem(), a, k),
            forall|w: u64| #[trigger] walk(final(self).mem(), final(self).root(), w) == walk(
                old(self).mem(),
                old(self).root(),
                w,
            ),
            r is Err ==> *final(self) == *old(self) && r == Err::<usize, MapError>(MapError::NoFrame),
            r matches Ok(c) ==> {
                let e = entry(final(self).mem(), old(self).frames@[j as int], i as int);
                &&& c < final(self).frames@.len()
                &&& pte_present(e)
                &&& (old(self).levels@[j as int] == 4 || !pte_huge(e))
                &&& pte_addr(e) == final(self).frames@[c as int]
                &&& final(self).levels@[c as int] == old(self).levels@[j as int] - 1
                &&& final(self).mem()[old(self).frames@[j as int]] == old(self).mem()[old(
                    self,
                ).frames@[j as int]].update(i as int, e)
                &&& !pte_present(old(self).tables@[j as int]@[i as int]) ==> final(self).tables@[c as int]@
                    == Seq::new(512, |q: int| 0u64)
            },
            forall|w: u64|
                !(old(self).levels@[j as int] == 2 && reaches_pd(old(self).mem(), old(self).root(), w, old(self).frames@[j as int])
                    && idx2(w) == i) ==> #[trigger] pd_entry(final(self).mem(), final(self).root(), w) == pd_entry(
                    old(self).mem(),
                    old(self).root(),
                    w,
                ),
    {
        proof {
            self.lemma_entry(j as int, i as int);
        }
        let e = self.tables[j][i];
        if e & PTE_PRESENT != 0 {
            match self.find(e & PTE_ADDR_MASK) {
                Some(c) => {
                    proof {
                        assert(self.mem()[self.frames@[j as int]] =~= self.mem()[self.frames@[j as int]].update(
                            i as int,
                            e,
                        ));
                    }
                    return Ok(c);
                },
                None => {
                    return Err(MapError::NoFrame);
                },
            }
        }
        let frame = alloc.alloc_zeroed();
        let ghost s0 = *self;
        let r = self.attach_at(j, i, frame);
        proof {
            assert forall|w: u64|
                !(s0.levels@[j as int] == 2 && reaches_pd(s0.mem(), s0.root(), w, s0.frames@[j as int]) && idx2(w)
                    == i) implies #[trigger] pd_entry(self.mem(), self.root(), w) == pd_entry(s0.mem(), s0.root(), w) by {
                if reaches_pd(s0.mem(), s0.root(), w, s0.frames@[j as int]) && idx2(w) == i {
                    s0.lemma_walk_levels(w);
                    lemma_index_of(s0.frames@, j as int);
                }
            }
        }
        r
    }

    /// Make the fresh frame `frame` (as the allocator handed it out) the
    /// zeroed child table under entry `i` of table `j`, which is not
    /// present. No frame, or a frame that already holds a table, is
    /// refused as no frame and changes nothing.
    fn attach_at(&mut self, j: usize, i: usize, frame: Option<u64>) -> (r: Result<usize, MapError>)
        requires
            old(self).wf(),
            j < old(self).frames@.len(),
            i < 512,
            old(self).levels@[j as int] >= 2,
            !pte_present(old(self).tables@[j as int]@[i as int]),
        ensures
            final(self).wf(),
            keeps_others(*old(self), *final(self), old(self).frames@[j as int]),
            final(self).frames@.len() >= old(self).frames@.len(),
            forall|q: int| 0 <= q < old(self).frames@.len() ==> #[trigger] final(self).frames@[q] == old(
                self,
            ).frames@[q],
            forall|w: u64| #[trigger] walk(final(self).mem(), final(self).root(), w) == walk(
                old(self).mem(),
                old(self).root(),
                w,
            ),
            frame is None ==> r == Err::<usize, MapError>(MapError::NoFrame),
            frame is Some && old(self).frames@.contains(frame->0 & PTE_ADDR_MASK) ==> r == Err::<usize, MapError>(
                MapError::NoFrame,
            ),
            r is Err ==> *final(self) == *old(self) && r == Err::<usize, MapError>(MapError::NoFrame),
            forall|a: u64, k: int| pte_present(#[trigger] entry(old(self).mem(), a, k)) ==> entry(final(self).mem(), a, k)
                == entry(old(self).mem(), a, k),
            frame is Some && !old(self).frames@.contains(frame->0 & PTE_ADDR_MASK) ==> r == Ok::<usize, MapError>(
                old(self).frames@.len() as usize,
            ) && final(self).frames@ == old(self).frames@.push(frame->0 & PTE_ADDR_MASK) && entry(
                final(self).mem(),
                old(self).frames@[j as int],
                i as int,
            ) == (frame->0 & PTE_ADDR_MASK) | PTE_PRESENT | PTE_WRITABLE,
            r matches Ok(c) ==> {
                let e = entry(final(self).mem(), old(self).frames@[j as int], i as int);
                &&& c < final(self).frames@.len()
                &&& pte_present(e)
                &&& (old(self).levels@[j as int] == 4 || !pte_huge(e))
                &&& pte_addr(e) == final(self).frames@[c as int]
                &&& final(self).levels@[c as int] == old(self).levels@[j as int] - 1
                &&& final(self).mem()[old(self).frames@[j as int]] == old(self).mem()[old(
                    self,
                ).frames@[j as int]].update(i as int, e)
                &&& final(self).tables@[c as int]@ == Seq::new(512, |q: int| 0u64)
            },
            forall|w: u64|
                !(reaches_pd(old(self).mem(), old(self).root(), w, old(self).frames@[j as int]) && idx2(w) == i) ==> #[trigger] pd_entry(
                    final(self).mem(),
                    final(self).root(),
                    w,
                ) == pd_entry(old(self).mem(), old(self).root(), w),
    {
        proof {
            self.lemma_entry(j as int, i as int);
        }
        let frame = match frame {
            Some(fr) => fr,
            None => {
                return Err(MapError::NoFrame);
            },
        };
        let f = frame & PTE_ADDR_MASK;
        if self.find(f).is_some() {
            return Err(MapError::NoFrame);
        }
        let ghost lvl = self.levels@[j as int] - 1;
        let c = self.add_table(f, Ghost(lvl));
        let val = f | PTE_PRESENT | PTE_WRITABLE;
        proof {
            lemma_entry_bits(frame, 0, 0, 0, 0);
            lemma_index_of(self.frames@, c as int);
        }
        let ghost mid = *self;
        self.set_entry(j, i, val);
        proof {
            mid.lemma_entry(j as int, i as int);
            self.lemma_entry(j as int, i as int);
            lemma_index_of(self.frames@, c as int);
            let m0 = old(self).mem();
            let m2 = self.mem();
            assert forall|x: u64| #[trigger] m0.dom().contains(x) implies m2.dom().contains(x)
                && self.level(x) == old(self).level(x) && (x != old(self).frames@[j as int] ==> m2[x] == m0[x]) by {
                assert(mid.mem().dom().contains(x));
                assert(x != f);
            }
            let mm = mid.mem();
            let root = self.pml4_phys;
            let t = old(self).frames@[j as int];
            assert forall|k: int| #[trigger] entry(m2, f, k) == 0 by {
                if 0 <= k < 512 {
                    self.lemma_entry(c as int, k);
                }
            }
            assert forall|w: u64| #[trigger] walk(m2, root, w) == walk(m0, root, w) by {
                lemma_idx_bound(w);
                lemma_walk_frame(m0, mm, root, root, 512, w);
                mid.lemma_walk_levels(w);
                lemma_walk_into_zero(mm, m2, root, t, i as int, f, w);
            }
            assert forall|w: u64| !(reaches_pd(m0, root, w, t) && idx2(w) == i) implies #[trigger] pd_entry(m2, root, w)
                == pd_entry(m0, root, w) by {
                lemma_idx_bound(w);
                lemma_pd_frame(m0, mm, root, root, 512, w);
                assert(reaches_pd(mm, root, w, t) == reaches_pd(m0, root, w, t)) by {
                    lemma_walk_frame(m0, mm, root, root, 512, w);
                    let e1 = entry(m0, root, idx4(w));
                    assert(entry(mm, root, idx4(w)) == e1);
                    assert(entry(mm, pte_addr(e1), idx3(w)) == entry(m0, pte_addr(e1), idx3(w)));
                }
                lemma_pd_into_zero(mm, m2, root, t, i as int, f, w);
            }
        }
        Ok(c)
    }
}


impl PageTables {
    /// One step of a walk that builds tables: entry `i` of the table at
    /// `t` is not present, and `frame` is what the allocator handed out.
    /// No frame, or a frame that already holds one of these tables, is
    /// refused as no frame and leaves the tables as they were. Otherwise
    /// the frame becomes a zeroed table one level below `t`, entry `i`
    /// points at it (present, writable), and every walk resolves as before.
    pub fn attach(&mut self, t: u64, i: usize, frame: Option<u64>) -> (r: Result<u64, MapError>)
        requires
            old(self).wf(),
            i < 512,
            old(self).mem().dom().contains(t),
            old(self).level(t) >= 2,
            !pte_present(entry(old(self).mem(), t, i as int)),
        ensures
            final(self).wf(),
            keeps_tables(*old(self), *final(self)),
            frame is None ==> r == Err::<u64, MapError>(MapError::NoFrame) && *final(self) == *old(self),
            frame is Some && old(self).mem().dom().contains(frame->0 & PTE_ADDR_MASK) ==> r == Err::<u64, MapError>(
                MapError::NoFrame,
            ) && *final(self) == *old(self),
            frame is Some && !old(self).mem().dom().contains(frame->0 & PTE_ADDR_MASK) ==> r == Ok::<u64, MapError>(
                frame->0 & PTE_ADDR_MASK,
            ) && final(self).mem() == old(self).mem().insert(frame->0 & PTE_ADDR_MASK, Seq::new(512, |q: int| 0u64)).insert(
                t,
                old(self).mem()[t].update(i as int, (frame->0 & PTE_ADDR_MASK) | PTE_PRESENT | PTE_WRITABLE),
            ) && final(self).level(frame->0 & PTE_ADDR_MASK) == old(self).level(t) - 1,
            forall|w: u64| #[trigger] walk(final(self).mem(), final(self).root(), w) == walk(
                old(self).mem(),
                old(self).root(),
                w,
            ),
    {
        let j = match self.find(t) {
            Some(j) => j,
            None => {
                return Err(MapError::NoFrame);
            },
        };
        proof {
            self.lemma_entry(j as int, i as int);
        }
        let ghost f0 = self.frames@;
        let res = self.attach_at(j, i, frame);
        proof {
            if frame is Some {
                let f = frame->0 & PTE_ADDR_MASK;
                assert(old(self).mem().dom().contains(f) == f0.contains(f));
            }
        }
        match res {
            Ok(c) => {
                let f = self.frames[c];
                proof {
                    let m0 = old(self).mem();
                    let m1 = self.mem();
                    let want = m0.insert(f, Seq::new(512, |q: int| 0u64)).insert(
                        t,
                        m0[t].update(i as int, f | PTE_PRESENT | PTE_WRITABLE),
                    );
                    assert(frame is Some && !f0.contains(frame->0 & PTE_ADDR_MASK));
                    assert(self.frames@ == f0.push(frame->0 & PTE_ADDR_MASK));
                    assert(f0.len() == old(self).frames.len());
                    assert(c == f0.len());
                    assert(f == frame->0 & PTE_ADDR_MASK);
                    lemma_index_of(self.frames@, c as int);
                    lemma_index_of(self.frames@, j as int);
                    assert(m1.dom() =~= want.dom()) by {
                        assert forall|x: u64| m1.dom().contains(x) implies want.dom().contains(x) by {
                            let q = self.frames@.index_of(x);
                            assert(0 <= q < self.frames@.len() && self.frames@[q] == x);
                            if q < f0.len() {
                                assert(f0[q] == x);
                                assert(f0.contains(x));
                            }
                        }
                        assert forall|x: u64| want.dom().contains(x) implies m1.dom().contains(x) by {
                            if x != f && x != t {
                                assert(m0.dom().contains(x));
                            }
                        }
                    }
                    assert(m1[f] == self.tables@[c as int]@);
                    assert(m1[t] == m0[t].update(i as int, f | PTE_PRESENT | PTE_WRITABLE));
                    assert forall|x: u64| #[trigger] m1.dom().contains(x) implies m1[x] == want[x] by {
                        if x != t && x != f {
                            let q = self.frames@.index_of(x);
                            assert(0 <= q < self.frames@.len() && self.frames@[q] == x);
                            assert(q < f0.len());
                            assert(f0[q] == x);
                            assert(m0.dom().contains(x));
                        }
                    }
                    assert(m1 =~= want);
                }
                Ok(f)
            },
            Err(e) => Err(e),
        }
    }
}

/// Every table of `pt0` is still in `pt1`, at its level, under the same root.
pub open spec fn keeps_tables(pt0: PageTables, pt1: PageTables) -> bool {
    &&& pt1.root() == pt0.root()
    &&& pt1.hhdm() == pt0.hhdm()
    &&& forall|x: u64| #[trigger] pt0.mem().dom().contains(x) ==> pt1.mem().dom().contains(x)
        && pt1.level(x) == pt0.level(x)
}

impl PageTables {
    proof fn lemma_root(&self)
        requires
            self.wf(),
        ensures
            self.mem().dom().contains(self.root()),
            self.level(self.root()) == 4,
            entry(self.mem(), self.root(), 0) == self.tables@[0]@[0],
    {
        lemma_index_of(self.frames@, 0);
    }

    /// Each table the walk of `w` passes through is kept, one level below
    /// the one before it.
    proof fn lemma_walk_levels(&self, w: u64)
        requires
            self.wf(),
        ensures
            ({
                let m = self.mem();
                let e1 = entry(m, self.root(), idx4(w));
                let e2 = entry(m, pte_addr(e1), idx3(w));
                let e3 = entry(m, pte_addr(e2), idx2(w));
                &&& m.dom().contains(self.root()) && self.level(self.root()) == 4
                &&& pte_present(e1) ==> m.dom().contains(pte_addr(e1)) && self.level(pte_addr(e1)) == 3
                &&& pte_present(e1) && pte_present(e2) && !pte_huge(e2) ==> m.dom().contains(pte_addr(e2))
                    && self.level(pte_addr(e2)) == 2
                &&& pte_present(e1) && pte_present(e2) && !pte_huge(e2) && pte_present(e3) && !pte_huge(e3)
                    ==> m.dom().contains(pte_addr(e3)) && self.level(pte_addr(e3)) == 1
            }),
    {
        lemma_idx_bound(w);
        self.lemma_root();
        lemma_index_of(self.frames@, 0);
        let m = self.mem();
        let e1 = entry(m, self.root(), idx4(w));
        self.lemma_entry(0, idx4(w));
        if pte_present(e1) {
            self.lemma_child(0, idx4(w));
            let q1 = self.frames@.index_of(pte_addr(e1));
            lemma_index_of(self.frames@, q1);
            self.lemma_entry(q1, idx3(w));
            let e2 = entry(m, pte_addr(e1), idx3(w));
            if pte_present(e2) && !pte_huge(e2) {
                self.lemma_child(q1, idx3(w));
                let q2 = self.frames@.index_of(pte_addr(e2));
                lemma_index_of(self.frames@, q2);
                self.lemma_entry(q2, idx2(w));
                let e3 = entry(m, pte_addr(e2), idx2(w));
                if pte_present(e3) && !pte_huge(e3) {
                    self.lemma_child(q2, idx2(w));
                }
            }
        }
    }

    /// An address whose walk reads the PT entry that maps `v` lies in the
    /// 4 KiB page of `v`: no table has two parents.
    proof fn lemma_reads_pt(&self, v: u64, w: u64, t: u64)
        requires
            self.wf(),
            reaches_pt(self.mem(), self.root(), v, t),
            walk_reads(self.mem(), self.root(), w, t, idx1(v)),
        ensures
            same_page_4k(w, v),
    {
        reveal(PageTables::unique_parents);
        lemma_idx_bound(v);
        lemma_idx_bound(w);
        self.lemma_walk_levels(v);
        self.lemma_walk_levels(w);
        let m = self.mem();
        let root = self.root();
        lemma_index_of(self.frames@, 0);
        let e1w = entry(m, root, idx4(w));
        let e2w = entry(m, pte_addr(e1w), idx3(w));
        let e3w = entry(m, pte_addr(e2w), idx2(w));
        let e1v = entry(m, root, idx4(v));
        let e2v = entry(m, pte_addr(e1v), idx3(v));
        let e3v = entry(m, pte_addr(e2v), idx2(v));
        assert(pte_present(e1w) && pte_present(e2w) && !pte_huge(e2w) && pte_present(e3w) && !pte_huge(e3w)
            && pte_addr(e3w) == t);
        self.lemma_entry(0, idx4(w));
        self.lemma_entry(0, idx4(v));
        let q1w = self.frames@.index_of(pte_addr(e1w));
        let q1v = self.frames@.index_of(pte_addr(e1v));
        lemma_index_of(self.frames@, q1w);
        lemma_index_of(self.frames@, q1v);
        self.lemma_entry(q1w, idx3(w));
        self.lemma_entry(q1v, idx3(v));
        let q2w = self.frames@.index_of(pte_addr(e2w));
        let q2v = self.frames@.index_of(pte_addr(e2v));
        lemma_index_of(self.frames@, q2w);
        lemma_index_of(self.frames@, q2v);
        self.lemma_entry(q2w, idx2(w));
        self.lemma_entry(q2v, idx2(v));
        assert(q2w == q2v && idx2(w) == idx2(v));
        assert(q1w == q1v && idx3(w) == idx3(v));
        assert(idx4(w) == idx4(v));
    }

    /// An address whose walk reads the PD entry that maps `v` lies in the
    /// 2 MiB page of `v`.
    proof fn lemma_reads_pd(&self, v: u64, w: u64, t: u64)
        requires
            self.wf(),
            reaches_pd(self.mem(), self.root(), v, t),
            walk_reads(self.mem(), self.root(), w, t, idx2(v)),
        ensures
            same_page_2m(w, v),
    {
        reveal(PageTables::unique_parents);
        lemma_idx_bound(v);
        lemma_idx_bound(w);
        self.lemma_walk_levels(v);
        self.lemma_walk_levels(w);
        let m = self.mem();
        let root = self.root();
        lemma_index_of(self.frames@, 0);
        let e1w = entry(m, root, idx4(w));
        let e2w = entry(m, pte_addr(e1w), idx3(w));
        let e1v = entry(m, root, idx4(v));
        let e2v = entry(m, pte_addr(e1v), idx3(v));
        assert(pte_present(e1w) && pte_present(e2w) && !pte_huge(e2w) && pte_addr(e2w) == t);
        self.lemma_entry(0, idx4(w));
        self.lemma_entry(0, idx4(v));
        let q1w = self.frames@.index_of(pte_addr(e1w));
        let q1v = self.frames@.index_of(pte_addr(e1v));
        lemma_index_of(self.frames@, q1w);
        lemma_index_of(self.frames@, q1v);
        self.lemma_entry(q1w, idx3(w));
        self.lemma_entry(q1v, idx3(v));
        assert(q1w == q1v && idx3(w) == idx3(v));
        assert(idx4(w) == idx4(v));
    }

    /// A present entry that points on down leads to a table one level
    /// lower.
    proof fn lemma_child(&self, j: int, i: int)
        requires
            self.wf(),
            0 <= j < self.frames@.len(),
            0 <= i < 512,
            self.levels@[j] >= 2,
            pte_present(self.tables@[j]@[i]),
            self.levels@[j] == 4 || !pte_huge(self.tables@[j]@[i]),
        ensures
            self.mem().dom().contains(pte_addr(self.tables@[j]@[i])),
            self.level(pte_addr(self.tables@[j]@[i])) == self.levels@[j] - 1,
            0 <= self.frames@.index_of(pte_addr(self.tables@[j]@[i])) < self.frames@.len(),
    {
        let a = pte_addr(self.tables@[j]@[i]);
        let q = self.frames@.index_of(a);
        assert(0 <= q < self.frames@.len() && self.frames@[q] == a);
    }

    /// Walk to the PD level, allocating intermediate tables. Fails if the
    /// path is blocked by a huge entry higher up.
    fn walk_to_pd<A: FrameAllocator>(&mut self, virt: u64, alloc: &mut A) -> (r: Result<usize, MapError>)
        requires
            old(self).wf(),
        ensures
            final(self).wf(),
            keeps_tables(*old(self), *final(self)),
            r matches Ok(c) ==> c < final(self).frames@.len() && final(self).levels@[c as int] == 2
                && reaches_pd(final(self).mem(), final(self).root(), virt, final(self).frames@[c as int]),
            r == Err::<usize, MapError>(MapError::Overlap) ==> *final(self) == *old(self) && walk(
                final(self).mem(),
                final(self).root(),
                virt,
            ) is Some,
            r is Err ==> r == Err::<usize, MapError>(MapError::Overlap) || r == Err::<usize, MapError>(
                MapError::NoFrame,
            ),
            forall|w: u64| #[trigger] walk(final(self).mem(), final(self).root(), w) == walk(
                old(self).mem(),
                old(self).root(),
                w,
            ),
            forall|pd: u64| #[trigger] reaches_pd(old(self).mem(), old(self).root(), virt, pd) ==> r is Ok
                && *final(self) == *old(self) && final(self).frames@[r->Ok_0 as int] == pd,
            forall|a: u64, k: int| pte_present(#[trigger] entry(old(self).mem(), a, k)) ==> entry(final(self).mem(), a, k)
                == entry(old(self).mem(), a, k),
            forall|w: u64| #[trigger] pd_entry(final(self).mem(), final(self).root(), w) == pd_entry(
                old(self).mem(),
                old(self).root(),
                w,
            ),
    {
        proof {
            lemma_idx_bound(virt);
            self.lemma_root();
            self.lemma_entry(0, idx4(virt));
            lemma_index_of(self.frames@, 0);
            assert(self.levels@[0] == 4);
        }
        let c1 = self.ensure_next(0, pml4_index(virt), alloc)?;
        let ghost s1 = *self;
        let i3 = pdpt_index(virt);
        proof {
            self.lemma_root();
            self.lemma_entry(c1 as int, i3 as int);
        }
        let e = self.tables[c1][i3];
        if e & PTE_PRESENT != 0 && e & PTE_HUGE != 0 {
            proof {
                if !pte_present(old(self).tables@[0]@[idx4(virt)]) {
                    assert(e == 0u64);
                    lemma_const_bits();
                }
                assert(*self == *old(self));
            }
            return Err(MapError::Overlap);
        }
        proof {
            lemma_index_of(s1.frames@, c1 as int);
            s1.lemma_root();
            assert(s1.levels@[c1 as int] == 3);
        }
        let c2 = self.ensure_next(c1, i3, alloc)?;
        proof {
            self.lemma_root();
            let m1 = s1.mem();
            let m2 = self.mem();
            let root = self.root();
            assert(s1.level(root) == 4);
            assert(s1.level(s1.frames@[c1 as int]) == 3) by {
                lemma_index_of(s1.frames@, c1 as int);
            }
            assert(m2[root] == m1[root]);
            self.lemma_entry(c2 as int, 0);
        }
        Ok(c2)
    }
}


impl PageTables {
    /// Walk to the PT level, allocating intermediate tables. Fails if the
    /// path is blocked by a huge entry higher up.
    fn walk_to_pt<A: FrameAllocator>(&mut self, virt: u64, alloc: &mut A) -> (r: Result<usize, MapError>)
        requires
            old(self).wf(),
        ensures
            final(self).wf(),
            keeps_tables(*old(self), *final(self)),
            r matches Ok(c) ==> c < final(self).frames@.len() && final(self).levels@[c as int] == 1
                && reaches_pt(final(self).mem(), final(self).root(), virt, final(self).frames@[c as int]),
            r == Err::<usize, MapError>(MapError::Overlap) ==> walk(final(self).mem(), final(self).root(), virt)
                is Some,
            r is Err ==> r == Err::<usize, MapError>(MapError::Overlap) || r == Err::<usize, MapError>(
                MapError::NoFrame,
            ),
            forall|w: u64| #[trigger] walk(final(self).mem(), final(self).root(), w) == walk(
                old(self).mem(),
                old(self).root(),
                w,
            ),
            forall|pt: u64| #[trigger] reaches_pt(old(self).mem(), old(self).root(), virt, pt) ==> r is Ok
                && *final(self) == *old(self) && final(self).frames@[r->Ok_0 as int] == pt,
            forall|a: u64, k: int| pte_present(#[trigger] entry(old(self).mem(), a, k)) ==> entry(final(self).mem(), a, k)
                == entry(old(self).mem(), a, k),
            forall|w: u64| !same_page_2m(w, virt) ==> #[trigger] pd_entry(final(self).mem(), final(self).root(), w)
                == pd_entry(old(self).mem(), old(self).root(), w),
    {
        let c2 = self.walk_to_pd(virt, alloc)?;
        let ghost s2 = *self;
        let i2 = pd_index(virt);
        proof {
            self.lemma_entry(c2 as int, i2 as int);
            assert forall|w: u64|
                #[trigger] reaches_pd(s2.mem(), s2.root(), w, s2.frames@[c2 as int]) && idx2(w) == i2 implies same_page_2m(
                w,
                virt,
            ) by {
                s2.lemma_reads_pd(virt, w, s2.frames@[c2 as int]);
            }
        }
        let e = self.tables[c2][i2];
        if e & PTE_PRESENT != 0 && e & PTE_HUGE != 0 {
            return Err(MapError::Overlap);
        }
        let c3 = self.ensure_next(c2, i2, alloc)?;
        proof {
            lemma_idx_bound(virt);
            s2.lemma_root();
            let m2 = s2.mem();
            let root = s2.root();
            let e1 = entry(m2, root, idx4(virt));
            let a1 = pte_addr(e1);
            let q0 = s2.frames@.index_of(root);
            s2.lemma_entry(0, idx4(virt));
            lemma_index_of(s2.frames@, 0);
            s2.lemma_child(0, idx4(virt));
            let q1 = s2.frames@.index_of(a1);
            lemma_index_of(s2.frames@, q1);
            s2.lemma_entry(q1, idx3(virt));
            lemma_index_of(s2.frames@, c2 as int);
            assert(s2.level(a1) == 3);
            assert(s2.level(s2.frames@[c2 as int]) == 2);
            assert(self.mem()[root] == m2[root]);
            assert(self.mem()[a1] == m2[a1]);
        }
        Ok(c3)
    }

    /// Map a single 4 KiB page `virt -> phys`. The leaf entry is `phys`
    /// with `flags`, present, never huge. An entry already present is
    /// replaced only with `remap`.
    pub fn map_page<A: FrameAllocator>(
        &mut self,
        virt: u64,
        phys: u64,
        flags: u64,
        remap: bool,
        alloc: &mut A,
    ) -> (r: Result<(), MapError>)
        requires
            old(self).wf(),
        ensures
            final(self).wf(),
            keeps_tables(*old(self), *final(self)),
            (spec_canonical(virt) != virt) <==> r == Err::<(), MapError>(MapError::NonCanonical),
            (spec_canonical(virt) == virt && (virt & 0xFFF != 0 || phys & 0xFFF != 0)) <==> r == Err::<
                (),
                MapError,
            >(MapError::Misaligned),
            r == Err::<(), MapError>(MapError::NonCanonical) || r == Err::<(), MapError>(MapError::Misaligned)
                ==> *final(self) == *old(self),
            r is Ok ==> walk(final(self).mem(), final(self).root(), virt) == Some(((phys | flags) & PTE_ADDR_MASK)
                | (virt & 0xFFF)),
            r == Err::<(), MapError>(MapError::AlreadyMapped) ==> !remap && walk(
                final(self).mem(),
                final(self).root(),
                virt,
            ) is Some,
            r == Err::<(), MapError>(MapError::Overlap) ==> walk(final(self).mem(), final(self).root(), virt)
                is Some,
            r is Ok ==> forall|w: u64| !same_page_4k(w, virt) ==> #[trigger] walk(final(self).mem(), final(self).root(), w)
                == walk(old(self).mem(), old(self).root(), w),
            r is Err ==> forall|w: u64| #[trigger] walk(final(self).mem(), final(self).root(), w) == walk(
                old(self).mem(),
                old(self).root(),
                w,
            ),
            spec_canonical(virt) == virt && virt & 0xFFF == 0 && phys & 0xFFF == 0 && reaches_pt(
                old(self).mem(),
                old(self).root(),
                virt,
                leaf_table(old(self).mem(), old(self).root(), virt),
            ) && (remap || !pte_present(entry(old(self).mem(), leaf_table(old(self).mem(), old(self).root(), virt), idx1(virt))))
                ==> r is Ok,
            r == Err::<(), MapError>(MapError::NoFrame) ==> !reaches_pt(
                old(self).mem(),
                old(self).root(),
                virt,
                leaf_table(old(self).mem(), old(self).root(), virt),
            ),
            forall|w: u64, pt: u64| #[trigger] reaches_pt(old(self).mem(), old(self).root(), w, pt) ==> reaches_pt(
                final(self).mem(),
                final(self).root(),
                w,
                pt,
            ),
            ready_4k(old(self).mem(), old(self).root(), virt) ==> forall|w: u64|
                !same_page_4k(w, virt) && #[trigger] ready_4k(old(self).mem(), old(self).root(), w) ==> ready_4k(
                    final(self).mem(),
                    final(self).root(),
                    w,
                ),
            ready_4k(old(self).mem(), old(self).root(), virt) ==> forall|w: u64|
                #[trigger] ready_2m(old(self).mem(), old(self).root(), w) ==> ready_2m(
                    final(self).mem(),
                    final(self).root(),
                    w,
                ),
            forall|w: u64| !same_page_2m(w, virt) ==> #[trigger] pd_entry(final(self).mem(), final(self).root(), w)
                == pd_entry(old(self).mem(), old(self).root(), w),
    {
        if !is_canonical(virt) {
            return Err(MapError::NonCanonical);
        }
        if page_offset(virt) != 0 || page_offset(phys) != 0 {
            return Err(MapError::Misaligned);
        }
        let c = self.walk_to_pt(virt, alloc)?;
        let i = pt_index(virt);
        proof {
            self.lemma_entry(c as int, i as int);
        }
        let existing = self.tables[c][i];
        if existing & PTE_PRESENT != 0 && !remap {
            return Err(MapError::AlreadyMapped);
        }
        let val = (phys & PTE_ADDR_MASK) | (flags & !PTE_HUGE) | PTE_PRESENT;
        let ghost s3 = *self;
        self.set_entry(c, i, val);
        proof {
            lemma_entry_bits(0, phys, flags, 0, 0);
            lemma_idx_bound(virt);
            s3.lemma_root();
            let m3 = s3.mem();
            let root = s3.root();
            let e1 = entry(m3, root, idx4(virt));
            let a1 = pte_addr(e1);
            let e2 = entry(m3, a1, idx3(virt));
            let a2 = pte_addr(e2);
            lemma_index_of(s3.frames@, 0);
            s3.lemma_entry(0, idx4(virt));
            s3.lemma_child(0, idx4(virt));
            let q1 = s3.frames@.index_of(a1);
            lemma_index_of(s3.frames@, q1);
            s3.lemma_entry(q1, idx3(virt));
            s3.lemma_child(q1, idx3(virt));
            let q2 = s3.frames@.index_of(a2);
            lemma_index_of(s3.frames@, q2);
            s3.lemma_entry(q2, idx2(virt));
            lemma_index_of(s3.frames@, c as int);
            assert(s3.level(s3.frames@[c as int]) == 1);
            assert(self.mem()[root] == m3[root]);
            assert(self.mem()[a1] == m3[a1]);
            assert(self.mem()[a2] == m3[a2]);
            self.lemma_entry(c as int, i as int);
            let t = s3.frames@[c as int];
            assert forall|w: u64| !same_page_4k(w, virt) implies #[trigger] walk(self.mem(), root, w) == walk(
                m3,
                root,
                w,
            ) by {
                if walk_reads(m3, root, w, t, i as int) {
                    s3.lemma_reads_pt(virt, w, t);
                }
                lemma_walk_frame(m3, self.mem(), root, t, i as int, w);
            }
            assert forall|w: u64, pt: u64| #[trigger] reaches_pt(old(self).mem(), old(self).root(), w, pt) implies reaches_pt(
                self.mem(),
                self.root(),
                w,
                pt,
            ) by {
                let m0 = old(self).mem();
                let f1 = entry(m0, root, idx4(w));
                let f2 = entry(m0, pte_addr(f1), idx3(w));
                let f3 = entry(m0, pte_addr(f2), idx2(w));
                assert(entry(m3, root, idx4(w)) == f1);
                assert(entry(m3, pte_addr(f1), idx3(w)) == f2);
                assert(entry(m3, pte_addr(f2), idx2(w)) == f3);
                s3.lemma_walk_levels(w);
                assert(t != root);
                assert(t != pte_addr(f1));
                assert(t != pte_addr(f2));
            }
            assert forall|w: u64| !same_page_2m(w, virt) implies #[trigger] pd_entry(self.mem(), root, w) == pd_entry(
                old(self).mem(),
                old(self).root(),
                w,
            ) by {
                s3.lemma_walk_levels(w);
                lemma_pd_frame(m3, self.mem(), root, t, i as int, w);
            }
            if ready_4k(old(self).mem(), old(self).root(), virt) {
                assert(reaches_pt(old(self).mem(), old(self).root(), virt, leaf_table(old(self).mem(), old(self).root(), virt)));
                assert(s3 == *old(self));
                assert forall|w: u64|
                    !same_page_4k(w, virt) && #[trigger] ready_4k(m3, root, w) implies ready_4k(self.mem(), root, w) by {
                    if walk_reads(m3, root, w, t, i as int) {
                        s3.lemma_reads_pt(virt, w, t);
                    }
                    lemma_ready_frame(m3, self.mem(), root, t, i as int, w);
                }
                assert forall|w: u64| #[trigger] ready_2m(m3, root, w) implies ready_2m(self.mem(), root, w) by {
                    if walk_reads(m3, root, w, t, i as int) {
                        s3.lemma_reads_pt(virt, w, t);
                    }
                    lemma_ready_frame(m3, self.mem(), root, t, i as int, w);
                }
            }
        }
        Ok(())
    }
}


impl PageTables {
    /// Map a single 2 MiB page `virt -> phys`: a huge leaf in the PD. An
    /// entry already present is replaced only with `remap`, and only if it
    /// is itself a huge leaf (a PT below it is never dropped).
    pub fn map_2m<A: FrameAllocator>(
        &mut self,
        virt: u64,
        phys: u64,
        flags: u64,
        remap: bool,
        alloc: &mut A,
    ) -> (r: Result<(), MapError>)
        requires
            old(self).wf(),
        ensures
            final(self).wf(),
            keeps_tables(*old(self), *final(self)),
            (spec_canonical(virt) != virt) <==> r == Err::<(), MapError>(MapError::NonCanonical),
            (spec_canonical(virt) == virt && (virt & 0x1F_FFFF != 0 || phys & 0x1F_FFFF != 0)) <==> r == Err::<
                (),
                MapError,
            >(MapError::Misaligned),
            r == Err::<(), MapError>(MapError::NonCanonical) || r == Err::<(), MapError>(MapError::Misaligned)
                ==> *final(self) == *old(self),
            r is Ok ==> walk(final(self).mem(), final(self).root(), virt) == Some(((phys | flags) & PTE_ADDR_MASK)
                | (virt & 0x1F_FFFF)),
            r == Err::<(), MapError>(MapError::AlreadyMapped) ==> !remap,
            r is Ok ==> forall|w: u64| !same_page_2m(w, virt) ==> #[trigger] walk(final(self).mem(), final(self).root(), w)
                == walk(old(self).mem(), old(self).root(), w),
            spec_canonical(virt) == virt && virt & 0x1F_FFFF == 0 && phys & 0x1F_FFFF == 0 && reaches_pd(
                old(self).mem(),
                old(self).root(),
                virt,
                pd_of(old(self).mem(), old(self).root(), virt),
            ) && (!pte_present(entry(old(self).mem(), pd_of(old(self).mem(), old(self).root(), virt), idx2(virt))) || (
            remap && pte_huge(entry(old(self).mem(), pd_of(old(self).mem(), old(self).root(), virt), idx2(virt)))))
                ==> r is Ok,
            r == Err::<(), MapError>(MapError::NoFrame) ==> !reaches_pd(
                old(self).mem(),
                old(self).root(),
                virt,
                pd_of(old(self).mem(), old(self).root(), virt),
            ),
            forall|w: u64, pd: u64| #[trigger] reaches_pd(old(self).mem(), old(self).root(), w, pd) ==> reaches_pd(
                final(self).mem(),
                final(self).root(),
                w,
                pd,
            ),
            forall|w: u64, pt: u64| #[trigger] reaches_pt(old(self).mem(), old(self).root(), w, pt) ==> reaches_pt(
                final(self).mem(),
                final(self).root(),
                w,
                pt,
            ),
            r is Err ==> forall|w: u64| #[trigger] walk(final(self).mem(), final(self).root(), w) == walk(
                old(self).mem(),
                old(self).root(),
                w,
            ),
            ready_2m(old(self).mem(), old(self).root(), virt) ==> forall|w: u64|
                !same_page_2m(w, virt) && #[trigger] ready_2m(old(self).mem(), old(self).root(), w) ==> ready_2m(
                    final(self).mem(),
                    final(self).root(),
                    w,
                ),
            forall|w: u64| !same_page_2m(w, virt) ==> #[trigger] pd_entry(final(self).mem(), final(self).root(), w)
                == pd_entry(old(self).mem(), old(self).root(), w),
            r == Err::<(), MapError>(MapError::AlreadyMapped) ==> pte_present(
                pd_entry(old(self).mem(), old(self).root(), virt),
            ),
            r == Err::<(), MapError>(MapError::Overlap) ==> remap || walk(old(self).mem(), old(self).root(), virt) is Some,
    {
        if !is_canonical(virt) {
            return Err(MapError::NonCanonical);
        }
        if page_offset_2m(virt) != 0 || page_offset_2m(phys) != 0 {
            return Err(MapError::Misaligned);
        }
        let c = self.walk_to_pd(virt, alloc)?;
        let i = pd_index(virt);
        proof {
            self.lemma_entry(c as int, i as int);
        }
        let existing = self.tables[c][i];
        proof {
            lemma_idx_bound(virt);
            assert(pd_entry(self.mem(), self.root(), virt) == existing);
        }
        if existing & PTE_PRESENT != 0 {
            if !remap {
                return Err(MapError::AlreadyMapped);
            }
            if existing & PTE_HUGE == 0 {
                return Err(MapError::Overlap);
            }
        }
        let val = (phys & PTE_ADDR_MASK) | (flags & !PTE_PRESENT) | PTE_PRESENT | PTE_HUGE;
        let ghost s3 = *self;
        proof {
            lemma_entry_bits(0, phys, flags, 0, 0);
        }
        self.set_entry(c, i, val);
        proof {
            lemma_idx_bound(virt);
            s3.lemma_root();
            let m3 = s3.mem();
            let root = s3.root();
            let e1 = entry(m3, root, idx4(virt));
            let a1 = pte_addr(e1);
            lemma_index_of(s3.frames@, 0);
            s3.lemma_entry(0, idx4(virt));
            s3.lemma_child(0, idx4(virt));
            let q1 = s3.frames@.index_of(a1);
            lemma_index_of(s3.frames@, q1);
            s3.lemma_entry(q1, idx3(virt));
            lemma_index_of(s3.frames@, c as int);
            assert(s3.level(s3.frames@[c as int]) == 2);
            assert(self.mem()[root] == m3[root]);
            assert(self.mem()[a1] == m3[a1]);
            self.lemma_entry(c as int, i as int);
            let t = s3.frames@[c as int];
            assert forall|w: u64| !same_page_2m(w, virt) implies #[trigger] walk(self.mem(), root, w) == walk(
                m3,
                root,
                w,
            ) by {
                if walk_reads(m3, root, w, t, i as int) {
                    s3.lemma_reads_pd(virt, w, t);
                }
                lemma_walk_frame(m3, self.mem(), root, t, i as int, w);
            }
            assert forall|w: u64| !same_page_2m(w, virt) implies #[trigger] pd_entry(self.mem(), root, w) == pd_entry(
                old(self).mem(),
                old(self).root(),
                w,
            ) by {
                s3.lemma_walk_levels(w);
                if pd_reads(m3, root, w, t, i as int) {
                    s3.lemma_reads_pd(virt, w, t);
                }
                lemma_pd_frame(m3, self.mem(), root, t, i as int, w);
            }
            if ready_2m(old(self).mem(), old(self).root(), virt) {
                assert(reaches_pd(old(self).mem(), old(self).root(), virt, pd_of(old(self).mem(), old(self).root(), virt)));
                assert(s3 == *old(self));
                assert forall|w: u64|
                    !same_page_2m(w, virt) && #[trigger] ready_2m(m3, root, w) implies ready_2m(self.mem(), root, w) by {
                    if walk_reads(m3, root, w, t, i as int) {
                        s3.lemma_reads_pd(virt, w, t);
                    }
                    lemma_ready_frame(m3, self.mem(), root, t, i as int, w);
                }
            }
        }
        Ok(())
    }

    /// Read-only walk to the PT (no allocation): `None` if any
    /// intermediate entry is missing or is a huge leaf.
    fn find_pt(&self, virt: u64) -> (r: Option<usize>)
        requires
            self.wf(),
        ensures
            r matches Some(c) ==> c < self.frames@.len() && self.levels@[c as int] == 1 && reaches_pt(
                self.mem(),
                self.root(),
                virt,
                self.frames@[c as int],
            ),
            r is None ==> forall|t: u64| !#[trigger] reaches_pt(self.mem(), self.root(), virt, t),
    {
        proof {
            lemma_idx_bound(virt);
            self.lemma_root();
            lemma_index_of(self.frames@, 0);
        }
        let e = self.entry(self.pml4_phys, pml4_index(virt));
        if e & PTE_PRESENT == 0 {
            return None;
        }
        let c1 = match self.find(e & PTE_ADDR_MASK) {
            Some(c1) => c1,
            None => {
                return None;
            },
        };
        let e = self.entry(e & PTE_ADDR_MASK, pdpt_index(virt));
        if e & PTE_PRESENT == 0 || e & PTE_HUGE != 0 {
            return None;
        }
        let c2 = match self.find(e & PTE_ADDR_MASK) {
            Some(c2) => c2,
            None => {
                return None;
            },
        };
        let e = self.entry(e & PTE_ADDR_MASK, pd_index(virt));
        if e & PTE_PRESENT == 0 || e & PTE_HUGE != 0 {
            return None;
        }
        match self.find(e & PTE_ADDR_MASK) {
            Some(c3) => {
                proof {
                    self.lemma_entry(0, idx4(virt));
                    self.lemma_child(0, idx4(virt));
                    self.lemma_entry(c1 as int, idx3(virt));
                    self.lemma_child(c1 as int, idx3(virt));
                    self.lemma_entry(c2 as int, idx2(virt));
                    self.lemma_child(c2 as int, idx2(virt));
                    lemma_index_of(self.frames@, c3 as int);
                }
                Some(c3)
            },
            None => None,
        }
    }

    /// Clear the 4 KiB entry covering `virt`. Returns the physical frame
    /// that was mapped, if any. Does not free intermediate tables.
    pub fn unmap_page(&mut self, virt: u64) -> (r: Option<u64>)
        requires
            old(self).wf(),
        ensures
            final(self).wf(),
            keeps_tables(*old(self), *final(self)),
            r is None ==> *final(self) == *old(self),
            r matches Some(p) ==> spec_canonical(virt) == virt && walk(old(self).mem(), old(self).root(), virt)
                == Some(p | (virt & 0xFFF)) && p & 0xFFF == 0 && walk(final(self).mem(), final(self).root(), virt)
                is None,
            r is Some ==> forall|w: u64| #[trigger] walk(final(self).mem(), final(self).root(), w) == if same_page_4k(
                w,
                virt,
            ) {
                None
            } else {
                walk(old(self).mem(), old(self).root(), w)
            },
            r is None && spec_canonical(virt) == virt ==> forall|t: u64| #[trigger] reaches_pt(
                old(self).mem(),
                old(self).root(),
                virt,
                t,
            ) ==> !pte_present(entry(old(self).mem(), t, idx1(virt))),
    {
        if !is_canonical(virt) {
            return None;
        }
        let c = match self.find_pt(virt) {
            Some(c) => c,
            None => {
                return None;
            },
        };
        let i = pt_index(virt);
        proof {
            self.lemma_entry(c as int, i as int);
        }
        let e = self.tables[c][i];
        if e & PTE_PRESENT == 0 {
            return None;
        }
        let ghost s3 = *self;
        proof {
            lemma_const_bits();
        }
        self.set_entry(c, i, 0);
        proof {
            lemma_idx_bound(virt);
            s3.lemma_root();
            let m3 = s3.mem();
            let root = s3.root();
            let e1 = entry(m3, root, idx4(virt));
            let a1 = pte_addr(e1);
            let e2 = entry(m3, a1, idx3(virt));
            let a2 = pte_addr(e2);
            lemma_index_of(s3.frames@, 0);
            s3.lemma_entry(0, idx4(virt));
            s3.lemma_child(0, idx4(virt));
            let q1 = s3.frames@.index_of(a1);
            lemma_index_of(s3.frames@, q1);
            s3.lemma_entry(q1, idx3(virt));
            s3.lemma_child(q1, idx3(virt));
            let q2 = s3.frames@.index_of(a2);
            lemma_index_of(s3.frames@, q2);
            s3.lemma_entry(q2, idx2(virt));
            lemma_index_of(s3.frames@, c as int);
            assert(self.mem()[root] == m3[root]);
            assert(self.mem()[a1] == m3[a1]);
            assert(self.mem()[a2] == m3[a2]);
            self.lemma_entry(c as int, i as int);
            lemma_entry_bits(0, 0, 0, 0, e);
            let t = s3.frames@[c as int];
            let m4 = self.mem();
            assert forall|w: u64| #[trigger] walk(m4, root, w) == if same_page_4k(w, virt) {
                None
            } else {
                walk(m3, root, w)
            } by {
                if same_page_4k(w, virt) {
                    assert(entry(m4, root, idx4(w)) == entry(m4, root, idx4(virt)));
                } else {
                    if walk_reads(m3, root, w, t, i as int) {
                        s3.lemma_reads_pt(virt, w, t);
                    }
                    lemma_walk_frame(m3, m4, root, t, i as int, w);
                }
            }
        }
        Some(e & PTE_ADDR_MASK)
    }
}


impl PageTables {
    /// Map `len` bytes starting at `virt -> phys` using 4 KiB pages. `len`
    /// is rounded up to a multiple of `PAGE_SIZE`. Stops at the first page
    /// that fails, with its error.
    #[verifier::rlimit(60)]
    pub fn map_range_4k<A: FrameAllocator>(
        &mut self,
        virt: u64,
        phys: u64,
        len: u64,
        flags: u64,
        remap: bool,
        alloc: &mut A,
    ) -> (r: Result<(), MapError>)
        requires
            old(self).wf(),
            virt + len <= 0x1_0000_0000_0000_0000,
            phys + len <= 0x1_0000_0000_0000_0000,
            len + 4095 <= u64::MAX,
        ensures
            final(self).wf(),
            keeps_tables(*old(self), *final(self)),
            len == 0 ==> r is Ok && *final(self) == *old(self),
            r is Ok ==> forall|off: u64|
                off < len && off & 0xFFF == 0 ==> #[trigger] spec_translate(
                    final(self).mem(),
                    final(self).root(),
                    (virt + off) as u64,
                ) == Some((((phys + off) as u64) | flags) & PTE_ADDR_MASK),
            forall|w: u64|
                !(virt <= w < virt + (((len + 0xFFF) as u64) & !0xFFFu64)) ==> #[trigger] spec_translate(
                    final(self).mem(),
                    final(self).root(),
                    w,
                ) == spec_translate(old(self).mem(), old(self).root(), w),
            forall|w: u64, pt: u64| #[trigger] reaches_pt(old(self).mem(), old(self).root(), w, pt) ==> reaches_pt(
                final(self).mem(),
                final(self).root(),
                w,
                pt,
            ),
            r == Err::<(), MapError>(MapError::NoFrame) ==> exists|o: u64|
                o < (((len + 0xFFF) as u64) & !0xFFFu64) && o & 0xFFF == 0 && !#[trigger] reaches_pt(
                    old(self).mem(),
                    old(self).root(),
                    (virt + o) as u64,
                    leaf_table(old(self).mem(), old(self).root(), (virt + o) as u64),
                ),
            virt & 0xFFF == 0 && phys & 0xFFF == 0 && range_ready_4k(
                old(self).mem(),
                old(self).root(),
                virt,
                (((len + 0xFFF) as u64) & !0xFFFu64) as int,
            ) ==> r is Ok,
            virt & 0xFFF == 0 && range_ready_4k(
                old(self).mem(),
                old(self).root(),
                virt,
                (((len + 0xFFF) as u64) & !0xFFFu64) as int,
            ) ==> forall|w: u64|
                spec_canonical(w) == w && !(virt <= w < virt + (((len + 0xFFF) as u64) & !0xFFFu64))
                    && #[trigger] ready_4k(old(self).mem(), old(self).root(), w) ==> ready_4k(
                    final(self).mem(),
                    final(self).root(),
                    w,
                ),
            virt & 0xFFF == 0 && range_ready_4k(
                old(self).mem(),
                old(self).root(),
                virt,
                (((len + 0xFFF) as u64) & !0xFFFu64) as int,
            ) ==> forall|w: u64|
                #[trigger] ready_2m(old(self).mem(), old(self).root(), w) ==> ready_2m(
                    final(self).mem(),
                    final(self).root(),
                    w,
                ),
            r == Err::<(), MapError>(MapError::AlreadyMapped) || r == Err::<(), MapError>(MapError::Overlap) ==> exists|o: u64|
                o < (((len + 0xFFF) as u64) & !0xFFFu64) && o & 0xFFF == 0 && #[trigger] spec_translate(
                    old(self).mem(),
                    old(self).root(),
                    (virt + o) as u64,
                ) is Some,
            pd_changes_within(
                old(self).mem(),
                old(self).root(),
                final(self).mem(),
                final(self).root(),
                virt,
                (((len + 0xFFF) as u64) & !0xFFFu64) as int,
                0xFFF,
            ),
    {
        proof {
            lemma_const_bits();
        }
        let end = align_up(len, PAGE_SIZE);
        let ghost ready = virt & 0xFFF == 0 && range_ready_4k(old(self).mem(), old(self).root(), virt, end as int);
        proof {
            if ready {
                lemma_idx_bits(virt);
                lemma_idx_bits(end);
                assert(virt + end <= 0x1_0000_0000_0000_0000);
            }
        }
        let mut off = 0u64;
        proof {
            if len == 0 && end != 0 {
                lemma_below_rounded(0, end, len);
            }
        }
        while off < end
            invariant
                self.wf(),
                off == 0 ==> *self == *old(self),
                off <= end,
                keeps_tables(*old(self), *self),
                off & 0xFFF == 0,
                end & 0xFFF == 0,
                end < len + 4096,
                len <= end,
                virt + len <= 0x1_0000_0000_0000_0000,
                phys + len <= 0x1_0000_0000_0000_0000,
                end == ((len + 0xFFF) as u64) & !0xFFFu64,
                forall|o: u64|
                    o < off && o & 0xFFF == 0 ==> #[trigger] spec_translate(self.mem(), self.root(), (virt + o) as u64)
                        == Some((((phys + o) as u64) | flags) & PTE_ADDR_MASK),
                forall|w: u64|
                    !(virt <= w < virt + off) ==> #[trigger] spec_translate(self.mem(), self.root(), w)
                        == spec_translate(old(self).mem(), old(self).root(), w),
                forall|w: u64, pt: u64| #[trigger] reaches_pt(old(self).mem(), old(self).root(), w, pt) ==> reaches_pt(
                    self.mem(),
                    self.root(),
                    w,
                    pt,
                ),
                ready == (virt & 0xFFF == 0 && range_ready_4k(old(self).mem(), old(self).root(), virt, end as int)),
                ready ==> virt + end <= 0x1_0000_0000_0000_0000,
                ready ==> forall|o: u64|
                    off <= o < end && o & 0xFFF == 0 ==> #[trigger] ready_4k(self.mem(), self.root(), (virt + o) as u64),
                ready ==> forall|w: u64|
                    spec_canonical(w) == w && !(virt <= w < virt + off) && #[trigger] ready_4k(
                        old(self).mem(),
                        old(self).root(),
                        w,
                    ) ==> ready_4k(self.mem(), self.root(), w),
                ready ==> forall|w: u64| #[trigger] ready_2m(old(self).mem(), old(self).root(), w) ==> ready_2m(
                    self.mem(),
                    self.root(),
                    w,
                ),
                pd_changes_within(old(self).mem(), old(self).root(), self.mem(), self.root(), virt, off as int, 0xFFF),
            decreases end - off,
        {
            proof {
                lemma_below_rounded(off, end, len);
            }
            let a = virt + off;
            let ghost s0 = *self;
            proof {
                if ready && phys & 0xFFF == 0 {
                    lemma_range_4k_page(*old(self), s0, virt, phys, off, end);
                }
            }
            match self.map_page(a, phys + off, flags, remap, alloc) {
                Ok(()) => {},
                Err(e) => {
                    proof {
                        assert(!(ready && phys & 0xFFF == 0));
                        lemma_pd_changes_step(*old(self), s0, *self, virt, off, 0xFFF, end as int);
                        if e == MapError::AlreadyMapped || e == MapError::Overlap {
                            assert(spec_translate(s0.mem(), s0.root(), (virt + off) as u64) is Some);
                            assert(spec_translate(old(self).mem(), old(self).root(), (virt + off) as u64) is Some);
                        }
                        if e == MapError::NoFrame {
                            let pt0 = leaf_table(old(self).mem(), old(self).root(), a);
                            if reaches_pt(old(self).mem(), old(self).root(), a, pt0) {
                                assert(reaches_pt(s0.mem(), s0.root(), a, pt0));
                                assert(leaf_table(s0.mem(), s0.root(), a) == pt0);
                            }
                            assert(!reaches_pt(old(self).mem(), old(self).root(), (virt + off) as u64, leaf_table(
                                old(self).mem(),
                                old(self).root(),
                                (virt + off) as u64,
                            )));
                        }
                        assert forall|w: u64|
                            !(virt <= w < virt + end) implies #[trigger] spec_translate(self.mem(), self.root(), w)
                            == spec_translate(old(self).mem(), old(self).root(), w) by {
                            assert(walk(self.mem(), self.root(), w) == walk(s0.mem(), s0.root(), w));
                            assert(spec_translate(s0.mem(), s0.root(), w) == spec_translate(
                                old(self).mem(),
                                old(self).root(),
                                w,
                            ));
                        }
                    }
                    return Err(e);
                },
            }
            proof {
                lemma_aligned_step(off, end, 0xFFF);
                let m1 = self.mem();
                let root = self.root();
                let val = (((phys + off) as u64) | flags) & PTE_ADDR_MASK;
                lemma_entry_bits(0, 0, 0, 0, val);
                lemma_idx_bound(a);
                assert(spec_translate(m1, root, a) == Some(val));
                assert forall|o: u64|
                    o < off + 4096 && o & 0xFFF == 0 implies #[trigger] spec_translate(m1, root, (virt + o) as u64)
                    == Some((((phys + o) as u64) | flags) & PTE_ADDR_MASK) by {
                    if o < off {
                        let b = (virt + o) as u64;
                        assert(spec_translate(s0.mem(), s0.root(), b) == Some((((phys + o) as u64) | flags)
                            & PTE_ADDR_MASK));
                        if same_page_4k(b, a) {
                            lemma_idx_bound(b);
                            lemma_page_bits(a, b);
                        }
                        assert(walk(m1, root, b) == walk(s0.mem(), s0.root(), b));
                    } else {
                        lemma_aligned_between(off, o, 0xFFF);
                    }
                }
                assert forall|w: u64|
                    !(virt <= w < virt + off + 4096) implies #[trigger] spec_translate(m1, root, w)
                    == spec_translate(old(self).mem(), old(self).root(), w) by {
                    assert(spec_translate(s0.mem(), s0.root(), w) == spec_translate(
                        old(self).mem(),
                        old(self).root(),
                        w,
                    ));
                    if spec_canonical(w) == w && same_page_4k(w, a) {
                        lemma_idx_bound(w);
                        lemma_page_bits(a, w);
                    }
                    if !same_page_4k(w, a) {
                        assert(walk(m1, root, w) == walk(s0.mem(), s0.root(), w));
                    }
                }
                if ready {
                    lemma_range_4k_step(*old(self), s0, *self, virt, off, end);
                }
                lemma_pd_changes_step(*old(self), s0, *self, virt, off, 0xFFF, (off + 4096) as int);
            }
            off += PAGE_SIZE;
        }
        Ok(())
    }

    /// Map `len` bytes with 2 MiB pages. `virt`, `phys` and `len` must be
    /// 2 MiB aligned; a partial trailing page is refused as misaligned.
    pub fn map_range_2m<A: FrameAllocator>(
        &mut self,
        virt: u64,
        phys: u64,
        len: u64,
        flags: u64,
        remap: bool,
        alloc: &mut A,
    ) -> (r: Result<(), MapError>)
        requires
            old(self).wf(),
            virt + len <= 0x1_0000_0000_0000_0000,
            phys + len <= 0x1_0000_0000_0000_0000,
        ensures
            final(self).wf(),
            keeps_tables(*old(self), *final(self)),
            len & 0x1F_FFFF != 0 ==> r == Err::<(), MapError>(MapError::Misaligned) && *final(self) == *old(self),
            len == 0 ==> r is Ok && *final(self) == *old(self),
            r is Ok ==> forall|off: u64|
                off < len && off & 0x1F_FFFF == 0 ==> #[trigger] spec_translate(
                    final(self).mem(),
                    final(self).root(),
                    (virt + off) as u64,
                ) == Some((((phys + off) as u64) | flags) & PTE_ADDR_MASK),
            forall|w: u64|
                !(virt <= w < virt + len) ==> #[trigger] spec_translate(final(self).mem(), final(self).root(), w)
                    == spec_translate(old(self).mem(), old(self).root(), w),
            forall|w: u64, pt: u64| #[trigger] reaches_pt(old(self).mem(), old(self).root(), w, pt) ==> reaches_pt(
                final(self).mem(),
                final(self).root(),
                w,
                pt,
            ),
            r == Err::<(), MapError>(MapError::NoFrame) ==> exists|o: u64|
                o < len && o & 0x1F_FFFF == 0 && !#[trigger] reaches_pd(
                    old(self).mem(),
                    old(self).root(),
                    (virt + o) as u64,
                    pd_of(old(self).mem(), old(self).root(), (virt + o) as u64),
                ),
            virt & 0x1F_FFFF == 0 && phys & 0x1F_FFFF == 0 && len & 0x1F_FFFF == 0 && range_ready_2m(
                old(self).mem(),
                old(self).root(),
                virt,
                len as int,
            ) ==> r is Ok,
            virt & 0x1F_FFFF == 0 && range_ready_2m(old(self).mem(), old(self).root(), virt, len as int) ==> forall|w: u64|
                spec_canonical(w) == w && !(virt <= w < virt + len) && #[trigger] ready_2m(
                    old(self).mem(),
                    old(self).root(),
                    w,
                ) ==> ready_2m(final(self).mem(), final(self).root(), w),
            (r == Err::<(), MapError>(MapError::AlreadyMapped) || r == Err::<(), MapError>(MapError::Overlap)) && !remap
                ==> exists|o: u64|
                o < len && o & 0x1F_FFFF == 0 && (#[trigger] spec_translate(
                    old(self).mem(),
                    old(self).root(),
                    (virt + o) as u64,
                ) is Some || pte_present(pd_entry(old(self).mem(), old(self).root(), (virt + o) as u64))),
            pd_changes_within(
                old(self).mem(),
                old(self).root(),
                final(self).mem(),
                final(self).root(),
                virt,
                len as int,
                0x1F_FFFF,
            ),
    {
        if page_offset_2m(len) != 0 {
            return Err(MapError::Misaligned);
        }
        let ghost ready = virt & 0x1F_FFFF == 0 && range_ready_2m(old(self).mem(), old(self).root(), virt, len as int);
        let mut off = 0u64;
        proof {
            lemma_const_bits();
        }
        while off < len
            invariant
                self.wf(),
                off == 0 ==> *self == *old(self),
                off <= len,
                keeps_tables(*old(self), *self),
                off & 0x1F_FFFF == 0,
                len & 0x1F_FFFF == 0,
                virt + len <= 0x1_0000_0000_0000_0000,
                phys + len <= 0x1_0000_0000_0000_0000,
                ready == (virt & 0x1F_FFFF == 0 && range_ready_2m(old(self).mem(), old(self).root(), virt, len as int)),
                ready ==> forall|o: u64|
                    off <= o < len && o & 0x1F_FFFF == 0 ==> #[trigger] ready_2m(self.mem(), self.root(), (virt + o) as u64),
                ready ==> forall|w: u64|
                    spec_canonical(w) == w && !(virt <= w < virt + off) && #[trigger] ready_2m(
                        old(self).mem(),
                        old(self).root(),
                        w,
                    ) ==> ready_2m(self.mem(), self.root(), w),
                pd_changes_within(old(self).mem(), old(self).root(), self.mem(), self.root(), virt, off as int, 0x1F_FFFF),
                forall|o: u64|
                    o < off && o & 0x1F_FFFF == 0 ==> #[trigger] spec_translate(
                        self.mem(),
                        self.root(),
                        (virt + o) as u64,
                    ) == Some((((phys + o) as u64) | flags) & PTE_ADDR_MASK),
                forall|w: u64|
                    !(virt <= w < virt + off) ==> #[trigger] spec_translate(self.mem(), self.root(), w)
                        == spec_translate(old(self).mem(), old(self).root(), w),
                forall|w: u64, pd: u64| #[trigger] reaches_pd(old(self).mem(), old(self).root(), w, pd) ==> reaches_pd(
                    self.mem(),
                    self.root(),
                    w,
                    pd,
                ),
                forall|w: u64, pt: u64| #[trigger] reaches_pt(old(self).mem(), old(self).root(), w, pt) ==> reaches_pt(
                    self.mem(),
                    self.root(),
                    w,
                    pt,
                ),
            decreases len - off,
        {
            let a = virt + off;
            let ghost s0 = *self;
            proof {
                if ready && phys & 0x1F_FFFF == 0 {
                    lemma_range_2m_page(*old(self), s0, virt, phys, off, len);
                }
            }
            match self.map_2m(a, phys + off, flags, remap, alloc) {
                Ok(()) => {},
                Err(e) => {
                    proof {
                        assert(!(ready && phys & 0x1F_FFFF == 0));
                        lemma_pd_changes_step(*old(self), s0, *self, virt, off, 0x1F_FFFF, len as int);
                        if e == MapError::AlreadyMapped && !remap {
                            lemma_pd_unchanged_next(*old(self), s0, virt, off);
                            assert(pte_present(pd_entry(old(self).mem(), old(self).root(), (virt + off) as u64)));
                            assert(spec_translate(old(self).mem(), old(self).root(), (virt + off) as u64) is Some
                                || pte_present(pd_entry(old(self).mem(), old(self).root(), (virt + off) as u64)));
                        }
                        if e == MapError::Overlap && !remap {
                            assert(spec_translate(s0.mem(), s0.root(), (virt + off) as u64) is Some);
                            assert(spec_translate(old(self).mem(), old(self).root(), (virt + off) as u64) is Some);
                        }
                        if e == MapError::NoFrame {
                            let pd0 = pd_of(old(self).mem(), old(self).root(), a);
                            if reaches_pd(old(self).mem(), old(self).root(), a, pd0) {
                                assert(reaches_pd(s0.mem(), s0.root(), a, pd0));
                                assert(pd_of(s0.mem(), s0.root(), a) == pd0);
                            }
                            assert(!reaches_pd(old(self).mem(), old(self).root(), (virt + off) as u64, pd_of(
                                old(self).mem(),
                                old(self).root(),
                                (virt + off) as u64,
                            )));
                        }
                        assert forall|w: u64|
                            !(virt <= w < virt + len) implies #[trigger] spec_translate(self.mem(), self.root(), w)
                            == spec_translate(old(self).mem(), old(self).root(), w) by {
                            assert(walk(self.mem(), self.root(), w) == walk(s0.mem(), s0.root(), w));
                            assert(spec_translate(s0.mem(), s0.root(), w) == spec_translate(
                                old(self).mem(),
                                old(self).root(),
                                w,
                            ));
                        }
                    }
                    return Err(e);
                },
            }
            proof {
                lemma_aligned_step(off, len, 0x1F_FFFF);
                let m1 = self.mem();
                let root = self.root();
                let val = (((phys + off) as u64) | flags) & PTE_ADDR_MASK;
                lemma_entry_bits(0, 0, 0, 0, val);
                lemma_idx_bound(a);
                assert(spec_translate(m1, root, a) == Some(val));
                assert forall|o: u64|
                    o < off + 0x20_0000 && o & 0x1F_FFFF == 0 implies #[trigger] spec_translate(
                        m1,
                        root,
                        (virt + o) as u64,
                    ) == Some((((phys + o) as u64) | flags) & PTE_ADDR_MASK) by {
                    if o < off {
                        let b = (virt + o) as u64;
                        assert(spec_translate(s0.mem(), s0.root(), b) == Some((((phys + o) as u64) | flags)
                            & PTE_ADDR_MASK));
                        if same_page_2m(b, a) {
                            lemma_idx_bound(b);
                            lemma_page_bits(a, b);
                        }
                        assert(walk(m1, root, b) == walk(s0.mem(), s0.root(), b));
                    } else {
                        lemma_aligned_between(off, o, 0x1F_FFFF);
                    }
                }
                assert forall|w: u64|
                    !(virt <= w < virt + off + 0x20_0000) implies #[trigger] spec_translate(m1, root, w)
                    == spec_translate(old(self).mem(), old(self).root(), w) by {
                    assert(spec_translate(s0.mem(), s0.root(), w) == spec_translate(
                        old(self).mem(),
                        old(self).root(),
                        w,
                    ));
                    if spec_canonical(w) == w && same_page_2m(w, a) {
                        lemma_idx_bound(w);
                        lemma_page_bits(a, w);
                    }
                    if !same_page_2m(w, a) {
                        assert(walk(m1, root, w) == walk(s0.mem(), s0.root(), w));
                    }
                }
                if ready {
                    lemma_range_2m_step(*old(self), s0, *self, virt, off, len);
                }
                lemma_pd_changes_step(*old(self), s0, *self, virt, off, 0x1F_FFFF, (off + 0x20_0000) as int);
            }
            off += PAGE_SIZE_2M;
        }
        Ok(())
    }

    /// Set PCD+PWT on the 2 MiB entry that covers `virt`. Fails if the
    /// mapping is not a 2 MiB leaf.
    fn set_uc_2m(&mut self, virt: u64) -> (r: Result<(), MapError>)
        requires
            old(self).wf(),
        ensures
            final(self).wf(),
            keeps_tables(*old(self), *final(self)),
            r is Err ==> *final(self) == *old(self),
            r is Ok <==> pte_present(pd_entry(old(self).mem(), old(self).root(), virt)) && pte_huge(
                pd_entry(old(self).mem(), old(self).root(), virt),
            ),
            r is Ok ==> forall|w: u64| #[trigger] walk(final(self).mem(), final(self).root(), w) == walk(
                old(self).mem(),
                old(self).root(),
                w,
            ),
            r is Ok ==> pd_entry(final(self).mem(), final(self).root(), virt) == pd_entry(
                old(self).mem(),
                old(self).root(),
                virt,
            ) | PTE_UC,
            r is Ok ==> forall|w: u64| !same_page_2m(w, virt) ==> #[trigger] pd_entry(
                final(self).mem(),
                final(self).root(),
                w,
            ) == pd_entry(old(self).mem(), old(self).root(), w),
    {
        proof {
            lemma_idx_bound(virt);
            self.lemma_root();
            lemma_index_of(self.frames@, 0);
            lemma_const_bits();
        }
        let e = self.entry(self.pml4_phys, pml4_index(virt));
        if e & PTE_PRESENT == 0 {
            return Err(MapError::AlreadyMapped);
        }
        let c1 = match self.find(e & PTE_ADDR_MASK) {
            Some(c1) => c1,
            None => {
                return Err(MapError::AlreadyMapped);
            },
        };
        let e = self.entry(e & PTE_ADDR_MASK, pdpt_index(virt));
        if e & PTE_PRESENT == 0 || e & PTE_HUGE != 0 {
            return Err(MapError::Overlap);
        }
        let c2 = match self.find(e & PTE_ADDR_MASK) {
            Some(c2) => c2,
            None => {
                return Err(MapError::Overlap);
            },
        };
        let i = pd_index(virt);
        proof {
            self.lemma_entry(c2 as int, i as int);
        }
        let cur = self.tables[c2][i];
        if cur & PTE_PRESENT == 0 || cur & PTE_HUGE == 0 {
            return Err(MapError::Overlap);
        }
        let val = cur | PTE_UC;
        let ghost s3 = *self;
        proof {
            lemma_entry_bits(0, 0, 0, cur, 0);
            self.lemma_entry(0, idx4(virt));
            self.lemma_child(0, idx4(virt));
            self.lemma_entry(c1 as int, idx3(virt));
            self.lemma_child(c1 as int, idx3(virt));
            lemma_index_of(self.frames@, c2 as int);
            lemma_index_of(self.frames@, c1 as int);
        }
        self.set_entry(c2, i, val);
        proof {
            let m3 = s3.mem();
            let root = s3.root();
            let a1 = s3.frames@[c1 as int];
            assert(s3.level(a1) == 3);
            assert(s3.level(s3.frames@[c2 as int]) == 2);
            assert(self.mem()[root] == m3[root]);
            assert(self.mem()[a1] == m3[a1]);
            self.lemma_entry(c2 as int, i as int);
            let t = s3.frames@[c2 as int];
            let m4 = self.mem();
            assert forall|w: u64| #[trigger] walk(m4, root, w) == walk(m3, root, w) by {
                if walk_reads(m3, root, w, t, i as int) {
                    s3.lemma_reads_pd(virt, w, t);
                    lemma_entry_bits(0, 0, 0, cur, 0);
                } else {
                    lemma_walk_frame(m3, m4, root, t, i as int, w);
                }
            }
            assert forall|w: u64| !same_page_2m(w, virt) implies #[trigger] pd_entry(m4, root, w) == pd_entry(
                m3,
                root,
                w,
            ) by {
                if walk_reads(m3, root, w, t, i as int) {
                    s3.lemma_reads_pd(virt, w, t);
                }
                let e1 = entry(m3, root, idx4(w));
                let e2 = entry(m3, pte_addr(e1), idx3(w));
                assert(entry(m4, root, idx4(w)) == e1);
                if pte_present(e1) {
                    assert(entry(m4, pte_addr(e1), idx3(w)) == e2);
                    if pte_present(e2) && !pte_huge(e2) {
                        assert(entry(m4, pte_addr(e2), idx2(w)) == entry(m3, pte_addr(e2), idx2(w)));
                    }
                }
            }
        }
        Ok(())
    }

    /// Set PCD+PWT on the physmap PTEs that cover `[phys, phys+len)`.
    /// Preserves 2 MiB pages: an unaligned or short range still patches
    /// the whole 2 MiB entry it lands in. Returns the number of entries
    /// touched; stops at the first that is not a 2 MiB leaf.
    pub fn patch_physmap_uc(&mut self, physmap_base: u64, phys: u64, len: u64) -> (r: Result<usize, MapError>)
        requires
            old(self).wf(),
            phys + len + 0x1F_FFFF <= u64::MAX,
            len / 0x20_0000 + 2 <= usize::MAX,
        ensures
            final(self).wf(),
            keeps_tables(*old(self), *final(self)),
            len == 0 ==> r == Ok::<usize, MapError>(0usize) && *final(self) == *old(self),
            r matches Ok(n) ==> len > 0 ==> n == (((phys + len + 0x1F_FFFF) as u64 & !0x1F_FFFFu64) - (phys
                & !0x1F_FFFFu64)) / 0x20_0000,
            forall|w: u64| #[trigger] walk(final(self).mem(), final(self).root(), w) == walk(
                old(self).mem(),
                old(self).root(),
                w,
            ),
            r is Ok <==> len == 0 || forall|p: u64|
                (phys & !0x1F_FFFFu64) <= p < ((phys + len + 0x1F_FFFF) as u64 & !0x1F_FFFFu64) && p & 0x1F_FFFF
                    == 0 ==> #[trigger] is_2m_leaf(old(self).mem(), old(self).root(), physmap_base.wrapping_add(p)),
            r is Ok ==> len == 0 || forall|p: u64|
                (phys & !0x1F_FFFFu64) <= p < ((phys + len + 0x1F_FFFF) as u64 & !0x1F_FFFFu64) && p & 0x1F_FFFF
                    == 0 ==> #[trigger] pd_entry(final(self).mem(), final(self).root(), physmap_base.wrapping_add(p))
                    & PTE_UC == PTE_UC,
    {
        if len == 0 {
            return Ok(0);
        }
        proof {
            lemma_const_bits();
        }
        let start = align_down(phys, PAGE_SIZE_2M);
        let end = align_up(phys + len, PAGE_SIZE_2M);
        let mut n = 0usize;
        let mut p = start;
        proof {
            lemma_patch_bounds(phys, len, start, end);
        }
        while p < end
            invariant
                self.wf(),
                len > 0,
                keeps_tables(*old(self), *self),
                start <= p <= end,
                p & 0x1F_FFFF == 0,
                end & 0x1F_FFFF == 0,
                start & 0x1F_FFFF == 0,
                (end - start) % 0x20_0000 == 0,
                n * 0x20_0000 == p - start,
                (end - start) / 0x20_0000 <= len / 0x20_0000 + 2,
                len / 0x20_0000 + 2 <= usize::MAX,
                start == phys & !0x1F_FFFFu64,
                end == ((phys + len + 0x1F_FFFF) as u64) & !0x1F_FFFFu64,
                forall|w: u64| #[trigger] walk(self.mem(), self.root(), w) == walk(old(self).mem(), old(self).root(), w),
                forall|q: u64|
                    start <= q < p && q & 0x1F_FFFF == 0 ==> #[trigger] is_2m_leaf(
                        old(self).mem(),
                        old(self).root(),
                        physmap_base.wrapping_add(q),
                    ),
                forall|q: u64|
                    start <= q < p && q & 0x1F_FFFF == 0 ==> #[trigger] pd_entry(
                        self.mem(),
                        self.root(),
                        physmap_base.wrapping_add(q),
                    ) & PTE_UC == PTE_UC,
                forall|q: u64|
                    start <= q < end && q & 0x1F_FFFF == 0 ==> #[trigger] is_2m_leaf(
                        self.mem(),
                        self.root(),
                        physmap_base.wrapping_add(q),
                    ) == is_2m_leaf(old(self).mem(), old(self).root(), physmap_base.wrapping_add(q)),
            decreases end - p,
        {
            let virt = physmap_base.wrapping_add(p);
            let ghost s0 = *self;
            match self.set_uc_2m(virt) {
                Ok(()) => {},
                Err(e) => {
                    proof {
                        assert(!is_2m_leaf(s0.mem(), s0.root(), virt));
                        assert(!is_2m_leaf(old(self).mem(), old(self).root(), physmap_base.wrapping_add(p)));
                    }
                    return Err(e);
                },
            }
            proof {
                lemma_aligned_step(p, end, 0x1F_FFFF);
                assert(n + 1 <= (end - start) / 0x20_0000);
                let m0 = s0.mem();
                let m1 = self.mem();
                let root = self.root();
                assert(is_2m_leaf(s0.mem(), s0.root(), virt));
                assert(is_2m_leaf(old(self).mem(), old(self).root(), physmap_base.wrapping_add(p)));
                assert forall|q: u64|
                    start <= q < p + 0x20_0000 && q & 0x1F_FFFF == 0 implies #[trigger] is_2m_leaf(
                        old(self).mem(),
                        old(self).root(),
                        physmap_base.wrapping_add(q),
                    ) by {
                    if q >= p {
                        lemma_aligned_between(p, q, 0x1F_FFFF);
                    }
                }
                assert forall|q: u64|
                    start <= q < p + 0x20_0000 && q & 0x1F_FFFF == 0 implies #[trigger] pd_entry(
                        m1,
                        root,
                        physmap_base.wrapping_add(q),
                    ) & PTE_UC == PTE_UC by {
                    let wq = physmap_base.wrapping_add(q);
                    if same_page_2m(wq, virt) {
                        assert(pd_entry(m1, root, wq) == pd_entry(m1, root, virt));
                        lemma_entry_bits(0, 0, 0, pd_entry(m0, root, virt), 0);
                    } else {
                        if q >= p {
                            lemma_aligned_between(p, q, 0x1F_FFFF);
                        }
                        assert(pd_entry(m1, root, wq) == pd_entry(m0, root, wq));
                    }
                }
                assert forall|q: u64|
                    start <= q < end && q & 0x1F_FFFF == 0 implies #[trigger] is_2m_leaf(
                        m1,
                        root,
                        physmap_base.wrapping_add(q),
                    ) == is_2m_leaf(old(self).mem(), old(self).root(), physmap_base.wrapping_add(q)) by {
                    let wq = physmap_base.wrapping_add(q);
                    assert(is_2m_leaf(m0, root, wq) == is_2m_leaf(old(self).mem(), old(self).root(), wq));
                    if same_page_2m(wq, virt) {
                        assert(pd_entry(m1, root, wq) == pd_entry(m1, root, virt));
                        assert(pd_entry(m0, root, wq) == pd_entry(m0, root, virt));
                        let cur = pd_entry(m0, root, virt);
                        lemma_entry_bits(0, 0, 0, cur, 0);
                        assert(cur & PTE_PRESENT != 0 && cur & PTE_HUGE != 0);
                    } else {
                        assert(pd_entry(m1, root, wq) == pd_entry(m0, root, wq));
                    }
                }
            }
            n += 1;
            p += PAGE_SIZE_2M;
        }
        Ok(n)
    }
}


/// Mapping a 4 KiB page that was unmapped and unmapping it again gives
/// back every translation there was: the tables before the map, after it
/// (the page's neighbours untouched) and after the unmap (the page gone,
/// the rest untouched) walk every address alike at the two ends.
pub proof fn lemma_map_unmap_roundtrip(
    m0: Map<u64, Seq<u64>>,
    m1: Map<u64, Seq<u64>>,
    m2: Map<u64, Seq<u64>>,
    root: u64,
    virt: u64,
)
    requires
        walk(m0, root, virt) is None,
        forall|w: u64| !same_page_4k(w, virt) ==> #[trigger] walk(m1, root, w) == walk(m0, root, w),
        forall|w: u64| #[trigger] walk(m2, root, w) == if same_page_4k(w, virt) {
            None
        } else {
            walk(m1, root, w)
        },
    ensures
        forall|w: u64| #[trigger] walk(m2, root, w) == walk(m0, root, w),
{
    assert forall|w: u64| #[trigger] walk(m2, root, w) == walk(m0, root, w) by {
        if same_page_4k(w, virt) {
            assert(entry(m0, root, idx4(w)) == entry(m0, root, idx4(virt)));
        } else {
            assert(walk(m1, root, w) == walk(m0, root, w));
        }
    }
}

/// An address inside a 4 KiB page walks the same tables as the page's
/// start and lands at the same offset into what the start maps to.
pub proof fn lemma_walk_in_page(m: Map<u64, Seq<u64>>, root: u64, v: u64, k: u64)
    requires
        v & 0xFFF == 0,
        k < 4096,
    ensures
        walk(m, root, (v + k) as u64) == match walk(m, root, v) {
            Some(a) => Some(a | k),
            None => None,
        },
{
    let u = (v + k) as u64;
    let e1 = entry(m, root, idx4(v));
    let e2 = entry(m, pte_addr(e1), idx3(v));
    let e3 = entry(m, pte_addr(e2), idx2(v));
    let e4 = entry(m, pte_addr(e3), idx1(v));
    lemma_walk_bits(v, k, pte_addr(e2), pte_addr(e3), pte_addr(e4));
}

proof fn lemma_walk_bits(v: u64, k: u64, a2: u64, a3: u64, a4: u64)
    by (bit_vector)
    requires
        v & 0xFFF == 0,
        k < 4096,
    ensures
        v + k <= u64::MAX,
        ((v + k) as u64 >> 39u64) & 0x1FF == (v >> 39u64) & 0x1FF,
        ((v + k) as u64 >> 30u64) & 0x1FF == (v >> 30u64) & 0x1FF,
        ((v + k) as u64 >> 21u64) & 0x1FF == (v >> 21u64) & 0x1FF,
        ((v + k) as u64 >> 12u64) & 0x1FF == (v >> 12u64) & 0x1FF,
        (v + k) as u64 & 0x3FFF_FFFF == (v & 0x3FFF_FFFF) | k,
        (v + k) as u64 & 0x1F_FFFF == (v & 0x1F_FFFF) | k,
        (v + k) as u64 & 0xFFF == (v & 0xFFF) | k,
        a2 | ((v & 0x3FFF_FFFF) | k) == (a2 | (v & 0x3FFF_FFFF)) | k,
        a3 | ((v & 0x1F_FFFF) | k) == (a3 | (v & 0x1F_FFFF)) | k,
        a4 | ((v & 0xFFF) | k) == (a4 | (v & 0xFFF)) | k,
{
}

/// The 2 MiB-aligned span that covers `[phys, phys + len)`.
proof fn lemma_patch_bounds(phys: u64, len: u64, start: u64, end: u64)
    by (bit_vector)
    requires
        start == phys & !0x1F_FFFFu64,
        end == ((phys + len + 0x1F_FFFF) as u64) & !0x1F_FFFFu64,
        len > 0,
        phys + len + 0x1F_FFFF <= u64::MAX,
    ensures
        start & 0x1F_FFFF == 0,
        end & 0x1F_FFFF == 0,
        start < end,
        ((end - start) as u64) % 0x20_0000 == 0,
        end - start <= len + 0x40_0000,
{
}

} // verus!
