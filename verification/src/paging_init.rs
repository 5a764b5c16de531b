//! The kernel's first page tables: the image per section, the physmap
//! with 2 MiB pages and the low identity window, in that order.
//!
//! Installing the result (the root frame, the bootloader's stack entry,
//! EFER.NXE and CR3) is the hardware's part; what the tables map is
//! decided and proved here.

use vstd::prelude::*;
use crate::paging::{
    FrameAllocator, MapError, PageTables, align_down, align_up, entry, idx2, idx3, idx4, keeps_tables,
    lemma_page_bits, leaf_table, pd_changes_within, pd_entry, pd_of, pml4_index, pte_present, range_ready_2m,
    range_ready_4k, reaches_pd, reaches_pt, ready_2m, ready_4k, spec_canonical, spec_translate, LOW_IDENT_LIMIT,
    PAGE_SIZE, PAGE_SIZE_2M, PHYSMAP_CAP, PTE_ADDR_MASK,
};

verus! {

/// Where the physmap starts: the HHDM offset the bootloader already uses.
pub const HHDM_BASE: u64 = 0xFFFF_8000_0000_0000;

/// Flags of the first 2 MiB of the low identity window: present,
/// writable, global and executable (the AP trampoline runs there).
pub const LOW_ID_EXEC_FLAGS: u64 = 0x103;

/// Flags of the rest of the low identity window: present, writable,
/// global, no-execute.
pub const LOW_ID_TAIL_FLAGS: u64 = 0x8000_0000_0000_0103;

/// A section of the kernel image: its link-time bounds and the flags its
/// pages get.
#[derive(Clone, Copy)]
pub struct Section {
    pub start: u64,
    pub end: u64,
    pub flags: u64,
}

/// Where the kernel image was loaded and how it is laid out.
#[derive(Clone, Copy)]
pub struct KernelImage {
    pub phys_base: u64,
    pub vma_start: u64,
    pub vma_end: u64,
    pub text: Section,
    pub rodata: Section,
    pub limine_requests: Section,
    pub data: Section,
}

/// What the tables map, for the boot log.
#[derive(Clone, Copy, Debug)]
pub struct PagingReport {
    pub map_end: u64,
    pub kernel_text_bytes: u64,
    pub kernel_rodata_bytes: u64,
    pub kernel_data_bytes: u64,
    pub duplicated_stack_entry: bool,
}

/// `x` rounded down to 4 KiB.
pub open spec fn down_4k(x: u64) -> int {
    x - x % 4096
}

/// `x` rounded up to 4 KiB.
pub open spec fn up_4k(x: u64) -> int {
    if x % 4096 == 0 { x as int } else { x - x % 4096 + 4096 }
}

/// `x` rounded up to 2 MiB.
pub open spec fn up_2m(x: u64) -> int {
    if x % 0x20_0000 == 0 { x as int } else { x - x % 0x20_0000 + 0x20_0000 }
}

/// The bytes a section maps: its bounds rounded out to whole pages, or
/// nothing when they are empty.
pub open spec fn sec_len(s: Section) -> int {
    if down_4k(s.start) < up_4k(s.end) { up_4k(s.end) - down_4k(s.start) } else { 0 }
}

/// Where a section's first page lives in physical memory.
pub open spec fn sec_phys(img: KernelImage, s: Section) -> int {
    img.phys_base + (down_4k(s.start) - img.vma_start)
}

/// The physmap's extent: the highest of RAM, the kernel image's end and
/// the framebuffer's end, rounded up to 2 MiB and capped at
/// `PHYSMAP_CAP`.
pub open spec fn spec_physmap_extent(img: KernelImage, ram_high_water: u64, fb_phys_end: u64) -> int {
    let kend = img.phys_base + (img.vma_end - img.vma_start);
    let a = if ram_high_water >= kend { ram_high_water as int } else { kend };
    let hi = if a >= fb_phys_end { a } else { fb_phys_end as int };
    let r = up_2m(hi as u64);
    if r <= PHYSMAP_CAP { r } else { PHYSMAP_CAP as int }
}

/// The physmap extent can be computed without overflow.
pub open spec fn extent_ok(img: KernelImage, ram_high_water: u64, fb_phys_end: u64) -> bool {
    &&& img.vma_start <= img.vma_end
    &&& img.phys_base + (img.vma_end - img.vma_start) + 0x20_0000 <= u64::MAX
    &&& ram_high_water + 0x20_0000 <= u64::MAX
    &&& fb_phys_end + 0x20_0000 <= u64::MAX
}

/// Two ranges of addresses share nothing (an empty one shares nothing
/// with anything).
pub open spec fn apart(lo1: int, hi1: int, lo2: int, hi2: int) -> bool {
    lo1 >= hi1 || lo2 >= hi2 || hi1 <= lo2 || hi2 <= lo1
}

/// A section can be mapped: its bounds round without overflow, it starts
/// in the image, and it keeps out of the physmap window and the low
/// identity window.
pub open spec fn section_ok(img: KernelImage, s: Section) -> bool {
    &&& s.end + 4095 <= u64::MAX
    &&& img.vma_start <= down_4k(s.start)
    &&& img.phys_base + (up_4k(s.end) - img.vma_start) <= u64::MAX
    &&& apart(down_4k(s.start), up_4k(s.end), HHDM_BASE as int, HHDM_BASE + PHYSMAP_CAP)
    &&& apart(down_4k(s.start), up_4k(s.end), 0, LOW_IDENT_LIMIT as int)
}

/// The four sections can all be mapped, and no two share a page.
pub open spec fn image_ok(img: KernelImage) -> bool {
    let t = img.text;
    let r = img.rodata;
    let l = img.limine_requests;
    let d = img.data;
    &&& section_ok(img, t)
    &&& section_ok(img, r)
    &&& section_ok(img, l)
    &&& section_ok(img, d)
    &&& apart(down_4k(t.start), up_4k(t.end), down_4k(r.start), up_4k(r.end))
    &&& apart(down_4k(t.start), up_4k(t.end), down_4k(l.start), up_4k(l.end))
    &&& apart(down_4k(t.start), up_4k(t.end), down_4k(d.start), up_4k(d.end))
    &&& apart(down_4k(r.start), up_4k(r.end), down_4k(l.start), up_4k(l.end))
    &&& apart(down_4k(r.start), up_4k(r.end), down_4k(d.start), up_4k(d.end))
    &&& apart(down_4k(l.start), up_4k(l.end), down_4k(d.start), up_4k(d.end))
}

/// Every `mask`-aligned offset below `len` from `va` translates to the
/// same offset from `pa`, with `flags`.
pub open spec fn maps_range(pt: PageTables, va: u64, pa: int, len: int, mask: u64, flags: u64) -> bool {
    forall|off: u64|
        off < len && off & mask == 0 ==> #[trigger] spec_translate(pt.mem(), pt.root(), (va + off) as u64) == Some(
            (((pa + off) as u64) | flags) & PTE_ADDR_MASK,
        )
}

/// What a range maps stays mapped across a change that leaves every
/// address outside `[lo, hi)` translating as before, when the range keeps
/// out of `[lo, hi)`.
proof fn lemma_keeps_range(
    p0: PageTables,
    p1: PageTables,
    va: u64,
    pa: int,
    len: int,
    mask: u64,
    flags: u64,
    lo: int,
    hi: int,
)
    requires
        maps_range(p0, va, pa, len, mask, flags),
        forall|w: u64| !(lo <= w < hi) ==> #[trigger] spec_translate(p1.mem(), p1.root(), w) == spec_translate(
            p0.mem(),
            p0.root(),
            w,
        ),
        va + len <= u64::MAX + 1,
        apart(va as int, va + len, lo, hi),
    ensures
        maps_range(p1, va, pa, len, mask, flags),
{
    assert forall|off: u64| off < len && off & mask == 0 implies #[trigger] spec_translate(
        p1.mem(),
        p1.root(),
        (va + off) as u64,
    ) == Some((((pa + off) as u64) | flags) & PTE_ADDR_MASK) by {
        let w = (va + off) as u64;
        assert(w == va + off);
        assert(spec_translate(p0.mem(), p0.root(), w) == Some((((pa + off) as u64) | flags) & PTE_ADDR_MASK));
    }
}

/// Low bits and remainders of the page sizes agree.
proof fn lemma_mask_mod(x: u64)
    by (bit_vector)
    ensures
        x & 0xFFF == x % 4096,
        x & 0x1F_FFFF == x % 0x20_0000,
        4096u64 & ((4096u64 - 1) as u64) == 0,
        0x20_0000u64 & ((0x20_0000u64 - 1) as u64) == 0,
{
}

/// A whole number of pages rounds to itself.
proof fn lemma_round_whole(len: u64)
    by (bit_vector)
    requires
        len & 0xFFF == 0,
        len + 0xFFF <= u64::MAX,
    ensures
        ((len + 0xFFF) as u64) & !0xFFFu64 == len,
{
}

/// The physmap's extent for the image loaded at `img.phys_base`.
pub fn physmap_extent(img: &KernelImage, ram_high_water: u64, fb_phys_end: u64) -> (r: u64)
    requires
        extent_ok(*img, ram_high_water, fb_phys_end),
    ensures
        r == spec_physmap_extent(*img, ram_high_water, fb_phys_end),
        r % 0x20_0000 == 0,
{
    let kernel_phys_end = img.phys_base + (img.vma_end - img.vma_start);
    let a = if ram_high_water >= kernel_phys_end { ram_high_water } else { kernel_phys_end };
    let hi = if a >= fb_phys_end { a } else { fb_phys_end };
    proof {
        lemma_mask_mod(hi);
    }
    let up = align_up(hi, PAGE_SIZE_2M);
    proof {
        lemma_mask_mod(up);
        lemma_mask_mod(hi);
        assert(up == up_2m(hi));
    }
    if up <= PHYSMAP_CAP {
        up
    } else {
        PHYSMAP_CAP
    }
}

/// Every walk of `p0` that reaches a page table still reaches it in `p1`.
pub open spec fn keeps_paths(p0: PageTables, p1: PageTables) -> bool {
    forall|w: u64, pt: u64| #[trigger] reaches_pt(p0.mem(), p0.root(), w, pt) ==> reaches_pt(p1.mem(), p1.root(), w, pt)
}

/// Paths that survive two steps survive both.
proof fn lemma_keeps_paths_trans(p0: PageTables, p1: PageTables, p2: PageTables)
    requires
        keeps_paths(p0, p1),
        keeps_paths(p1, p2),
    ensures
        keeps_paths(p0, p2),
{
    assert forall|w: u64, pt: u64| #[trigger] reaches_pt(p0.mem(), p0.root(), w, pt) implies reaches_pt(
        p2.mem(),
        p2.root(),
        w,
        pt,
    ) by {
        assert(reaches_pt(p1.mem(), p1.root(), w, pt));
    }
}

/// An address with no path to a page table in a later state, whose paths
/// all survive from `p0`, had none in `p0` either.
proof fn lemma_no_path_before(p0: PageTables, p1: PageTables, w: u64)
    requires
        keeps_paths(p0, p1),
        !reaches_pt(p1.mem(), p1.root(), w, leaf_table(p1.mem(), p1.root(), w))
            || !reaches_pd(p1.mem(), p1.root(), w, pd_of(p1.mem(), p1.root(), w)),
    ensures
        !reaches_pt(p0.mem(), p0.root(), w, leaf_table(p0.mem(), p0.root(), w)),
{
    let l = leaf_table(p0.mem(), p0.root(), w);
    if reaches_pt(p0.mem(), p0.root(), w, l) {
        assert(reaches_pt(p1.mem(), p1.root(), w, l));
    }
}

/// Map one section with 4 KiB pages, its bounds rounded out to whole
/// pages; returns how many bytes it maps.
#[verifier::rlimit(40)]
fn map_kernel_section<A: FrameAllocator>(
    pt: &mut PageTables,
    alloc: &mut A,
    img: &KernelImage,
    s: Section,
) -> (r: Result<u64, MapError>)
    requires
        old(pt).wf(),
        section_ok(*img, s),
    ensures
        final(pt).wf(),
        keeps_tables(*old(pt), *final(pt)),
        sec_len(s) == 0 ==> r == Ok::<u64, MapError>(0) && *final(pt) == *old(pt),
        r matches Ok(n) ==> n == sec_len(s) && maps_range(*final(pt), down_4k(s.start) as u64, sec_phys(*img, s),
            sec_len(s), 0xFFF, s.flags),
        forall|w: u64| !(down_4k(s.start) <= w < down_4k(s.start) + sec_len(s)) ==> #[trigger] spec_translate(
            final(pt).mem(),
            final(pt).root(),
            w,
        ) == spec_translate(old(pt).mem(), old(pt).root(), w),
        keeps_paths(*old(pt), *final(pt)),
        r == Err::<u64, MapError>(MapError::NoFrame) ==> exists|w: u64|
            down_4k(s.start) <= w < down_4k(s.start) + sec_len(s) && !#[trigger] reaches_pt(
                old(pt).mem(),
                old(pt).root(),
                w,
                leaf_table(old(pt).mem(), old(pt).root(), w),
            ),
        sec_phys(*img, s) % 4096 == 0 && range_ready_4k(old(pt).mem(), old(pt).root(), down_4k(s.start) as u64, sec_len(s))
            ==> r is Ok,
        range_ready_4k(old(pt).mem(), old(pt).root(), down_4k(s.start) as u64, sec_len(s)) ==> forall|w: u64|
            spec_canonical(w) == w && !in_section(s, w) && #[trigger] ready_4k(old(pt).mem(), old(pt).root(), w)
                ==> ready_4k(final(pt).mem(), final(pt).root(), w),
        range_ready_4k(old(pt).mem(), old(pt).root(), down_4k(s.start) as u64, sec_len(s)) ==> forall|w: u64|
            #[trigger] ready_2m(old(pt).mem(), old(pt).root(), w) ==> ready_2m(final(pt).mem(), final(pt).root(), w),
        r == Err::<u64, MapError>(MapError::AlreadyMapped) || r == Err::<u64, MapError>(MapError::Overlap) ==> exists|w: u64|
            in_section(s, w) && #[trigger] spec_translate(old(pt).mem(), old(pt).root(), w) is Some,
        pd_changes_within(
            old(pt).mem(),
            old(pt).root(),
            final(pt).mem(),
            final(pt).root(),
            down_4k(s.start) as u64,
            sec_len(s),
            0xFFF,
        ),
{
    proof {
        lemma_mask_mod(s.start);
    }
    let start = align_down(s.start, PAGE_SIZE);
    let end = align_up(s.end, PAGE_SIZE);
    proof {
        lemma_mask_mod(start);
        lemma_mask_mod(end);
        lemma_mask_mod(s.start);
        lemma_mask_mod(s.end);
        assert(start == down_4k(s.start));
        assert(end == up_4k(s.end));
    }
    if start >= end {
        return Ok(0);
    }
    let len = end - start;
    let phys = img.phys_base + (start - img.vma_start);
    proof {
        lemma_mask_mod(len);
        lemma_round_whole(len);
    }
    proof {
        lemma_mask_mod(phys);
    }
    let r = pt.map_range_4k(start, phys, len, s.flags, false, alloc);
    proof {
        assert(((len + 0xFFF) as u64) & !0xFFFu64 == len);
        assert(len == sec_len(s));
        assert(phys == sec_phys(*img, s));
    }
    proof {
        if r == Err::<(), MapError>(MapError::AlreadyMapped) || r == Err::<(), MapError>(MapError::Overlap) {
            let o = choose|o: u64|
                o < (((len + 0xFFF) as u64) & !0xFFFu64) && o & 0xFFF == 0 && #[trigger] spec_translate(
                    old(pt).mem(),
                    old(pt).root(),
                    (start + o) as u64,
                ) is Some;
            assert(in_section(s, (start + o) as u64));
        }
        if r == Err::<(), MapError>(MapError::NoFrame) {
            let o = choose|o: u64|
                o < (((len + 0xFFF) as u64) & !0xFFFu64) && o & 0xFFF == 0 && !#[trigger] reaches_pt(
                    old(pt).mem(),
                    old(pt).root(),
                    (start + o) as u64,
                    leaf_table(old(pt).mem(), old(pt).root(), (start + o) as u64),
                );
            assert(!reaches_pt(old(pt).mem(), old(pt).root(), (start + o) as u64, leaf_table(old(pt).mem(), old(pt).root(), (start + o) as u64)));
        }
    }
    match r {
        Ok(()) => Ok(len),
        Err(e) => Err(e),
    }
}

/// `w` lies in section `s` rounded out to whole pages.
pub open spec fn in_section(s: Section, w: u64) -> bool {
    down_4k(s.start) <= w < down_4k(s.start) + sec_len(s)
}

/// `w` lies in one of the image's sections, rounded out to pages.
pub open spec fn in_sections(img: KernelImage, w: u64) -> bool {
    ||| in_section(img.text, w)
    ||| in_section(img.rodata, w)
    ||| in_section(img.limine_requests, w)
    ||| in_section(img.data, w)
}

/// `w` lies in the physmap or the low identity window, both mapped with
/// 2 MiB pages.
pub open spec fn in_windows(img: KernelImage, ram_high_water: u64, fb_phys_end: u64, w: u64) -> bool {
    ||| HHDM_BASE <= w < HHDM_BASE + spec_physmap_extent(img, ram_high_water, fb_phys_end)
    ||| w < LOW_IDENT_LIMIT
}

/// `w` lies in one of the ranges `install` maps: an image section rounded
/// out to pages, the physmap, or the low identity window.
pub open spec fn install_region(img: KernelImage, ram_high_water: u64, fb_phys_end: u64, w: u64) -> bool {
    in_sections(img, w) || in_windows(img, ram_high_water, fb_phys_end, w)
}

/// Everything `install` maps can be mapped without a new table: the image
/// lies at the same offset within a page physically as virtually, its
/// pages are canonical and their PT entries empty, and the 2 MiB slots of
/// the physmap and the low window are empty.
pub open spec fn install_ready(pt: PageTables, img: KernelImage, ram_high_water: u64, fb_phys_end: u64) -> bool {
    &&& img.phys_base % 4096 == img.vma_start % 4096
    &&& forall|w: u64| #[trigger] in_sections(img, w) ==> spec_canonical(w) == w && ready_4k(pt.mem(), pt.root(), w)
    &&& forall|w: u64| #[trigger] in_windows(img, ram_high_water, fb_phys_end, w) ==> ready_2m(pt.mem(), pt.root(), w)
}

/// Something `install` maps is already in use in `pt`: an address of its
/// ranges translates, or a 2 MiB page of its windows has a PD entry (a
/// page table or a huge page).
pub open spec fn already_in_use(pt: PageTables, img: KernelImage, ram_high_water: u64, fb_phys_end: u64) -> bool {
    exists|w: u64|
        #[trigger] install_region(img, ram_high_water, fb_phys_end, w) && (spec_translate(pt.mem(), pt.root(), w) is Some
            || (in_windows(img, ram_high_water, fb_phys_end, w) && pte_present(pd_entry(pt.mem(), pt.root(), w))))
}

/// Addresses below the canonical hole and above it are canonical.
proof fn lemma_canonical_halves(w: u64)
    by (bit_vector)
    ensures
        w < 0x8000_0000_0000 ==> spec_canonical(w) == w,
        w >= 0xFFFF_8000_0000_0000 ==> spec_canonical(w) == w,
{
}

/// A section whose pages are all canonical and ready can be mapped with
/// no new table.
proof fn lemma_section_ready(p: PageTables, img: KernelImage, s: Section)
    requires
        section_ok(img, s),
        img.phys_base % 4096 == img.vma_start % 4096,
        forall|w: u64| #[trigger] in_section(s, w) ==> spec_canonical(w) == w && ready_4k(p.mem(), p.root(), w),
    ensures
        sec_phys(img, s) % 4096 == 0,
        range_ready_4k(p.mem(), p.root(), down_4k(s.start) as u64, sec_len(s)),
{
    let d = down_4k(s.start) as u64;
    assert(d % 4096 == 0);
    assert(sec_phys(img, s) % 4096 == 0) by (nonlinear_arith)
        requires
            img.phys_base % 4096 == img.vma_start % 4096,
            d % 4096 == 0,
            sec_phys(img, s) == img.phys_base + (d - img.vma_start),
    ;
    assert forall|o: u64|
        #![trigger ready_4k(p.mem(), p.root(), (d + o) as u64)]
        #![trigger spec_canonical((d + o) as u64)]
        o < sec_len(s) && o & 0xFFF == 0 implies spec_canonical((d + o) as u64) == (d + o) as u64 && ready_4k(
            p.mem(),
            p.root(),
            (d + o) as u64,
        ) by {
        assert((d + o) as u64 == d + o);
        assert(in_section(s, (d + o) as u64));
    }
}

/// A window of canonical addresses, each ready for a 2 MiB mapping.
proof fn lemma_window_ready(p: PageTables, virt: u64, len: u64)
    requires
        virt + len <= 0x8000_0000_0000 || (virt >= 0xFFFF_8000_0000_0000 && virt + len <= u64::MAX),
        forall|w: u64| virt <= w < virt + len ==> #[trigger] ready_2m(p.mem(), p.root(), w),
    ensures
        range_ready_2m(p.mem(), p.root(), virt, len as int),
{
    assert forall|o: u64|
        #![trigger ready_2m(p.mem(), p.root(), (virt + o) as u64)]
        #![trigger spec_canonical((virt + o) as u64)]
        o < len && o & 0x1F_FFFF == 0 implies spec_canonical((virt + o) as u64) == (virt + o) as u64 && ready_2m(
            p.mem(),
            p.root(),
            (virt + o) as u64,
        ) by {
        let w = (virt + o) as u64;
        assert(w == virt + o);
        lemma_canonical_halves(w);
    }
}

/// Mapping `[start, start + len)` leaves a 2 MiB page of a window apart
/// from it as it was: its translations and its PD entry.
proof fn lemma_window_kept(p0: PageTables, p1: PageTables, start: u64, len: int, mask: u64, a: u64, wlo: int, whi: int)
    requires
        pd_changes_within(p0.mem(), p0.root(), p1.mem(), p1.root(), start, len, mask),
        forall|w: u64| !(start <= w < start + len) ==> #[trigger] spec_translate(p1.mem(), p1.root(), w) == spec_translate(
            p0.mem(),
            p0.root(),
            w,
        ),
        start + len <= 0x1_0000_0000_0000_0000,
        apart(start as int, start + len, wlo, whi),
        spec_canonical(a) == a,
        a & 0x1F_FFFF == 0,
        wlo <= a,
        a + 0x20_0000 <= whi,
    ensures
        spec_translate(p1.mem(), p1.root(), a) == spec_translate(p0.mem(), p0.root(), a),
        pd_entry(p1.mem(), p1.root(), a) == pd_entry(p0.mem(), p0.root(), a),
{
    assert(spec_translate(p1.mem(), p1.root(), a) == spec_translate(p0.mem(), p0.root(), a));
    if pd_entry(p1.mem(), p1.root(), a) != pd_entry(p0.mem(), p0.root(), a) {
        let o = choose|o: u64|
            o < len && o & mask == 0 && spec_canonical((start + o) as u64) == (start + o) as u64 && crate::paging::same_page_2m(
                a,
                (start + o) as u64,
            );
        let b = (start + o) as u64;
        assert(b == start + o);
        lemma_page_bits(a, b);
    }
}

/// Two sections that share no page share no address.
proof fn lemma_sections_apart(a: Section, b: Section, w: u64)
    requires
        apart(down_4k(a.start), up_4k(a.end), down_4k(b.start), up_4k(b.end)),
        in_section(b, w),
    ensures
        !in_section(a, w),
{
}

/// Build the kernel's tables in `pt`: each image section at its link
/// address with its own flags, the physmap `[0, map_end)` at `HHDM_BASE`
/// with 2 MiB pages, and the low 512 MiB identity-mapped with 2 MiB
/// pages (the first executable, the rest not). Stops at the first
/// mapping that fails, with its error. Reports whether the stack at
/// `rsp` is left unmapped by the new tables, so that the bootloader's
/// PML4 entry for it has to be carried over (see `stack_copy_slot`).
pub fn install<A: FrameAllocator>(
    pt: &mut PageTables,
    alloc: &mut A,
    img: &KernelImage,
    physmap_flags: u64,
    ram_high_water: u64,
    fb_phys_end: u64,
    rsp: u64,
) -> (r: Result<PagingReport, MapError>)
    requires
        old(pt).wf(),
        image_ok(*img),
        extent_ok(*img, ram_high_water, fb_phys_end),
    ensures
        final(pt).wf(),
        keeps_tables(*old(pt), *final(pt)),
        forall|w: u64| !install_region(*img, ram_high_water, fb_phys_end, w) ==> #[trigger] spec_translate(
            final(pt).mem(),
            final(pt).root(),
            w,
        ) == spec_translate(old(pt).mem(), old(pt).root(), w),
        keeps_paths(*old(pt), *final(pt)),
        r == Err::<PagingReport, MapError>(MapError::NoFrame) ==> exists|w: u64|
            install_region(*img, ram_high_water, fb_phys_end, w) && !#[trigger] reaches_pt(
                old(pt).mem(),
                old(pt).root(),
                w,
                leaf_table(old(pt).mem(), old(pt).root(), w),
            ),
        install_ready(*old(pt), *img, ram_high_water, fb_phys_end) ==> r is Ok,
        r == Err::<PagingReport, MapError>(MapError::AlreadyMapped) || r == Err::<PagingReport, MapError>(
            MapError::Overlap,
        ) ==> already_in_use(*old(pt), *img, ram_high_water, fb_phys_end),
        r matches Ok(rep) ==> {
            &&& rep.map_end == spec_physmap_extent(*img, ram_high_water, fb_phys_end)
            &&& rep.kernel_text_bytes == sec_len(img.text)
            &&& rep.kernel_rodata_bytes == sec_len(img.rodata)
            &&& rep.kernel_data_bytes == sec_len(img.data)
            &&& rep.duplicated_stack_entry == (spec_translate(final(pt).mem(), final(pt).root(), rsp) is None)
            &&& maps_range(*final(pt), down_4k(img.text.start) as u64, sec_phys(*img, img.text),
                sec_len(img.text), 0xFFF, img.text.flags)
            &&& maps_range(*final(pt), down_4k(img.rodata.start) as u64, sec_phys(*img, img.rodata),
                sec_len(img.rodata), 0xFFF, img.rodata.flags)
            &&& maps_range(*final(pt), down_4k(img.limine_requests.start) as u64, sec_phys(*img,
                img.limine_requests), sec_len(img.limine_requests), 0xFFF, img.limine_requests.flags)
            &&& maps_range(*final(pt), down_4k(img.data.start) as u64, sec_phys(*img, img.data),
                sec_len(img.data), 0xFFF, img.data.flags)
            &&& maps_range(*final(pt), HHDM_BASE, 0, rep.map_end as int, 0x1F_FFFF, physmap_flags)
            &&& maps_range(*final(pt), 0, 0, PAGE_SIZE_2M as int, 0x1F_FFFF, LOW_ID_EXEC_FLAGS)
            &&& maps_range(*final(pt), PAGE_SIZE_2M, PAGE_SIZE_2M as int, LOW_IDENT_LIMIT - PAGE_SIZE_2M,
                0x1F_FFFF, LOW_ID_TAIL_FLAGS)
        },
{
    let ghost p0 = *pt;
    let ghost ready = install_ready(*old(pt), *img, ram_high_water, fb_phys_end);
    proof {
        if ready {
            assert forall|w: u64| #[trigger] in_section(img.text, w) implies spec_canonical(w) == w && ready_4k(
                p0.mem(),
                p0.root(),
                w,
            ) by {
                assert(in_sections(*img, w));
            }
            lemma_section_ready(p0, *img, img.text);
        }
    }
    let text = match map_kernel_section(pt, alloc, img, img.text) {
        Ok(n) => n,
        Err(e) => {
            proof {
                if e == MapError::AlreadyMapped || e == MapError::Overlap {
                    let w = choose|w: u64| in_section(img.text, w) && #[trigger] spec_translate(p0.mem(), p0.root(), w) is Some;
                    assert(in_sections(*img, w));
                    assert(install_region(*img, ram_high_water, fb_phys_end, w) && spec_translate(p0.mem(), p0.root(), w) is Some);
                }
                if e == MapError::NoFrame {
                    let sc = img.text;
                    let w = choose|w: u64|
                        down_4k(sc.start) <= w < down_4k(sc.start) + sec_len(sc) && !#[trigger] reaches_pt(
                            p0.mem(),
                            p0.root(),
                            w,
                            leaf_table(p0.mem(), p0.root(), w),
                        );
                    assert(install_region(*img, ram_high_water, fb_phys_end, w));
                }
            }
            return Err(e);
        },
    };
    let ghost p1 = *pt;
    proof {
        if ready {
            assert forall|w: u64| #[trigger] in_sections(*img, w) && !in_section(img.text, w) implies spec_canonical(w) == w
                && ready_4k(p1.mem(), p1.root(), w) by {
                assert(ready_4k(p0.mem(), p0.root(), w));
            }
            assert forall|w: u64| #[trigger] in_windows(*img, ram_high_water, fb_phys_end, w) implies ready_2m(
                p1.mem(),
                p1.root(),
                w,
            ) by {
                assert(ready_2m(p0.mem(), p0.root(), w));
            }
            assert forall|w: u64| #[trigger] in_section(img.rodata, w) implies spec_canonical(w) == w && ready_4k(
                p1.mem(),
                p1.root(),
                w,
            ) by {
                assert(in_sections(*img, w));
                lemma_sections_apart(img.text, img.rodata, w);
            }
            lemma_section_ready(p1, *img, img.rodata);
        }
    }
    let rodata = match map_kernel_section(pt, alloc, img, img.rodata) {
        Ok(n) => n,
        Err(e) => {
            proof {
                lemma_keeps_paths_trans(*old(pt), p1, *pt);
                if e == MapError::AlreadyMapped || e == MapError::Overlap {
                    let w = choose|w: u64| in_section(img.rodata, w) && #[trigger] spec_translate(p1.mem(), p1.root(), w) is Some;
                    lemma_sections_apart(img.text, img.rodata, w);
                    assert(spec_translate(p1.mem(), p1.root(), w) == spec_translate(p0.mem(), p0.root(), w));
                    assert(in_sections(*img, w));
                    assert(install_region(*img, ram_high_water, fb_phys_end, w) && spec_translate(p0.mem(), p0.root(), w) is Some);
                }
                if e == MapError::NoFrame {
                    let sc = img.rodata;
                    let w = choose|w: u64|
                        down_4k(sc.start) <= w < down_4k(sc.start) + sec_len(sc) && !#[trigger] reaches_pt(
                            p1.mem(),
                            p1.root(),
                            w,
                            leaf_table(p1.mem(), p1.root(), w),
                        );
                    lemma_no_path_before(*old(pt), p1, w);
                    assert(install_region(*img, ram_high_water, fb_phys_end, w));
                }
            }
            return Err(e);
        },
    };
    let ghost p2 = *pt;
    proof {
        let t = img.text;
        lemma_keeps_range(p1, p2, down_4k(t.start) as u64, sec_phys(*img, t), sec_len(t), 0xFFF, t.flags,
            down_4k(img.rodata.start), down_4k(img.rodata.start) + sec_len(img.rodata));
    }
    proof {
        lemma_keeps_paths_trans(*old(pt), p1, p2);
    }
    proof {
        if ready {
            assert forall|w: u64|
                #[trigger] in_sections(*img, w) && !in_section(img.text, w) && !in_section(img.rodata, w) implies spec_canonical(w) == w
                && ready_4k(p2.mem(), p2.root(), w) by {
                assert(ready_4k(p1.mem(), p1.root(), w));
            }
            assert forall|w: u64| #[trigger] in_windows(*img, ram_high_water, fb_phys_end, w) implies ready_2m(
                p2.mem(),
                p2.root(),
                w,
            ) by {
                assert(ready_2m(p1.mem(), p1.root(), w));
            }
            assert forall|w: u64| #[trigger] in_section(img.limine_requests, w) implies spec_canonical(w) == w && ready_4k(
                p2.mem(),
                p2.root(),
                w,
            ) by {
                assert(in_sections(*img, w));
                lemma_sections_apart(img.text, img.limine_requests, w);
                lemma_sections_apart(img.rodata, img.limine_requests, w);
            }
            lemma_section_ready(p2, *img, img.limine_requests);
        }
    }
    match map_kernel_section(pt, alloc, img, img.limine_requests) {
        Ok(_) => {},
        Err(e) => {
            proof {
                lemma_keeps_paths_trans(*old(pt), p2, *pt);
                if e == MapError::AlreadyMapped || e == MapError::Overlap {
                    let w = choose|w: u64| in_section(img.limine_requests, w) && #[trigger] spec_translate(p2.mem(), p2.root(), w) is Some;
                    lemma_sections_apart(img.rodata, img.limine_requests, w);
                    assert(spec_translate(p2.mem(), p2.root(), w) == spec_translate(p1.mem(), p1.root(), w));
                    lemma_sections_apart(img.text, img.limine_requests, w);
                    assert(spec_translate(p1.mem(), p1.root(), w) == spec_translate(p0.mem(), p0.root(), w));
                    assert(in_sections(*img, w));
                    assert(install_region(*img, ram_high_water, fb_phys_end, w) && spec_translate(p0.mem(), p0.root(), w) is Some);
                }
                if e == MapError::NoFrame {
                    let sc = img.limine_requests;
                    let w = choose|w: u64|
                        down_4k(sc.start) <= w < down_4k(sc.start) + sec_len(sc) && !#[trigger] reaches_pt(
                            p2.mem(),
                            p2.root(),
                            w,
                            leaf_table(p2.mem(), p2.root(), w),
                        );
                    lemma_no_path_before(*old(pt), p2, w);
                    assert(install_region(*img, ram_high_water, fb_phys_end, w));
                }
            }
            return Err(e);
        },
    }
    let ghost p3 = *pt;
    proof {
        let l = img.limine_requests;
        let (lo, hi) = (down_4k(l.start), down_4k(l.start) + sec_len(l));
        let t = img.text;
        let r = img.rodata;
        lemma_keeps_range(p2, p3, down_4k(t.start) as u64, sec_phys(*img, t), sec_len(t), 0xFFF, t.flags, lo, hi);
        lemma_keeps_range(p2, p3, down_4k(r.start) as u64, sec_phys(*img, r), sec_len(r), 0xFFF, r.flags, lo, hi);
    }
    proof {
        lemma_keeps_paths_trans(*old(pt), p2, p3);
    }
    proof {
        if ready {
            assert forall|w: u64|
                #[trigger] in_sections(*img, w) && !in_section(img.text, w) && !in_section(img.rodata, w) && !in_section(
                    img.limine_requests,
                    w,
                ) implies spec_canonical(w) == w && ready_4k(p3.mem(), p3.root(), w) by {
                assert(ready_4k(p2.mem(), p2.root(), w));
            }
            assert forall|w: u64| #[trigger] in_windows(*img, ram_high_water, fb_phys_end, w) implies ready_2m(
                p3.mem(),
                p3.root(),
                w,
            ) by {
                assert(ready_2m(p2.mem(), p2.root(), w));
            }
            assert forall|w: u64| #[trigger] in_section(img.data, w) implies spec_canonical(w) == w && ready_4k(
                p3.mem(),
                p3.root(),
                w,
            ) by {
                assert(in_sections(*img, w));
                lemma_sections_apart(img.text, img.data, w);
                lemma_sections_apart(img.rodata, img.data, w);
                lemma_sections_apart(img.limine_requests, img.data, w);
            }
            lemma_section_ready(p3, *img, img.data);
        }
    }
    let data = match map_kernel_section(pt, alloc, img, img.data) {
        Ok(n) => n,
        Err(e) => {
            proof {
                lemma_keeps_paths_trans(*old(pt), p3, *pt);
                if e == MapError::AlreadyMapped || e == MapError::Overlap {
                    let w = choose|w: u64| in_section(img.data, w) && #[trigger] spec_translate(p3.mem(), p3.root(), w) is Some;
                    lemma_sections_apart(img.limine_requests, img.data, w);
                    assert(spec_translate(p3.mem(), p3.root(), w) == spec_translate(p2.mem(), p2.root(), w));
                    lemma_sections_apart(img.rodata, img.data, w);
                    assert(spec_translate(p2.mem(), p2.root(), w) == spec_translate(p1.mem(), p1.root(), w));
                    lemma_sections_apart(img.text, img.data, w);
                    assert(spec_translate(p1.mem(), p1.root(), w) == spec_translate(p0.mem(), p0.root(), w));
                    assert(in_sections(*img, w));
                    assert(install_region(*img, ram_high_water, fb_phys_end, w) && spec_translate(p0.mem(), p0.root(), w) is Some);
                }
                if e == MapError::NoFrame {
                    let sc = img.data;
                    let w = choose|w: u64|
                        down_4k(sc.start) <= w < down_4k(sc.start) + sec_len(sc) && !#[trigger] reaches_pt(
                            p3.mem(),
                            p3.root(),
                            w,
                            leaf_table(p3.mem(), p3.root(), w),
                        );
                    lemma_no_path_before(*old(pt), p3, w);
                    assert(install_region(*img, ram_high_water, fb_phys_end, w));
                }
            }
            return Err(e);
        },
    };
    let ghost p4 = *pt;
    proof {
        let d = img.data;
        let (lo, hi) = (down_4k(d.start), down_4k(d.start) + sec_len(d));
        let t = img.text;
        let r = img.rodata;
        let l = img.limine_requests;
        lemma_keeps_range(p3, p4, down_4k(t.start) as u64, sec_phys(*img, t), sec_len(t), 0xFFF, t.flags, lo, hi);
        lemma_keeps_range(p3, p4, down_4k(r.start) as u64, sec_phys(*img, r), sec_len(r), 0xFFF, r.flags, lo, hi);
        lemma_keeps_range(p3, p4, down_4k(l.start) as u64, sec_phys(*img, l), sec_len(l), 0xFFF, l.flags, lo, hi);
    }
    let map_end = physmap_extent(img, ram_high_water, fb_phys_end);
    proof {
        lemma_mask_mod(map_end);
    }
    proof {
        lemma_keeps_paths_trans(*old(pt), p3, p4);
    }
    proof {
        if ready {
            assert forall|w: u64| #[trigger] in_windows(*img, ram_high_water, fb_phys_end, w) implies ready_2m(
                p4.mem(),
                p4.root(),
                w,
            ) by {
                assert(ready_2m(p3.mem(), p3.root(), w));
            }
            assert forall|w: u64| HHDM_BASE <= w < HHDM_BASE + map_end implies #[trigger] ready_2m(p4.mem(), p4.root(), w) by {
                assert(in_windows(*img, ram_high_water, fb_phys_end, w));
            }
            lemma_window_ready(p4, HHDM_BASE, map_end);
            lemma_mask_mod(HHDM_BASE);
            lemma_mask_mod(0);
        }
    }
    match pt.map_range_2m(HHDM_BASE, 0, map_end, physmap_flags, false, alloc) {
        Ok(()) => {},
        Err(e) => {
            proof {
                lemma_keeps_paths_trans(*old(pt), p4, *pt);
                if e == MapError::AlreadyMapped || e == MapError::Overlap {
                    let o = choose|o: u64|
                        o < map_end && o & 0x1F_FFFF == 0 && (#[trigger] spec_translate(
                            p4.mem(),
                            p4.root(),
                            (HHDM_BASE + o) as u64,
                        ) is Some || pte_present(pd_entry(p4.mem(), p4.root(), (HHDM_BASE + o) as u64)));
                    let a = (HHDM_BASE + o) as u64;
                    assert(a == HHDM_BASE + o);
                    lemma_canonical_halves(a);
                    lemma_mask_mod(a);
                    lemma_mask_mod(o);
                    lemma_mask_mod(HHDM_BASE);
                    lemma_mask_mod(map_end);
                    assert(apart(down_4k(img.data.start), down_4k(img.data.start) + sec_len(img.data), HHDM_BASE as int, HHDM_BASE + PHYSMAP_CAP));
                    lemma_window_kept(p3, p4, down_4k(img.data.start) as u64, sec_len(img.data), 0xFFF, a, HHDM_BASE as int, HHDM_BASE + PHYSMAP_CAP);
                    assert(apart(down_4k(img.limine_requests.start), down_4k(img.limine_requests.start) + sec_len(img.limine_requests), HHDM_BASE as int, HHDM_BASE + PHYSMAP_CAP));
                    lemma_window_kept(p2, p3, down_4k(img.limine_requests.start) as u64, sec_len(img.limine_requests), 0xFFF, a, HHDM_BASE as int, HHDM_BASE + PHYSMAP_CAP);
                    assert(apart(down_4k(img.rodata.start), down_4k(img.rodata.start) + sec_len(img.rodata), HHDM_BASE as int, HHDM_BASE + PHYSMAP_CAP));
                    lemma_window_kept(p1, p2, down_4k(img.rodata.start) as u64, sec_len(img.rodata), 0xFFF, a, HHDM_BASE as int, HHDM_BASE + PHYSMAP_CAP);
                    assert(apart(down_4k(img.text.start), down_4k(img.text.start) + sec_len(img.text), HHDM_BASE as int, HHDM_BASE + PHYSMAP_CAP));
                    lemma_window_kept(p0, p1, down_4k(img.text.start) as u64, sec_len(img.text), 0xFFF, a, HHDM_BASE as int, HHDM_BASE + PHYSMAP_CAP);
                    assert(in_windows(*img, ram_high_water, fb_phys_end, a));
                    assert(install_region(*img, ram_high_water, fb_phys_end, a) && (spec_translate(p0.mem(), p0.root(), a)
                        is Some || (in_windows(*img, ram_high_water, fb_phys_end, a) && pte_present(
                        pd_entry(p0.mem(), p0.root(), a),
                    ))));
                }
                if e == MapError::NoFrame {
                    let o = choose|o: u64|
                        o < map_end && o & 0x1F_FFFF == 0 && !#[trigger] reaches_pd(
                            p4.mem(),
                            p4.root(),
                            (HHDM_BASE + o) as u64,
                            pd_of(p4.mem(), p4.root(), (HHDM_BASE + o) as u64),
                        );
                    let w = (HHDM_BASE + o) as u64;
                    lemma_no_path_before(*old(pt), p4, w);
                    assert(install_region(*img, ram_high_water, fb_phys_end, w));
                }
            }
            return Err(e);
        },
    }
    let ghost p5 = *pt;
    proof {
        let (lo, hi) = (HHDM_BASE as int, HHDM_BASE + map_end);
        let t = img.text;
        let r = img.rodata;
        let l = img.limine_requests;
        let d = img.data;
        lemma_keeps_range(p4, p5, down_4k(t.start) as u64, sec_phys(*img, t), sec_len(t), 0xFFF, t.flags, lo, hi);
        lemma_keeps_range(p4, p5, down_4k(r.start) as u64, sec_phys(*img, r), sec_len(r), 0xFFF, r.flags, lo, hi);
        lemma_keeps_range(p4, p5, down_4k(l.start) as u64, sec_phys(*img, l), sec_len(l), 0xFFF, l.flags, lo, hi);
        lemma_keeps_range(p4, p5, down_4k(d.start) as u64, sec_phys(*img, d), sec_len(d), 0xFFF, d.flags, lo, hi);
    }
    proof {
        lemma_keeps_paths_trans(*old(pt), p4, p5);
    }
    proof {
        if ready {
            assert forall|w: u64| w < LOW_IDENT_LIMIT implies #[trigger] ready_2m(p5.mem(), p5.root(), w) by {
                lemma_canonical_halves(w);
                assert(in_windows(*img, ram_high_water, fb_phys_end, w));
                assert(ready_2m(p4.mem(), p4.root(), w));
            }
            lemma_window_ready(p5, 0, PAGE_SIZE_2M);
            lemma_mask_mod(PAGE_SIZE_2M);
        }
    }
    match pt.map_range_2m(0, 0, PAGE_SIZE_2M, LOW_ID_EXEC_FLAGS, false, alloc) {
        Ok(()) => {},
        Err(e) => {
            proof {
                lemma_keeps_paths_trans(*old(pt), p5, *pt);
                if e == MapError::AlreadyMapped || e == MapError::Overlap {
                    let o = choose|o: u64|
                        o < PAGE_SIZE_2M && o & 0x1F_FFFF == 0 && (#[trigger] spec_translate(
                            p5.mem(),
                            p5.root(),
                            (0u64 + o) as u64,
                        ) is Some || pte_present(pd_entry(p5.mem(), p5.root(), (0u64 + o) as u64)));
                    let a = (0u64 + o) as u64;
                    assert(a == 0u64 + o);
                    lemma_canonical_halves(a);
                    lemma_mask_mod(a);
                    lemma_mask_mod(o);
                    lemma_mask_mod(0u64);
                    lemma_mask_mod(map_end);
                    lemma_window_kept(p4, p5, HHDM_BASE, map_end as int, 0x1F_FFFF, a, 0, LOW_IDENT_LIMIT as int);
                    assert(apart(down_4k(img.data.start), down_4k(img.data.start) + sec_len(img.data), 0, LOW_IDENT_LIMIT as int));
                    lemma_window_kept(p3, p4, down_4k(img.data.start) as u64, sec_len(img.data), 0xFFF, a, 0, LOW_IDENT_LIMIT as int);
                    assert(apart(down_4k(img.limine_requests.start), down_4k(img.limine_requests.start) + sec_len(img.limine_requests), 0, LOW_IDENT_LIMIT as int));
                    lemma_window_kept(p2, p3, down_4k(img.limine_requests.start) as u64, sec_len(img.limine_requests), 0xFFF, a, 0, LOW_IDENT_LIMIT as int);
                    assert(apart(down_4k(img.rodata.start), down_4k(img.rodata.start) + sec_len(img.rodata), 0, LOW_IDENT_LIMIT as int));
                    lemma_window_kept(p1, p2, down_4k(img.rodata.start) as u64, sec_len(img.rodata), 0xFFF, a, 0, LOW_IDENT_LIMIT as int);
                    assert(apart(down_4k(img.text.start), down_4k(img.text.start) + sec_len(img.text), 0, LOW_IDENT_LIMIT as int));
                    lemma_window_kept(p0, p1, down_4k(img.text.start) as u64, sec_len(img.text), 0xFFF, a, 0, LOW_IDENT_LIMIT as int);
                    assert(in_windows(*img, ram_high_water, fb_phys_end, a));
                    assert(install_region(*img, ram_high_water, fb_phys_end, a) && (spec_translate(p0.mem(), p0.root(), a)
                        is Some || (in_windows(*img, ram_high_water, fb_phys_end, a) && pte_present(
                        pd_entry(p0.mem(), p0.root(), a),
                    ))));
                }
                if e == MapError::NoFrame {
                    let o = choose|o: u64|
                        o < PAGE_SIZE_2M && o & 0x1F_FFFF == 0 && !#[trigger] reaches_pd(
                            p5.mem(),
                            p5.root(),
                            (0u64 + o) as u64,
                            pd_of(p5.mem(), p5.root(), (0u64 + o) as u64),
                        );
                    let w = (0u64 + o) as u64;
                    lemma_no_path_before(*old(pt), p5, w);
                    assert(install_region(*img, ram_high_water, fb_phys_end, w));
                }
            }
            return Err(e);
        },
    }
    let ghost p6 = *pt;
    proof {
        let (lo, hi) = (0int, PAGE_SIZE_2M as int);
        let t = img.text;
        let r = img.rodata;
        let l = img.limine_requests;
        let d = img.data;
        lemma_keeps_range(p5, p6, down_4k(t.start) as u64, sec_phys(*img, t), sec_len(t), 0xFFF, t.flags, lo, hi);
        lemma_keeps_range(p5, p6, down_4k(r.start) as u64, sec_phys(*img, r), sec_len(r), 0xFFF, r.flags, lo, hi);
        lemma_keeps_range(p5, p6, down_4k(l.start) as u64, sec_phys(*img, l), sec_len(l), 0xFFF, l.flags, lo, hi);
        lemma_keeps_range(p5, p6, down_4k(d.start) as u64, sec_phys(*img, d), sec_len(d), 0xFFF, d.flags, lo, hi);
        lemma_keeps_range(p5, p6, HHDM_BASE, 0, map_end as int, 0x1F_FFFF, physmap_flags, lo, hi);
    }
    proof {
        lemma_keeps_paths_trans(*old(pt), p5, p6);
    }
    proof {
        if ready {
            assert forall|w: u64| PAGE_SIZE_2M <= w < LOW_IDENT_LIMIT implies #[trigger] ready_2m(p6.mem(), p6.root(), w) by {
                lemma_canonical_halves(w);
                assert(ready_2m(p5.mem(), p5.root(), w));
            }
            lemma_window_ready(p6, PAGE_SIZE_2M, (LOW_IDENT_LIMIT - PAGE_SIZE_2M) as u64);
            lemma_mask_mod(PAGE_SIZE_2M);
            lemma_mask_mod((LOW_IDENT_LIMIT - PAGE_SIZE_2M) as u64);
        }
    }
    match pt.map_range_2m(PAGE_SIZE_2M, PAGE_SIZE_2M, LOW_IDENT_LIMIT - PAGE_SIZE_2M, LOW_ID_TAIL_FLAGS, false, alloc) {
        Ok(()) => {},
        Err(e) => {
            proof {
                lemma_keeps_paths_trans(*old(pt), p6, *pt);
                if e == MapError::AlreadyMapped || e == MapError::Overlap {
                    let o = choose|o: u64|
                        o < (LOW_IDENT_LIMIT - PAGE_SIZE_2M) as u64 && o & 0x1F_FFFF == 0 && (#[trigger] spec_translate(
                            p6.mem(),
                            p6.root(),
                            (PAGE_SIZE_2M + o) as u64,
                        ) is Some || pte_present(pd_entry(p6.mem(), p6.root(), (PAGE_SIZE_2M + o) as u64)));
                    let a = (PAGE_SIZE_2M + o) as u64;
                    assert(a == PAGE_SIZE_2M + o);
                    lemma_canonical_halves(a);
                    lemma_mask_mod(a);
                    lemma_mask_mod(o);
                    lemma_mask_mod(PAGE_SIZE_2M);
                    lemma_mask_mod(map_end);
                    lemma_window_kept(p5, p6, 0, PAGE_SIZE_2M as int, 0x1F_FFFF, a, PAGE_SIZE_2M as int, LOW_IDENT_LIMIT as int);
                    lemma_window_kept(p4, p5, HHDM_BASE, map_end as int, 0x1F_FFFF, a, 0, LOW_IDENT_LIMIT as int);
                    assert(apart(down_4k(img.data.start), down_4k(img.data.start) + sec_len(img.data), 0, LOW_IDENT_LIMIT as int));
                    lemma_window_kept(p3, p4, down_4k(img.data.start) as u64, sec_len(img.data), 0xFFF, a, 0, LOW_IDENT_LIMIT as int);
                    assert(apart(down_4k(img.limine_requests.start), down_4k(img.limine_requests.start) + sec_len(img.limine_requests), 0, LOW_IDENT_LIMIT as int));
                    lemma_window_kept(p2, p3, down_4k(img.limine_requests.start) as u64, sec_len(img.limine_requests), 0xFFF, a, 0, LOW_IDENT_LIMIT as int);
                    assert(apart(down_4k(img.rodata.start), down_4k(img.rodata.start) + sec_len(img.rodata), 0, LOW_IDENT_LIMIT as int));
                    lemma_window_kept(p1, p2, down_4k(img.rodata.start) as u64, sec_len(img.rodata), 0xFFF, a, 0, LOW_IDENT_LIMIT as int);
                    assert(apart(down_4k(img.text.start), down_4k(img.text.start) + sec_len(img.text), 0, LOW_IDENT_LIMIT as int));
                    lemma_window_kept(p0, p1, down_4k(img.text.start) as u64, sec_len(img.text), 0xFFF, a, 0, LOW_IDENT_LIMIT as int);
                    assert(in_windows(*img, ram_high_water, fb_phys_end, a));
                    assert(install_region(*img, ram_high_water, fb_phys_end, a) && (spec_translate(p0.mem(), p0.root(), a)
                        is Some || (in_windows(*img, ram_high_water, fb_phys_end, a) && pte_present(
                        pd_entry(p0.mem(), p0.root(), a),
                    ))));
                }
                if e == MapError::NoFrame {
                    let o = choose|o: u64|
                        o < (LOW_IDENT_LIMIT - PAGE_SIZE_2M) as u64 && o & 0x1F_FFFF == 0 && !#[trigger] reaches_pd(
                            p6.mem(),
                            p6.root(),
                            (PAGE_SIZE_2M + o) as u64,
                            pd_of(p6.mem(), p6.root(), (PAGE_SIZE_2M + o) as u64),
                        );
                    let w = (PAGE_SIZE_2M + o) as u64;
                    lemma_no_path_before(*old(pt), p6, w);
                    assert(install_region(*img, ram_high_water, fb_phys_end, w));
                }
            }
            return Err(e);
        },
    }
    let ghost p7 = *pt;
    proof {
        let (lo, hi) = (PAGE_SIZE_2M as int, LOW_IDENT_LIMIT as int);
        let t = img.text;
        let r = img.rodata;
        let l = img.limine_requests;
        let d = img.data;
        lemma_keeps_range(p6, p7, down_4k(t.start) as u64, sec_phys(*img, t), sec_len(t), 0xFFF, t.flags, lo, hi);
        lemma_keeps_range(p6, p7, down_4k(r.start) as u64, sec_phys(*img, r), sec_len(r), 0xFFF, r.flags, lo, hi);
        lemma_keeps_range(p6, p7, down_4k(l.start) as u64, sec_phys(*img, l), sec_len(l), 0xFFF, l.flags, lo, hi);
        lemma_keeps_range(p6, p7, down_4k(d.start) as u64, sec_phys(*img, d), sec_len(d), 0xFFF, d.flags, lo, hi);
        lemma_keeps_range(p6, p7, HHDM_BASE, 0, map_end as int, 0x1F_FFFF, physmap_flags, lo, hi);
        lemma_keeps_range(p6, p7, 0, 0, PAGE_SIZE_2M as int, 0x1F_FFFF, LOW_ID_EXEC_FLAGS, lo, hi);
    }
    proof {
        lemma_keeps_paths_trans(*old(pt), p6, p7);
    }
    let duplicated_stack_entry = pt.translate(rsp).is_none();
    Ok(PagingReport { map_end, kernel_text_bytes: text, kernel_rodata_bytes: rodata, kernel_data_bytes: data, duplicated_stack_entry })
}

/// Why the bootloader's stack window cannot be carried over.
#[derive(Clone, Copy, Debug, PartialEq, Eq, Structural)]
pub enum StackCopyError {
    /// The bootloader's own PML4 has nothing at the stack's slot either.
    NotMapped,
    /// The new PML4 already uses that slot: the copy would clobber it.
    SlotTaken,
}

/// Where the bootloader's PML4 entry for the stack at `rsp`, whose value
/// is `boot_entry`, goes in the new tables: the stack's PML4 slot, when
/// that entry is present and the slot in `pt` is still empty.
pub fn stack_copy_slot(pt: &PageTables, rsp: u64, boot_entry: u64) -> (r: Result<usize, StackCopyError>)
    requires
        pt.wf(),
    ensures
        !pte_present(boot_entry) ==> r == Err::<usize, StackCopyError>(StackCopyError::NotMapped),
        pte_present(boot_entry) && pte_present(entry(pt.mem(), pt.root(), idx4(rsp))) ==> r == Err::<
            usize,
            StackCopyError,
        >(StackCopyError::SlotTaken),
        pte_present(boot_entry) && !pte_present(entry(pt.mem(), pt.root(), idx4(rsp))) ==> r == Ok::<
            usize,
            StackCopyError,
        >(idx4(rsp) as usize),
{
    if boot_entry & crate::paging::PTE_PRESENT == 0 {
        return Err(StackCopyError::NotMapped);
    }
    let idx = pml4_index(rsp);
    if pt.entry(pt.pml4_phys(), idx) & crate::paging::PTE_PRESENT != 0 {
        return Err(StackCopyError::SlotTaken);
    }
    Ok(idx)
}

} // verus!
