use vibeos::paging::{
    canonical, is_canonical, page_offset, pd_index, pdpt_index, pml4_index, pt_index, FrameAllocator, MapError,
    PageTables, MMIO_WINDOW_END, MMIO_WINDOW_LEN, MMIO_WINDOW_START, PAGE_SIZE, PAGE_SIZE_2M, PTE_ADDR_MASK,
    PTE_GLOBAL, PTE_NX, PTE_UC, PTE_WRITABLE,
};

// A counter over a pool of frames: each call hands out the next 4 KiB
// slot's "physical" address.
struct Pool {
    base_phys: u64,
    used_frames: usize,
    cap_frames: usize,
}

impl Pool {
    fn new(cap_frames: usize) -> Self {
        Self { base_phys: 0x0040_0000, used_frames: 0, cap_frames }
    }
}

impl FrameAllocator for Pool {
    fn alloc_zeroed(&mut self) -> Option<u64> {
        if self.used_frames >= self.cap_frames {
            return None;
        }
        let idx = self.used_frames;
        self.used_frames += 1;
        Some(self.base_phys + (idx as u64) * PAGE_SIZE)
    }
}

fn make_tables(pool: &mut Pool) -> PageTables {
    let pml4 = pool.alloc_zeroed().expect("pml4 frame");
    PageTables::new(pml4, 0)
}

#[test]
fn indices_cover_all_levels() {
    let v: u64 = (1u64 << 47) | (0x123 << 30) | (0x0AB << 21) | (0x055 << 12) | 0x321;
    assert_eq!(pml4_index(v), 0x100);
    assert_eq!(pdpt_index(v), 0x123);
    assert_eq!(pd_index(v), 0x0AB);
    assert_eq!(pt_index(v), 0x055);
    assert_eq!(page_offset(v), 0x321);
}

#[test]
fn canonical_is_idempotent_on_kernel_addresses() {
    let hi = 0xFFFF_FFFF_8000_0000u64;
    assert!(is_canonical(hi));
    assert_eq!(canonical(hi), hi);

    let lo = 0x0000_0000_0000_1000u64;
    assert!(is_canonical(lo));

    let noncan = 0x0001_0000_0000_0000u64;
    assert!(!is_canonical(noncan));
}

#[test]
fn map_translate_unmap_4k_roundtrip() {
    let mut pool = Pool::new(64);
    let mut pt = make_tables(&mut pool);
    let virt: u64 = 0xFFFF_FFFF_8000_0000;
    let phys: u64 = 0x0020_0000;
    pt.map_page(virt, phys, PTE_WRITABLE | PTE_NX, false, &mut pool).expect("map");
    assert_eq!(pt.translate(virt), Some(phys));
    assert_eq!(pt.translate(virt + 0x10), Some(phys + 0x10));
    // A neighbor is still unmapped.
    assert_eq!(pt.translate(virt + 0x1000), None);
    let unmapped = pt.unmap_page(virt);
    assert_eq!(unmapped, Some(phys));
    assert_eq!(pt.translate(virt), None);
}

#[test]
fn map_2mib_translate_and_offset() {
    let mut pool = Pool::new(64);
    let mut pt = make_tables(&mut pool);
    let virt: u64 = 0xFFFF_8000_0020_0000;
    let phys: u64 = 0x0040_0000;
    pt.map_2m(virt, phys, PTE_WRITABLE | PTE_NX | PTE_GLOBAL, false, &mut pool).expect("map 2m");
    assert_eq!(pt.translate(virt), Some(phys));
    assert_eq!(pt.translate(virt + PAGE_SIZE_2M - 1), Some(phys + PAGE_SIZE_2M - 1));
    assert_eq!(pt.translate(virt + PAGE_SIZE_2M), None);
}

#[test]
fn map_range_4k_covers_every_page() {
    let mut pool = Pool::new(64);
    let mut pt = make_tables(&mut pool);
    let virt: u64 = 0xFFFF_FFFF_8000_0000;
    let phys: u64 = 0x0080_0000;
    let len: u64 = 5 * PAGE_SIZE;
    pt.map_range_4k(virt, phys, len, PTE_WRITABLE, false, &mut pool).expect("range");
    for i in 0..5 {
        let off = i * PAGE_SIZE;
        assert_eq!(pt.translate(virt + off), Some(phys + off));
    }
    assert_eq!(pt.translate(virt + 5 * PAGE_SIZE), None);
}

#[test]
fn overlapping_map_without_remap_rejected() {
    let mut pool = Pool::new(64);
    let mut pt = make_tables(&mut pool);
    let v: u64 = 0xFFFF_FFFF_8000_0000;
    let p: u64 = 0x0020_0000;
    pt.map_page(v, p, PTE_WRITABLE, false, &mut pool).unwrap();
    let err = pt.map_page(v, p + 0x1000, PTE_WRITABLE, false, &mut pool);
    assert_eq!(err, Err(MapError::AlreadyMapped));
    // Remap succeeds and reports the new frame.
    pt.map_page(v, p + 0x1000, PTE_WRITABLE, true, &mut pool).expect("remap");
    assert_eq!(pt.translate(v), Some(p + 0x1000));
}

#[test]
fn map_4k_inside_2m_rejected() {
    let mut pool = Pool::new(64);
    let mut pt = make_tables(&mut pool);
    let big: u64 = 0xFFFF_FFFF_8000_0000;
    pt.map_2m(big, 0, PTE_WRITABLE, false, &mut pool).unwrap();
    let err = pt.map_page(big + 0x1000, 0x1000, PTE_WRITABLE, false, &mut pool);
    assert_eq!(err, Err(MapError::Overlap));
}

#[test]
fn misaligned_addresses_rejected() {
    let mut pool = Pool::new(64);
    let mut pt = make_tables(&mut pool);
    let v: u64 = 0xFFFF_FFFF_8000_0000 | 0x123;
    assert_eq!(pt.map_page(v, 0, PTE_WRITABLE, false, &mut pool), Err(MapError::Misaligned));
    let bad2m: u64 = 0xFFFF_FFFF_8000_0000 | 0x1000;
    assert_eq!(pt.map_2m(bad2m, 0, PTE_WRITABLE, false, &mut pool), Err(MapError::Misaligned));
}

#[test]
fn frame_exhaustion_returns_no_frame() {
    let mut pool = Pool::new(2); // 1 for PML4, 1 for one sub-table
    let mut pt = make_tables(&mut pool);
    // First map: uses PDPT+PD+PT = 3 frames. Only 1 remains after PML4.
    let err = pt.map_page(0xFFFF_FFFF_8000_0000, 0x0020_0000, PTE_WRITABLE, false, &mut pool);
    assert_eq!(err, Err(MapError::NoFrame));
}

#[test]
fn patch_physmap_uc_sets_pcd_pwt() {
    let mut pool = Pool::new(64);
    let mut pt = make_tables(&mut pool);
    let physmap_base: u64 = 0xFFFF_8000_0000_0000;
    let phys: u64 = 0;
    let len: u64 = 8 * PAGE_SIZE_2M;
    // Build a mini physmap of 8 2 MiB pages starting at phys 0.
    pt.map_range_2m(physmap_base, phys, len, PTE_WRITABLE | PTE_NX | PTE_GLOBAL, false, &mut pool).unwrap();
    // Patch the middle two 2 MiB pages via an unaligned request. The
    // function rounds outward so both are patched.
    let touched = pt.patch_physmap_uc(physmap_base, 2 * PAGE_SIZE_2M + 100, PAGE_SIZE_2M + 4096).unwrap();
    assert_eq!(touched, 2);

    // Read back the PD entries. The physmap base sits at PML4 index 256,
    // PDPT index 0, PD entries 2 and 3.
    let pml4_e = pt.entry(pt.pml4_phys(), pml4_index(physmap_base));
    let pdpt_e = pt.entry(pml4_e & PTE_ADDR_MASK, 0);
    let pd = pdpt_e & PTE_ADDR_MASK;
    for i in 0..8 {
        let e = pt.entry(pd, i);
        let uc = e & PTE_UC == PTE_UC;
        assert_eq!(uc, i == 2 || i == 3, "index {i} uc={uc}");
    }
}

#[test]
fn mmio_window_constants_agree_with_design() {
    assert_eq!(MMIO_WINDOW_START, 0xFFFF_E000_0000_0000);
    assert_eq!(MMIO_WINDOW_END, 0xFFFF_E000_1000_0000);
    assert_eq!(MMIO_WINDOW_LEN, 256 * 1024 * 1024);
    assert!(is_canonical(MMIO_WINDOW_START));
    assert!(is_canonical(MMIO_WINDOW_END - 1));
}

#[test]
fn non_canonical_and_unmapped_translate_to_none() {
    let mut pool = Pool::new(8);
    let pt = make_tables(&mut pool);
    assert_eq!(pt.translate(0x0001_0000_0000_0000), None);
    assert_eq!(pt.translate(0xFFFF_FFFF_8000_0000), None);
    assert_eq!(pt.pml4_phys(), 0x0040_0000);
    assert_eq!(pt.hhdm_offset(), 0);
}

#[test]
fn frame_already_holding_a_table_is_refused() {
    // An allocator that keeps handing out the root frame.
    struct Same(u64);
    impl FrameAllocator for Same {
        fn alloc_zeroed(&mut self) -> Option<u64> {
            Some(self.0)
        }
    }
    let mut pt = PageTables::new(0x1000, 0);
    let mut same = Same(0x1000);
    assert_eq!(pt.map_page(0x40_0000, 0x2000, PTE_WRITABLE, false, &mut same), Err(MapError::NoFrame));
    assert_eq!(pt.translate(0x40_0000), None);
}

#[test]
fn map_range_2m_leaves_neighbours_alone() {
    let mut pool = Pool::new(64);
    let mut pt = make_tables(&mut pool);
    let virt: u64 = 0xFFFF_8000_0040_0000;
    pt.map_page(0xFFFF_8000_0000_1000, 0x9000, PTE_WRITABLE, false, &mut pool).unwrap();
    pt.map_range_2m(virt, 0x0080_0000, 2 * PAGE_SIZE_2M, PTE_WRITABLE, false, &mut pool).unwrap();
    assert_eq!(pt.translate(virt), Some(0x0080_0000));
    assert_eq!(pt.translate(virt + PAGE_SIZE_2M + 0x123), Some(0x00A0_0123));
    assert_eq!(pt.translate(0xFFFF_8000_0000_1000), Some(0x9000));
    assert_eq!(pt.translate(virt + 2 * PAGE_SIZE_2M), None);
}

#[test]
fn unmap_clears_only_its_page() {
    let mut pool = Pool::new(64);
    let mut pt = make_tables(&mut pool);
    let v: u64 = 0xFFFF_FFFF_8000_0000;
    pt.map_range_4k(v, 0x0030_0000, 3 * PAGE_SIZE, PTE_WRITABLE, false, &mut pool).unwrap();
    assert_eq!(pt.unmap_page(v + PAGE_SIZE), Some(0x0030_1000));
    assert_eq!(pt.translate(v), Some(0x0030_0000));
    assert_eq!(pt.translate(v + PAGE_SIZE), None);
    assert_eq!(pt.translate(v + 2 * PAGE_SIZE + 8), Some(0x0030_2008));
}

#[test]
fn attach_links_a_fresh_table_or_refuses() {
    let mut pt = PageTables::new(0x1000, 0);
    assert_eq!(pt.attach(0x1000, 5, None), Err(MapError::NoFrame));
    assert_eq!(pt.entry(0x1000, 5), 0);
    assert_eq!(pt.attach(0x1000, 5, Some(0x2000)), Ok(0x2000));
    assert_eq!(pt.entry(0x1000, 5) & PTE_ADDR_MASK, 0x2000);
    assert_eq!(pt.entry(0x1000, 5) & PTE_WRITABLE, PTE_WRITABLE);
    assert_eq!(pt.entry(0x2000, 0), 0);
    // A frame that already holds a table is refused.
    assert_eq!(pt.attach(0x1000, 6, Some(0x2000)), Err(MapError::NoFrame));
    assert_eq!(pt.entry(0x1000, 6), 0);
    // No address resolves through a table with nothing in it.
    assert_eq!(pt.translate(5u64 << 39), None);
}
