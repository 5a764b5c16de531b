use vibeos::paging::{FrameAllocator, MapError, PageTables, PAGE_SIZE, PTE_ADDR_MASK};
use vibeos::paging_init::{
    install, physmap_extent, stack_copy_slot, KernelImage, Section, StackCopyError, HHDM_BASE, LOW_ID_EXEC_FLAGS,
    LOW_ID_TAIL_FLAGS,
};

struct Pool {
    next: u64,
    left: usize,
}

impl FrameAllocator for Pool {
    fn alloc_zeroed(&mut self) -> Option<u64> {
        if self.left == 0 {
            return None;
        }
        self.left -= 1;
        let f = self.next;
        self.next += PAGE_SIZE;
        Some(f)
    }
}

const KVMA: u64 = 0xFFFF_FFFF_8000_0000;
const TEXT_FLAGS: u64 = 0x101;
const RODATA_FLAGS: u64 = 0x8000_0000_0000_0101;
const DATA_FLAGS: u64 = 0x8000_0000_0000_0103;
const PHYSMAP_FLAGS: u64 = 0x8000_0000_0000_0103;

fn image() -> KernelImage {
    KernelImage {
        phys_base: 0x20_0000,
        vma_start: KVMA,
        vma_end: KVMA + 0x9000,
        limine_requests: Section { start: KVMA, end: KVMA + 0x1000, flags: RODATA_FLAGS },
        text: Section { start: KVMA + 0x1000, end: KVMA + 0x3800, flags: TEXT_FLAGS },
        rodata: Section { start: KVMA + 0x4000, end: KVMA + 0x5000, flags: RODATA_FLAGS },
        data: Section { start: KVMA + 0x5000, end: KVMA + 0x9000, flags: DATA_FLAGS },
    }
}

#[test]
fn physmap_extent_rounds_and_caps() {
    let img = image();
    assert_eq!(physmap_extent(&img, 0x1000_0001, 0), 0x1020_0000);
    assert_eq!(physmap_extent(&img, 0, 0), 0x40_0000);
    assert_eq!(physmap_extent(&img, 0x100, 0x3000_0000), 0x3000_0000);
    assert_eq!(physmap_extent(&img, 64 << 30, 0), 8 << 30);
}

#[test]
fn install_maps_image_physmap_and_low_identity() {
    let mut pool = Pool { next: 0x1000_0000, left: 4096 };
    let root = pool.alloc_zeroed().unwrap();
    let mut pt = PageTables::new(root, 0);
    let img = image();
    let rep = install(&mut pt, &mut pool, &img, PHYSMAP_FLAGS, 0x0800_0000, 0, HHDM_BASE + 0x10_0000).unwrap();
    assert_eq!(rep.map_end, 0x0800_0000);
    assert_eq!(rep.kernel_text_bytes, 0x3000);
    assert_eq!(rep.kernel_rodata_bytes, 0x1000);
    assert_eq!(rep.kernel_data_bytes, 0x4000);
    assert!(!rep.duplicated_stack_entry);
    // .text: rounded out to 0x1000..0x4000, loaded at phys_base + 0x1000.
    assert_eq!(pt.translate(KVMA + 0x1000), Some(0x20_1000 | (TEXT_FLAGS & PTE_ADDR_MASK)));
    assert_eq!(pt.translate(KVMA + 0x3000), Some(0x20_3000));
    assert_eq!(pt.translate(KVMA + 0x8000), Some(0x20_8000));
    // Physmap with 2 MiB pages.
    assert_eq!(pt.translate(HHDM_BASE + 0x0060_0000), Some(0x0060_0000));
    assert_eq!(pt.translate(HHDM_BASE + 0x0060_1234), Some(0x0060_1234));
    assert_eq!(pt.translate(HHDM_BASE + 0x0800_0000), None);
    // Low identity: 512 MiB.
    assert_eq!(pt.translate(0x8000), Some(0x8000));
    assert_eq!(pt.translate(0x1FFF_F000), Some(0x1FFF_F000));
    assert_eq!(pt.translate(0x2000_0000), None);
    assert_eq!(LOW_ID_EXEC_FLAGS & (1 << 63), 0);
    assert_ne!(LOW_ID_TAIL_FLAGS & (1 << 63), 0);
}

#[test]
fn install_stops_when_frames_run_out() {
    let mut pool = Pool { next: 0x1000_0000, left: 3 };
    let root = pool.alloc_zeroed().unwrap();
    let mut pt = PageTables::new(root, 0);
    assert_eq!(
        install(&mut pt, &mut pool, &image(), PHYSMAP_FLAGS, 0x0800_0000, 0, HHDM_BASE).err(),
        Some(MapError::NoFrame)
    );
}

#[test]
fn install_flags_a_stack_outside_the_new_tables() {
    let mut pool = Pool { next: 0x1000_0000, left: 4096 };
    let root = pool.alloc_zeroed().unwrap();
    let mut pt = PageTables::new(root, 0);
    let rsp = 0xFFFF_9000_0000_1000;
    let rep = install(&mut pt, &mut pool, &image(), PHYSMAP_FLAGS, 0x0800_0000, 0, rsp).unwrap();
    assert!(rep.duplicated_stack_entry);
    assert_eq!(pt.translate(rsp), None);
    // The stack's PML4 slot (index 288) is free in the new tables.
    assert_eq!(stack_copy_slot(&pt, rsp, 0x5000_0003), Ok(288));
    // A stack in the physmap shares slot 256 with it: copying would clobber it.
    assert_eq!(stack_copy_slot(&pt, HHDM_BASE + 0x10_0000, 0x5000_0003), Err(StackCopyError::SlotTaken));
    // Nothing to copy when the bootloader's entry is not present.
    assert_eq!(stack_copy_slot(&pt, rsp, 0x5000_0000), Err(StackCopyError::NotMapped));
}

#[test]
fn install_fails_on_a_slot_already_mapped() {
    let mut pool = Pool { next: 0x1000_0000, left: 4096 };
    let root = pool.alloc_zeroed().unwrap();
    let mut pt = PageTables::new(root, 0);
    pt.map_page(KVMA + 0x2000, 0x7000, 0x3, false, &mut pool).unwrap();
    assert_eq!(
        install(&mut pt, &mut pool, &image(), PHYSMAP_FLAGS, 0x0800_0000, 0, HHDM_BASE).err(),
        Some(MapError::AlreadyMapped)
    );
}

#[test]
fn install_needs_no_frame_when_tables_are_ready() {
    let mut pool = Pool { next: 0x1000_0000, left: 4096 };
    let root = pool.alloc_zeroed().unwrap();
    let mut pt = PageTables::new(root, 0);
    // A PT under the image, with its entries empty again.
    pt.map_page(KVMA, 0x7000, 0x3, false, &mut pool).unwrap();
    assert_eq!(pt.unmap_page(KVMA), Some(0x7000));
    // A PD under the physmap and one under the low window, their slots in
    // the windows empty.
    pt.map_2m(HHDM_BASE + 0x3FE0_0000, 0, 0x83, false, &mut pool).unwrap();
    pt.map_2m(0x3FE0_0000, 0, 0x83, false, &mut pool).unwrap();
    let mut empty = Pool { next: 0x2000_0000, left: 0 };
    let rep = install(&mut pt, &mut empty, &image(), PHYSMAP_FLAGS, 0x0800_0000, 0, HHDM_BASE).unwrap();
    assert_eq!(rep.map_end, 0x0800_0000);
    assert!(!rep.duplicated_stack_entry);
    assert_eq!(pt.translate(KVMA + 0x3000), Some(0x20_3000));
    assert_eq!(pt.translate(HHDM_BASE + 0x0060_1234), Some(0x0060_1234));
    assert_eq!(pt.translate(0x1FFF_F000), Some(0x1FFF_F000));
}

#[test]
fn install_refuses_a_window_slot_holding_a_page_table() {
    let mut pool = Pool { next: 0x1000_0000, left: 4096 };
    let root = pool.alloc_zeroed().unwrap();
    let mut pt = PageTables::new(root, 0);
    // A page table under the physmap's first 2 MiB, mapping nothing.
    pt.map_page(HHDM_BASE + 0x10_0000, 0x7000, 0x3, false, &mut pool).unwrap();
    assert_eq!(pt.unmap_page(HHDM_BASE + 0x10_0000), Some(0x7000));
    assert_eq!(pt.translate(HHDM_BASE + 0x10_0000), None);
    assert_eq!(
        install(&mut pt, &mut pool, &image(), PHYSMAP_FLAGS, 0x0800_0000, 0, HHDM_BASE).err(),
        Some(MapError::AlreadyMapped)
    );
}
