use vibeos::pmm::{Buddy, PAGE_SIZE};
use vibeos::pmm_init::{clip_pieces, init, insert_clipped, Excludes, Range, AP_TRAMPOLINE_PHYS, PHYSMAP_CAP};

fn r(start: u64, end: u64) -> Range {
    Range { start, end }
}

fn drain(b: &mut Buddy) -> Vec<u64> {
    let mut out = Vec::new();
    while let Some(a) = b.allocate(0) {
        out.push(a);
    }
    out.sort();
    out
}

#[test]
fn excludes_round_out_and_sort() {
    let mut e = Excludes::new();
    assert!(e.push(0x5123, 0x6001));
    assert!(e.push(0x1000, 0x2000));
    assert!(e.push(0x3000, 0x3000));
    e.sort();
    assert_eq!(e.as_slice(), &[r(0x1000, 0x2000), r(0x5000, 0x7000)]);
    for i in 0..6u64 {
        assert!(e.push(0x10_0000 * (i + 1), 0x10_0000 * (i + 1) + 1));
    }
    assert!(!e.push(0x900_0000, 0x900_1000));
    assert_eq!(e.as_slice().len(), 8);
}

#[test]
fn clipping_cuts_out_each_exclude() {
    let ex = [r(0x2000, 0x3000), r(0x2800, 0x4000), r(0x8000, 0x9000)];
    assert_eq!(clip_pieces(0x1000, 0xA000, &ex), vec![r(0x1000, 0x2000), r(0x4000, 0x8000), r(0x9000, 0xA000)]);
    assert_eq!(clip_pieces(0x2000, 0x4000, &ex), vec![]);
    assert_eq!(clip_pieces(0x2100, 0x2200, &[]), vec![r(0x2100, 0x2200)]);
    assert_eq!(clip_pieces(0x5000, 0x1000, &ex), vec![]);
}

#[test]
fn insert_clipped_frees_only_the_pieces() {
    let mut b = Buddy::new(0);
    let _ = insert_clipped(&mut b, 0x1_0000, 0x2_0000, &[r(0x1_4000, 0x1_6000)]);
    let got = drain(&mut b);
    assert_eq!(got.len(), 14);
    assert!(!got.contains(&0x1_4000) && !got.contains(&0x1_5000));
    assert!(got.contains(&0x1_0000) && got.contains(&0x1_F000));
}

#[test]
fn init_keeps_trampoline_kernel_and_framebuffer_out() {
    let mut b = Buddy::new(0);
    let usable = [r(0, 0x9_F000), r(0x10_0000, 0x40_0000)];
    let kernel = r(0x20_0000, 0x28_0800);
    let fb = [r(0x3F_0000, 0x3F_8000)];
    let (stats, kept) = init(&mut b, &usable, kernel, &fb);
    assert!(kept);
    // 0x1000..0x9F000 minus the trampoline page, plus 1 MiB..4 MiB minus
    // the kernel (0x200000..0x281000) and the framebuffer.
    let low = (0x9_F000 - 0x1000) / PAGE_SIZE - 1;
    let high = (0x30_0000 - 0x8_1000 - 0x8000) / PAGE_SIZE;
    assert_eq!(stats.total_frames as u64, low + high);
    assert_eq!(stats.free_frames as u64, low + high);
    let got = drain(&mut b);
    assert!(!got.contains(&0));
    assert!(!got.contains(&AP_TRAMPOLINE_PHYS));
    assert!(!got.contains(&0x20_0000) && !got.contains(&0x28_0000));
    assert!(got.contains(&0x28_1000));
    assert!(!got.contains(&0x3F_0000));
    assert!(got.iter().all(|&a| a < PHYSMAP_CAP));
}

#[test]
fn init_stops_at_the_physmap_cap() {
    let mut b = Buddy::new(0);
    let usable = [r(PHYSMAP_CAP - 0x2000, PHYSMAP_CAP + 0x10_0000), r(PHYSMAP_CAP + 0x20_0000, PHYSMAP_CAP + 0x30_0000)];
    let (stats, _) = init(&mut b, &usable, r(0x20_0000, 0x20_1000), &[]);
    assert_eq!(stats.total_frames, 2);
}

#[test]
fn init_hands_out_a_framebuffer_the_full_list_dropped() {
    let mut b = Buddy::new(0);
    let usable = [r(0, 0x100_0000)];
    let kernel = r(0x20_0000, 0x30_0000);
    let fbs: Vec<Range> = (0..7u64).map(|i| r(0x40_0000 + i * 0x1_0000, 0x40_0000 + i * 0x1_0000 + 1)).collect();
    let (stats, kept) = init(&mut b, &usable, kernel, &fbs);
    assert!(!kept);
    // 4096 frames, less frame 0, the trampoline, 256 kernel frames and the
    // six framebuffer pages that found room in the list.
    assert_eq!(stats.total_frames, 4096 - 1 - 1 - 256 - 6);
    assert_eq!(stats.free_frames, 4096 - 1 - 1 - 256 - 6);
    let got = drain(&mut b);
    assert!(!got.contains(&0x45_0000));
    assert!(got.contains(&0x46_0000));
}
