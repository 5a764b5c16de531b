use vibeos::pmm::{crosses_boundary, Buddy, MAX_ORDER, PAGE_SIZE};

/// 4 MiB aligned so a 1024-frame pool registers as one order-10 block.
const TEST_PHYS_BASE: u64 = 0x0040_0000;

struct Pool {
    phys_base: u64,
    phys_end: u64,
    buddy: Buddy,
}

impl Pool {
    fn new(frames: usize) -> Self {
        let phys_end = TEST_PHYS_BASE + (frames as u64) * PAGE_SIZE;
        let mut buddy = Buddy::new(0);
        buddy.insert_region(TEST_PHYS_BASE, phys_end);
        Self { phys_base: TEST_PHYS_BASE, phys_end, buddy }
    }

    fn contains(&self, phys: u64) -> bool {
        phys >= self.phys_base && phys < self.phys_end
    }
}

#[test]
fn pmm_exhaustion_returns_none() {
    let mut p = Pool::new(16);
    // 16 frames, order 0. Drain them one at a time.
    let mut taken = Vec::new();
    while let Some(a) = p.buddy.allocate(0) {
        taken.push(a);
    }
    assert_eq!(taken.len(), 16);
    assert!(p.buddy.allocate(0).is_none());
    assert!(p.buddy.allocate(3).is_none());
    // Now free everything and confirm we're back at 16 free.
    for a in taken {
        p.buddy.deallocate(a, 0);
    }
    assert_eq!(p.buddy.stats().free_frames, 16);
}

#[test]
fn per_order_alignment() {
    let mut p = Pool::new(1024);
    for order in 0u8..=(MAX_ORDER as u8) {
        let block = p.buddy.allocate(order).expect("order fits in 1024 frames");
        let block_size = PAGE_SIZE << order;
        assert!(block & (block_size - 1) == 0, "order {order} allocation {block:#x} not aligned to {block_size:#x}");
        assert!(p.contains(block));
        p.buddy.deallocate(block, order);
    }
}

#[test]
fn stats_track_totals_and_largest() {
    let mut p = Pool::new(1024);
    let s0 = p.buddy.stats();
    assert_eq!(s0.total_frames, 1024);
    assert_eq!(s0.free_frames, 1024);
    // 1024 frames = one order-10 block, so that's the largest.
    assert_eq!(s0.largest_free_order, Some(10));

    // Take an order-3 block; largest order stays.
    let a = p.buddy.allocate(3).unwrap();
    let s1 = p.buddy.stats();
    assert_eq!(s1.free_frames, 1024 - 8);

    p.buddy.deallocate(a, 3);
    let s2 = p.buddy.stats();
    assert_eq!(s2, s0, "state after alloc+free must equal initial");
}

#[test]
fn coalescing_after_freeing_alternate_blocks() {
    // Start with one order-3 block worth of frames: 8 frames.
    let mut p = Pool::new(8);
    assert_eq!(p.buddy.stats().largest_free_order, Some(3));

    // Split all the way down: allocate all 8 as order-0.
    let mut frames = Vec::new();
    for _ in 0..8 {
        frames.push(p.buddy.allocate(0).unwrap());
    }
    assert_eq!(p.buddy.stats().free_frames, 0);
    assert_eq!(p.buddy.stats().largest_free_order, None);

    // Freeing frames [0,2,4,6] leaves each with an allocated buddy, so
    // nothing merges.
    frames.sort();
    for &f in &[frames[0], frames[2], frames[4], frames[6]] {
        p.buddy.deallocate(f, 0);
    }
    let mid = p.buddy.stats();
    assert_eq!(mid.free_frames, 4);
    assert_eq!(mid.largest_free_order, Some(0));

    // Now free the odd ones; each free should cascade all the way back up
    // to the single order-3 block we started with.
    for &f in &[frames[1], frames[3], frames[5], frames[7]] {
        p.buddy.deallocate(f, 0);
    }
    let end = p.buddy.stats();
    assert_eq!(end.free_frames, 8);
    assert_eq!(end.largest_free_order, Some(3), "coalesce did not reach the original order-3 block");
}

#[test]
fn split_and_merge_across_orders() {
    let mut p = Pool::new(16); // one order-4 block
    assert_eq!(p.buddy.stats().largest_free_order, Some(4));
    let a = p.buddy.allocate(2).unwrap(); // splits 4 -> 3 -> 2
    let s = p.buddy.stats();
    assert_eq!(s.free_frames, 12);
    // We should now have one free block at each of orders 2 and 3.
    assert_eq!(s.largest_free_order, Some(3));
    p.buddy.deallocate(a, 2);
    assert_eq!(p.buddy.stats().largest_free_order, Some(4));
}

#[test]
fn random_alloc_free_returns_to_initial() {
    // Tiny deterministic LCG so this test is reproducible.
    let mut rng: u64 = 0x1234_5678_9abc_def0;
    let mut next = || {
        rng = rng.wrapping_mul(6364136223846793005).wrapping_add(1442695040888963407);
        rng
    };

    let mut p = Pool::new(256);
    let baseline = p.buddy.stats();

    let mut live: Vec<(u64, u8)> = Vec::new();
    for _ in 0..5000 {
        // Bias toward smaller orders so we exercise splits and merges
        // rather than immediately exhausting the pool.
        let coin = next() & 0xff;
        let free = coin < 0x80 && !live.is_empty();
        if free {
            let i = (next() as usize) % live.len();
            let (a, o) = live.swap_remove(i);
            p.buddy.deallocate(a, o);
        } else {
            let order = ((next() & 0x7) as u8).min(5);
            if let Some(a) = p.buddy.allocate(order) {
                live.push((a, order));
            }
        }
    }
    // Drain remaining allocations.
    for (a, o) in live.drain(..) {
        p.buddy.deallocate(a, o);
    }
    let end = p.buddy.stats();
    assert_eq!(end, baseline, "random alloc/free stream must restore the initial free count and largest order");
}

#[test]
fn insert_region_skips_frame_zero() {
    let mut buddy = Buddy::new(0);
    buddy.insert_region(0, 32 * PAGE_SIZE);
    assert_eq!(buddy.stats().total_frames, 31);
}

#[test]
fn insert_region_trims_unaligned_edges() {
    // Only the aligned interior -- 8 whole pages -- should register.
    let mut buddy = Buddy::new(0);
    buddy.insert_region(TEST_PHYS_BASE + 100, TEST_PHYS_BASE + 9 * PAGE_SIZE + 200);
    assert_eq!(buddy.stats().total_frames, 8);
}

#[test]
fn constrained_alloc_align_and_boundary() {
    assert_eq!(Buddy::order_for(1, PAGE_SIZE), Some(0));
    assert_eq!(Buddy::order_for(0x1800, 0x2000), Some(1));
    assert!(Buddy::order_for(0, PAGE_SIZE).is_none());
    assert!(crosses_boundary(0xFFFF_F800, 0x1000, 1u64 << 32));
    assert!(!crosses_boundary(0x1000, 0x1000, 1u64 << 32));
    let mut p = Pool::new(64);
    let (phys, order) = p.buddy.allocate_constrained(0x1000, 0x2000, 1u64 << 32).unwrap();
    assert_eq!(order, 1);
    assert_eq!(phys & 0x1FFF, 0);
    p.buddy.deallocate(phys, order);
    // 4K request with a 2K boundary always straddles: refuse.
    assert!(p.buddy.allocate_constrained(0x1000, PAGE_SIZE, 0x800).is_none());
    assert_eq!(p.buddy.stats().free_frames, 64);
}

#[test]
fn order_for_edge_cases() {
    assert_eq!(Buddy::order_for(PAGE_SIZE << 10, 0), Some(10));
    assert_eq!(Buddy::order_for((PAGE_SIZE << 10) + 1, 0), None);
    assert_eq!(Buddy::order_for(1, 3), None);
    assert_eq!(Buddy::order_for(1, 0), Some(0));
    assert_eq!(Buddy::order_for(1, 0x10_0000), Some(8));
    assert!(!crosses_boundary(0x1000, 0, 0x800));
    assert!(!crosses_boundary(0x1000, 0x1000, 0));
}

#[test]
fn frames_and_hhdm_accounting() {
    let mut b = Buddy::new(0xFFFF_8000_0000_0000);
    assert_eq!(b.hhdm_offset(), 0xFFFF_8000_0000_0000);
    b.insert_region(0x10_0000, 0x10_0000 + 3 * PAGE_SIZE);
    let s = b.stats();
    assert_eq!(s.total_frames, 3);
    assert_eq!(s.free_frames, 3);
    assert_eq!(s.largest_free_order, Some(1));
    let f = b.allocate_frame().unwrap();
    assert_eq!(b.stats().free_frames, 2);
    b.deallocate_frame(f);
    assert_eq!(b.stats().free_frames, 3);
}

#[test]
fn blocks_handed_out_do_not_overlap() {
    let mut p = Pool::new(64);
    let mut held: Vec<(u64, u64)> = Vec::new();
    for order in [0u8, 2, 1, 3, 0, 4] {
        let a = p.buddy.allocate(order).unwrap();
        let size = PAGE_SIZE << order;
        assert!(p.contains(a) && p.contains(a + size - 1));
        for &(b, bs) in &held {
            assert!(a + size <= b || b + bs <= a, "{a:#x}+{size:#x} overlaps {b:#x}+{bs:#x}");
        }
        held.push((a, size));
    }
}

#[test]
fn free_then_alloc_hands_back_the_same_memory() {
    let mut p = Pool::new(16);
    let a = p.buddy.allocate(2).unwrap();
    let before = p.buddy.stats();
    p.buddy.deallocate(a, 2);
    let b = p.buddy.allocate(2).unwrap();
    assert_eq!(b, a);
    assert_eq!(p.buddy.stats(), before);
}
