use vibeos::kva::{Kva, KvaError, KVA_END, KVA_SIZE, KVA_START, PAGE_SIZE};

fn fresh() -> Kva {
    let mut k = Kva::empty();
    k.init(KVA_START, 64 * PAGE_SIZE).unwrap();
    k
}

#[test]
fn first_fit_from_front() {
    let mut k = fresh();
    let a = k.allocate(2 * PAGE_SIZE).unwrap();
    assert_eq!(a, KVA_START);
    let b = k.allocate(PAGE_SIZE).unwrap();
    assert_eq!(b, KVA_START + 2 * PAGE_SIZE);
    assert_eq!(k.stats().used, 3 * PAGE_SIZE);
}

#[test]
fn freed_ranges_go_to_tail() {
    let mut k = fresh();
    let a = k.allocate(2 * PAGE_SIZE).unwrap();
    let _b = k.allocate(2 * PAGE_SIZE).unwrap();
    k.free(a, 2 * PAGE_SIZE).unwrap();
    // The just-freed `a` sits at the tail, so the next first-fit of 2
    // pages takes the leftover, not `a`.
    let c = k.allocate(2 * PAGE_SIZE).unwrap();
    assert_ne!(c, a, "freshly freed range must not be the next first-fit");
    assert_eq!(c, KVA_START + 4 * PAGE_SIZE);
    let list = k.free_list();
    assert_eq!(list.last().unwrap().0, a);
}

#[test]
fn alloc_free_roundtrip_restores_used() {
    let mut k = fresh();
    let s0 = k.stats();
    let a = k.allocate(8 * PAGE_SIZE).unwrap();
    assert_eq!(k.stats().used, 8 * PAGE_SIZE);
    k.free(a, 8 * PAGE_SIZE).unwrap();
    assert_eq!(k.stats().used, s0.used);
    assert_eq!(k.stats().capacity, s0.capacity);
}

#[test]
fn guarded_reserves_pages_plus_one() {
    let mut k = fresh();
    let guard = k.alloc_guarded(4).unwrap();
    assert_eq!(guard, KVA_START);
    assert_eq!(k.stats().used, 5 * PAGE_SIZE);
    k.free(guard, 5 * PAGE_SIZE).unwrap();
    assert_eq!(k.stats().used, 0);
}

#[test]
fn kva_exhaustion_returns_none() {
    let mut k = fresh();
    assert!(k.allocate(64 * PAGE_SIZE).is_some());
    assert!(k.allocate(PAGE_SIZE).is_none());
    assert!(k.alloc_guarded(1).is_none());
}

#[test]
fn reject_unaligned_and_zero() {
    let mut k = fresh();
    assert!(k.allocate(0).is_none());
    assert!(k.allocate(PAGE_SIZE - 1).is_none());
    assert!(k.alloc_guarded(0).is_none());
}

#[test]
fn split_leaves_remainder_in_place() {
    let mut k = fresh();
    let a = k.allocate(PAGE_SIZE).unwrap();
    assert_eq!(a, KVA_START);
    let list = k.free_list();
    assert_eq!(list.len(), 1);
    assert_eq!(list[0], (KVA_START + PAGE_SIZE, 63 * PAGE_SIZE));
}

#[test]
fn init_ok_on_fresh_window() {
    let mut k = Kva::empty();
    assert_eq!(k.init(KVA_START, PAGE_SIZE), Ok(()));
    assert_eq!(k.stats().capacity, PAGE_SIZE);
    assert_eq!(k.stats().used, 0);
    assert_eq!(k.stats().free_ranges, 1);
}

#[test]
fn window_constants() {
    assert_eq!(KVA_SIZE, 64 * 1024 * 1024 * 1024);
    assert_eq!(KVA_END, KVA_START + KVA_SIZE);
    assert_eq!(KvaError::Exhausted.as_str(), "exhausted");
}

#[test]
fn full_list_coalesces_adjacent_frees() {
    // 128 one-page frees fill the list; the next free coalesces them into
    // address order and merges neighbours that touch.
    let mut k = Kva::empty();
    k.init(KVA_START, 256 * PAGE_SIZE).unwrap();
    let mut pages = Vec::new();
    for _ in 0..256 {
        pages.push(k.allocate(PAGE_SIZE).unwrap());
    }
    assert!(k.allocate(PAGE_SIZE).is_none());
    // Free in reverse so the list is in descending address order.
    for &p in pages[..128].iter().rev() {
        k.free(p, PAGE_SIZE).unwrap();
    }
    assert_eq!(k.stats().free_ranges, 128);
    k.free(pages[200], PAGE_SIZE).unwrap();
    let list = k.free_list();
    assert_eq!(list.len(), 2);
    assert_eq!(list[0], (KVA_START, 128 * PAGE_SIZE));
    assert_eq!(list[1], (pages[200], PAGE_SIZE));
    assert_eq!(k.stats().used, 127 * PAGE_SIZE);
}

#[test]
fn full_list_without_merges_is_exhausted() {
    // Every other page freed: nothing touches, so the coalesced list is
    // still full and the next free is refused.
    let mut k = Kva::empty();
    k.init(KVA_START, 512 * PAGE_SIZE).unwrap();
    let mut pages = Vec::new();
    for _ in 0..512 {
        pages.push(k.allocate(PAGE_SIZE).unwrap());
    }
    for i in 0..128 {
        k.free(pages[2 * i], PAGE_SIZE).unwrap();
    }
    assert_eq!(k.free(pages[301], PAGE_SIZE), Err(KvaError::Exhausted));
    assert_eq!(k.stats().free_ranges, 128);
}

#[test]
fn used_and_free_bytes_fill_the_window() {
    let mut k = Kva::empty();
    k.init(0x1000_0000, 64 * 4096).unwrap();
    let a = k.allocate(4 * 4096).unwrap();
    let g = k.alloc_guarded(2).unwrap();
    k.free(a, 4 * 4096).unwrap();
    let s = k.stats();
    let free: u64 = k.free_list().iter().map(|r| r.1).sum();
    assert_eq!(s.capacity, 64 * 4096);
    assert_eq!(s.used + free, s.capacity);
    assert_eq!(s.used, 3 * 4096);
    k.free(g, 3 * 4096).unwrap();
    assert_eq!(k.stats().used, 0);
}
