use vibeos::lock::{
    acquire_mask, can_acquire, cpu_lock_order, rank_bit, release_mask, RANK_BUDDY, RANK_DEVICE, RANK_HEAP,
    RANK_PT, RANK_SCHED, RANK_SERIAL,
};

#[test]
fn ranks_are_the_documented_order() {
    assert_eq!(RANK_PT, 1);
    assert_eq!(RANK_BUDDY, 2);
    assert_eq!(RANK_HEAP, 3);
    assert_eq!(RANK_SCHED, 4);
    assert_eq!(RANK_DEVICE, 5);
    assert_eq!(RANK_SERIAL, 6);
    assert!(RANK_PT < RANK_BUDDY);
    assert!(RANK_BUDDY < RANK_HEAP);
    assert!(RANK_HEAP < RANK_SCHED);
    assert!(RANK_SCHED < RANK_DEVICE);
    assert!(RANK_DEVICE < RANK_SERIAL);
}

#[test]
fn acquire_increasing_is_ok() {
    let mut h = 0u8;
    assert!(can_acquire(h, RANK_PT));
    h = acquire_mask(h, RANK_PT);
    assert!(can_acquire(h, RANK_BUDDY));
    h = acquire_mask(h, RANK_BUDDY);
    assert!(can_acquire(h, RANK_HEAP));
    h = acquire_mask(h, RANK_HEAP);
    assert!(can_acquire(h, RANK_SCHED));
    h = acquire_mask(h, RANK_SERIAL);
    assert_eq!(h & rank_bit(RANK_PT), rank_bit(RANK_PT));
    h = release_mask(h, RANK_SERIAL);
    h = release_mask(h, RANK_HEAP);
    h = release_mask(h, RANK_BUDDY);
    h = release_mask(h, RANK_PT);
    assert_eq!(h, 0);
}

#[test]
fn heap_then_buddy_is_forbidden() {
    let h = acquire_mask(0, RANK_HEAP);
    assert!(!can_acquire(h, RANK_BUDDY));
    assert!(!can_acquire(h, RANK_PT));
    assert!(can_acquire(h, RANK_SCHED));
    assert!(can_acquire(h, RANK_SERIAL));
    assert!(can_acquire(h, 0));
}

#[test]
fn cpu_pair_lower_id_first() {
    assert_eq!(cpu_lock_order(0, 3), (0, 3));
    assert_eq!(cpu_lock_order(3, 0), (0, 3));
    assert_eq!(cpu_lock_order(2, 2), (2, 2));
}

#[test]
fn release_undoes_acquire() {
    for rank in 1..=6u8 {
        let held = acquire_mask(0, RANK_PT);
        assert_eq!(release_mask(acquire_mask(held, rank), rank), held & !rank_bit(rank));
    }
    assert_eq!(rank_bit(3), 0b100);
}
