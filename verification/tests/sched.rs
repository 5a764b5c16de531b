use vibeos::sched::{
    effective_deadline, enqueue_runnable, far_deadline, should_preempt, take_next, wake_expired, ReadyQueue,
    TimeoutQueue, OVERDUE_NS, QUANTUM_TICKS,
};
use vibeos::thread::{ThreadId, ThreadState};
use vibeos::time::Instant;

fn tid(n: u32) -> ThreadId {
    ThreadId(n)
}

fn at(ns: u64) -> Instant {
    Instant { ns }
}

#[test]
fn ready_fifo_round_robin() {
    let mut q = ReadyQueue::empty();
    assert!(q.is_empty());
    q.push_back(tid(1));
    q.push_back(tid(2));
    q.push_back(tid(3));
    assert_eq!(q.len(), 3);
    assert_eq!(q.front(), Some(tid(1)));
    assert_eq!(q.pop_front(), Some(tid(1)));
    q.push_back(tid(1));
    assert_eq!(q.pop_front(), Some(tid(2)));
    assert_eq!(q.pop_front(), Some(tid(3)));
    assert_eq!(q.pop_front(), Some(tid(1)));
    assert_eq!(q.pop_front(), None);
    q.push_back(tid(4));
    q.push_back(tid(4));
    assert_eq!(q.len(), 1);
}

#[test]
fn ready_remove_middle() {
    let mut q = ReadyQueue::empty();
    q.push_back(tid(1));
    q.push_back(tid(2));
    q.push_back(tid(3));
    assert!(q.remove(tid(2)));
    assert!(!q.remove(tid(2)));
    assert_eq!(q.pop_front(), Some(tid(1)));
    assert_eq!(q.pop_front(), Some(tid(3)));
    assert!(q.is_empty());
}

#[test]
fn timeout_orders_by_deadline() {
    let mut t = TimeoutQueue::empty();
    t.insert(tid(3), at(30));
    t.insert(tid(1), at(10));
    t.insert(tid(2), at(20));
    assert_eq!(t.next_deadline(), Some(at(10)));
    assert_eq!(t.pop_expired(at(15)), Some(tid(1)));
    assert_eq!(t.pop_expired(at(15)), None);
    assert_eq!(t.pop_expired(at(20)), Some(tid(2)));
    assert_eq!(t.next_deadline(), Some(at(30)));
    assert_eq!(t.pop_expired(at(30)), Some(tid(3)));
    assert!(t.is_empty());
}

#[test]
fn timeout_equal_deadlines_by_id() {
    let mut t = TimeoutQueue::empty();
    t.insert(tid(5), at(10));
    t.insert(tid(2), at(10));
    t.insert(tid(9), at(10));
    assert_eq!(t.pop_expired(at(10)), Some(tid(2)));
    assert_eq!(t.pop_expired(at(10)), Some(tid(5)));
    assert_eq!(t.pop_expired(at(10)), Some(tid(9)));
}

#[test]
fn timeout_rearm_moves_entry() {
    let mut t = TimeoutQueue::empty();
    t.insert(tid(1), at(50));
    t.insert(tid(1), at(10));
    assert_eq!(t.len(), 1);
    assert_eq!(t.next_deadline(), Some(at(10)));
    assert!(t.remove(tid(1)));
    assert!(t.is_empty());
}

#[test]
fn timeout_far_future_stays() {
    let mut t = TimeoutQueue::empty();
    t.insert(tid(1), far_deadline());
    t.insert(tid(2), at(1));
    assert_eq!(t.pop_expired(at(1_000_000)), Some(tid(2)));
    assert_eq!(t.pop_expired(at(1_000_000)), None);
    assert_eq!(t.next_deadline(), Some(far_deadline()));
}

#[test]
fn overdue_scan() {
    let mut t = TimeoutQueue::empty();
    t.insert(tid(1), at(10));
    t.insert(tid(2), at(10 + OVERDUE_NS));
    let v = t.overdue(at(10 + OVERDUE_NS));
    assert_eq!(v.len(), 1);
    assert_eq!(v[0].id, tid(1));
}

#[test]
fn state_machine_yield_and_idle() {
    let idle = tid(0);
    let a = tid(1);
    let b = tid(2);
    let mut ready = ReadyQueue::empty();
    enqueue_runnable(&mut ready, a, idle, ThreadState::Running);
    enqueue_runnable(&mut ready, idle, idle, ThreadState::Running);
    ready.push_back(b);
    let next = take_next(&mut ready, idle);
    assert_eq!(next, a);
    let next = take_next(&mut ready, idle);
    assert_eq!(next, b);
    enqueue_runnable(&mut ready, b, idle, ThreadState::Dead);
    assert_eq!(take_next(&mut ready, idle), idle);
}

#[test]
fn state_machine_sleep_timeout() {
    let idle = tid(0);
    let a = tid(1);
    let mut ready = ReadyQueue::empty();
    let mut timeouts = TimeoutQueue::empty();
    enqueue_runnable(&mut ready, a, idle, ThreadState::Sleeping { deadline: at(50) });
    assert!(ready.is_empty());
    timeouts.insert(a, at(50));
    let mut woke = 0u32;
    let n = wake_expired(&mut timeouts, &mut ready, at(50), |_| {
        woke += 1;
    });
    assert_eq!(n, 1);
    assert_eq!(woke, 1);
    assert_eq!(take_next(&mut ready, idle), a);
    assert_eq!(take_next(&mut ready, idle), idle);
}

#[test]
fn blocked_timeout_uses_same_queue() {
    let idle = tid(0);
    let a = tid(1);
    let mut ready = ReadyQueue::empty();
    let mut timeouts = TimeoutQueue::empty();
    // The wait queue the thread blocks on: a FIFO of waiting ids.
    let mut wq = ReadyQueue::empty();
    wq.push_back(a);
    timeouts.insert(a, effective_deadline(None));
    let n = wake_expired(&mut timeouts, &mut ready, at(1), |_| {});
    assert_eq!(n, 0);
    assert!(wq.contains(a));
    timeouts.remove(a);
    timeouts.insert(a, at(5));
    let n = wake_expired(&mut timeouts, &mut ready, at(5), |id| {
        wq.remove(id);
    });
    assert_eq!(n, 1);
    assert!(!wq.contains(a));
    assert_eq!(take_next(&mut ready, idle), a);
}

#[test]
fn preempt_quantum_and_idle() {
    assert!(!should_preempt(1, false));
    assert!(should_preempt(10, false));
    assert!(should_preempt(20, false));
    assert!(should_preempt(1, true));
    assert_eq!(QUANTUM_TICKS, 10);
    assert_eq!(effective_deadline(None), far_deadline());
    assert_eq!(effective_deadline(Some(at(3))).ns, 3);
}

#[test]
fn pop_expired_into_takes_due_in_order() {
    let mut t = TimeoutQueue::empty();
    t.insert(tid(4), at(40));
    t.insert(tid(2), at(20));
    t.insert(tid(3), at(20));
    let mut out = [ThreadId::none(); 4];
    let n = t.pop_expired_into(at(25), &mut out);
    assert_eq!(n, 2);
    assert_eq!(&out[..2], &[tid(2), tid(3)]);
    assert_eq!(t.len(), 1);
    assert_eq!(t.get(0).id, tid(4));
}

#[test]
fn ready_queue_listing_and_lookup() {
    let mut q = ReadyQueue::empty();
    q.push_back(tid(7));
    q.push_back(tid(8));
    assert_eq!(q.iter(), vec![tid(7), tid(8)]);
    assert_eq!(q.at(1), tid(8));
    assert!(q.contains(tid(7)));
    assert!(!q.contains(tid(9)));
    assert_eq!(q.front(), Some(tid(7)));
}

#[test]
fn wake_expired_appends_in_deadline_order() {
    let mut ready = ReadyQueue::empty();
    ready.push_back(tid(7));
    let mut timeouts = TimeoutQueue::empty();
    timeouts.insert(tid(2), at(30));
    timeouts.insert(tid(1), at(20));
    timeouts.insert(tid(3), at(10));
    let mut woken = Vec::new();
    let n = wake_expired(&mut timeouts, &mut ready, at(25), |id| woken.push(id));
    assert_eq!(n, 2);
    assert_eq!(woken, vec![tid(3), tid(1)]);
    assert_eq!(ready.iter(), vec![tid(7), tid(3), tid(1)]);
    assert_eq!(timeouts.len(), 1);
    assert_eq!(timeouts.next_deadline(), Some(at(30)));
}

#[test]
fn timeout_insert_keeps_one_entry_per_thread() {
    let mut t = TimeoutQueue::empty();
    t.insert(tid(4), at(40));
    t.insert(tid(2), at(20));
    t.insert(tid(4), at(5));
    assert_eq!(t.len(), 2);
    assert_eq!(t.get(0).id, tid(4));
    assert_eq!(t.get(0).deadline, at(5));
    assert_eq!(t.get(1).id, tid(2));
}
