use vibeos::sched::{ReadyQueue, TimeoutQueue};
use vibeos::thread::{ThreadId, ThreadState};
use vibeos::thread_init::{schedule_step, spawn_slot, TcbState, TcbStates, WaitOutcome};
use vibeos::time::Instant;

fn at(ns: u64) -> Instant {
    Instant { ns }
}

fn slot(state: ThreadState, cpu: u32) -> Option<TcbState> {
    Some(TcbState { state, outcome: WaitOutcome::Woken, cpu })
}

#[test]
fn schedule_wakes_sleeper_then_requeues_current() {
    let mut tcbs = TcbStates::new();
    tcbs.slots[0] = slot(ThreadState::Ready, 0);
    tcbs.slots[1] = slot(ThreadState::Running, 0);
    tcbs.slots[2] = slot(ThreadState::Sleeping { deadline: at(10) }, 3);
    tcbs.slots[3] = slot(ThreadState::Blocked, 0);
    tcbs.slots[4] = slot(ThreadState::Ready, 0);
    let mut ready = ReadyQueue::empty();
    ready.push_back(ThreadId(4));
    let mut timeouts = TimeoutQueue::empty();
    timeouts.insert(ThreadId(2), at(10));
    timeouts.insert(ThreadId(3), at(20));

    let next = schedule_step(&mut tcbs, &mut ready, &mut timeouts, at(15), ThreadId(1), ThreadId(0), 1);

    assert_eq!(next, ThreadId(4));
    assert_eq!(ready.iter(), vec![ThreadId(2), ThreadId(1)]);
    assert_eq!(timeouts.len(), 1);
    assert_eq!(timeouts.next_deadline(), Some(at(20)));
    assert_eq!(
        tcbs.get(ThreadId(2)),
        Some(TcbState { state: ThreadState::Ready, outcome: WaitOutcome::Timeout, cpu: 3 })
    );
    assert_eq!(tcbs.get(ThreadId(1)).unwrap().state, ThreadState::Ready);
    assert_eq!(tcbs.get(ThreadId(3)).unwrap().state, ThreadState::Blocked);
    let n = tcbs.get(ThreadId(4)).unwrap();
    assert_eq!(n.state, ThreadState::Running);
    assert_eq!(n.cpu, 1);
}

#[test]
fn schedule_runs_idle_when_nothing_is_ready() {
    let mut tcbs = TcbStates::new();
    tcbs.slots[0] = slot(ThreadState::Ready, 0);
    tcbs.slots[1] = slot(ThreadState::Sleeping { deadline: at(100) }, 0);
    let mut ready = ReadyQueue::empty();
    ready.push_back(ThreadId(0));
    let mut timeouts = TimeoutQueue::empty();
    timeouts.insert(ThreadId(1), at(100));

    let next = schedule_step(&mut tcbs, &mut ready, &mut timeouts, at(50), ThreadId(1), ThreadId(0), 2);

    assert_eq!(next, ThreadId(0));
    assert!(ready.is_empty());
    assert_eq!(timeouts.len(), 1);
    let idle = tcbs.get(ThreadId(0)).unwrap();
    assert_eq!(idle.state, ThreadState::Running);
    assert_eq!(idle.cpu, 2);
    assert_eq!(tcbs.get(ThreadId(1)).unwrap().outcome, WaitOutcome::Woken);
}

#[test]
fn schedule_keeps_running_the_only_thread() {
    let mut tcbs = TcbStates::new();
    tcbs.slots[0] = slot(ThreadState::Ready, 0);
    tcbs.slots[5] = slot(ThreadState::Running, 0);
    let mut ready = ReadyQueue::empty();
    let mut timeouts = TimeoutQueue::empty();
    let next = schedule_step(&mut tcbs, &mut ready, &mut timeouts, at(1), ThreadId(5), ThreadId(0), 0);
    assert_eq!(next, ThreadId(5));
    assert!(ready.is_empty());
    assert_eq!(tcbs.get(ThreadId(5)).unwrap().state, ThreadState::Running);
}

#[test]
fn spawn_reuses_dead_slot_but_not_current_or_idle() {
    let mut tcbs = TcbStates::new();
    tcbs.slots[0] = slot(ThreadState::Dead, 0);
    tcbs.slots[1] = slot(ThreadState::Dead, 0);
    tcbs.slots[2] = slot(ThreadState::Running, 0);
    tcbs.slots[3] = slot(ThreadState::Dead, 0);
    assert_eq!(spawn_slot(&tcbs, ThreadId(1), ThreadId(0)), Some(3));
    tcbs.slots[3] = slot(ThreadState::Ready, 0);
    assert_eq!(spawn_slot(&tcbs, ThreadId(1), ThreadId(0)), Some(4));
}

#[test]
fn spawn_reports_a_full_table() {
    let mut tcbs = TcbStates::new();
    for i in 0..tcbs.slots.len() {
        tcbs.slots[i] = slot(ThreadState::Ready, 0);
    }
    assert_eq!(spawn_slot(&tcbs, ThreadId(0), ThreadId(0)), None);
    tcbs.slots[9] = slot(ThreadState::Dead, 0);
    assert_eq!(spawn_slot(&tcbs, ThreadId(0), ThreadId(0)), Some(9));
}
