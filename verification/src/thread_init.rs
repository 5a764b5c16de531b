//! The scheduler's decisions over the TCB table: which timeouts fire,
//! what the current thread becomes, which thread runs next on this CPU,
//! and which slot a new thread takes. Stacks, the context switch and
//! cross-CPU placement stay with the kernel binary.

use vstd::prelude::*;
use crate::sched::{
    enqueue_runnable, expired_ids, expired_len, lemma_expired_len, lemma_queue_each_len, queue_each, take_next,
    ReadyQueue, Timeout, TimeoutQueue,
};
use crate::thread::{MAX_THREADS, ThreadId, ThreadState};
use crate::time::Instant;

verus! {

/// How a thread's last wait ended.
#[derive(Clone, Copy, Debug, PartialEq, Eq, Structural)]
pub enum WaitOutcome {
    Woken,
    Timeout,
}

/// What the scheduler keeps of one TCB.
#[derive(Clone, Copy, Debug, PartialEq, Eq, Structural)]
pub struct TcbState {
    pub state: ThreadState,
    pub outcome: WaitOutcome,
    /// The CPU the thread last ran on, or is queued for.
    pub cpu: u32,
}

/// The TCB table: slot `i` holds thread `i`, `None` for a slot never used.
#[derive(Clone, Copy)]
pub struct TcbStates {
    pub slots: [Option<TcbState>; MAX_THREADS],
}

/// The entry of `id` in the table `t`, if `id` names a used slot.
pub open spec fn slot_of(t: Seq<Option<TcbState>>, id: ThreadId) -> Option<TcbState> {
    if id.0 < t.len() {
        t[id.0 as int]
    } else {
        None
    }
}

/// `id` names a used slot of `t`.
pub open spec fn is_live(t: Seq<Option<TcbState>>, id: ThreadId) -> bool {
    slot_of(t, id) is Some
}

/// A thread in this state waits for a wakeup or its deadline.
pub open spec fn waiting(s: ThreadState) -> bool {
    s is Sleeping || s is Blocked
}

/// One entry after its timeout fires (when `due`): a sleeping or blocked
/// thread becomes ready, its wait timed out.
pub open spec fn fire_slot(e: Option<TcbState>, due: bool) -> Option<TcbState> {
    if due && e is Some && waiting(e->0.state) {
        Some(TcbState { state: ThreadState::Ready, outcome: WaitOutcome::Timeout, cpu: e->0.cpu })
    } else {
        e
    }
}

/// The table after the timeouts of `ids` fire.
pub open spec fn fire(t: Seq<Option<TcbState>>, ids: Seq<ThreadId>) -> Seq<Option<TcbState>> {
    Seq::new(t.len(), |i: int| fire_slot(t[i], ids.contains(ThreadId(i as u32))))
}

/// The state of `id` in `t`; an unused slot counts as dead.
pub open spec fn state_or_dead(t: Seq<Option<TcbState>>, id: ThreadId) -> ThreadState {
    match slot_of(t, id) {
        Some(s) => s.state,
        None => ThreadState::Dead,
    }
}

/// The current thread still wants the CPU: it is a real thread other
/// than idle, running or ready.
pub open spec fn wants_cpu(cur: ThreadId, idle: ThreadId, st: ThreadState) -> bool {
    cur != idle && !cur.spec_is_none() && (st is Running || st is Ready)
}

/// The ready FIFO after the threads whose timeouts are due at `now`
/// are queued, earliest deadline first; ids without a slot are skipped.
pub open spec fn woken_queue(t: Seq<Option<TcbState>>, r: Seq<ThreadId>, s: Seq<Timeout>, now: Instant) -> Seq<ThreadId> {
    queue_each(r, expired_ids(s, now).filter(|id: ThreadId| is_live(t, id)))
}

/// The state of the current thread once the due timeouts have fired.
pub open spec fn current_state(t: Seq<Option<TcbState>>, s: Seq<Timeout>, now: Instant, cur: ThreadId) -> ThreadState {
    state_or_dead(fire(t, expired_ids(s, now)), cur)
}

/// `q` with the current thread queued behind everything in it, when it
/// still wants the CPU and is not queued yet.
pub open spec fn requeue(q: Seq<ThreadId>, cur: ThreadId, idle: ThreadId, st: ThreadState) -> Seq<ThreadId> {
    if wants_cpu(cur, idle, st) && !q.contains(cur) {
        q.push(cur)
    } else {
        q
    }
}

/// The ready FIFO the next thread is taken from: the woken threads, then
/// the current one, with idle left out.
pub open spec fn queue_before_pick(
    t: Seq<Option<TcbState>>,
    r: Seq<ThreadId>,
    s: Seq<Timeout>,
    now: Instant,
    cur: ThreadId,
    idle: ThreadId,
) -> Seq<ThreadId> {
    requeue(woken_queue(t, r, s, now), cur, idle, current_state(t, s, now, cur)).remove_value(idle)
}

/// The front of `q`, or idle when it is empty.
pub open spec fn pick(q: Seq<ThreadId>, idle: ThreadId) -> ThreadId {
    if q.len() == 0 {
        idle
    } else {
        q[0]
    }
}

/// `q` without its front.
pub open spec fn after_pick(q: Seq<ThreadId>) -> Seq<ThreadId> {
    if q.len() == 0 {
        q
    } else {
        q.drop_first()
    }
}

/// The table after the current thread gives up the CPU: running becomes ready.
pub open spec fn yield_cpu(t: Seq<Option<TcbState>>, cur: ThreadId) -> Seq<Option<TcbState>> {
    if is_live(t, cur) && slot_of(t, cur)->0.state is Running {
        t.update(
            cur.0 as int,
            Some(TcbState { state: ThreadState::Ready, outcome: slot_of(t, cur)->0.outcome, cpu: slot_of(t, cur)->0.cpu }),
        )
    } else {
        t
    }
}

/// The table after `next` starts running on `cpu`.
pub open spec fn dispatch(t: Seq<Option<TcbState>>, next: ThreadId, cpu: u32) -> Seq<Option<TcbState>> {
    if is_live(t, next) {
        t.update(next.0 as int, Some(TcbState { state: ThreadState::Running, outcome: slot_of(t, next)->0.outcome, cpu }))
    } else {
        t
    }
}

/// Slot `i` holds a dead thread that is neither the caller nor idle.
pub open spec fn reusable(t: Seq<Option<TcbState>>, i: int, cur: ThreadId, idle: ThreadId) -> bool {
    &&& t[i] is Some
    &&& t[i]->0.state is Dead
    &&& i != cur.0
    &&& i != idle.0
}

impl TcbStates {
    /// A table with every slot unused.
    pub fn new() -> (r: Self)
        ensures
            forall|i: int| 0 <= i < MAX_THREADS ==> (#[trigger] r.slots@[i]) is None,
    {
        TcbStates { slots: [None; MAX_THREADS] }
    }

    /// The entry of `id`, if it names a used slot.
    pub fn get(&self, id: ThreadId) -> (r: Option<TcbState>)
        ensures
            r == slot_of(self.slots@, id),
    {
        if (id.0 as usize) < MAX_THREADS {
            self.slots[id.0 as usize]
        } else {
            None
        }
    }

    /// Fire the timeout of `id`.
    fn fire_one(&mut self, id: ThreadId)
        ensures
            forall|i: int| 0 <= i < MAX_THREADS ==> #[trigger] final(self).slots@[i] == fire_slot(
                old(self).slots@[i],
                i == id.0,
            ),
    {
        if (id.0 as usize) < MAX_THREADS {
            let i = id.0 as usize;
            match self.slots[i] {
                Some(s) => {
                    match s.state {
                        ThreadState::Sleeping { .. } | ThreadState::Blocked => {
                            self.slots[i] = Some(
                                TcbState { state: ThreadState::Ready, outcome: WaitOutcome::Timeout, cpu: s.cpu },
                            );
                        },
                        ThreadState::Ready | ThreadState::Running | ThreadState::Dead => {},
                    }
                },
                None => {},
            }
        }
    }

    /// The current thread gives up the CPU.
    fn yield_cpu(&mut self, cur: ThreadId)
        ensures
            final(self).slots@ == yield_cpu(old(self).slots@, cur),
    {
        if (cur.0 as usize) < MAX_THREADS {
            let i = cur.0 as usize;
            match self.slots[i] {
                Some(s) => {
                    match s.state {
                        ThreadState::Running => {
                            self.slots[i] = Some(TcbState { state: ThreadState::Ready, outcome: s.outcome, cpu: s.cpu });
                        },
                        ThreadState::Ready | ThreadState::Sleeping { .. } | ThreadState::Blocked
                        | ThreadState::Dead => {},
                    }
                },
                None => {},
            }
        }
    }

    /// `next` starts running on `cpu`.
    fn dispatch(&mut self, next: ThreadId, cpu: u32)
        ensures
            final(self).slots@ == dispatch(old(self).slots@, next, cpu),
    {
        if (next.0 as usize) < MAX_THREADS {
            let i = next.0 as usize;
            match self.slots[i] {
                Some(s) => {
                    self.slots[i] = Some(TcbState { state: ThreadState::Running, outcome: s.outcome, cpu });
                },
                None => {},
            }
        }
    }
}

/// One pass of the scheduler on this CPU at time `now`. Every timeout due
/// at `now` fires, earliest first: a sleeping or blocked thread becomes
/// ready with a timed-out wait and joins the back of the ready FIFO. The
/// current thread, if it still wants the CPU, is queued behind them and a
/// running one becomes ready. Idle never stays on the FIFO. The front of
/// the FIFO, or idle when it is empty, is the next thread; it becomes
/// running on `cpu`.
pub fn schedule_step(
    tcbs: &mut TcbStates,
    ready: &mut ReadyQueue,
    timeouts: &mut TimeoutQueue,
    now: Instant,
    cur: ThreadId,
    idle: ThreadId,
    cpu: u32,
) -> (next: ThreadId)
    requires
        old(ready).wf(),
        old(timeouts).wf(),
        old(ready)@.len() + expired_len(old(timeouts)@, now) <= MAX_THREADS,
        wants_cpu(cur, idle, current_state(old(tcbs).slots@, old(timeouts)@, now, cur)) ==> woken_queue(
            old(tcbs).slots@,
            old(ready)@,
            old(timeouts)@,
            now,
        ).contains(cur) || woken_queue(old(tcbs).slots@, old(ready)@, old(timeouts)@, now).len() < MAX_THREADS,
    ensures
        final(ready).wf(),
        final(timeouts).wf(),
        final(timeouts)@ == old(timeouts)@.skip(expired_len(old(timeouts)@, now) as int),
        next == pick(queue_before_pick(old(tcbs).slots@, old(ready)@, old(timeouts)@, now, cur, idle), idle),
        final(ready)@ == after_pick(queue_before_pick(old(tcbs).slots@, old(ready)@, old(timeouts)@, now, cur, idle)),
        final(tcbs).slots@ == dispatch(
            yield_cpu(fire(old(tcbs).slots@, expired_ids(old(timeouts)@, now)), cur),
            next,
            cpu,
        ),
        forall|id: ThreadId|
            #![trigger expired_ids(old(timeouts)@, now).contains(id)]
            expired_ids(old(timeouts)@, now).contains(id) && is_live(old(tcbs).slots@, id)
                && waiting(slot_of(old(tcbs).slots@, id)->0.state) && id != next ==> slot_of(final(tcbs).slots@, id)
                == Some(
                TcbState {
                    state: ThreadState::Ready,
                    outcome: WaitOutcome::Timeout,
                    cpu: slot_of(old(tcbs).slots@, id)->0.cpu,
                },
            ),
        is_live(old(tcbs).slots@, cur) && slot_of(old(tcbs).slots@, cur)->0.state is Running && cur != next
            ==> slot_of(final(tcbs).slots@, cur)->0.state is Ready,
        is_live(old(tcbs).slots@, next) ==> slot_of(final(tcbs).slots@, next) is Some
            && slot_of(final(tcbs).slots@, next)->0.state is Running && slot_of(final(tcbs).slots@, next)->0.cpu == cpu,
{
    let ghost t0 = tcbs.slots@;
    let ghost r0 = ready@;
    let ghost s0 = timeouts@;
    let ghost k = expired_len(s0, now);
    let ghost e = expired_ids(s0, now);
    let ghost live = |id: ThreadId| is_live(t0, id);
    proof {
        lemma_expired_len(s0, now, 0);
    }
    assert(t0.len() == MAX_THREADS);
    let mut n: usize = 0;
    loop
        invariant
            t0.len() == MAX_THREADS,
            ready.wf(),
            timeouts.wf(),
            k == expired_len(s0, now),
            e == expired_ids(s0, now),
            live == (|id: ThreadId| is_live(t0, id)),
            k <= s0.len(),
            e.len() == k,
            n <= k,
            timeouts@ == s0.skip(n as int),
            r0.len() + k <= MAX_THREADS,
            ready@ == queue_each(r0, e.take(n as int).filter(live)),
            tcbs.slots@ == fire(t0, e.take(n as int)),
            forall|j: int| 0 <= j < k ==> (#[trigger] s0[j]).deadline.ns <= now.ns,
            k < s0.len() ==> s0[k as int].deadline.ns > now.ns,
        ensures
            ready.wf(),
            timeouts.wf(),
            n == k,
            timeouts@ == s0.skip(n as int),
            ready@ == queue_each(r0, e.take(n as int).filter(live)),
            tcbs.slots@ == fire(t0, e.take(n as int)),
        decreases s0.len() - n,
    {
        proof {
            assert(s0.skip(n as int).len() == s0.len() - n);
            if n < s0.len() {
                assert(s0.skip(n as int)[0] == s0[n as int]);
            }
        }
        match timeouts.pop_expired(now) {
            Some(id) => {
                assert(id == e[n as int]);
                let ghost before = tcbs.slots@;
                tcbs.fire_one(id);
                assert(e.take((n + 1) as int) =~= e.take(n as int).push(id));
                assert(tcbs.slots@ =~= fire(t0, e.take((n + 1) as int))) by {
                    assert forall|i: int| 0 <= i < MAX_THREADS implies #[trigger] tcbs.slots@[i] == fire(
                        t0,
                        e.take((n + 1) as int),
                    )[i] by {
                        let ti = ThreadId(i as u32);
                        assert(ti.0 == i);
                        assert(before[i] == fire_slot(t0[i], e.take(n as int).contains(ti)));
                        let e1 = e.take((n + 1) as int);
                        let e0 = e.take(n as int);
                        if i == id.0 {
                            assert(ti == id);
                            assert(e1.contains(ti)) by {
                                assert(e1[n as int] == id);
                            }
                        } else {
                            assert(ti != id);
                            if e1.contains(ti) {
                                let j = choose|j: int| 0 <= j < e1.len() && e1[j] == ti;
                                assert(j != n);
                                assert(e0[j] == ti);
                            }
                            if e0.contains(ti) {
                                let j = choose|j: int| 0 <= j < e0.len() && e0[j] == ti;
                                assert(e1[j] == ti);
                            }
                        }
                    }
                }
                let live_now = tcbs.get(id).is_some();
                assert(live_now == live(id)) by {
                    if id.0 < MAX_THREADS {
                        assert(before[id.0 as int] is Some == t0[id.0 as int] is Some);
                    }
                }
                proof {
                    e.take(n as int).lemma_filter_push(id, live);
                    e.take(n as int).lemma_filter_len(live);
                    lemma_queue_each_len(r0, e.take(n as int).filter(live));
                }
                let ghost f = e.take(n as int).filter(live);
                assert(e.take((n + 1) as int).filter(live) == if live(id) { f.push(id) } else { f });
                if live_now {
                    assert(f.push(id).drop_last() =~= f);
                    ready.push_back(id);
                }
                assert(s0.skip((n + 1) as int) =~= s0.skip(n as int).drop_first());
                n += 1;
            },
            None => {
                break;
            },
        }
    }
    assert(e.take(n as int) =~= e);
    assert(ready@ == woken_queue(t0, r0, s0, now));
    let st = match tcbs.get(cur) {
        Some(s) => s.state,
        None => ThreadState::Dead,
    };
    assert(st == current_state(t0, s0, now, cur));
    tcbs.yield_cpu(cur);
    enqueue_runnable(ready, cur, idle, st);
    let _ = ready.remove(idle);
    assert(ready@ == queue_before_pick(t0, r0, s0, now, cur, idle));
    let next = take_next(ready, idle);
    tcbs.dispatch(next, cpu);
    next
}

/// The slot a new thread takes: the first dead slot that is neither the
/// caller's nor idle's, else the first unused one; `None` when every slot
/// is in use and none can be reused.
pub fn spawn_slot(tcbs: &TcbStates, cur: ThreadId, idle: ThreadId) -> (r: Option<usize>)
    ensures
        match r {
            Some(i) => i < MAX_THREADS && ((reusable(tcbs.slots@, i as int, cur, idle) && forall|j: int|
                0 <= j < i ==> !#[trigger] reusable(tcbs.slots@, j, cur, idle)) || ((forall|j: int|
                0 <= j < MAX_THREADS ==> !#[trigger] reusable(tcbs.slots@, j, cur, idle)) && tcbs.slots@[i as int] is None
                && forall|j: int| 0 <= j < i ==> (#[trigger] tcbs.slots@[j]) is Some)),
            None => forall|j: int|
                0 <= j < MAX_THREADS ==> !#[trigger] reusable(tcbs.slots@, j, cur, idle) && tcbs.slots@[j] is Some,
        },
{
    let mut i: usize = 0;
    while i < MAX_THREADS
        invariant
            i <= MAX_THREADS,
            forall|j: int| 0 <= j < i ==> !#[trigger] reusable(tcbs.slots@, j, cur, idle),
        decreases MAX_THREADS - i,
    {
        match tcbs.slots[i] {
            Some(t) => {
                match t.state {
                    ThreadState::Dead => {
                        if i as u32 != cur.0 && i as u32 != idle.0 {
                            return Some(i);
                        }
                    },
                    ThreadState::Ready | ThreadState::Running | ThreadState::Sleeping { .. }
                    | ThreadState::Blocked => {},
                }
            },
            None => {},
        }
        i += 1;
    }
    let mut i: usize = 0;
    while i < MAX_THREADS
        invariant
            i <= MAX_THREADS,
            forall|j: int| 0 <= j < MAX_THREADS ==> !#[trigger] reusable(tcbs.slots@, j, cur, idle),
            forall|j: int| 0 <= j < i ==> (#[trigger] tcbs.slots@[j]) is Some,
        decreases MAX_THREADS - i,
    {
        if tcbs.slots[i].is_none() {
            return Some(i);
        }
        i += 1;
    }
    None
}

} // verus!
