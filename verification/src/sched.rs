//! Run queue and timeout ordering.
//!
//! A FIFO ready queue and one sorted timeout list. Wait queues are
//! per-object; this file keeps no global blocked list. The kernel's
//! `schedule` and idle loop live in the binary.

use vstd::prelude::*;
use crate::thread::{MAX_THREADS, ThreadId, ThreadState, THREAD_NONE_RAW};
use crate::time::Instant;

verus! {

/// Local timer ticks per slice. PIT is ~1 kHz, so ~10 ms.
pub const QUANTUM_TICKS: u64 = 10;

/// Log if still blocked this far past the deadline. 5 s.
pub const OVERDUE_NS: u64 = 5_000_000_000;

/// How often `schedule` scans for overdue waiters, in ticks.
pub const SWEEP_TICKS: u64 = 1_000;

/// The deadline that stands for "none given": still a deadline, so
/// nothing blocks forever.
pub open spec fn spec_far_deadline() -> Instant {
    Instant { ns: u64::MAX }
}

/// No deadline given: still a deadline, so nothing blocks forever.
pub fn far_deadline() -> (r: Instant)
    ensures
        r == spec_far_deadline(),
{
    Instant { ns: u64::MAX }
}

pub fn effective_deadline(deadline: Option<Instant>) -> (r: Instant)
    ensures
        r == (match deadline {
            Some(d) => d,
            None => spec_far_deadline(),
        }),
{
    match deadline {
        Some(d) => d,
        None => far_deadline(),
    }
}

/// FIFO round-robin of ready `ThreadId`s. Idle stays off this list.
#[derive(Clone, Copy)]
pub struct ReadyQueue {
    buf: [ThreadId; MAX_THREADS],
    head: usize,
    len: usize,
}

/// Slot of the `i`-th queued id in a ring that starts at `head`.
pub open spec fn ring_slot(head: int, i: int) -> int {
    (head + i) % (MAX_THREADS as int)
}

/// Where the ring wraps: the slot is `head + i` until it passes the end.
proof fn lemma_ring_slot(head: int, i: int)
    requires
        0 <= head < MAX_THREADS,
        0 <= i < MAX_THREADS,
    ensures
        ring_slot(head, i) == if head + i < MAX_THREADS { head + i } else { head + i - MAX_THREADS },
{
}

impl View for ReadyQueue {
    type V = Seq<ThreadId>;

    /// The queued ids, front first.
    closed spec fn view(&self) -> Seq<ThreadId> {
        Seq::new(self.len as nat, |i: int| self.buf@[ring_slot(self.head as int, i)])
    }
}

impl ReadyQueue {
    /// Ring bounds hold, no id is queued twice, and "no thread" is never queued.
    pub closed spec fn wf(self) -> bool {
        &&& self.head < MAX_THREADS
        &&& self.len <= MAX_THREADS
        &&& self@.no_duplicates()
        &&& forall|i: int| 0 <= i < self@.len() ==> !(#[trigger] self@[i]).spec_is_none()
    }

    /// What `wf` promises callers: at most one slot per thread, no id
    /// twice, and never "no thread".
    pub proof fn lemma_wf(&self)
        requires
            self.wf(),
        ensures
            self@.len() <= MAX_THREADS,
            self@.no_duplicates(),
            forall|i: int| 0 <= i < self@.len() ==> !(#[trigger] self@[i]).spec_is_none(),
    {
    }

    pub fn empty() -> (r: Self)
        ensures
            r.wf(),
            r@ == Seq::<ThreadId>::empty(),
    {
        let r = ReadyQueue { buf: [ThreadId(THREAD_NONE_RAW); MAX_THREADS], head: 0, len: 0 };
        assert(r@ =~= Seq::<ThreadId>::empty());
        r
    }

    pub fn len(&self) -> (r: usize)
        requires
            self.wf(),
        ensures
            r == self@.len(),
    {
        self.len
    }

    pub fn is_empty(&self) -> (r: bool)
        requires
            self.wf(),
        ensures
            r == (self@.len() == 0),
    {
        self.len == 0
    }

    /// The queued ids, front first.
    pub fn iter(&self) -> (r: Vec<ThreadId>)
        requires
            self.wf(),
        ensures
            r@ == self@,
    {
        let mut out: Vec<ThreadId> = Vec::new();
        let mut i: usize = 0;
        while i < self.len
            invariant
                self.wf(),
                i <= self.len,
                out@ =~= self@.take(i as int),
            decreases self.len - i,
        {
            let id = self.at(i);
            out.push(id);
            i += 1;
        }
        assert(out@ =~= self@);
        out
    }

    /// The `i`-th queued id, front first.
    pub fn at(&self, i: usize) -> (r: ThreadId)
        requires
            self.wf(),
            i < self@.len(),
        ensures
            r == self@[i as int],
    {
        self.buf[(self.head + i) % MAX_THREADS]
    }

    pub fn front(&self) -> (r: Option<ThreadId>)
        requires
            self.wf(),
        ensures
            r == (if self@.len() == 0 { None } else { Some(self@[0]) }),
    {
        if self.len == 0 {
            None
        } else {
            Some(self.buf[self.head])
        }
    }

    pub fn contains(&self, id: ThreadId) -> (r: bool)
        requires
            self.wf(),
        ensures
            r == self@.contains(id),
    {
        let mut i: usize = 0;
        while i < self.len
            invariant
                self.wf(),
                i <= self.len,
                forall|j: int| 0 <= j < i ==> self@[j] != id,
            decreases self.len - i,
        {
            if self.at(i) == id {
                return true;
            }
            i += 1;
        }
        false
    }

    /// Queue `id` at the back, unless it is already queued.
    pub fn push_back(&mut self, id: ThreadId)
        requires
            old(self).wf(),
            !id.spec_is_none(),
            old(self)@.contains(id) || old(self)@.len() < MAX_THREADS,
        ensures
            final(self).wf(),
            old(self)@.contains(id) ==> final(self)@ == old(self)@,
            !old(self)@.contains(id) ==> final(self)@ == old(self)@.push(id),
    {
        if self.contains(id) {
            return;
        }
        let ghost old_view = self@;
        let i = (self.head + self.len) % MAX_THREADS;
        self.buf[i] = id;
        self.len = self.len + 1;
        assert(self@ =~= old_view.push(id)) by {
            assert forall|j: int| 0 <= j < old_view.len() implies ring_slot(self.head as int, j) != i
                by {
                lemma_ring_slot(self.head as int, j);
                lemma_ring_slot(self.head as int, old_view.len() as int);
            }
        }
    }

    /// Take the front id.
    pub fn pop_front(&mut self) -> (r: Option<ThreadId>)
        requires
            old(self).wf(),
        ensures
            final(self).wf(),
            old(self)@.len() == 0 ==> r.is_none() && final(self)@ == old(self)@,
            old(self)@.len() > 0 ==> r == Some(old(self)@[0]) && final(self)@ == old(self)@.drop_first(),
    {
        if self.len == 0 {
            return None;
        }
        let ghost old_view = self@;
        let id = self.buf[self.head];
        self.buf[self.head] = ThreadId(THREAD_NONE_RAW);
        self.head = (self.head + 1) % MAX_THREADS;
        self.len = self.len - 1;
        assert(self@ =~= old_view.drop_first());
        Some(id)
    }

    /// Remove `id` wherever it is queued. Whether it was queued.
    pub fn remove(&mut self, id: ThreadId) -> (r: bool)
        requires
            old(self).wf(),
        ensures
            final(self).wf(),
            r == old(self)@.contains(id),
            final(self)@ == old(self)@.remove_value(id),
    {
        let ghost old_view = self@;
        let mut i: usize = 0;
        while i < self.len && self.at(i) != id
            invariant
                self.wf(),
                self@ == old_view,
                i <= self.len,
                forall|j: int| 0 <= j < i ==> self@[j] != id,
            decreases self.len - i,
        {
            i += 1;
        }
        if i == self.len {
            assert(!old_view.contains(id));
            assert(old_view.index_of_first(id) is None) by {
                old_view.index_of_first_ensures(id);
            }
            return false;
        }
        let k = i;
        proof {
            old_view.index_of_first_ensures(id);
        }
        assert(old_view.index_of_first(id) == Some(k as int));
        while i + 1 < self.len
            invariant
                old_view.len() == self.len,
                self.head < MAX_THREADS,
                self.len <= MAX_THREADS,
                k <= i < self.len,
                forall|j: int| 0 <= j < k ==> self@[j] == old_view[j],
                forall|j: int| k <= j < i ==> self@[j] == old_view[j + 1],
                forall|j: int| i <= j < self.len ==> self@[j] == old_view[j],
            decreases self.len - i,
        {
            let nxt = self.at_raw(i + 1);
            let slot = (self.head + i) % MAX_THREADS;
            let ghost before = self@;
            self.buf[slot] = nxt;
            assert(self@[i as int] == nxt);
            assert(nxt == old_view[i + 1]);
            assert forall|j: int| 0 <= j < self.len && j != i implies self@[j] == before[j] by {
                lemma_ring_slot(self.head as int, j);
                lemma_ring_slot(self.head as int, i as int);
                assert(ring_slot(self.head as int, j) != slot);
            }
            assert forall|j: int| k <= j < i + 1 implies self@[j] == old_view[j + 1] by {
                if j < i {
                    assert(self@[j] == before[j]);
                }
            }
            assert forall|j: int| 0 <= j < k implies self@[j] == old_view[j] by {
                assert(self@[j] == before[j]);
            }
            assert forall|j: int| i + 1 <= j < self.len implies self@[j] == old_view[j] by {
                assert(self@[j] == before[j]);
            }
            i += 1;
        }
        let ghost before = self@;
        let last = (self.head + self.len - 1) % MAX_THREADS;
        self.buf[last] = ThreadId(THREAD_NONE_RAW);
        self.len = self.len - 1;
        assert forall|j: int| 0 <= j < self.len implies self@[j] == old_view.remove(k as int)[j] by {
            lemma_ring_slot(self.head as int, j);
            lemma_ring_slot(self.head as int, self.len as int);
            assert(self@[j] == before[j]);
            if j < k {
                assert(before[j] == old_view[j]);
            } else {
                assert(before[j] == old_view[j + 1]);
            }
        }
        assert(self@ =~= old_view.remove(k as int));
        proof {
            old_view.remove_ensures(k as int);
            assert forall|a: int, b: int| 0 <= a < b < self@.len() implies self@[a] != self@[b] by {
                if a < k && b >= k {
                    assert(self@[b] == old_view[b + 1]);
                } else if a >= k {
                    assert(self@[a] == old_view[a + 1]);
                    assert(self@[b] == old_view[b + 1]);
                }
            }
            assert forall|j: int| 0 <= j < self@.len() implies !(#[trigger] self@[j]).spec_is_none() by {
                if j >= k {
                    assert(self@[j] == old_view[j + 1]);
                }
            }
        }
        true
    }

    /// The `i`-th queued id, read without the well-formedness invariant.
    fn at_raw(&self, i: usize) -> (r: ThreadId)
        requires
            self.head < MAX_THREADS,
            i < self.len <= MAX_THREADS,
        ensures
            r == self@[i as int],
    {
        self.buf[(self.head + i) % MAX_THREADS]
    }
}

#[derive(Clone, Copy, Debug, PartialEq, Eq, Structural)]
pub struct Timeout {
    pub id: ThreadId,
    pub deadline: Instant,
}

/// `a` runs before `b`: earlier deadline, then smaller id.
pub open spec fn timeout_before(a: Timeout, b: Timeout) -> bool {
    a.deadline.ns < b.deadline.ns || (a.deadline.ns == b.deadline.ns && a.id.0 < b.id.0)
}

/// Strictly ordered by `timeout_before`.
pub open spec fn timeouts_sorted(s: Seq<Timeout>) -> bool {
    forall|i: int, j: int| 0 <= i < j < s.len() ==> timeout_before(#[trigger] s[i], #[trigger] s[j])
}

/// Some entry of `s` belongs to `id`.
pub open spec fn has_id(s: Seq<Timeout>, id: ThreadId) -> bool {
    exists|i: int| 0 <= i < s.len() && (#[trigger] s[i]).id == id
}

/// No two entries of `s` belong to the same thread.
pub open spec fn ids_unique(s: Seq<Timeout>) -> bool {
    forall|i: int, j: int| 0 <= i < j < s.len() ==> (#[trigger] s[i]).id != (#[trigger] s[j]).id
}

/// `s` with the entry of `id` taken out (unchanged if there is none).
pub open spec fn without_id(s: Seq<Timeout>, id: ThreadId) -> Seq<Timeout> {
    s.filter(|t: Timeout| t.id != id)
}

/// `t` placed into the sorted `s` before the first entry that does not
/// run before it.
pub open spec fn inserted_at(s: Seq<Timeout>, t: Timeout, k: int) -> bool {
    &&& 0 <= k <= s.len()
    &&& forall|j: int| 0 <= j < k ==> timeout_before(#[trigger] s[j], t)
    &&& forall|j: int| k <= j < s.len() ==> !timeout_before(#[trigger] s[j], t)
}

/// Sorted by deadline, then id. Sleep and wait share this list.
#[derive(Clone, Copy)]
pub struct TimeoutQueue {
    items: [Timeout; MAX_THREADS],
    len: usize,
}

impl View for TimeoutQueue {
    type V = Seq<Timeout>;

    /// The queued timeouts, earliest first.
    closed spec fn view(&self) -> Seq<Timeout> {
        self.items@.take(self.len as int)
    }
}

impl TimeoutQueue {
    /// Sorted, one entry per thread, and within the table.
    pub closed spec fn wf(self) -> bool {
        &&& self.len <= MAX_THREADS
        &&& timeouts_sorted(self@)
        &&& ids_unique(self@)
    }

    /// What `wf` promises callers: at most one entry per thread, sorted
    /// by deadline then id, and no thread twice.
    pub proof fn lemma_wf(&self)
        requires
            self.wf(),
        ensures
            self@.len() <= MAX_THREADS,
            timeouts_sorted(self@),
            ids_unique(self@),
    {
    }

    pub fn empty() -> (r: Self)
        ensures
            r.wf(),
            r@ == Seq::<Timeout>::empty(),
    {
        let r = TimeoutQueue {
            items: [Timeout { id: ThreadId(THREAD_NONE_RAW), deadline: Instant { ns: u64::MAX } }; MAX_THREADS],
            len: 0,
        };
        assert(r@ =~= Seq::<Timeout>::empty());
        r
    }

    pub fn len(&self) -> (r: usize)
        requires
            self.wf(),
        ensures
            r == self@.len(),
    {
        self.len
    }

    pub fn is_empty(&self) -> (r: bool)
        requires
            self.wf(),
        ensures
            r == (self@.len() == 0),
    {
        self.len == 0
    }

    pub fn next_deadline(&self) -> (r: Option<Instant>)
        requires
            self.wf(),
        ensures
            r == (if self@.len() == 0 { None } else { Some(self@[0].deadline) }),
    {
        if self.len == 0 {
            None
        } else {
            Some(self.items[0].deadline)
        }
    }

    pub fn get(&self, i: usize) -> (r: Timeout)
        requires
            self.wf(),
            i < self@.len(),
        ensures
            r == self@[i as int],
    {
        self.items[i]
    }

    /// Arm (or re-arm) `id` for `deadline`.
    pub fn insert(&mut self, id: ThreadId, deadline: Instant)
        requires
            old(self).wf(),
            !id.spec_is_none(),
            has_id(old(self)@, id) || old(self)@.len() < MAX_THREADS,
        ensures
            final(self).wf(),
            exists|k: int|
                inserted_at(without_id(old(self)@, id), Timeout { id, deadline }, k)
                && final(self)@ == without_id(old(self)@, id).insert(k, Timeout { id, deadline }),
            timeouts_sorted(final(self)@),
            ids_unique(final(self)@),
            has_id(final(self)@, id),
            forall|i: int| 0 <= i < final(self)@.len() && (#[trigger] final(self)@[i]).id == id
                ==> final(self)@[i].deadline == deadline,
            forall|t: Timeout| t.id != id ==> (final(self)@.contains(t) <==> old(self)@.contains(t)),
            has_id(old(self)@, id) ==> final(self)@.len() == old(self)@.len(),
            !has_id(old(self)@, id) ==> final(self)@.len() == old(self)@.len() + 1,
    {
        let ghost old_view = self@;
        let _ = self.remove(id);
        let ghost base = self@;
        assert(base == without_id(old_view, id));
        proof {
            lemma_without_lacks(old_view, id);
        }
        assert(base.len() < MAX_THREADS) by {
            if has_id(old_view, id) {
                assert(base.len() < old_view.len());
            }
        }
        let t = Timeout { id, deadline };
        let mut i: usize = 0;
        while i < self.len && !runs_before(t, self.items[i])
            invariant
                self@ == base,
                self.wf(),
                i <= self.len,
                !has_id(base, id),
                t == (Timeout { id, deadline }),
                forall|j: int| 0 <= j < i ==> timeout_before(#[trigger] base[j], t),
            decreases self.len - i,
        {
            assert(self.items@[i as int] == base[i as int]);
            assert(base[i as int].id != id);
            i += 1;
        }
        assert(i < self.len ==> timeout_before(t, base[i as int]));
        let k = i;
        assert(inserted_at(base, t, k as int)) by {
            assert forall|j: int| k <= j < base.len() implies !timeout_before(#[trigger] base[j], t) by {
                if j > k {
                    assert(timeout_before(base[k as int], base[j]));
                }
            }
        }
        let mut j = self.len;
        while j > k
            invariant
                k <= j <= self.len,
                self.len == base.len(),
                self.len < MAX_THREADS,
                forall|m: int| 0 <= m < k ==> #[trigger] self.items@[m] == base[m],
                forall|m: int| k <= m < j ==> #[trigger] self.items@[m] == base[m],
                forall|m: int| j < m <= self.len ==> #[trigger] self.items@[m] == base[m - 1],
            decreases j,
        {
            self.items[j] = self.items[j - 1];
            j -= 1;
        }
        self.items[k] = t;
        self.len = self.len + 1;
        assert(self@ =~= base.insert(k as int, t));
        proof {
            let s = self@;
            assert forall|a: int, b: int| 0 <= a < b < s.len() implies timeout_before(#[trigger] s[a], #[trigger] s[b]) by {
                if b < k {
                } else if a < k && b == k {
                } else if a < k && b > k {
                    assert(s[b] == base[b - 1]);
                    assert(!timeout_before(base[b - 1], t));
                } else if a == k {
                    assert(s[b] == base[b - 1]);
                    assert(!timeout_before(base[b - 1], t));
                    assert(base[b - 1].id != id);
                } else {
                    assert(s[a] == base[a - 1]);
                    assert(s[b] == base[b - 1]);
                }
            }
            assert forall|a: int, b: int| 0 <= a < b < s.len() implies (#[trigger] s[a]).id != (#[trigger] s[b]).id by {
                assert(timeout_before(s[a], s[b]));
            }
            assert(s[k as int] == t);
            assert forall|i: int| 0 <= i < s.len() && (#[trigger] s[i]).id == id implies s[i].deadline == deadline by {
                if i != k {
                    let j = if i < k { i } else { i - 1 };
                    assert(s[i] == base[j]);
                    assert(!has_id(base, id));
                }
            }
            assert forall|u: Timeout| u.id != id implies (s.contains(u) <==> old_view.contains(u)) by {
                if s.contains(u) {
                    let i = choose|i: int| 0 <= i < s.len() && s[i] == u;
                    let j = if i < k { i } else { i - 1 };
                    assert(i != k);
                    assert(base[j] == u);
                    assert(base.contains(u));
                    old_view.lemma_filter_contains_rev(|x: Timeout| x.id != id, u);
                }
                if old_view.contains(u) {
                    let i = choose|i: int| 0 <= i < old_view.len() && old_view[i] == u;
                    old_view.lemma_filter_contains(|x: Timeout| x.id != id, i);
                    let j = choose|j: int| 0 <= j < base.len() && base[j] == u;
                    if j < k {
                        assert(s[j] == u);
                    } else {
                        assert(s[j + 1] == u);
                    }
                }
            }
            if has_id(old_view, id) {
                let i = choose|i: int| 0 <= i < old_view.len() && (#[trigger] old_view[i]).id == id;
                lemma_without_present(old_view, id, i);
            } else {
                lemma_without_absent(old_view, id);
            }
        }
    }

    /// Disarm `id`. Whether it was armed.
    pub fn remove(&mut self, id: ThreadId) -> (r: bool)
        requires
            old(self).wf(),
        ensures
            final(self).wf(),
            r == has_id(old(self)@, id),
            final(self)@ == without_id(old(self)@, id),
            r ==> final(self)@.len() == old(self)@.len() - 1,
    {
        let ghost old_view = self@;
        let mut i: usize = 0;
        while i < self.len && self.items[i].id != id
            invariant
                self.wf(),
                self@ == old_view,
                i <= self.len,
                forall|j: int| 0 <= j < i ==> (#[trigger] old_view[j]).id != id,
            decreases self.len - i,
        {
            assert(self.items@[i as int] == old_view[i as int]);
            i += 1;
        }
        assert(i < self.len ==> old_view[i as int].id == id);
        if i == self.len {
            proof {
                assert(!has_id(old_view, id));
                lemma_without_absent(old_view, id);
            }
            return false;
        }
        let k = i;
        while i + 1 < self.len
            invariant
                old_view.len() == self.len,
                self.len <= MAX_THREADS,
                k <= i < self.len,
                forall|j: int| 0 <= j < k ==> #[trigger] self.items@[j] == old_view[j],
                forall|j: int| k <= j < i ==> #[trigger] self.items@[j] == old_view[j + 1],
                forall|j: int| i < j < self.len ==> #[trigger] self.items@[j] == old_view[j],
            decreases self.len - i,
        {
            self.items[i] = self.items[i + 1];
            i += 1;
        }
        self.len = self.len - 1;
        self.items[self.len] = Timeout { id: ThreadId(THREAD_NONE_RAW), deadline: Instant { ns: u64::MAX } };
        assert(self@ =~= old_view.remove(k as int));
        proof {
            lemma_without_present(old_view, id, k as int);
            let s = self@;
            assert forall|a: int, b: int| 0 <= a < b < s.len() implies timeout_before(#[trigger] s[a], #[trigger] s[b]) by {
                if a >= k {
                    assert(s[a] == old_view[a + 1]);
                }
                if b >= k {
                    assert(s[b] == old_view[b + 1]);
                }
            }
            assert forall|a: int, b: int| 0 <= a < b < s.len() implies (#[trigger] s[a]).id != (#[trigger] s[b]).id by {
                if a >= k {
                    assert(s[a] == old_view[a + 1]);
                }
                if b >= k {
                    assert(s[b] == old_view[b + 1]);
                }
            }
        }
        true
    }

    /// Whether the earliest entry's deadline is at or before `now`.
    fn front_expired(&self, now: Instant) -> (r: bool)
        requires
            self.wf(),
        ensures
            r == (self@.len() > 0 && self@[0].deadline.ns <= now.ns),
    {
        self.len > 0 && self.items[0].deadline.ns <= now.ns
    }

    /// Take the earliest entry if its deadline is at or before `now`.
    pub fn pop_expired(&mut self, now: Instant) -> (r: Option<ThreadId>)
        requires
            old(self).wf(),
        ensures
            final(self).wf(),
            (old(self)@.len() == 0 || old(self)@[0].deadline.ns > now.ns) ==> r.is_none()
                && final(self)@ == old(self)@,
            (old(self)@.len() > 0 && old(self)@[0].deadline.ns <= now.ns) ==> r == Some(old(self)@[0].id)
                && final(self)@ == old(self)@.drop_first(),
    {
        if self.len == 0 || self.items[0].deadline.ns > now.ns {
            return None;
        }
        let ghost old_view = self@;
        let id = self.items[0].id;
        let _ = self.remove(id);
        proof {
            lemma_without_present(old_view, id, 0);
            assert(old_view.remove(0) =~= old_view.drop_first());
        }
        Some(id)
    }

    /// Pop expired ids into `out`, earliest first, until `out` is full or
    /// none is left expired. How many were written.
    pub fn pop_expired_into(&mut self, now: Instant, out: &mut [ThreadId]) -> (n: usize)
        requires
            old(self).wf(),
        ensures
            final(self).wf(),
            n <= old(out)@.len(),
            final(out)@.len() == old(out)@.len(),
            n <= old(self)@.len(),
            final(self)@ == old(self)@.skip(n as int),
            forall|j: int| 0 <= j < n ==> final(out)@[j] == old(self)@[j].id
                && old(self)@[j].deadline.ns <= now.ns,
            forall|j: int| n <= j < old(out)@.len() ==> final(out)@[j] == old(out)@[j],
            n < old(out)@.len() ==> (n == old(self)@.len() || old(self)@[n as int].deadline.ns > now.ns),
    {
        let ghost q0 = self@;
        let ghost o0 = out@;
        let mut n: usize = 0;
        while n < out.len() && self.front_expired(now)
            invariant
                self.wf(),
                n <= out@.len(),
                out@.len() == o0.len(),
                n <= q0.len(),
                self@ == q0.skip(n as int),
                forall|j: int| 0 <= j < n ==> out@[j] == q0[j].id && q0[j].deadline.ns <= now.ns,
                forall|j: int| n <= j < o0.len() ==> out@[j] == o0[j],
            decreases out@.len() - n,
        {
            assert(q0.skip(n as int)[0] == q0[n as int]);
            let id = self.items[0].id;
            let _ = self.pop_expired(now);
            out[n] = id;
            n += 1;
            assert(q0.skip(n as int) =~= q0.skip((n - 1) as int).drop_first());
        }
        proof {
            if n < q0.len() {
                assert(q0.skip(n as int)[0] == q0[n as int]);
            }
        }
        n
    }

    /// Entries whose deadline is at least `OVERDUE_NS` behind `now`, in
    /// queue order.
    pub fn overdue(&self, now: Instant) -> (r: Vec<Timeout>)
        requires
            self.wf(),
        ensures
            r@ == overdue_of(self@, now),
    {
        let mut out: Vec<Timeout> = Vec::new();
        let mut i: usize = 0;
        while i < self.len
            invariant
                self.wf(),
                i <= self.len,
                out@ == overdue_of(self@.take(i as int), now),
            decreases self.len - i,
        {
            let t = self.items[i];
            assert(self@.take(i + 1).drop_last() =~= self@.take(i as int));
            assert(self@.take(i + 1).last() == t);
            let late = if now.ns >= t.deadline.ns { now.ns - t.deadline.ns } else { 0 };
            if late >= OVERDUE_NS {
                out.push(t);
            }
            i += 1;
        }
        assert(self@.take(self.len as int) =~= self@);
        out
    }
}

/// The entries of `s` that are overdue at `now`, in order.
pub open spec fn overdue_of(s: Seq<Timeout>, now: Instant) -> Seq<Timeout>
    decreases s.len(),
{
    if s.len() == 0 {
        Seq::empty()
    } else if is_overdue(s.last(), now) {
        overdue_of(s.drop_last(), now).push(s.last())
    } else {
        overdue_of(s.drop_last(), now)
    }
}

/// Executable `timeout_before`.
fn runs_before(a: Timeout, b: Timeout) -> (r: bool)
    ensures
        r == timeout_before(a, b),
{
    a.deadline.ns < b.deadline.ns || (a.deadline.ns == b.deadline.ns && a.id.0 < b.id.0)
}

/// `t` is at least `OVERDUE_NS` past its deadline at `now`.
pub open spec fn is_overdue(t: Timeout, now: Instant) -> bool {
    now.ns >= t.deadline.ns && now.ns - t.deadline.ns >= OVERDUE_NS
}

proof fn lemma_without_lacks(s: Seq<Timeout>, id: ThreadId)
    ensures
        !has_id(without_id(s, id), id),
{
    let w = without_id(s, id);
    if has_id(w, id) {
        let i = choose|i: int| 0 <= i < w.len() && (#[trigger] w[i]).id == id;
        s.lemma_filter_pred(|t: Timeout| t.id != id, i);
    }
}

proof fn lemma_without_absent(s: Seq<Timeout>, id: ThreadId)
    requires
        !has_id(s, id),
    ensures
        without_id(s, id) == s,
    decreases s.len(),
{
    reveal(Seq::filter);
    if s.len() > 0 {
        assert(!has_id(s.drop_last(), id)) by {
            if has_id(s.drop_last(), id) {
                let i = choose|i: int| 0 <= i < s.drop_last().len() && (#[trigger] s.drop_last()[i]).id == id;
                assert(s[i].id == id);
            }
        }
        lemma_without_absent(s.drop_last(), id);
        assert(s.last().id != id) by {
            assert(s[s.len() - 1].id != id);
        }
        assert(s.drop_last().push(s.last()) =~= s);
    } else {
        assert(s.filter(|t: Timeout| t.id != id) =~= s);
    }
}

proof fn lemma_without_present(s: Seq<Timeout>, id: ThreadId, k: int)
    requires
        ids_unique(s),
        0 <= k < s.len(),
        s[k].id == id,
    ensures
        without_id(s, id) == s.remove(k),
    decreases s.len(),
{
    reveal(Seq::filter);
    let last = s.len() - 1;
    if k == last {
        assert(!has_id(s.drop_last(), id)) by {
            if has_id(s.drop_last(), id) {
                let i = choose|i: int| 0 <= i < s.drop_last().len() && (#[trigger] s.drop_last()[i]).id == id;
                assert(s[i].id == s[last].id);
            }
        }
        lemma_without_absent(s.drop_last(), id);
        assert(s.remove(k) =~= s.drop_last());
    } else {
        let d = s.drop_last();
        assert(ids_unique(d)) by {
            assert forall|i: int, j: int| 0 <= i < j < d.len() implies (#[trigger] d[i]).id != (#[trigger] d[j]).id by {
                assert(d[i] == s[i] && d[j] == s[j]);
            }
        }
        lemma_without_present(d, id, k);
        assert(s[last].id != id);
        assert(s.remove(k) =~= d.remove(k).push(s[last]));
    }
}

/// Enqueue the current thread if it still wants the CPU. Idle is never
/// on the FIFO.
pub fn enqueue_runnable(ready: &mut ReadyQueue, id: ThreadId, idle: ThreadId, state: ThreadState)
    requires
        old(ready).wf(),
        (id != idle && !id.spec_is_none() && (state is Running || state is Ready))
            ==> old(ready)@.contains(id) || old(ready)@.len() < MAX_THREADS,
    ensures
        final(ready).wf(),
        (id != idle && !id.spec_is_none() && (state is Running || state is Ready)
            && !old(ready)@.contains(id)) ==> final(ready)@ == old(ready)@.push(id),
        !(id != idle && !id.spec_is_none() && (state is Running || state is Ready)
            && !old(ready)@.contains(id)) ==> final(ready)@ == old(ready)@,
{
    if id == idle || id.is_none() {
        return;
    }
    match state {
        ThreadState::Running | ThreadState::Ready => ready.push_back(id),
        ThreadState::Sleeping { .. } | ThreadState::Blocked | ThreadState::Dead => {},
    }
}

/// The next thread to run: the front of the FIFO, or idle when it is empty.
pub fn take_next(ready: &mut ReadyQueue, idle: ThreadId) -> (r: ThreadId)
    requires
        old(ready).wf(),
    ensures
        final(ready).wf(),
        old(ready)@.len() == 0 ==> r == idle && final(ready)@ == old(ready)@,
        old(ready)@.len() > 0 ==> r == old(ready)@[0] && final(ready)@ == old(ready)@.drop_first(),
{
    match ready.pop_front() {
        Some(id) => id,
        None => idle,
    }
}

/// How many entries at the front of `s` are due at `now`.
pub open spec fn expired_len(s: Seq<Timeout>, now: Instant) -> nat
    decreases s.len(),
{
    if s.len() == 0 || s[0].deadline.ns > now.ns {
        0
    } else {
        1 + expired_len(s.drop_first(), now)
    }
}

/// The ids of the entries of `s` due at `now`, earliest first.
pub open spec fn expired_ids(s: Seq<Timeout>, now: Instant) -> Seq<ThreadId> {
    s.take(expired_len(s, now) as int).map_values(|t: Timeout| t.id)
}

/// `r` with each of `ids` queued at the back in turn, skipping any
/// already queued.
pub open spec fn queue_each(r: Seq<ThreadId>, ids: Seq<ThreadId>) -> Seq<ThreadId>
    decreases ids.len(),
{
    if ids.len() == 0 {
        r
    } else {
        let q = queue_each(r, ids.drop_last());
        if q.contains(ids.last()) {
            q
        } else {
            q.push(ids.last())
        }
    }
}

/// The due entries are a prefix: all of them are due, the entry after
/// them is not, and dropping `n` of them leaves the rest due.
pub proof fn lemma_expired_len(s: Seq<Timeout>, now: Instant, n: int)
    requires
        0 <= n <= expired_len(s, now),
    ensures
        expired_len(s, now) <= s.len(),
        expired_len(s.skip(n), now) == expired_len(s, now) - n,
        forall|j: int| 0 <= j < expired_len(s, now) ==> (#[trigger] s[j]).deadline.ns <= now.ns,
        expired_len(s, now) < s.len() ==> s[expired_len(s, now) as int].deadline.ns > now.ns,
    decreases s.len(),
{
    if s.len() > 0 && s[0].deadline.ns <= now.ns {
        let d = s.drop_first();
        lemma_expired_len(d, now, if n > 0 { n - 1 } else { 0 });
        if n > 0 {
            assert(s.skip(n) =~= d.skip(n - 1));
        } else {
            assert(s.skip(0) =~= s);
        }
        assert forall|j: int| 0 <= j < expired_len(s, now) implies (#[trigger] s[j]).deadline.ns <= now.ns by {
            if j > 0 {
                assert(s[j] == d[j - 1]);
            }
        }
        if expired_len(s, now) < s.len() {
            assert(s[expired_len(s, now) as int] == d[expired_len(d, now) as int]);
        }
    } else {
        assert(s.skip(0) =~= s);
    }
}

/// Queueing ids adds at most one entry per id.
pub proof fn lemma_queue_each_len(r: Seq<ThreadId>, ids: Seq<ThreadId>)
    ensures
        queue_each(r, ids).len() <= r.len() + ids.len(),
    decreases ids.len(),
{
    if ids.len() > 0 {
        lemma_queue_each_len(r, ids.drop_last());
    }
}

/// Queueing distinct ids none of which is queued yet appends them all,
/// in order.
pub proof fn lemma_queue_each_fresh(r: Seq<ThreadId>, ids: Seq<ThreadId>)
    requires
        ids.no_duplicates(),
        forall|id: ThreadId| #[trigger] ids.contains(id) ==> !r.contains(id),
    ensures
        queue_each(r, ids) == r + ids,
    decreases ids.len(),
{
    if ids.len() > 0 {
        let d = ids.drop_last();
        let x = ids.last();
        assert(d.no_duplicates());
        assert forall|id: ThreadId| #[trigger] d.contains(id) implies !r.contains(id) by {
            let i = choose|i: int| 0 <= i < d.len() && d[i] == id;
            assert(ids[i] == id);
            assert(ids.contains(id));
        }
        lemma_queue_each_fresh(r, d);
        assert(ids.contains(x)) by {
            assert(ids[ids.len() - 1] == x);
        }
        assert(!d.contains(x)) by {
            if d.contains(x) {
                let i = choose|i: int| 0 <= i < d.len() && d[i] == x;
                assert(ids[i] == ids[ids.len() - 1]);
            }
        }
        assert(!(r + d).contains(x)) by {
            if (r + d).contains(x) {
                let i = choose|i: int| 0 <= i < (r + d).len() && (r + d)[i] == x;
                if i < r.len() {
                    assert(r[i] == x);
                } else {
                    assert(d[i - r.len()] == x);
                }
            }
        }
        assert((r + d).push(x) =~= r + ids);
    }
}

/// Move expired timeouts onto the ready FIFO, earliest first. `on_wake`
/// unlinks wait queues and sets TCB state. How many woke.
pub fn wake_expired(
    timeouts: &mut TimeoutQueue,
    ready: &mut ReadyQueue,
    now: Instant,
    mut on_wake: impl FnMut(ThreadId),
) -> (n: usize)
    requires
        old(timeouts).wf(),
        old(ready).wf(),
        old(ready)@.len() + expired_len(old(timeouts)@, now) <= MAX_THREADS,
        forall|id: ThreadId| call_requires(on_wake, (id,)),
        forall|id: ThreadId| #[trigger] expired_ids(old(timeouts)@, now).contains(id) ==> !id.spec_is_none(),
    ensures
        final(timeouts).wf(),
        final(ready).wf(),
        n == expired_len(old(timeouts)@, now),
        final(timeouts)@ == old(timeouts)@.skip(n as int),
        forall|j: int| 0 <= j < n ==> (#[trigger] old(timeouts)@[j]).deadline.ns <= now.ns,
        n < old(timeouts)@.len() ==> old(timeouts)@[n as int].deadline.ns > now.ns,
        final(ready)@ == queue_each(old(ready)@, expired_ids(old(timeouts)@, now)),
        (forall|id: ThreadId| #[trigger] expired_ids(old(timeouts)@, now).contains(id) ==> !old(ready)@.contains(id))
            ==> final(ready)@ == old(ready)@ + expired_ids(old(timeouts)@, now),
{
    let ghost t0 = timeouts@;
    let ghost r0 = ready@;
    let ghost k = expired_len(t0, now);
    let ghost e = expired_ids(t0, now);
    proof {
        lemma_expired_len(t0, now, 0);
    }
    let mut n: usize = 0;
    loop
        invariant
            timeouts.wf(),
            ready.wf(),
            k == expired_len(t0, now),
            e == expired_ids(t0, now),
            k <= t0.len(),
            e.len() == k,
            n <= k,
            timeouts@ == t0.skip(n as int),
            r0.len() + k <= MAX_THREADS,
            ready@ == queue_each(r0, e.take(n as int)),
            forall|id: ThreadId| call_requires(on_wake, (id,)),
            forall|id: ThreadId| #[trigger] e.contains(id) ==> !id.spec_is_none(),
            forall|j: int| 0 <= j < k ==> (#[trigger] t0[j]).deadline.ns <= now.ns,
            k < t0.len() ==> t0[k as int].deadline.ns > now.ns,
        ensures
            timeouts.wf(),
            ready.wf(),
            n == k,
            timeouts@ == t0.skip(n as int),
            ready@ == queue_each(r0, e.take(n as int)),
        decreases t0.len() - n,
    {
        proof {
            assert(t0.skip(n as int).len() == t0.len() - n);
            if n < t0.len() {
                assert(t0.skip(n as int)[0] == t0[n as int]);
            }
        }
        match timeouts.pop_expired(now) {
            Some(id) => {
                assert(id == e[n as int]);
                assert(e.contains(id));
                on_wake(id);
                proof {
                    lemma_queue_each_len(r0, e.take(n as int));
                }
                ready.push_back(id);
                assert(t0.skip((n + 1) as int) =~= t0.skip(n as int).drop_first());
                assert(e.take((n + 1) as int).drop_last() =~= e.take(n as int));
                n += 1;
            },
            None => {
                break;
            },
        }
    }
    assert(e.take(n as int) =~= e);
    proof {
        if forall|id: ThreadId| #[trigger] e.contains(id) ==> !r0.contains(id) {
            assert(e.no_duplicates()) by {
                assert forall|i: int, j: int| 0 <= i < e.len() && 0 <= j < e.len() && i != j implies e[i] != e[j] by {
                    assert(e[i] == t0[i].id && e[j] == t0[j].id);
                }
            }
            lemma_queue_each_fresh(r0, e);
        }
    }
    n
}

/// Preempt at the end of every quantum, and always when idle is running.
pub fn should_preempt(ticks: u64, current_is_idle: bool) -> (r: bool)
    ensures
        r == (current_is_idle || ticks % QUANTUM_TICKS == 0),
{
    current_is_idle || ticks % QUANTUM_TICKS == 0
}

} // verus!
