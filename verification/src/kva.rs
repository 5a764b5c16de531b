//! Kernel virtual address range allocator, portable half.
//!
//! First-fit over the 64 GiB window at `KVA_START`. Freed ranges go to
//! the tail of the free list so the window between unmap and TLB
//! shootdown is not immediately reused.
//!
//! This type only hands out VA. Mapping, guard pages, vmap, and the
//! deferred-free list live with the page tables.

use vstd::prelude::*;

verus! {

pub const KVA_START: u64 = 0xFFFF_D000_0000_0000;

pub const KVA_SIZE: u64 = 64 * 1024 * 1024 * 1024;

pub const KVA_END: u64 = KVA_START + KVA_SIZE;

pub const PAGE_SIZE: u64 = 4096;

/// Default kernel stack: 4 pages (16 KiB) plus the unmapped guard.
pub const DEFAULT_STACK_PAGES: usize = 4;

/// Free-list capacity: the number of ranges the list can hold.
pub const MAX_RANGES: usize = 128;

/// Free-list node pool exhausted after coalesce. Not a VA OOM (`allocate`
/// still returns `None` for that).
#[derive(Clone, Copy, Debug, PartialEq, Eq, Structural)]
pub enum KvaError {
    Exhausted,
}

impl KvaError {
    pub fn as_str(self) -> (r: &'static str)
        ensures
            r@ == "exhausted"@,
    {
        match self {
            KvaError::Exhausted => "exhausted",
        }
    }
}

/// Snapshot for `meminfo`. `used` is bytes currently reserved (including
/// guard pages), not necessarily mapped.
#[derive(Clone, Copy, Debug, PartialEq, Eq, Structural)]
pub struct KvaStats {
    pub used: u64,
    pub capacity: u64,
    pub free_ranges: usize,
}

/// Total bytes of the free ranges `s`, each a `(start, len)` pair.
pub open spec fn total(s: Seq<(u64, u64)>) -> int
    decreases s.len(),
{
    if s.len() == 0 {
        0
    } else {
        total(s.drop_last()) + s.last().1
    }
}

/// A range whose end does not pass the top of the address space.
pub open spec fn range_ok(r: (u64, u64)) -> bool {
    r.0 + r.1 <= u64::MAX
}

/// The free ranges of `s` all end inside the address space.
pub open spec fn ranges_ok(s: Seq<(u64, u64)>) -> bool {
    forall|i: int| 0 <= i < s.len() ==> range_ok(#[trigger] s[i])
}

/// Where first-fit stable-inserts `x` into `s`: after every range that
/// starts no later than `x`, scanning back from the end.
pub open spec fn ins_pos(s: Seq<(u64, u64)>, x: (u64, u64)) -> int
    decreases s.len(),
{
    if s.len() == 0 || s.last().0 <= x.0 {
        s.len() as int
    } else {
        ins_pos(s.drop_last(), x)
    }
}

/// `s` with `x` inserted by start address, after any equal start.
pub open spec fn sorted_insert(s: Seq<(u64, u64)>, x: (u64, u64)) -> Seq<(u64, u64)> {
    s.insert(ins_pos(s, x), x)
}

/// `s` sorted by start address; ranges with equal starts keep their order.
pub open spec fn sort_by_start(s: Seq<(u64, u64)>) -> Seq<(u64, u64)>
    decreases s.len(),
{
    if s.len() == 0 {
        Seq::empty()
    } else {
        sorted_insert(sort_by_start(s.drop_last()), s.last())
    }
}

/// Ranges in order of start address.
pub open spec fn starts_sorted(s: Seq<(u64, u64)>) -> bool {
    forall|i: int, j: int| 0 <= i < j < s.len() ==> s[i].0 <= s[j].0
}

/// Append `r`, folding it into the last range when the two touch.
pub open spec fn merge_step(out: Seq<(u64, u64)>, r: (u64, u64)) -> Seq<(u64, u64)> {
    if out.len() > 0 && out.last().0 + out.last().1 == r.0 {
        out.drop_last().push((out.last().0, (out.last().1 + r.1) as u64))
    } else {
        out.push(r)
    }
}

/// `s` with each run of touching neighbours folded into one range.
pub open spec fn merged(s: Seq<(u64, u64)>) -> Seq<(u64, u64)>
    decreases s.len(),
{
    if s.len() == 0 {
        Seq::empty()
    } else {
        merge_step(merged(s.drop_last()), s.last())
    }
}

/// The free list that the overflow valve rebuilds from `s`.
pub open spec fn coalesced(s: Seq<(u64, u64)>) -> Seq<(u64, u64)> {
    merged(sort_by_start(s))
}

/// The index that first-fit takes for `len` in `s`: the first range at
/// least `len` long.
pub open spec fn is_first_fit(s: Seq<(u64, u64)>, len: u64, i: int) -> bool {
    &&& 0 <= i < s.len()
    &&& s[i].1 >= len
    &&& forall|j: int| 0 <= j < i ==> #[trigger] s[j].1 < len
}

/// `s` after carving `len` bytes off the front of range `i`; a range used
/// up leaves the list.
pub open spec fn carve(s: Seq<(u64, u64)>, i: int, len: u64) -> Seq<(u64, u64)> {
    if s[i].1 == len {
        s.remove(i)
    } else {
        s.update(i, ((s[i].0 + len) as u64, (s[i].1 - len) as u64))
    }
}

pub proof fn lemma_total_split(s: Seq<(u64, u64)>, i: int)
    requires
        0 <= i <= s.len(),
    ensures
        total(s) == total(s.take(i)) + total(s.skip(i)),
    decreases s.len(),
{
    if i == s.len() {
        assert(s.take(i) =~= s);
        assert(s.skip(i) =~= Seq::<(u64, u64)>::empty());
    } else {
        lemma_total_split(s.drop_last(), i);
        assert(s.drop_last().take(i) =~= s.take(i));
        assert(s.skip(i).drop_last() =~= s.drop_last().skip(i));
    }
}

proof fn lemma_total_push(s: Seq<(u64, u64)>, x: (u64, u64))
    ensures
        total(s.push(x)) == total(s) + x.1,
{
    assert(s.push(x).drop_last() =~= s);
}

proof fn lemma_total_one(x: (u64, u64))
    ensures
        total(seq![x]) == x.1,
{
    let t = seq![x];
    assert(t.drop_last() =~= Seq::<(u64, u64)>::empty());
    assert(t.last() == x);
    assert(total(t.drop_last()) == 0);
}

proof fn lemma_total_insert(s: Seq<(u64, u64)>, i: int, x: (u64, u64))
    requires
        0 <= i <= s.len(),
    ensures
        total(s.insert(i, x)) == total(s) + x.1,
{
    let t = s.insert(i, x);
    lemma_total_split(t, i);
    lemma_total_split(s, i);
    assert(t.take(i) =~= s.take(i));
    let rest = t.skip(i);
    lemma_total_split(rest, 1);
    assert(rest.take(1) =~= seq![x]);
    assert(rest.skip(1) =~= s.skip(i));
    lemma_total_one(x);
}

proof fn lemma_total_remove(s: Seq<(u64, u64)>, i: int)
    requires
        0 <= i < s.len(),
    ensures
        total(s.remove(i)) == total(s) - s[i].1,
{
    lemma_total_insert(s.remove(i), i, s[i]);
    assert(s.remove(i).insert(i, s[i]) =~= s);
}

proof fn lemma_total_update(s: Seq<(u64, u64)>, i: int, x: (u64, u64))
    requires
        0 <= i < s.len(),
    ensures
        total(s.update(i, x)) == total(s) - s[i].1 + x.1,
{
    lemma_total_remove(s, i);
    lemma_total_insert(s.remove(i), i, x);
    assert(s.remove(i).insert(i, x) =~= s.update(i, x));
}

proof fn lemma_total_nonneg(s: Seq<(u64, u64)>)
    ensures
        total(s) >= 0,
        forall|i: int| 0 <= i < s.len() ==> total(s) >= #[trigger] s[i].1,
    decreases s.len(),
{
    if s.len() > 0 {
        lemma_total_nonneg(s.drop_last());
        assert forall|i: int| 0 <= i < s.len() implies total(s) >= #[trigger] s[i].1 by {
            if i < s.len() - 1 {
                assert(s.drop_last()[i] == s[i]);
            }
        }
    }
}

proof fn lemma_ins_pos(s: Seq<(u64, u64)>, x: (u64, u64))
    ensures
        0 <= ins_pos(s, x) <= s.len(),
        forall|j: int| ins_pos(s, x) <= j < s.len() ==> #[trigger] s[j].0 > x.0,
        ins_pos(s, x) > 0 ==> s[ins_pos(s, x) - 1].0 <= x.0,
    decreases s.len(),
{
    if s.len() > 0 && s.last().0 > x.0 {
        let d = s.drop_last();
        lemma_ins_pos(d, x);
        assert forall|j: int| ins_pos(s, x) <= j < s.len() implies #[trigger] s[j].0 > x.0 by {
            if j < d.len() {
                assert(d[j] == s[j]);
            }
        }
        if ins_pos(s, x) > 0 {
            assert(d[ins_pos(s, x) - 1] == s[ins_pos(s, x) - 1]);
        }
    }
}

proof fn lemma_sorted_insert(s: Seq<(u64, u64)>, x: (u64, u64))
    ensures
        sorted_insert(s, x).len() == s.len() + 1,
        total(sorted_insert(s, x)) == total(s) + x.1,
        ranges_ok(s) && range_ok(x) ==> ranges_ok(sorted_insert(s, x)),
        starts_sorted(s) ==> starts_sorted(sorted_insert(s, x)),
{
    lemma_ins_pos(s, x);
    let k = ins_pos(s, x);
    let t = s.insert(k, x);
    lemma_total_insert(s, k, x);
    if ranges_ok(s) && range_ok(x) {
        assert forall|i: int| 0 <= i < t.len() implies range_ok(#[trigger] t[i]) by {
            if i < k {
                assert(t[i] == s[i]);
            } else if i > k {
                assert(t[i] == s[i - 1]);
            }
        }
    }
    if starts_sorted(s) {
        assert forall|i: int, j: int| 0 <= i < j < t.len() implies t[i].0 <= t[j].0 by {
            if j < k {
                assert(t[i] == s[i] && t[j] == s[j]);
            } else if j == k {
                assert(t[i] == s[i]);
                assert(s[k - 1].0 <= x.0);
                assert(s[i].0 <= s[k - 1].0 || i == k - 1);
            } else if i == k {
                assert(t[j] == s[j - 1]);
            } else if i < k {
                assert(t[i] == s[i] && t[j] == s[j - 1]);
            } else {
                assert(t[i] == s[i - 1] && t[j] == s[j - 1]);
            }
        }
    }
}

/// Sorting keeps the length, the bytes and the range bounds, and sorts.
pub proof fn lemma_sort_by_start(s: Seq<(u64, u64)>)
    ensures
        sort_by_start(s).len() == s.len(),
        total(sort_by_start(s)) == total(s),
        ranges_ok(s) ==> ranges_ok(sort_by_start(s)),
        starts_sorted(sort_by_start(s)),
    decreases s.len(),
{
    if s.len() > 0 {
        lemma_sort_by_start(s.drop_last());
        lemma_sorted_insert(sort_by_start(s.drop_last()), s.last());
        if ranges_ok(s) {
            assert(ranges_ok(s.drop_last())) by {
                assert forall|i: int| 0 <= i < s.drop_last().len() implies range_ok(
                    #[trigger] s.drop_last()[i],
                ) by {
                    assert(s.drop_last()[i] == s[i]);
                }
            }
            assert(range_ok(s[s.len() - 1]));
        }
    }
}

/// Merging keeps the bytes and the range bounds, and never lengthens.
pub proof fn lemma_merged(s: Seq<(u64, u64)>)
    requires
        ranges_ok(s),
    ensures
        merged(s).len() <= s.len(),
        total(merged(s)) == total(s),
        ranges_ok(merged(s)),
    decreases s.len(),
{
    if s.len() > 0 {
        let p = s.drop_last();
        let r = s.last();
        assert(ranges_ok(p)) by {
            assert forall|i: int| 0 <= i < p.len() implies range_ok(#[trigger] p[i]) by {
                assert(p[i] == s[i]);
            }
        }
        assert(range_ok(s[s.len() - 1]));
        lemma_merged(p);
        let m = merged(p);
        if m.len() > 0 && m.last().0 + m.last().1 == r.0 {
            let last = m.last();
            assert(range_ok(m[m.len() - 1]));
            let nl = (last.0, (last.1 + r.1) as u64);
            assert(m.drop_last().push(nl) =~= m.update(m.len() - 1, nl));
            lemma_total_update(m, m.len() - 1, nl);
            let t = m.update(m.len() - 1, nl);
            assert forall|i: int| 0 <= i < t.len() implies range_ok(#[trigger] t[i]) by {
                if i < m.len() - 1 {
                    assert(t[i] == m[i]);
                }
            }
        } else {
            lemma_total_push(m, r);
            let t = m.push(r);
            assert forall|i: int| 0 <= i < t.len() implies range_ok(#[trigger] t[i]) by {
                if i < m.len() {
                    assert(t[i] == m[i]);
                }
            }
        }
        lemma_total_push(p, r);
        assert(p.push(r) =~= s);
    }
}

/// Kernel VA range allocator: a first-fit free list of `(start, len)`
/// ranges, in list order, with the bytes handed out and the window size.
pub struct Kva {
    ranges: Vec<(u64, u64)>,
    used: u64,
    capacity: u64,
}

impl Kva {
    /// The free ranges, in list order.
    pub closed spec fn ranges(&self) -> Seq<(u64, u64)> {
        self.ranges@
    }

    /// Bytes currently handed out.
    pub closed spec fn used_bytes(&self) -> u64 {
        self.used
    }

    /// Size of the window given to `init`.
    pub closed spec fn capacity_bytes(&self) -> u64 {
        self.capacity
    }

    /// The list fits its node pool, every range ends inside the address
    /// space, and free plus handed-out bytes never exceed the window.
    pub closed spec fn wf(&self) -> bool {
        &&& self.ranges@.len() <= MAX_RANGES
        &&& ranges_ok(self.ranges@)
        &&& self.used + total(self.ranges@) <= self.capacity
    }

    pub fn empty() -> (r: Self)
        ensures
            r.wf(),
            r.ranges() == Seq::<(u64, u64)>::empty(),
            r.used_bytes() == 0,
            r.capacity_bytes() == 0,
    {
        Kva { ranges: Vec::new(), used: 0, capacity: 0 }
    }

    /// Reset to one free range `[start, start + size)`.
    pub fn init(&mut self, start: u64, size: u64) -> (r: Result<(), KvaError>)
        requires
            size % PAGE_SIZE == 0,
            start % PAGE_SIZE == 0,
            start + size <= u64::MAX,
        ensures
            r is Ok,
            final(self).wf(),
            final(self).ranges() == seq![(start, size)],
            final(self).used_bytes() == 0,
            final(self).capacity_bytes() == size,
            accounted(*final(self)),
    {
        let mut ranges: Vec<(u64, u64)> = Vec::new();
        ranges.push((start, size));
        *self = Kva { ranges, used: 0, capacity: size };
        proof {
            lemma_total_one((start, size));
            assert(self.ranges@ =~= seq![(start, size)]);
        }
        Ok(())
    }

    pub fn stats(&self) -> (r: KvaStats)
        ensures
            r.used == self.used_bytes(),
            r.capacity == self.capacity_bytes(),
            r.free_ranges == self.ranges().len(),
    {
        KvaStats { used: self.used, capacity: self.capacity, free_ranges: self.ranges.len() }
    }

    /// The free list as `(start, len)` pairs, head first.
    pub fn free_list(&self) -> (r: Vec<(u64, u64)>)
        ensures
            r@ == self.ranges(),
    {
        let mut out: Vec<(u64, u64)> = Vec::new();
        let mut i = 0usize;
        while i < self.ranges.len()
            invariant
                i <= self.ranges@.len(),
                out@ == self.ranges@.take(i as int),
            decreases self.ranges@.len() - i,
        {
            out.push(self.ranges[i]);
            i += 1;
            assert(out@ =~= self.ranges@.take(i as int));
        }
        assert(self.ranges@.take(i as int) =~= self.ranges@);
        out
    }

    /// First-fit. `len` page-aligned. Returns the start VA.
    pub fn allocate(&mut self, len: u64) -> (r: Option<u64>)
        requires
            old(self).wf(),
        ensures
            final(self).wf(),
            alloc_post(*old(self), len, r, *final(self)),
            accounted(*old(self)) ==> accounted(*final(self)),
    {
        let r = self.first_fit(len);
        proof {
            if accounted(*old(self)) {
                lemma_alloc_accounted(*old(self), len, r, *self);
            }
        }
        r
    }

    /// Take `len` bytes off the front of the first range that holds them.
    fn first_fit(&mut self, len: u64) -> (r: Option<u64>)
        requires
            old(self).wf(),
        ensures
            final(self).wf(),
            alloc_post(*old(self), len, r, *final(self)),
    {
        if len == 0 || len % PAGE_SIZE != 0 {
            return None;
        }
        let mut i = 0usize;
        while i < self.ranges.len()
            invariant
                self.wf(),
                self.ranges@ == old(self).ranges@,
                self.used == old(self).used,
                self.capacity == old(self).capacity,
                i <= self.ranges@.len(),
                len > 0,
                len % PAGE_SIZE == 0,
                forall|j: int| 0 <= j < i ==> #[trigger] self.ranges@[j].1 < len,
            decreases self.ranges@.len() - i,
        {
            let r = self.ranges[i];
            if r.1 >= len {
                let ghost s = self.ranges@;
                proof {
                    assert(range_ok(s[i as int]));
                    lemma_total_nonneg(s);
                }
                if r.1 == len {
                    self.ranges.remove(i);
                    proof {
                        lemma_total_remove(s, i as int);
                        assert forall|j: int| 0 <= j < self.ranges@.len() implies range_ok(
                            #[trigger] self.ranges@[j],
                        ) by {
                            if j < i {
                                assert(self.ranges@[j] == s[j]);
                            } else {
                                assert(self.ranges@[j] == s[j + 1]);
                            }
                        }
                    }
                } else {
                    let nr = (r.0 + len, r.1 - len);
                    self.ranges.set(i, nr);
                    proof {
                        lemma_total_update(s, i as int, nr);
                        assert forall|j: int| 0 <= j < self.ranges@.len() implies range_ok(
                            #[trigger] self.ranges@[j],
                        ) by {
                            if j != i {
                                assert(self.ranges@[j] == s[j]);
                            }
                        }
                    }
                }
                self.used = self.used + len;
                proof {
                    assert(is_first_fit(s, len, i as int));
                    assert(old(self).ranges()[i as int].1 >= len);
                }
                return Some(r.0);
            }
            i += 1;
        }
        None
    }

    /// Reserve `pages + 1` pages. First page is the guard (returned as
    /// `guard`); mapped region starts at `guard + PAGE_SIZE` and is
    /// `pages` pages long.
    pub fn alloc_guarded(&mut self, pages: usize) -> (r: Option<u64>)
        requires
            old(self).wf(),
            (pages + 1) * PAGE_SIZE <= u64::MAX,
        ensures
            final(self).wf(),
            pages == 0 ==> r is None && final(self).ranges() == old(self).ranges()
                && final(self).used_bytes() == old(self).used_bytes()
                && final(self).capacity_bytes() == old(self).capacity_bytes(),
            pages > 0 ==> alloc_post(*old(self), ((pages + 1) * PAGE_SIZE) as u64, r, *final(self)),
            accounted(*old(self)) ==> accounted(*final(self)),
    {
        if pages == 0 {
            return None;
        }
        let len = (pages as u64 + 1) * PAGE_SIZE;
        assert(len % PAGE_SIZE == 0);
        self.allocate(len)
    }

    /// Append `[start, start+len)` to the tail. No coalescing on this
    /// path: recently-freed VA sits at the tail so it is not the next
    /// first-fit hit. A full list is first coalesced; if it is still
    /// full the range is dropped and `Exhausted` returned. The range must
    /// end within the 64-bit address space, as every range `allocate`
    /// hands out does: coalescing adds start and length, and a range
    /// past the top would overflow there.
    pub fn free(&mut self, start: u64, len: u64) -> (r: Result<(), KvaError>)
        requires
            old(self).wf(),
            len % PAGE_SIZE == 0,
            start % PAGE_SIZE == 0,
            len > 0,
            old(self).used_bytes() >= len,
            start + len <= u64::MAX,
        ensures
            final(self).wf(),
            free_post(*old(self), start, len, r, *final(self)),
            accounted(*old(self)) && r is Ok ==> accounted(*final(self)),
    {
        let ghost k0 = *self;
        self.used = self.used - len;
        if self.ranges.len() >= MAX_RANGES {
            self.coalesce_all();
        }
        if self.ranges.len() >= MAX_RANGES {
            return Err(KvaError::Exhausted);
        }
        let ghost s = self.ranges@;
        self.ranges.push((start, len));
        proof {
            lemma_total_push(s, (start, len));
            assert forall|j: int| 0 <= j < self.ranges@.len() implies range_ok(
                #[trigger] self.ranges@[j],
            ) by {
                if j < s.len() {
                    assert(self.ranges@[j] == s[j]);
                }
            }
            if accounted(k0) {
                lemma_free_accounted(k0, start, len, *self);
            }
        }
        Ok(())
    }

    /// Overflow valve: sort + merge adjacent, rebuild as a single
    /// address-ordered list. Normal frees never take this path.
    fn coalesce_all(&mut self)
        requires
            old(self).wf(),
        ensures
            final(self).wf(),
            final(self).ranges() == coalesced(old(self).ranges()),
            total(final(self).ranges()) == total(old(self).ranges()),
            final(self).used_bytes() == old(self).used_bytes(),
            final(self).capacity_bytes() == old(self).capacity_bytes(),
    {
        let ghost s = self.ranges@;
        let mut sorted: Vec<(u64, u64)> = Vec::new();
        let mut i = 0usize;
        while i < self.ranges.len()
            invariant
                self.ranges@ == s,
                i <= s.len(),
                sorted@ == sort_by_start(s.take(i as int)),
            decreases s.len() - i,
        {
            let x = self.ranges[i];
            let mut k = sorted.len();
            assert(sorted@.take(k as int) =~= sorted@);
            while k > 0 && sorted[k - 1].0 > x.0
                invariant
                    k <= sorted@.len(),
                    ins_pos(sorted@, x) == ins_pos(sorted@.take(k as int), x),
                decreases k,
            {
                proof {
                    let t = sorted@.take(k as int);
                    assert(t.drop_last() =~= sorted@.take(k - 1));
                }
                k -= 1;
            }
            proof {
                assert(ins_pos(sorted@.take(k as int), x) == k);
            }
            sorted.insert(k, x);
            proof {
                assert(s.take(i + 1).drop_last() =~= s.take(i as int));
            }
            i += 1;
        }
        proof {
            assert(s.take(i as int) =~= s);
            lemma_sort_by_start(s);
        }
        let ghost p = sorted@;
        let mut out: Vec<(u64, u64)> = Vec::new();
        let mut j = 0usize;
        while j < sorted.len()
            invariant
                sorted@ == p,
                ranges_ok(p),
                j <= p.len(),
                out@ == merged(p.take(j as int)),
            decreases p.len() - j,
        {
            let r = sorted[j];
            proof {
                assert(p.take(j + 1).drop_last() =~= p.take(j as int));
                assert(range_ok(p[j as int]));
                assert(ranges_ok(p.take(j as int))) by {
                    assert forall|q: int| 0 <= q < j implies range_ok(#[trigger] p.take(j as int)[q]) by {
                        assert(p.take(j as int)[q] == p[q]);
                    }
                }
                lemma_merged(p.take(j as int));
            }
            let n = out.len();
            if n > 0 && out[n - 1].0 + out[n - 1].1 == r.0 {
                let last = out[n - 1];
                proof {
                    assert(range_ok(out@[n - 1]));
                }
                out.set(n - 1, (last.0, last.1 + r.1));
                proof {
                    assert(out@ =~= merge_step(merged(p.take(j as int)), r));
                }
            } else {
                out.push(r);
            }
            j += 1;
        }
        proof {
            assert(p.take(j as int) =~= p);
            lemma_merged(p);
        }
        self.ranges = out;
    }
}

/// Every byte of the window is either handed out or on the free list.
pub open spec fn accounted(k: Kva) -> bool {
    k.used_bytes() + total(k.ranges()) == k.capacity_bytes()
}

/// An allocation keeps every byte of the window accounted for: what the
/// caller gets leaves the free list.
pub proof fn lemma_alloc_accounted(k0: Kva, len: u64, r: Option<u64>, k1: Kva)
    requires
        alloc_post(k0, len, r, k1),
        accounted(k0),
    ensures
        accounted(k1),
{
    if r is Some {
        let i = choose|i: int| #[trigger] is_first_fit(k0.ranges(), len, i) && r->0 == k0.ranges()[i].0
            && k1.ranges() == carve(k0.ranges(), i, len) && k1.used_bytes() == k0.used_bytes() + len;
        let s = k0.ranges();
        if s[i].1 == len {
            lemma_total_remove(s, i);
        } else {
            lemma_total_update(s, i, ((s[i].0 + len) as u64, (s[i].1 - len) as u64));
        }
    }
}

/// A free that succeeds keeps every byte of the window accounted for:
/// the range goes back on the list, compacted or not.
pub proof fn lemma_free_accounted(k0: Kva, start: u64, len: u64, k1: Kva)
    requires
        k0.wf(),
        free_post(k0, start, len, Ok(()), k1),
        accounted(k0),
    ensures
        accounted(k1),
{
    let s = k0.ranges();
    if s.len() < MAX_RANGES {
        lemma_total_push(s, (start, len));
    } else {
        let c = coalesced(s);
        lemma_sort_by_start(s);
        lemma_merged(sort_by_start(s));
        lemma_total_push(c, (start, len));
    }
}

/// What `allocate(len)` does: bad lengths and lengths no range can hold
/// give `None` and change nothing; otherwise the first range that fits
/// gives up its front `len` bytes, whose start is returned.
pub open spec fn alloc_post(k0: Kva, len: u64, r: Option<u64>, k1: Kva) -> bool {
    &&& k1.capacity_bytes() == k0.capacity_bytes()
    &&& (len == 0 || len % PAGE_SIZE != 0 || forall|j: int|
        0 <= j < k0.ranges().len() ==> #[trigger] k0.ranges()[j].1 < len) <==> r is None
    &&& r is None ==> k1.ranges() == k0.ranges() && k1.used_bytes() == k0.used_bytes()
    &&& r matches Some(a) ==> len > 0 && len % PAGE_SIZE == 0 && exists|i: int|
        #[trigger] is_first_fit(k0.ranges(), len, i)
        && a == k0.ranges()[i].0
        && k1.ranges() == carve(k0.ranges(), i, len)
        && k1.used_bytes() == k0.used_bytes() + len
}

/// What `free(start, len)` does: the bytes stop counting as used and the
/// range joins the tail of the list; a full list is coalesced first, and
/// if it stays full the range is dropped with `Exhausted`.
pub open spec fn free_post(k0: Kva, start: u64, len: u64, r: Result<(), KvaError>, k1: Kva) -> bool {
    &&& k1.capacity_bytes() == k0.capacity_bytes()
    &&& k1.used_bytes() == k0.used_bytes() - len
    &&& k0.ranges().len() < MAX_RANGES ==> r is Ok && k1.ranges() == k0.ranges().push((start, len))
    &&& k0.ranges().len() >= MAX_RANGES ==> ({
        let c = coalesced(k0.ranges());
        &&& c.len() < MAX_RANGES ==> r is Ok && k1.ranges() == c.push((start, len))
        &&& c.len() >= MAX_RANGES ==> r == Err::<(), KvaError>(KvaError::Exhausted) && k1.ranges() == c
    })
}

/// One call that keeps the accounting: an `allocate` (or an
/// `alloc_guarded`, which is one), or a `free` that succeeded.
pub open spec fn kva_step(k0: Kva, k1: Kva) -> bool {
    ||| exists|len: u64, r: Option<u64>| #[trigger] alloc_post(k0, len, r, k1)
    ||| k0.wf() && exists|start: u64, len: u64| #[trigger] free_post(k0, start, len, Ok(()), k1)
}

/// Over any run of calls from a freshly set-up window, every byte stays
/// accounted for: what is handed out plus what the free list holds is
/// the window's size, so no more than the window is ever in use.
pub proof fn lemma_accounted_run(run: Seq<Kva>)
    requires
        run.len() >= 1,
        accounted(run[0]),
        forall|i: int| 0 <= i < run.len() - 1 ==> #[trigger] kva_step(run[i], run[i + 1]),
    ensures
        forall|i: int| 0 <= i < run.len() ==> #[trigger] accounted(run[i]),
        forall|i: int| 0 <= i < run.len() ==> #[trigger] run[i].used_bytes() <= run[i].capacity_bytes(),
    decreases run.len(),
{
    if run.len() > 1 {
        let pre = run.drop_last();
        assert forall|i: int| 0 <= i < pre.len() - 1 implies #[trigger] kva_step(pre[i], pre[i + 1]) by {
            assert(pre[i] == run[i] && pre[i + 1] == run[i + 1]);
            assert(kva_step(run[i], run[i + 1]));
        }
        lemma_accounted_run(pre);
        let n = run.len() - 1;
        assert(pre[n - 1] == run[n - 1]);
        assert(accounted(run[n - 1]));
        let m = n - 1;
        assert(kva_step(run[m], run[m + 1]));
        if exists|len: u64, r: Option<u64>| #[trigger] alloc_post(run[n - 1], len, r, run[n]) {
            let (len, r) = choose|len: u64, r: Option<u64>| #[trigger] alloc_post(run[n - 1], len, r, run[n]);
            lemma_alloc_accounted(run[n - 1], len, r, run[n]);
        } else {
            let (start, len) = choose|start: u64, len: u64| #[trigger] free_post(run[n - 1], start, len, Ok(()), run[n]);
            lemma_free_accounted(run[n - 1], start, len, run[n]);
        }
        assert forall|i: int| 0 <= i < run.len() implies #[trigger] accounted(run[i]) by {
            if i < n {
                assert(pre[i] == run[i]);
            }
        }
    }
    assert forall|i: int| 0 <= i < run.len() implies #[trigger] run[i].used_bytes() <= run[i].capacity_bytes() by {
        assert(accounted(run[i]));
        lemma_total_nonneg(run[i].ranges());
    }
}

/// Freeing what `allocate` handed out leaves the used count and the
/// window where they were, and the freed range at the tail of the list.
pub proof fn lemma_alloc_free_roundtrip(k0: Kva, k1: Kva, k2: Kva, len: u64, a: u64, r: Result<(), KvaError>)
    requires
        alloc_post(k0, len, Some(a), k1),
        free_post(k1, a, len, r, k2),
    ensures
        k2.used_bytes() == k0.used_bytes(),
        k2.capacity_bytes() == k0.capacity_bytes(),
        r is Ok ==> k2.ranges().last() == (a, len),
{
}

} // verus!
