//! Physical memory manager: buddy allocator, portable half.
//!
//! Free blocks of order *k* cover `2^k` contiguous 4 KiB frames. Split on
//! allocation, merge with the buddy on free. Each order keeps its free
//! blocks in a list whose last entry is the head: the block pushed last
//! is handed out first.

use vstd::prelude::*;

verus! {

pub const PAGE_BITS: u32 = 12;

pub const PAGE_SIZE: u64 = 4096;

/// Maximum block order. Order *k* covers `2^k` frames, so `MAX_ORDER = 10`
/// covers 4 MiB blocks, slightly bigger than a 2 MiB page-table mapping.
pub const MAX_ORDER: usize = 10;

/// Snapshot of allocator state.
#[derive(Debug, Clone, Copy, PartialEq, Eq, Structural)]
pub struct PmmStats {
    pub total_frames: usize,
    pub free_frames: usize,
    pub largest_free_order: Option<u8>,
}

/// Bytes in a block of order `k`.
pub open spec fn block_bytes(k: int) -> int {
    (4096u64 << (k as u64)) as int
}

/// Frames in a block of order `k`.
pub open spec fn block_frames(k: int) -> int {
    (1u64 << (k as u64)) as int
}

proof fn lemma_block(k: u64)
    by (bit_vector)
    requires
        k <= 10,
    ensures
        (4096u64 << k) == 4096 * (1u64 << k),
        1 <= (1u64 << k) <= 1024,
        k < 10 ==> (1u64 << (k + 1)) == 2 * (1u64 << k),
        k < 10 ==> (4096u64 << (k + 1)) == 2 * (4096u64 << k),
        (1u64 << 0u64) == 1,
        (4096u64 << 0u64) == 4096,
{
}

/// Frames held by the lists of orders `0..n`.
pub open spec fn frames_upto(lists: Seq<Seq<u64>>, n: int) -> int
    decreases n,
{
    if n <= 0 {
        0
    } else {
        frames_upto(lists, n - 1) + lists[n - 1].len() * block_frames(n - 1)
    }
}

/// Frames held by all free lists.
pub open spec fn free_frames_of(lists: Seq<Seq<u64>>) -> int {
    frames_upto(lists, (MAX_ORDER + 1) as int)
}

proof fn lemma_frames_update(lists: Seq<Seq<u64>>, k: int, l: Seq<u64>, n: int)
    requires
        0 <= k <= MAX_ORDER,
        lists.len() == MAX_ORDER + 1,
        0 <= n <= MAX_ORDER + 1,
    ensures
        frames_upto(lists.update(k, l), n) == frames_upto(lists, n) + if k < n {
            l.len() * block_frames(k) - lists[k].len() * block_frames(k)
        } else {
            0
        },
    decreases n,
{
    if n > 0 {
        lemma_frames_update(lists, k, l, n - 1);
        if n - 1 != k {
            assert(lists.update(k, l)[n - 1] == lists[n - 1]);
        }
    }
}

/// A free block of order `k`: non-zero (frame 0 is never handed out),
/// aligned to its size, and inside the address space.
pub open spec fn block_ok(b: u64, k: int) -> bool {
    &&& b != 0
    &&& b & sub1(4096u64 << (k as u64)) == 0
    &&& b + block_bytes(k) <= 0x1_0000_0000_0000_0000
}

/// `x - 1` for a block size `x`, as a mask of the offset bits.
pub open spec fn sub1(x: u64) -> u64 {
    (x - 1) as u64
}

/// Start of the order-`k` block that holds `phys`.
pub open spec fn block_start(phys: u64, k: int) -> u64 {
    phys & !sub1(4096u64 << (k as u64))
}

/// The lists of a buddy allocator: one per order, blocks well placed.
pub open spec fn lists_ok(lists: Seq<Seq<u64>>) -> bool {
    &&& lists.len() == MAX_ORDER + 1
    &&& forall|k: int, i: int| 0 <= k <= MAX_ORDER && 0 <= i < lists[k].len() ==> block_ok(
        #[trigger] lists[k][i],
        k,
    )
}

/// `[a, a + la)` and `[b, b + lb)` share no byte.
pub open spec fn apart(a: int, la: int, b: int, lb: int) -> bool {
    la <= 0 || lb <= 0 || a + la <= b || b + lb <= a
}

/// The bytes `[a, a + len)` meet no free block of `lists`.
pub open spec fn clear_of(lists: Seq<Seq<u64>>, a: int, len: int) -> bool {
    forall|k: int, i: int|
        0 <= k <= MAX_ORDER && 0 <= i < lists[k].len() ==> apart(
            #[trigger] lists[k][i] as int,
            block_bytes(k),
            a,
            len,
        )
}

/// What handing out the `size` bytes at `a` does to the free memory of
/// `l0`, giving `l1`: they were free, they no longer are, and nothing else
/// changed.
pub open spec fn takes_block(l0: Seq<Seq<u64>>, l1: Seq<Seq<u64>>, a: int, size: int) -> bool {
    &&& forall|x: int, len: int| #[trigger] clear_of(l0, x, len) ==> clear_of(l1, x, len) && apart(x, len, a, size)
    &&& forall|x: int, len: int| #[trigger] clear_of(l1, x, len) && apart(x, len, a, size) ==> clear_of(l0, x, len)
    &&& clear_of(l1, a, size)
}

/// What giving back the `size` bytes at `a` does to the free memory of
/// `l0`, giving `l1`: exactly those bytes join it.
pub open spec fn gives_block(l0: Seq<Seq<u64>>, l1: Seq<Seq<u64>>, a: int, size: int) -> bool {
    forall|x: int, len: int| #[trigger] clear_of(l1, x, len) == (clear_of(l0, x, len) && apart(x, len, a, size))
}

/// `[x, x + len)` shares no byte with the blocks of `size` bytes at
/// `s[lo..]`.
pub open spec fn apart_all(x: int, len: int, s: Seq<u64>, lo: int, size: int) -> bool {
    forall|q: int| lo <= q < s.len() ==> apart(x, len, #[trigger] s[q] as int, size)
}

/// No two free blocks share a byte.
#[verifier::opaque]
pub open spec fn blocks_disjoint(lists: Seq<Seq<u64>>) -> bool {
    forall|k1: int, i1: int, k2: int, i2: int|
        #![trigger lists[k1][i1], lists[k2][i2]]
        0 <= k1 <= MAX_ORDER && 0 <= i1 < lists[k1].len() && 0 <= k2 <= MAX_ORDER && 0 <= i2 < lists[k2].len()
            && !(k1 == k2 && i1 == i2) ==> apart(lists[k1][i1] as int, block_bytes(k1), lists[k2][i2] as int, block_bytes(k2))
}

/// Adding block `p` of order `k`: a range is clear of the new lists when
/// it is clear of the old ones and of `p`; the blocks stay disjoint when
/// `p` was clear of the old ones.
proof fn lemma_push_block(l: Seq<Seq<u64>>, k: int, p: u64)
    requires
        l.len() == MAX_ORDER + 1,
        0 <= k <= MAX_ORDER,
    ensures
        forall|a: int, len: int| #[trigger] clear_of(l.update(k, l[k].push(p)), a, len) == (clear_of(l, a, len)
            && apart(a, len, p as int, block_bytes(k))),
        blocks_disjoint(l) && clear_of(l, p as int, block_bytes(k)) ==> blocks_disjoint(l.update(k, l[k].push(p))),
{
    let n = l.update(k, l[k].push(p));
    assert forall|a: int, len: int| #[trigger] clear_of(n, a, len) == (clear_of(l, a, len) && apart(
        a,
        len,
        p as int,
        block_bytes(k),
    )) by {
        if clear_of(n, a, len) {
            assert(n[k][l[k].len() as int] == p);
            assert forall|j: int, i: int| 0 <= j <= MAX_ORDER && 0 <= i < l[j].len() implies apart(
                #[trigger] l[j][i] as int,
                block_bytes(j),
                a,
                len,
            ) by {
                assert(n[j][i] == l[j][i]);
            }
        }
        if clear_of(l, a, len) && apart(a, len, p as int, block_bytes(k)) {
            assert forall|j: int, i: int| 0 <= j <= MAX_ORDER && 0 <= i < n[j].len() implies apart(
                #[trigger] n[j][i] as int,
                block_bytes(j),
                a,
                len,
            ) by {
                if !(j == k && i == l[k].len()) {
                    assert(n[j][i] == l[j][i]);
                }
            }
        }
    }
    if blocks_disjoint(l) && clear_of(l, p as int, block_bytes(k)) {
        reveal(blocks_disjoint);
        assert forall|k1: int, i1: int, k2: int, i2: int|
            #![trigger n[k1][i1], n[k2][i2]]
            0 <= k1 <= MAX_ORDER && 0 <= i1 < n[k1].len() && 0 <= k2 <= MAX_ORDER && 0 <= i2 < n[k2].len() && !(k1
                == k2 && i1 == i2) implies apart(n[k1][i1] as int, block_bytes(k1), n[k2][i2] as int, block_bytes(k2))
            by {
            let new1 = k1 == k && i1 == l[k].len();
            let new2 = k2 == k && i2 == l[k].len();
            if !new1 {
                assert(n[k1][i1] == l[k1][i1]);
            }
            if !new2 {
                assert(n[k2][i2] == l[k2][i2]);
            }
        }
    }
}

/// Taking the `idx`-th block of order `k` away keeps every clear range
/// clear and the blocks disjoint; and, the blocks being disjoint, leaves
/// the lists clear of the block taken.
proof fn lemma_remove_block(l: Seq<Seq<u64>>, k: int, idx: int)
    requires
        l.len() == MAX_ORDER + 1,
        0 <= k <= MAX_ORDER,
        0 <= idx < l[k].len(),
    ensures
        forall|a: int, len: int| clear_of(l, a, len) ==> #[trigger] clear_of(l.update(k, l[k].remove(idx)), a, len),
        forall|a: int, len: int| #[trigger] clear_of(l.update(k, l[k].remove(idx)), a, len) && apart(
            a,
            len,
            l[k][idx] as int,
            block_bytes(k),
        ) ==> clear_of(l, a, len),
        blocks_disjoint(l) ==> blocks_disjoint(l.update(k, l[k].remove(idx))),
        blocks_disjoint(l) ==> clear_of(l.update(k, l[k].remove(idx)), l[k][idx] as int, block_bytes(k)),
{
    let n = l.update(k, l[k].remove(idx));
    assert forall|j: int, i: int| 0 <= j <= MAX_ORDER && 0 <= i < n[j].len() implies #[trigger] n[j][i] == l[j][if j
        == k && i >= idx {
        i + 1
    } else {
        i
    }] by {}
    assert forall|a: int, len: int| clear_of(l, a, len) implies #[trigger] clear_of(n, a, len) by {
        assert forall|j: int, i: int| 0 <= j <= MAX_ORDER && 0 <= i < n[j].len() implies apart(
            #[trigger] n[j][i] as int,
            block_bytes(j),
            a,
            len,
        ) by {
            let i0 = if j == k && i >= idx { i + 1 } else { i };
            assert(n[j][i] == l[j][i0]);
        }
    }
    assert forall|a: int, len: int| #[trigger] clear_of(n, a, len) && apart(a, len, l[k][idx] as int, block_bytes(k))
        implies clear_of(l, a, len) by {
        assert forall|j: int, i: int| 0 <= j <= MAX_ORDER && 0 <= i < l[j].len() implies apart(
            #[trigger] l[j][i] as int,
            block_bytes(j),
            a,
            len,
        ) by {
            if !(j == k && i == idx) {
                let i1 = if j == k && i > idx { i - 1 } else { i };
                assert(n[j][i1] == l[j][i]);
            }
        }
    }
    if blocks_disjoint(l) {
        reveal(blocks_disjoint);
        assert forall|k1: int, i1: int, k2: int, i2: int|
            #![trigger n[k1][i1], n[k2][i2]]
            0 <= k1 <= MAX_ORDER && 0 <= i1 < n[k1].len() && 0 <= k2 <= MAX_ORDER && 0 <= i2 < n[k2].len() && !(k1
                == k2 && i1 == i2) implies apart(n[k1][i1] as int, block_bytes(k1), n[k2][i2] as int, block_bytes(k2))
            by {
            let j1 = if k1 == k && i1 >= idx { i1 + 1 } else { i1 };
            let j2 = if k2 == k && i2 >= idx { i2 + 1 } else { i2 };
            assert(n[k1][i1] == l[k1][j1]);
            assert(n[k2][i2] == l[k2][j2]);
            assert(l[k1][j1] == l[k1][j1] && l[k2][j2] == l[k2][j2]);
        }
        assert forall|j: int, i: int| 0 <= j <= MAX_ORDER && 0 <= i < n[j].len() implies apart(
            #[trigger] n[j][i] as int,
            block_bytes(j),
            l[k][idx] as int,
            block_bytes(k),
        ) by {
            let i0 = if j == k && i >= idx { i + 1 } else { i };
            assert(n[j][i] == l[j][i0]);
            assert(l[j][i0] == l[j][i0] && l[k][idx] == l[k][idx]);
        }
    }
}

/// Where `x` first occurs in `s`.
pub open spec fn first_index(s: Seq<u64>, x: u64) -> int {
    choose|i: int| 0 <= i < s.len() && s[i] == x && forall|j: int| 0 <= j < i ==> s[j] != x
}

/// The least order at or above `k` with a free block, or `MAX_ORDER + 1`.
pub open spec fn first_nonempty(lists: Seq<Seq<u64>>, k: int) -> int
    decreases MAX_ORDER + 1 - k,
{
    if k > MAX_ORDER {
        MAX_ORDER + 1
    } else if lists[k].len() > 0 {
        k
    } else {
        first_nonempty(lists, k + 1)
    }
}

/// Splitting block `addr` of order `k` down to `target`: the upper half at
/// each order from `k - 1` down to `target` joins that order's list.
pub open spec fn split_down(lists: Seq<Seq<u64>>, addr: u64, target: int, k: int) -> Seq<Seq<u64>>
    decreases k - target,
{
    if k <= target {
        lists
    } else {
        split_down(
            lists.update(k - 1, lists[k - 1].push((addr + block_bytes(k - 1)) as u64)),
            addr,
            target,
            k - 1,
        )
    }
}

/// The lists after freeing `phys` at `order`: while the buddy is free at
/// the current order it leaves its list and the pair moves up one order;
/// the final block joins the list of the order reached.
pub open spec fn merge_up(lists: Seq<Seq<u64>>, phys: u64, order: int) -> Seq<Seq<u64>>
    decreases MAX_ORDER - order,
{
    let buddy = (phys ^ (4096u64 << (order as u64))) as u64;
    if 0 <= order < MAX_ORDER && lists[order].contains(buddy) {
        merge_up(
            lists.update(order, lists[order].remove(first_index(lists[order], buddy))),
            if phys < buddy { phys } else { buddy },
            order + 1,
        )
    } else {
        lists.update(order, lists[order].push(phys))
    }
}

/// The highest order with a free block.
pub open spec fn largest_order(lists: Seq<Seq<u64>>) -> Option<u8> {
    if exists|k: int| 0 <= k <= MAX_ORDER && lists[k].len() > 0 {
        Some(
            (choose|k: int|
                0 <= k <= MAX_ORDER && lists[k].len() > 0 && forall|j: int|
                    k < j <= MAX_ORDER ==> #[trigger] lists[j].len() == 0) as u8,
        )
    } else {
        None
    }
}

/// Frames in the whole pages of `[start, end)`, frame 0 left out.
pub open spec fn region_frames(start: u64, end: u64) -> int {
    let s = if start < 4096 { 4096 } else { start as int };
    let a = (s + 4095) / 4096 * 4096;
    let b = end as int / 4096 * 4096;
    if a < b {
        (b - a) / 4096
    } else {
        0
    }
}

/// Buddy allocator. Carries no per-frame state; `hhdm_offset` is where
/// the kernel maps a physical frame, fixed for the allocator's life.
pub struct Buddy {
    lists: Vec<Vec<u64>>,
    total_frames: usize,
    free_frames: usize,
    hhdm_offset: u64,
}

impl Buddy {
    /// The free blocks of each order; the last block of a list is its head.
    pub closed spec fn free_lists(&self) -> Seq<Seq<u64>> {
        self.lists@.map_values(|l: Vec<u64>| l@)
    }

    pub closed spec fn total(&self) -> int {
        self.total_frames as int
    }

    pub closed spec fn free(&self) -> int {
        self.free_frames as int
    }

    pub closed spec fn hhdm(&self) -> u64 {
        self.hhdm_offset
    }

    /// Lists well formed, the free count is what the lists hold, and no
    /// more frames are free than were ever given to the allocator.
    pub closed spec fn wf(&self) -> bool {
        &&& lists_ok(self.free_lists())
        &&& blocks_disjoint(self.free_lists())
        &&& self.free_frames == free_frames_of(self.free_lists())
        &&& self.free_frames <= self.total_frames
    }

    /// New empty buddy whose free-list nodes live at `phys + hhdm`.
    pub fn new(hhdm: u64) -> (r: Self)
        ensures
            r.wf(),
            r.free_lists() == Seq::new((MAX_ORDER + 1) as nat, |k: int| Seq::<u64>::empty()),
            r.total() == 0,
            r.free() == 0,
            r.hhdm() == hhdm,
    {
        let mut lists: Vec<Vec<u64>> = Vec::new();
        let mut k = 0usize;
        while k <= MAX_ORDER
            invariant
                k <= MAX_ORDER + 1,
                lists@.len() == k,
                forall|j: int| 0 <= j < k ==> (#[trigger] lists@[j])@ == Seq::<u64>::empty(),
            decreases MAX_ORDER + 1 - k,
        {
            lists.push(Vec::new());
            k += 1;
        }
        let r = Buddy { lists, total_frames: 0, free_frames: 0, hhdm_offset: hhdm };
        proof {
            let fl = r.free_lists();
            assert(fl =~= Seq::new((MAX_ORDER + 1) as nat, |k: int| Seq::<u64>::empty()));
            assert forall|n: int| 0 <= n <= MAX_ORDER + 1 implies frames_upto(fl, n) == 0 by {
                lemma_frames_zero(fl, n);
            }
            reveal(blocks_disjoint);
        }
        r
    }

    pub fn hhdm_offset(&self) -> (r: u64)
        ensures
            r == self.hhdm(),
    {
        self.hhdm_offset
    }

    pub fn stats(&self) -> (r: PmmStats)
        requires
            self.wf(),
        ensures
            r.total_frames == self.total(),
            r.free_frames == self.free(),
            r.largest_free_order == largest_order(self.free_lists()),
    {
        let mut largest: Option<u8> = None;
        let mut k = MAX_ORDER + 1;
        while k > 0 && largest.is_none()
            invariant
                k <= MAX_ORDER + 1,
                self.wf(),
                largest is None ==> forall|j: int| k <= j <= MAX_ORDER ==> #[trigger] self.free_lists()[j].len() == 0,
                largest matches Some(o) ==> o as int == k && k <= MAX_ORDER && self.free_lists()[k as int].len() > 0
                    && forall|j: int| k < j <= MAX_ORDER ==> #[trigger] self.free_lists()[j].len() == 0,
            decreases k,
        {
            k -= 1;
            if self.lists[k].len() > 0 {
                largest = Some(k as u8);
            } else {
                assert(self.free_lists()[k as int].len() == 0);
            }
        }
        let ghost fl = self.free_lists();
        proof {
            match largest {
                Some(o) => {
                    let w = k as int;
                    assert(0 <= w <= MAX_ORDER && fl[w].len() > 0 && forall|j: int|
                        w < j <= MAX_ORDER ==> #[trigger] fl[j].len() == 0);
                    let c = choose|c: int|
                        0 <= c <= MAX_ORDER && fl[c].len() > 0 && forall|j: int|
                            c < j <= MAX_ORDER ==> #[trigger] fl[j].len() == 0;
                    if c < w {
                        assert(fl[w].len() == 0);
                    }
                    if c > w {
                        assert(fl[c].len() == 0);
                    }
                },
                None => {
                    assert forall|j: int| 0 <= j <= MAX_ORDER implies !(fl[j].len() > 0) by {
                        assert(fl[j].len() == 0);
                    }
                },
            }
        }
        PmmStats { total_frames: self.total_frames, free_frames: self.free_frames, largest_free_order: largest }
    }
}

proof fn lemma_frames_zero(lists: Seq<Seq<u64>>, n: int)
    requires
        0 <= n <= lists.len(),
        forall|k: int| 0 <= k < lists.len() ==> (#[trigger] lists[k]).len() == 0,
    ensures
        frames_upto(lists, n) == 0,
    decreases n,
{
    if n > 0 {
        lemma_frames_zero(lists, n - 1);
    }
}


proof fn lemma_frames_nonneg(lists: Seq<Seq<u64>>, n: int)
    requires
        0 <= n <= lists.len(),
        lists.len() == MAX_ORDER + 1,
    ensures
        frames_upto(lists, n) >= 0,
    decreases n,
{
    if n > 0 {
        lemma_frames_nonneg(lists, n - 1);
        lemma_block((n - 1) as u64);
        assert(lists[n - 1].len() * block_frames(n - 1) >= 0) by (nonlinear_arith)
            requires
                block_frames(n - 1) >= 1,
        ;
    }
}

proof fn lemma_buddy_bits(p: u64, o: u64)
    requires
        o < 10,
        p & sub1(4096u64 << o) == 0,
    ensures
        (p ^ (4096u64 << o)) & sub1(4096u64 << o) == 0,
        p & (4096u64 << o) == 0 ==> (p ^ (4096u64 << o)) == p + (4096u64 << o),
        p & (4096u64 << o) != 0 ==> (p ^ (4096u64 << o)) == p - (4096u64 << o),
        p & (4096u64 << o) == 0 ==> p & sub1(4096u64 << (o + 1)) == 0,
        p & (4096u64 << o) != 0 ==> (p ^ (4096u64 << o)) & sub1(4096u64 << (o + 1)) == 0,
{
    lemma_buddy_bits_raw(p, o);
}

proof fn lemma_buddy_bits_raw(p: u64, o: u64)
    by (bit_vector)
    requires
        o < 10,
        p & (((4096u64 << o) - 1) as u64) == 0,
    ensures
        (p ^ (4096u64 << o)) & (((4096u64 << o) - 1) as u64) == 0,
        p & (4096u64 << o) == 0 ==> (p ^ (4096u64 << o)) == p + (4096u64 << o),
        p & (4096u64 << o) != 0 ==> (p ^ (4096u64 << o)) == p - (4096u64 << o),
        p & (4096u64 << o) == 0 ==> p & (((4096u64 << (o + 1)) - 1) as u64) == 0,
        p & (4096u64 << o) != 0 ==> (p ^ (4096u64 << o)) & (((4096u64 << (o + 1)) - 1) as u64) == 0,
{
}

/// Page rounding of a region's ends, and page steps inside it.
proof fn lemma_page_align(x: u64, y: u64, k: u64)
    by (bit_vector)
    ensures
        (((x + 4095u64) as u64) & !4095u64) & 4095 == 0,
        x >= 4096 && x <= u64::MAX - 4095 ==> (((x + 4095u64) as u64) & !4095u64) >= 4096,
        (y & !4095u64) & 4095 == 0,
        (y & !4095u64) <= y,
        x & 4095 == 0 && y & 4095 == 0 && x < y ==> (y - x) % 4096 == 0 && y - x >= 4096,
        x & 4095 == 0 ==> x & sub1(4096u64 << 0u64) == 0,
        x & 4095 == 0 && k <= 10 && x + (4096u64 << k) <= u64::MAX ==> ((x + (4096u64 << k)) as u64) & 4095
            == 0,
{
}

/// The merged block and the freed block lie in the same blocks of every
/// higher order.
proof fn lemma_same_start(p: u64, o: u64, k: u64)
    requires
        o < k <= 10,
        p & sub1(4096u64 << o) == 0,
    ensures
        block_start(p ^ (4096u64 << o), k as int) == block_start(p, k as int),
{
    assert((p ^ (4096u64 << o)) & !sub1(4096u64 << k) == p & !sub1(4096u64 << k)) by (bit_vector)
        requires
            o < k <= 10,
    ;
}

proof fn lemma_aligned_start(p: u64, k: u64)
    requires
        k <= 10,
        p & sub1(4096u64 << k) == 0,
    ensures
        block_start(p, k as int) == p,
{
    assert(p & !sub1(4096u64 << k) == p) by (bit_vector)
        requires
            k <= 10,
            p & sub1(4096u64 << k) == 0,
    ;
}

/// The upper half of an aligned block is aligned one order down.
proof fn lemma_half(a: u64, k: u64)
    requires
        1 <= k <= 10,
        a & sub1(4096u64 << k) == 0,
        a + (4096u64 << k) <= 0x1_0000_0000_0000_0000,
    ensures
        a & sub1(4096u64 << ((k - 1) as u64)) == 0,
        ((a + (4096u64 << ((k - 1) as u64))) as u64) & sub1(4096u64 << ((k - 1) as u64)) == 0,
        a + (4096u64 << ((k - 1) as u64)) < 0x1_0000_0000_0000_0000,
{
    assert(a & sub1(4096u64 << ((k - 1) as u64)) == 0 && ((a + (4096u64 << ((k - 1) as u64))) as u64) & sub1(
        4096u64 << ((k - 1) as u64),
    ) == 0) by (bit_vector)
        requires
            1 <= k <= 10,
            a & sub1(4096u64 << k) == 0,
            a + (4096u64 << k) <= 0x1_0000_0000_0000_0000,
    ;
    lemma_block((k - 1) as u64);
}

proof fn lemma_first_index(s: Seq<u64>, x: u64, i: int)
    requires
        0 <= i < s.len(),
        s[i] == x,
        forall|j: int| 0 <= j < i ==> s[j] != x,
    ensures
        first_index(s, x) == i,
{
    let c = first_index(s, x);
    assert(0 <= c < s.len() && s[c] == x && forall|j: int| 0 <= j < c ==> s[j] != x);
    if c < i {
        assert(s[c] != x);
    }
    if c > i {
        assert(s[i] != x);
    }
}

impl Buddy {
    /// Add `phys` as the head of the order-`k` list.
    fn push_free(&mut self, phys: u64, k: usize)
        requires
            k <= MAX_ORDER,
            lists_ok(old(self).free_lists()),
            old(self).free_frames == free_frames_of(old(self).free_lists()),
            block_ok(phys, k as int),
            old(self).free_frames + block_frames(k as int) <= usize::MAX,
        ensures
            lists_ok(final(self).free_lists()),
            final(self).free_lists() == old(self).free_lists().update(
                k as int,
                old(self).free_lists()[k as int].push(phys),
            ),
            final(self).free_frames == old(self).free_frames + block_frames(k as int),
            final(self).free_frames == free_frames_of(final(self).free_lists()),
            final(self).total_frames == old(self).total_frames,
            final(self).hhdm_offset == old(self).hhdm_offset,
            forall|a: int, len: int| #[trigger] clear_of(final(self).free_lists(), a, len) == (clear_of(
                old(self).free_lists(),
                a,
                len,
            ) && apart(a, len, phys as int, block_bytes(k as int))),
            blocks_disjoint(old(self).free_lists()) && clear_of(
                old(self).free_lists(),
                phys as int,
                block_bytes(k as int),
            ) ==> blocks_disjoint(final(self).free_lists()),
    {
        let ghost fl = self.free_lists();
        let mut l: Vec<u64> = Vec::new();
        std::mem::swap(&mut l, &mut self.lists[k]);
        l.push(phys);
        self.lists.set(k, l);
        proof {
            lemma_push_block(fl, k as int, phys);
            lemma_block(k as u64);
            lemma_frames_update(fl, k as int, fl[k as int].push(phys), (MAX_ORDER + 1) as int);
            assert(self.free_lists() =~= fl.update(k as int, fl[k as int].push(phys)));
            let bf = block_frames(k as int);
            let n = fl[k as int].len();
            assert((n + 1) * bf == n * bf + bf) by (nonlinear_arith);
        }
        self.free_frames = self.free_frames + (1u64 << (k as u64)) as usize;
    }

    /// Take the head of the order-`k` list.
    fn pop_head(&mut self, k: usize) -> (r: u64)
        requires
            k <= MAX_ORDER,
            lists_ok(old(self).free_lists()),
            old(self).free_frames == free_frames_of(old(self).free_lists()),
            old(self).free_lists()[k as int].len() > 0,
        ensures
            lists_ok(final(self).free_lists()),
            r == old(self).free_lists()[k as int].last(),
            final(self).free_lists() == old(self).free_lists().update(
                k as int,
                old(self).free_lists()[k as int].drop_last(),
            ),
            final(self).free_frames == old(self).free_frames - block_frames(k as int),
            final(self).free_frames == free_frames_of(final(self).free_lists()),
            final(self).total_frames == old(self).total_frames,
            final(self).hhdm_offset == old(self).hhdm_offset,
            forall|a: int, len: int| clear_of(old(self).free_lists(), a, len) ==> #[trigger] clear_of(
                final(self).free_lists(),
                a,
                len,
            ),
            forall|a: int, len: int| #[trigger] clear_of(final(self).free_lists(), a, len) && apart(
                a,
                len,
                r as int,
                block_bytes(k as int),
            ) ==> clear_of(old(self).free_lists(), a, len),
            blocks_disjoint(old(self).free_lists()) ==> blocks_disjoint(final(self).free_lists()) && clear_of(
                final(self).free_lists(),
                r as int,
                block_bytes(k as int),
            ),
    {
        let ghost fl = self.free_lists();
        let mut l: Vec<u64> = Vec::new();
        std::mem::swap(&mut l, &mut self.lists[k]);
        let r = l.pop().unwrap();
        self.lists.set(k, l);
        proof {
            assert(fl[k as int].drop_last() =~= fl[k as int].remove(fl[k as int].len() - 1));
            lemma_remove_block(fl, k as int, fl[k as int].len() - 1);
            lemma_block(k as u64);
            lemma_frames_update(fl, k as int, fl[k as int].drop_last(), (MAX_ORDER + 1) as int);
            assert(self.free_lists() =~= fl.update(k as int, fl[k as int].drop_last()));
            lemma_frames_nonneg(self.free_lists(), (MAX_ORDER + 1) as int);
            let bf = block_frames(k as int);
            let n = fl[k as int].len();
            assert((n - 1) * bf == n * bf - bf) by (nonlinear_arith);
            assert forall|j: int, i: int| 0 <= j <= MAX_ORDER && 0 <= i < self.free_lists()[j].len()
                implies block_ok(#[trigger] self.free_lists()[j][i], j) by {
                if j == k {
                    assert(self.free_lists()[j][i] == fl[j][i]);
                }
            }
        }
        self.free_frames = self.free_frames - (1u64 << (k as u64)) as usize;
        r
    }

    /// Remove `phys` from the order-`k` list, if it is there.
    fn take_from_list(&mut self, phys: u64, k: usize) -> (r: bool)
        requires
            k <= MAX_ORDER,
            lists_ok(old(self).free_lists()),
            old(self).free_frames == free_frames_of(old(self).free_lists()),
        ensures
            lists_ok(final(self).free_lists()),
            r == old(self).free_lists()[k as int].contains(phys),
            r ==> 0 <= first_index(old(self).free_lists()[k as int], phys) < old(self).free_lists()[k as int].len()
                && old(self).free_lists()[k as int][first_index(old(self).free_lists()[k as int], phys)] == phys,
            r ==> final(self).free_lists() == old(self).free_lists().update(
                k as int,
                old(self).free_lists()[k as int].remove(first_index(old(self).free_lists()[k as int], phys)),
            ) && final(self).free_frames == old(self).free_frames - block_frames(k as int),
            !r ==> final(self).free_lists() == old(self).free_lists() && final(self).free_frames
                == old(self).free_frames,
            final(self).free_frames == free_frames_of(final(self).free_lists()),
            final(self).total_frames == old(self).total_frames,
            final(self).hhdm_offset == old(self).hhdm_offset,
            forall|a: int, len: int| clear_of(old(self).free_lists(), a, len) ==> #[trigger] clear_of(
                final(self).free_lists(),
                a,
                len,
            ),
            r ==> forall|a: int, len: int| #[trigger] clear_of(final(self).free_lists(), a, len) && apart(
                a,
                len,
                phys as int,
                block_bytes(k as int),
            ) ==> clear_of(old(self).free_lists(), a, len),
            blocks_disjoint(old(self).free_lists()) ==> blocks_disjoint(final(self).free_lists()),
            r && blocks_disjoint(old(self).free_lists()) ==> clear_of(
                final(self).free_lists(),
                phys as int,
                block_bytes(k as int),
            ),
    {
        let ghost fl = self.free_lists();
        let mut i = 0usize;
        let n = self.lists[k].len();
        while i < n && self.lists[k][i] != phys
            invariant
                k <= MAX_ORDER,
                self.free_lists() == fl,
                fl.len() == MAX_ORDER + 1,
                n == fl[k as int].len(),
                i <= n,
                forall|j: int| 0 <= j < i ==> fl[k as int][j] != phys,
            decreases n - i,
        {
            i += 1;
        }
        if i >= n {
            return false;
        }
        proof {
            lemma_first_index(fl[k as int], phys, i as int);
        }
        let mut l: Vec<u64> = Vec::new();
        std::mem::swap(&mut l, &mut self.lists[k]);
        l.remove(i);
        self.lists.set(k, l);
        proof {
            lemma_remove_block(fl, k as int, i as int);
            lemma_block(k as u64);
            let nl = fl[k as int].remove(i as int);
            lemma_frames_update(fl, k as int, nl, (MAX_ORDER + 1) as int);
            assert(self.free_lists() =~= fl.update(k as int, nl));
            lemma_frames_nonneg(self.free_lists(), (MAX_ORDER + 1) as int);
            let bf = block_frames(k as int);
            let m = fl[k as int].len();
            assert((m - 1) * bf == m * bf - bf) by (nonlinear_arith);
            assert forall|j: int, q: int| 0 <= j <= MAX_ORDER && 0 <= q < self.free_lists()[j].len()
                implies block_ok(#[trigger] self.free_lists()[j][q], j) by {
                if j == k {
                    if q < i {
                        assert(self.free_lists()[j][q] == fl[j][q]);
                    } else {
                        assert(self.free_lists()[j][q] == fl[j][q + 1]);
                    }
                }
            }
        }
        self.free_frames = self.free_frames - (1u64 << (k as u64)) as usize;
        true
    }
}


/// What `allocate(order)` does: an order past `MAX_ORDER`, or no free
/// block at `order` or above, gives `None` and changes nothing; otherwise
/// the head of the first non-empty list at or above `order` is split down
/// to `order` and returned.
pub open spec fn alloc_post(b0: Buddy, order: u8, r: Option<u64>, b1: Buddy) -> bool {
    let k = first_nonempty(b0.free_lists(), order as int);
    &&& b1.total() == b0.total()
    &&& b1.hhdm() == b0.hhdm()
    &&& (order > MAX_ORDER || k > MAX_ORDER) <==> r is None
    &&& r is None ==> b1.free_lists() == b0.free_lists() && b1.free() == b0.free()
    &&& r matches Some(a) ==> {
        &&& a == b0.free_lists()[k].last()
        &&& b1.free_lists() == split_down(
            b0.free_lists().update(k, b0.free_lists()[k].drop_last()),
            a,
            order as int,
            k,
        )
        &&& b1.free() == b0.free() - block_frames(order as int)
        &&& block_ok(a, order as int)
    }
}

/// What a caller must hand `deallocate`: a block of `order` that the
/// allocator gave out. In terms the allocator can see: order in range,
/// non-zero and aligned, not inside a block that is free now, and not
/// more frames than are handed out.
pub open spec fn dealloc_ok(b: Buddy, phys: u64, order: u8) -> bool {
    &&& order <= MAX_ORDER
    &&& block_ok(phys, order as int)
    &&& clear_of(b.free_lists(), phys as int, block_bytes(order as int))
    &&& b.free() + block_frames(order as int) <= b.total()
}

proof fn lemma_first_nonempty(lists: Seq<Seq<u64>>, k: int)
    requires
        lists.len() == MAX_ORDER + 1,
        0 <= k <= MAX_ORDER + 1,
    ensures
        k <= first_nonempty(lists, k) <= MAX_ORDER + 1,
        first_nonempty(lists, k) <= MAX_ORDER ==> lists[first_nonempty(lists, k)].len() > 0,
    decreases MAX_ORDER + 1 - k,
{
    if k <= MAX_ORDER && lists[k].len() == 0 {
        lemma_first_nonempty(lists, k + 1);
    }
}

impl Buddy {
    /// Allocate a block of `order`. Splits down from a larger order if
    /// none is available at `order` directly. Returns `None` on
    /// exhaustion.
    pub fn allocate(&mut self, order: u8) -> (r: Option<u64>)
        requires
            old(self).wf(),
        ensures
            final(self).wf(),
            alloc_post(*old(self), order, r, *final(self)),
            forall|x: int, len: int| clear_of(old(self).free_lists(), x, len) ==> #[trigger] clear_of(
                final(self).free_lists(),
                x,
                len,
            ),
            r matches Some(a) ==> takes_block(
                old(self).free_lists(),
                final(self).free_lists(),
                a as int,
                block_bytes(order as int),
            ),
    {
        let target = order as usize;
        if target > MAX_ORDER {
            return None;
        }
        let ghost fl0 = self.free_lists();
        let mut k = target;
        proof {
            lemma_first_nonempty(fl0, target as int);
        }
        while k <= MAX_ORDER && self.lists[k].len() == 0
            invariant
                target <= k <= MAX_ORDER + 1,
                self.free_lists() == fl0,
                fl0.len() == MAX_ORDER + 1,
                first_nonempty(fl0, target as int) == first_nonempty(fl0, k as int),
            decreases MAX_ORDER + 1 - k,
        {
            k += 1;
        }
        if k > MAX_ORDER {
            return None;
        }
        assert(first_nonempty(fl0, k as int) == k as int);
        let top = k;
        let addr = self.pop_head(k);
        let ghost popped = self.free_lists();
        proof {
            assert(block_ok(addr, top as int)) by {
                assert(fl0[top as int].last() == fl0[top as int][fl0[top as int].len() - 1]);
            }
            assert forall|x: int, len: int| #[trigger] clear_of(fl0, x, len) implies apart(
                x,
                len,
                addr as int,
                block_bytes(top as int),
            ) by {
                assert(fl0[top as int][fl0[top as int].len() - 1] == addr);
            }
        }
        while k > target
            invariant
                target <= k <= top <= MAX_ORDER,
                fl0 == old(self).free_lists(),
                blocks_disjoint(self.free_lists()),
                clear_of(self.free_lists(), addr as int, block_bytes(k as int)),
                block_bytes(k as int) <= block_bytes(top as int),
                forall|x: int, len: int| #[trigger] clear_of(fl0, x, len) ==> apart(
                    x,
                    len,
                    addr as int,
                    block_bytes(top as int),
                ),
                forall|x: int, len: int| clear_of(fl0, x, len) ==> #[trigger] clear_of(self.free_lists(), x, len),
                forall|x: int, len: int| #[trigger] clear_of(self.free_lists(), x, len) && apart(
                    x,
                    len,
                    addr as int,
                    block_bytes(k as int),
                ) ==> clear_of(fl0, x, len),
                lists_ok(self.free_lists()),
                self.free_frames == free_frames_of(self.free_lists()),
                self.free_frames == old(self).free_frames - block_frames(k as int),
                self.total_frames == old(self).total_frames,
                self.hhdm_offset == old(self).hhdm_offset,
                old(self).free_frames <= old(self).total_frames,
                block_ok(addr, k as int),
                split_down(popped, addr, target as int, top as int) == split_down(
                    self.free_lists(),
                    addr,
                    target as int,
                    k as int,
                ),
            decreases k,
        {
            proof {
                lemma_half(addr, k as u64);
                lemma_block((k - 1) as u64);
                lemma_block(k as u64);
            }
            k -= 1;
            let buddy = addr + (PAGE_SIZE << k);
            let ghost cur = self.free_lists();
            self.push_free(buddy, k);
            proof {
                let bk = block_bytes(k as int);
                assert(block_bytes(k + 1) == 2 * bk);
                assert(clear_of(cur, buddy as int, bk));
                assert(clear_of(self.free_lists(), addr as int, bk)) by {
                    assert(clear_of(cur, addr as int, bk));
                }
                assert forall|x: int, len: int| clear_of(fl0, x, len) implies #[trigger] clear_of(
                    self.free_lists(),
                    x,
                    len,
                ) by {
                    assert(clear_of(cur, x, len));
                    assert(apart(x, len, addr as int, block_bytes(top as int)));
                }
                assert forall|x: int, len: int| #[trigger] clear_of(self.free_lists(), x, len) && apart(
                    x,
                    len,
                    addr as int,
                    bk,
                ) implies clear_of(fl0, x, len) by {
                    assert(clear_of(cur, x, len));
                    assert(apart(x, len, buddy as int, bk));
                }
            }
        }
        proof {
            assert(old(self).free_lists() == fl0);
            assert forall|x: int, len: int| #[trigger] clear_of(fl0, x, len) implies apart(
                x,
                len,
                addr as int,
                block_bytes(order as int),
            ) by {
                assert(apart(x, len, addr as int, block_bytes(top as int)));
            }
        }
        Some(addr)
    }

    /// Free a previously-allocated block at `order`. Coalesces with its
    /// buddy up to `MAX_ORDER`. Afterwards exactly the block's bytes have
    /// joined the free memory.
    pub fn deallocate(&mut self, phys: u64, order: u8)
        requires
            old(self).wf(),
            dealloc_ok(*old(self), phys, order),
        ensures
            final(self).wf(),
            final(self).free_lists() == merge_up(old(self).free_lists(), phys, order as int),
            final(self).free() == old(self).free() + block_frames(order as int),
            final(self).total() == old(self).total(),
            final(self).hhdm() == old(self).hhdm(),
            gives_block(old(self).free_lists(), final(self).free_lists(), phys as int, block_bytes(order as int)),
    {
        let ghost fl0 = self.free_lists();
        let ghost p0 = phys;
        let ghost o0 = order as int;
        let mut phys = phys;
        let mut order = order as usize;
        let mut done = false;
        while !done && order < MAX_ORDER
            invariant
                order <= MAX_ORDER,
                fl0 == old(self).free_lists(),
                lists_ok(self.free_lists()),
                blocks_disjoint(self.free_lists()),
                self.free_frames == free_frames_of(self.free_lists()),
                self.free_frames + block_frames(order as int) == old(self).free_frames + block_frames(o0),
                old(self).free_frames + block_frames(o0) <= old(self).total_frames,
                self.total_frames == old(self).total_frames,
                self.hhdm_offset == old(self).hhdm_offset,
                block_ok(phys, order as int),
                clear_of(self.free_lists(), phys as int, block_bytes(order as int)),
                forall|x: int, len: int|
                    #![trigger clear_of(self.free_lists(), x, len)]
                    #![trigger clear_of(fl0, x, len)]
                    (clear_of(self.free_lists(), x, len) && apart(x, len, phys as int, block_bytes(order as int))) == (
                    clear_of(fl0, x, len) && apart(x, len, p0 as int, block_bytes(o0))),
                merge_up(fl0, p0, o0) == merge_up(self.free_lists(), phys, order as int),
                done ==> !self.free_lists()[order as int].contains((phys ^ (4096u64 << (order as u64))) as u64),
            decreases MAX_ORDER - order + (if done { 0int } else { 1int }),
        {
            let buddy = phys ^ (PAGE_SIZE << order);
            let ghost cur = self.free_lists();
            proof {
                lemma_frames_nonneg(cur, (MAX_ORDER + 1) as int);
            }
            if self.take_from_list(buddy, order) {
                proof {
                    let o = order as u64;
                    lemma_buddy_bits(phys, o);
                    lemma_block(o);
                    lemma_block((o + 1) as u64);
                    let bi = first_index(cur[order as int], buddy);
                    assert(cur[order as int][bi] == buddy);
                    assert(block_ok(buddy, order as int));
                    let m = if phys < buddy { phys } else { buddy };
                    let bb = block_bytes(order as int);
                    assert(block_bytes(order + 1) == 2 * bb);
                    assert(m == (phys ^ (4096u64 << o)) || m == phys);
                    assert(block_ok(m, order + 1));
                    let nl = self.free_lists();
                    assert(clear_of(nl, buddy as int, bb));
                    assert(clear_of(nl, phys as int, bb));
                    assert forall|j: int, i: int| 0 <= j <= MAX_ORDER && 0 <= i < nl[j].len() implies apart(
                        #[trigger] nl[j][i] as int,
                        block_bytes(j),
                        m as int,
                        2 * bb,
                    ) by {
                        assert(apart(nl[j][i] as int, block_bytes(j), buddy as int, bb));
                        assert(apart(nl[j][i] as int, block_bytes(j), phys as int, bb));
                    }
                    assert forall|x: int, len: int| clear_of(cur, x, len) implies apart(x, len, buddy as int, bb) by {
                        assert(apart(cur[order as int][bi] as int, bb, x, len));
                    }
                    assert forall|x: int, len: int|
                        #![trigger clear_of(nl, x, len)]
                        #![trigger clear_of(fl0, x, len)]
                        (clear_of(nl, x, len) && apart(x, len, m as int, 2 * bb)) == (clear_of(fl0, x, len) && apart(
                            x,
                            len,
                            p0 as int,
                            block_bytes(o0),
                        )) by {
                        if clear_of(nl, x, len) && apart(x, len, m as int, 2 * bb) {
                            assert(apart(x, len, buddy as int, bb));
                            assert(clear_of(cur, x, len));
                        }
                        if clear_of(cur, x, len) && apart(x, len, phys as int, bb) {
                            assert(apart(x, len, buddy as int, bb));
                            assert(clear_of(nl, x, len));
                        }
                    }
                }
                phys = if phys < buddy { phys } else { buddy };
                order += 1;
            } else {
                done = true;
            }
        }
        proof {
            lemma_aligned_start(phys, order as u64);
            lemma_block(order as u64);
        }
        self.push_free(phys, order);
    }

    /// Convenience: order-0 allocation.
    pub fn allocate_frame(&mut self) -> (r: Option<u64>)
        requires
            old(self).wf(),
        ensures
            final(self).wf(),
            alloc_post(*old(self), 0, r, *final(self)),
            r matches Some(a) ==> takes_block(old(self).free_lists(), final(self).free_lists(), a as int, 4096),
    {
        proof {
            lemma_block(0);
        }
        self.allocate(0)
    }

    /// Convenience: order-0 free.
    pub fn deallocate_frame(&mut self, phys: u64)
        requires
            old(self).wf(),
            dealloc_ok(*old(self), phys, 0),
        ensures
            final(self).wf(),
            final(self).free_lists() == merge_up(old(self).free_lists(), phys, 0),
            final(self).free() == old(self).free() + 1,
            final(self).total() == old(self).total(),
            final(self).hhdm() == old(self).hhdm(),
            gives_block(old(self).free_lists(), final(self).free_lists(), phys as int, 4096),
    {
        proof {
            lemma_block(0);
        }
        self.deallocate(phys, 0)
    }
}

/// Allocating a block and freeing it again leaves the free and total
/// frame counts where they were.
pub proof fn lemma_alloc_dealloc_counts(b0: Buddy, b1: Buddy, b2: Buddy, order: u8, a: u64)
    requires
        alloc_post(b0, order, Some(a), b1),
        b2.free() == b1.free() + block_frames(order as int),
        b2.total() == b1.total(),
    ensures
        b2.free() == b0.free(),
        b2.total() == b0.total(),
{
}


/// `allocate(order)` splits `a` off the first free block at or above
/// `order`; that block's buddy at its own order is not free (the top
/// order has no buddy). When it is free, giving `a` back merges past the
/// block `a` came from.
pub open spec fn source_buddy_busy(lists: Seq<Seq<u64>>, order: int, a: u64) -> bool {
    let k = first_nonempty(lists, order);
    k < MAX_ORDER ==> !lists[k].contains((a ^ (4096u64 << (k as u64))) as u64)
}

/// An aligned block is aligned at every lower order, and its offset bit
/// at each lower order is clear.
proof fn lemma_align_down(a: u64, j: u64, k: u64)
    requires
        j < k <= 10,
        a & sub1(4096u64 << k) == 0,
    ensures
        a & sub1(4096u64 << j) == 0,
        a & sub1(4096u64 << ((j + 1) as u64)) == 0,
        a & (4096u64 << j) == 0,
{
    assert(a & sub1(4096u64 << j) == 0 && a & sub1(4096u64 << ((j + 1) as u64)) == 0 && a & (4096u64 << j) == 0)
        by (bit_vector)
        requires
            j < k <= 10,
            a & sub1(4096u64 << k) == 0,
    ;
}

/// Splitting down to `j` is splitting down to `j + 1` and then pushing
/// the upper half at order `j`; orders below `j + 1` are untouched until
/// then.
proof fn lemma_split_last(l: Seq<Seq<u64>>, a: u64, j: int, k: int)
    requires
        l.len() == MAX_ORDER + 1,
        0 <= j < k <= MAX_ORDER,
    ensures
        split_down(l, a, j + 1, k).len() == l.len(),
        split_down(l, a, j + 1, k)[j] == l[j],
        split_down(l, a, j, k) == split_down(l, a, j + 1, k).update(
            j,
            l[j].push((a + block_bytes(j)) as u64),
        ),
    decreases k - j,
{
    let l1 = l.update(k - 1, l[k - 1].push((a + block_bytes(k - 1)) as u64));
    assert(split_down(l, a, j, k) == split_down(l1, a, j, k - 1));
    if k - 1 == j {
        assert(split_down(l, a, j + 1, k) == l);
        assert(split_down(l1, a, j, k - 1) == l1);
    } else {
        lemma_split_last(l1, a, j, k - 1);
        assert(split_down(l, a, j + 1, k) == split_down(l1, a, j + 1, k - 1));
        assert(l1[j] == l[j]);
    }
}

/// Freeing a block that was just split down from order `k` to `j` merges
/// every half back and leaves the block on the order-`k` list.
proof fn lemma_merge_split(l: Seq<Seq<u64>>, a: u64, j: int, k: int)
    requires
        l.len() == MAX_ORDER + 1,
        0 <= j <= k <= MAX_ORDER,
        a & sub1(4096u64 << (k as u64)) == 0,
        a + block_bytes(k) <= 0x1_0000_0000_0000_0000,
        forall|q: int| j <= q < k ==> !(#[trigger] l[q]).contains((a + block_bytes(q)) as u64),
        k < MAX_ORDER ==> !l[k].contains((a ^ (4096u64 << (k as u64))) as u64),
    ensures
        merge_up(split_down(l, a, j, k), a, j) == l.update(k, l[k].push(a)),
    decreases k - j,
{
    if j < k {
        lemma_split_last(l, a, j, k);
        let m = split_down(l, a, j + 1, k);
        let x = (a + block_bytes(j)) as u64;
        let sj = l[j].push(x);
        let s = m.update(j, sj);
        lemma_align_down(a, j as u64, k as u64);
        lemma_buddy_bits(a, j as u64);
        lemma_block(j as u64);
        lemma_block(k as u64);
        assert(block_bytes(j) < block_bytes(k)) by {
            lemma_block_grows(j as u64, k as u64);
        }
        assert((a ^ (4096u64 << (j as u64))) as u64 == x);
        assert(sj[l[j].len() as int] == x);
        assert forall|q: int| 0 <= q < l[j].len() implies sj[q] != x by {
            assert(sj[q] == l[j][q]);
        }
        lemma_first_index(sj, x, l[j].len() as int);
        assert(sj.remove(l[j].len() as int) =~= l[j]);
        assert(s.update(j, sj.remove(first_index(sj, x))) =~= m);
        assert(s[j] == sj);
        assert(sj.contains(x));
        lemma_merge_split(l, a, j + 1, k);
    }
}

/// Orders grow in size.
proof fn lemma_block_grows(j: u64, k: u64)
    requires
        j < k <= 10,
    ensures
        (4096u64 << j) < (4096u64 << k),
    decreases k - j,
{
    lemma_block(j);
    if j + 1 < k {
        lemma_block_grows((j + 1) as u64, k);
    }
}

/// Handing out a block and giving it straight back restores every free
/// list as it was, and with them the statistics, provided the buddy of
/// the block it was split from was not free.
pub proof fn lemma_alloc_dealloc_restores(b0: Buddy, b1: Buddy, b2: Buddy, order: u8, a: u64)
    requires
        b0.wf(),
        source_buddy_busy(b0.free_lists(), order as int, a),
        alloc_post(b0, order, Some(a), b1),
        b2.free_lists() == merge_up(b1.free_lists(), a, order as int),
        b2.free() == b1.free() + block_frames(order as int),
        b2.total() == b1.total(),
    ensures
        b2.free_lists() == b0.free_lists(),
        b2.free() == b0.free(),
        b2.total() == b0.total(),
        largest_order(b2.free_lists()) == largest_order(b0.free_lists()),
{
    let l0 = b0.free_lists();
    let o = order as int;
    let k = first_nonempty(l0, o);
    lemma_first_nonempty(l0, o);
    let n = l0[k].len();
    let lp = l0.update(k, l0[k].drop_last());
    assert(a == l0[k][n - 1]);
    assert(block_ok(a, k));
    assert forall|q: int| o <= q < k implies !(#[trigger] lp[q]).contains((a + block_bytes(q)) as u64) by {
        if lp[q].contains((a + block_bytes(q)) as u64) {
            let i = choose|i: int| 0 <= i < lp[q].len() && lp[q][i] == (a + block_bytes(q)) as u64;
            assert(lp[q] == l0[q]);
            reveal(blocks_disjoint);
            assert(l0[q][i] == (a + block_bytes(q)) as u64);
            assert(l0[k][n - 1] == a);
            lemma_block(q as u64);
            lemma_block_grows(q as u64, k as u64);
            assert(apart(l0[q][i] as int, block_bytes(q), l0[k][n - 1] as int, block_bytes(k)));
        }
    }
    if k < MAX_ORDER {
        assert(!l0[k].contains((a ^ (4096u64 << (k as u64))) as u64));
        assert(!lp[k].contains((a ^ (4096u64 << (k as u64))) as u64)) by {
            if lp[k].contains((a ^ (4096u64 << (k as u64))) as u64) {
                let i = choose|i: int| 0 <= i < lp[k].len() && lp[k][i] == (a ^ (4096u64 << (k as u64))) as u64;
                assert(l0[k][i] == lp[k][i]);
            }
        }
    }
    lemma_merge_split(lp, a, o, k);
    assert(lp[k].push(a) =~= l0[k]);
    assert(lp.update(k, lp[k].push(a)) =~= l0);
}

/// Handing a block out and giving it back leaves exactly the free memory
/// there was: a range is clear of the free blocks after the round trip
/// iff it was before.
pub proof fn lemma_alloc_free_roundtrip(
    l0: Seq<Seq<u64>>,
    l1: Seq<Seq<u64>>,
    l2: Seq<Seq<u64>>,
    a: int,
    size: int,
    x: int,
    len: int,
)
    requires
        takes_block(l0, l1, a, size),
        gives_block(l1, l2, a, size),
    ensures
        clear_of(l2, x, len) == clear_of(l0, x, len),
{
    if clear_of(l0, x, len) {
        assert(clear_of(l1, x, len));
    }
    if clear_of(l2, x, len) {
        assert(clear_of(l1, x, len));
    }
}

/// A block handed out is not handed out again until it comes back: two
/// blocks handed out one after the other share no byte.
pub proof fn lemma_no_double_allocation(
    l0: Seq<Seq<u64>>,
    l1: Seq<Seq<u64>>,
    l2: Seq<Seq<u64>>,
    a: int,
    sa: int,
    b: int,
    sb: int,
)
    requires
        takes_block(l0, l1, a, sa),
        takes_block(l1, l2, b, sb),
    ensures
        apart(a, sa, b, sb),
{
    assert(clear_of(l1, a, sa));
}

/// A power of two.
pub open spec fn is_pow2(x: u64) -> bool {
    x != 0 && x & sub1(x) == 0
}

/// A block of order `o` holds `bytes` at alignment `align`.
pub open spec fn order_fits(o: int, bytes: u64, align: u64) -> bool {
    block_bytes(o) >= bytes && block_bytes(o) >= align
}

/// `order_for`'s answer: the least order up to `MAX_ORDER` whose block
/// holds `bytes` at the requested alignment (zero meaning a page).
pub open spec fn spec_order_for(bytes: u64, align: u64) -> Option<u8> {
    if bytes == 0 || !is_pow2(eff_align(align)) {
        None
    } else if exists|o: int| 0 <= o <= MAX_ORDER && #[trigger] order_fits(o, bytes, eff_align(align)) {
        Some(
            (choose|o: int|
                0 <= o <= MAX_ORDER && order_fits(o, bytes, eff_align(align)) && forall|j: int|
                    0 <= j < o ==> !#[trigger] order_fits(j, bytes, eff_align(align))) as u8,
        )
    } else {
        None
    }
}

/// The alignment asked for, zero meaning one page.
pub open spec fn eff_align(align: u64) -> u64 {
    if align == 0 {
        4096
    } else {
        align
    }
}

/// Whether `[phys, phys + size)` straddles a multiple of `boundary`.
pub open spec fn spec_crosses_boundary(phys: u64, size: u64, boundary: u64) -> bool {
    boundary != 0 && size != 0 && (phys & sub1(boundary)) + size > boundary
}

/// A block aligned to its size `bb` meets any smaller power-of-two
/// alignment, and a request of at most `bb` bytes in it straddles no
/// multiple of a power of two at least `bb`.
proof fn lemma_block_fits(a: u64, bb: u64, al: u64, bytes: u64, bnd: u64)
    by (bit_vector)
    requires
        bb != 0,
        bb & ((bb - 1) as u64) == 0,
        a & ((bb - 1) as u64) == 0,
    ensures
        al != 0 && al & ((al - 1) as u64) == 0 && al <= bb ==> a & ((al - 1) as u64) == 0,
        bnd != 0 && bnd & ((bnd - 1) as u64) == 0 && bnd >= bb && bytes <= bb ==> (a & ((bnd - 1) as u64)) + bytes
            <= bnd,
{
}

/// The order `order_for` picks is in range and fits.
proof fn lemma_order_for_fits(bytes: u64, align: u64, o: u8)
    requires
        spec_order_for(bytes, align) == Some(o),
    ensures
        o <= MAX_ORDER,
        order_fits(o as int, bytes, eff_align(align)),
        is_pow2(eff_align(align)),
        bytes != 0,
{
    let al = eff_align(align);
    lemma_least_fit(bytes, al, 0);
}

/// Where some order up to `MAX_ORDER` from `j` on fits and none below
/// `j` does, a least fitting order exists.
proof fn lemma_least_fit(bytes: u64, al: u64, j: int)
    requires
        0 <= j <= MAX_ORDER + 1,
        forall|i: int| 0 <= i < j ==> !#[trigger] order_fits(i, bytes, al),
        (exists|o: int| 0 <= o <= MAX_ORDER && #[trigger] order_fits(o, bytes, al)),
    ensures
        exists|c: int|
            0 <= c <= MAX_ORDER && order_fits(c, bytes, al) && forall|i: int|
                0 <= i < c ==> !#[trigger] order_fits(i, bytes, al),
    decreases MAX_ORDER + 1 - j,
{
    let w = choose|o: int| 0 <= o <= MAX_ORDER && #[trigger] order_fits(o, bytes, al);
    if j > MAX_ORDER {
        assert(!order_fits(w, bytes, al));
    } else if order_fits(j, bytes, al) {
        assert(0 <= j <= MAX_ORDER && order_fits(j, bytes, al) && forall|i: int|
            0 <= i < j ==> !#[trigger] order_fits(i, bytes, al));
    } else {
        lemma_least_fit(bytes, al, j + 1);
    }
}

impl Buddy {
    /// Order whose block covers `bytes` and is aligned to `align`.
    pub fn order_for(bytes: u64, align: u64) -> (r: Option<u8>)
        requires
            bytes <= 0x8000_0000_0000_0000,
        ensures
            r == spec_order_for(bytes, align),
    {
        if bytes == 0 {
            return None;
        }
        let al = if align == 0 { PAGE_SIZE } else { align };
        if al & (al - 1) != 0 {
            return None;
        }
        let mut o = 0u64;
        while o <= 10 && !((PAGE_SIZE << o) >= bytes && (PAGE_SIZE << o) >= al)
            invariant
                o <= 11,
                forall|j: int| 0 <= j < o ==> !#[trigger] order_fits(j, bytes, al),
            decreases 11 - o,
        {
            assert(!order_fits(o as int, bytes, al));
            o += 1;
        }
        if o > 10 {
            proof {
                assert forall|q: int| 0 <= q <= MAX_ORDER implies !order_fits(q, bytes, al) by {
                    assert(!order_fits(q, bytes, al));
                }
            }
            return None;
        }
        proof {
            let w = o as int;
            assert(order_fits(w, bytes, al));
            assert(al != 0 && al & sub1(al) == 0);
            let c = choose|c: int|
                0 <= c <= MAX_ORDER && order_fits(c, bytes, al) && forall|j: int|
                    0 <= j < c ==> !#[trigger] order_fits(j, bytes, al);
            if c < w {
                assert(!order_fits(c, bytes, al));
            }
            if c > w {
                assert(!order_fits(w, bytes, al));
            }
            let sal = eff_align(align);
            assert(sal == al);
            assert(0 <= w <= MAX_ORDER && order_fits(w, bytes, sal));
            assert(exists|q: int| 0 <= q <= MAX_ORDER && order_fits(q, bytes, sal));
            assert(bytes != 0);
            assert(is_pow2(sal));
            assert(spec_order_for(bytes, align) is Some);
        }
        Some(o as u8)
    }
}

/// True if `[phys, phys+size)` straddles a power-of-two `boundary`.
pub fn crosses_boundary(phys: u64, size: u64, boundary: u64) -> (r: bool)
    requires
        boundary == 0 || size == 0 || (phys & sub1(boundary)) + size <= u64::MAX,
    ensures
        r == spec_crosses_boundary(phys, size, boundary),
{
    if boundary == 0 || size == 0 {
        return false;
    }
    let mask = boundary - 1;
    (phys & mask) + size > boundary
}

/// First page boundary at or above `start`, never below page 1.
pub open spec fn region_first(start: u64) -> u64 {
    ((if start < 4096 { 4096u64 } else { start }) + 4095) as u64 & !4095u64
}

/// Page boundary at or below `end`.
pub open spec fn region_last(end: u64) -> u64 {
    end & !4095u64
}

/// Frames in the whole pages of `[start, end)`, frame 0 left out.
pub open spec fn spec_region_frames(start: u64, end: u64) -> int {
    if region_first(start) < region_last(end) {
        (region_last(end) - region_first(start)) / 4096
    } else {
        0
    }
}

impl Buddy {
    /// Contribute a `[start, end)` physical range to the free lists.
    /// Splits into maximally-aligned, maximally-sized buddy blocks. Any
    /// bytes below the first page, or beyond the last page, are ignored.
    /// Frame 0 is skipped unconditionally.
    pub fn insert_region(&mut self, start: u64, end: u64)
        requires
            old(self).wf(),
            start <= u64::MAX - 4095,
            old(self).total() + spec_region_frames(start, end) <= usize::MAX,
            clear_of(old(self).free_lists(), region_first(start) as int, region_last(end) - region_first(start)),
        ensures
            final(self).wf(),
            final(self).total() == old(self).total() + spec_region_frames(start, end),
            final(self).free() == old(self).free() + spec_region_frames(start, end),
            final(self).hhdm() == old(self).hhdm(),
            forall|k: int| 0 <= k <= MAX_ORDER ==> (#[trigger] final(self).free_lists()[k]).len()
                >= old(self).free_lists()[k].len() && final(self).free_lists()[k].subrange(
                0,
                old(self).free_lists()[k].len() as int,
            ) == old(self).free_lists()[k],
            gives_block(
                old(self).free_lists(),
                final(self).free_lists(),
                region_first(start) as int,
                region_last(end) - region_first(start),
            ),
    {
        let ghost start0 = start;
        let start = if start < PAGE_SIZE { PAGE_SIZE } else { start };
        let a0 = (start + (PAGE_SIZE - 1)) & !(PAGE_SIZE - 1);
        let b = end & !(PAGE_SIZE - 1);
        proof {
            lemma_page_align(start, end, 0);
            assert(a0 == region_first(start0));
            assert(b == region_last(end));
        }
        if a0 >= b {
            proof {
                assert forall|x: int, len: int| #[trigger] clear_of(self.free_lists(), x, len) == (clear_of(
                    old(self).free_lists(),
                    x,
                    len,
                ) && apart(x, len, region_first(start0) as int, region_last(end) - region_first(start0))) by {}
            }
            return;
        }
        proof {
            lemma_page_align(a0, b, 0);
        }
        let ghost fl0 = self.free_lists();
        let mut a = a0;
        while a < b
            invariant
                a0 <= a <= b,
                a & 4095 == 0,
                b & 4095 == 0,
                a0 >= 4096,
                (b - a0) % 4096 == 0,
                lists_ok(self.free_lists()),
                self.free_frames == free_frames_of(self.free_lists()),
                self.free_frames <= self.total_frames,
                self.total_frames * 4096 == old(self).total_frames * 4096 + (a - a0),
                self.free_frames * 4096 == old(self).free_frames * 4096 + (a - a0),
                old(self).total_frames * 4096 + (b - a0) <= usize::MAX * 4096,
                self.hhdm_offset == old(self).hhdm_offset,
                forall|k: int| 0 <= k <= MAX_ORDER ==> (#[trigger] self.free_lists()[k]).len() >= fl0[k].len()
                    && self.free_lists()[k].subrange(0, fl0[k].len() as int) == fl0[k],
                fl0 == old(self).free_lists(),
                blocks_disjoint(self.free_lists()),
                clear_of(self.free_lists(), a as int, b - a),
                forall|x: int, len: int| #[trigger] clear_of(self.free_lists(), x, len) == (clear_of(fl0, x, len)
                    && apart(x, len, a0 as int, a - a0)),
            decreases b - a,
        {
            let mut k = 0usize;
            proof {
                lemma_page_align(a, b, 0);
                lemma_block(0);
                lemma_block(1);
            }
            while k < MAX_ORDER && (a & ((PAGE_SIZE << ((k + 1) as u64)) - 1)) == 0 && (PAGE_SIZE << ((k + 1) as u64)) <= b - a
                invariant
                    k <= MAX_ORDER,
                    a < b,
                    a & sub1(4096u64 << (k as u64)) == 0,
                    (4096u64 << (k as u64)) <= b - a,
                    k < MAX_ORDER ==> (4096u64 << ((k + 1) as u64)) >= 4096,
                decreases MAX_ORDER - k,
            {
                proof {
                    lemma_block(k as u64);
                    lemma_block((k + 1) as u64);
                }
                k += 1;
                proof {
                    if k < MAX_ORDER {
                        lemma_block((k + 1) as u64);
                    }
                }
            }
            proof {
                lemma_block(k as u64);
                lemma_page_align(a, b, k as u64);
            }
            let ghost fl1 = self.free_lists();
            self.total_frames = self.total_frames + (1u64 << (k as u64)) as usize;
            proof {
                let bk = block_bytes(k as int);
                assert(clear_of(fl1, a as int, bk));
            }
            self.push_free(a, k);
            proof {
                let bk = block_bytes(k as int);
                let a1 = a + bk;
                assert(clear_of(fl1, a1, b - a1));
                assert(clear_of(self.free_lists(), a1, b - a1));
                assert forall|x: int, len: int| #[trigger] clear_of(self.free_lists(), x, len) == (clear_of(fl0, x, len)
                    && apart(x, len, a0 as int, a1 - a0)) by {
                    assert(clear_of(fl1, x, len) == (clear_of(fl0, x, len) && apart(x, len, a0 as int, a - a0)));
                }
                assert forall|j: int| 0 <= j <= MAX_ORDER implies (#[trigger] self.free_lists()[j]).len()
                    >= fl0[j].len() && self.free_lists()[j].subrange(0, fl0[j].len() as int) == fl0[j] by {
                    if j == k {
                        assert(self.free_lists()[j].subrange(0, fl0[j].len() as int) =~= fl1[j].subrange(
                            0,
                            fl0[j].len() as int,
                        ));
                    }
                }
            }
            a = a + (PAGE_SIZE << k);
        }
        proof {
            assert(spec_region_frames(start0, end) * 4096 == b - a0);
        }
    }

    /// Allocate a block that holds `bytes`, is aligned to `align`, and does
    /// not straddle a multiple of `boundary` (0 = none). Tries up to 16
    /// blocks of the right order and frees the ones that did not fit.
    pub fn allocate_constrained(&mut self, bytes: u64, align: u64, boundary: u64) -> (r: Option<(u64, u8)>)
        requires
            old(self).wf(),
            bytes <= 0x8000_0000_0000_0000,
        ensures
            final(self).wf(),
            final(self).total() == old(self).total(),
            final(self).hhdm() == old(self).hhdm(),
            spec_order_for(bytes, align) is None ==> r is None && final(self).free_lists() == old(
                self,
            ).free_lists() && final(self).free() == old(self).free(),
            boundary != 0 && !is_pow2(boundary) ==> r is None && final(self).free_lists() == old(
                self,
            ).free_lists() && final(self).free() == old(self).free(),
            r matches Some((phys, o)) ==> spec_order_for(bytes, align) == Some(o) && block_ok(phys, o as int)
                && (align <= 1 || phys & sub1(align) == 0) && !spec_crosses_boundary(phys, bytes, boundary),
            r matches Some((phys, o)) ==> final(self).free() == old(self).free() - block_frames(o as int),
            r is None ==> final(self).free() == old(self).free(),
            forall|x: int, len: int| clear_of(old(self).free_lists(), x, len) ==> #[trigger] clear_of(
                final(self).free_lists(),
                x,
                len,
            ),
            r matches Some((phys, o)) ==> takes_block(
                old(self).free_lists(),
                final(self).free_lists(),
                phys as int,
                block_bytes(o as int),
            ),
            r is None ==> forall|x: int, len: int| #[trigger] clear_of(final(self).free_lists(), x, len) == clear_of(
                old(self).free_lists(),
                x,
                len,
            ),
            spec_order_for(bytes, align) is Some && (boundary == 0 || (is_pow2(boundary) && boundary >= block_bytes(
                spec_order_for(bytes, align)->0 as int,
            ))) ==> ({
                let o = spec_order_for(bytes, align)->0;
                let k = first_nonempty(old(self).free_lists(), o as int);
                &&& k > MAX_ORDER ==> r is None
                &&& k <= MAX_ORDER ==> r == Some((old(self).free_lists()[k].last(), o))
            }),
    {
        let order = match Buddy::order_for(bytes, align) {
            Some(o) => o,
            None => {
                return None;
            },
        };
        if boundary != 0 && boundary & (boundary - 1) != 0 {
            return None;
        }
        let mut stash: Vec<u64> = Vec::new();
        let mut found: Option<(u64, u8)> = None;
        let mut searching = true;
        let ghost mut stashed: int = 0;
        let ghost easy = boundary == 0 || boundary >= block_bytes(order as int);
        let ghost k0 = first_nonempty(old(self).free_lists(), order as int);
        proof {
            lemma_block(order as u64);
            lemma_order_for_fits(bytes, align, order);
        }
        while searching && stash.len() < 16
            invariant
                easy == (boundary == 0 || boundary >= block_bytes(order as int)),
                k0 == first_nonempty(old(self).free_lists(), order as int),
                spec_order_for(bytes, align) == Some(order),
                order_fits(order as int, bytes, eff_align(align)),
                is_pow2(eff_align(align)),
                easy ==> stash@.len() == 0,
                easy && searching ==> self.free_lists() == old(self).free_lists(),
                easy && !searching && found is None ==> k0 > MAX_ORDER,
                easy && found is Some ==> k0 <= MAX_ORDER && found == Some((old(self).free_lists()[k0].last(), order)),
                self.wf(),
                order <= MAX_ORDER,
                stash@.len() <= 16,
                self.total_frames == old(self).total_frames,
                self.hhdm_offset == old(self).hhdm_offset,
                stashed == stash@.len() * block_frames(order as int),
                self.free_frames + stashed <= self.total_frames,
                forall|q: int| 0 <= q < stash@.len() ==> block_ok(#[trigger] stash@[q], order as int),
                found matches Some((phys, o)) ==> o == order && block_ok(phys, order as int) && (align <= 1
                    || phys & sub1(align) == 0) && !spec_crosses_boundary(phys, bytes, boundary),
                boundary == 0 || is_pow2(boundary),
                bytes <= 0x8000_0000_0000_0000,
                self.free_frames + stashed + (if found is Some { block_frames(order as int) } else { 0 })
                    == old(self).free_frames,
                found is Some ==> !searching,
                forall|q: int| 0 <= q < stash@.len() ==> clear_of(
                    self.free_lists(),
                    #[trigger] stash@[q] as int,
                    block_bytes(order as int),
                ),
                forall|q1: int, q2: int|
                    0 <= q1 < q2 < stash@.len() ==> apart(
                        #[trigger] stash@[q1] as int,
                        block_bytes(order as int),
                        #[trigger] stash@[q2] as int,
                        block_bytes(order as int),
                    ),
                forall|x: int, len: int| clear_of(old(self).free_lists(), x, len) ==> #[trigger] clear_of(
                    self.free_lists(),
                    x,
                    len,
                ),
                found matches Some((phys, o)) ==> clear_of(self.free_lists(), phys as int, block_bytes(order as int)),
                found matches Some((phys, o)) ==> forall|x: int, len: int| #[trigger] clear_of(
                    old(self).free_lists(),
                    x,
                    len,
                ) ==> apart(x, len, phys as int, block_bytes(order as int)),
                found matches Some((phys, o)) ==> forall|q: int| 0 <= q < stash@.len() ==> apart(
                    #[trigger] stash@[q] as int,
                    block_bytes(order as int),
                    phys as int,
                    block_bytes(order as int),
                ),
                forall|q: int, x: int, len: int|
                    #![trigger stash@[q], clear_of(old(self).free_lists(), x, len)]
                    0 <= q < stash@.len() && clear_of(old(self).free_lists(), x, len) ==> apart(
                        x,
                        len,
                        stash@[q] as int,
                        block_bytes(order as int),
                    ),
                forall|x: int, len: int| #[trigger] clear_of(self.free_lists(), x, len) && apart_all(
                    x,
                    len,
                    stash@,
                    0,
                    block_bytes(order as int),
                ) && (found matches Some((fp, fo)) ==> apart(x, len, fp as int, block_bytes(order as int)))
                    ==> clear_of(old(self).free_lists(), x, len),
            decreases 16 - stash@.len() + (if searching { 1int } else { 0int }),
        {
            let ghost cur = self.free_lists();
            let ghost st = stash@;
            match self.allocate(order) {
                None => {
                    searching = false;
                },
                Some(phys) => {
                    let ok_align = align <= 1 || phys & (align - 1) == 0;
                    proof {
                        if easy {
                            let bb = (4096u64 << (order as u64));
                            assert(block_ok(phys, order as int));
                            assert(bb & ((bb - 1) as u64) == 0 && bb != 0) by (bit_vector)
                                requires
                                    bb == (4096u64 << (order as u64)),
                                    order <= 10,
                            ;
                            lemma_block_fits(phys, bb, align, bytes, boundary);
                            if align > 1 {
                                assert(eff_align(align) == align);
                            }
                        }
                        if boundary != 0 {
                            assert((phys & sub1(boundary)) < boundary && boundary <= 0x8000_0000_0000_0000)
                                by (bit_vector)
                                requires
                                    boundary != 0,
                                    boundary & sub1(boundary) == 0,
                            ;
                        }
                    }
                    if ok_align && !crosses_boundary(phys, bytes, boundary) {
                        found = Some((phys, order));
                        searching = false;
                        proof {
                            let bb = block_bytes(order as int);
                            assert forall|x: int, len: int| #[trigger] clear_of(old(self).free_lists(), x, len) implies apart(
                                x,
                                len,
                                phys as int,
                                bb,
                            ) by {
                                assert(clear_of(cur, x, len));
                            }
                            assert forall|q: int| 0 <= q < stash@.len() implies apart(
                                #[trigger] stash@[q] as int,
                                bb,
                                phys as int,
                                bb,
                            ) by {
                                assert(clear_of(cur, stash@[q] as int, bb));
                            }
                            assert forall|x: int, len: int| #[trigger] clear_of(self.free_lists(), x, len) && apart_all(
                                x,
                                len,
                                stash@,
                                0,
                                bb,
                            ) && apart(x, len, phys as int, bb) implies clear_of(old(self).free_lists(), x, len) by {
                                assert(clear_of(cur, x, len));
                            }
                        }
                    } else {
                        proof {
                            stashed = stashed + block_frames(order as int);
                            let n = stash@.len();
                            assert((n + 1) * block_frames(order as int) == n * block_frames(order as int)
                                + block_frames(order as int)) by (nonlinear_arith);
                        }
                        stash.push(phys);
                        proof {
                            let bb = block_bytes(order as int);
                            assert forall|q: int, x: int, len: int|
                                #![trigger stash@[q], clear_of(old(self).free_lists(), x, len)]
                                0 <= q < stash@.len() && clear_of(old(self).free_lists(), x, len) implies apart(
                                    x,
                                    len,
                                    stash@[q] as int,
                                    bb,
                                ) by {
                                assert(clear_of(cur, x, len));
                                if q < st.len() {
                                    assert(stash@[q] == st[q]);
                                }
                            }
                            assert forall|q: int| 0 <= q < stash@.len() implies clear_of(
                                self.free_lists(),
                                #[trigger] stash@[q] as int,
                                bb,
                            ) by {
                                if q < st.len() {
                                    assert(stash@[q] == st[q]);
                                    assert(clear_of(cur, st[q] as int, bb));
                                }
                            }
                            assert forall|q1: int, q2: int| 0 <= q1 < q2 < stash@.len() implies apart(
                                #[trigger] stash@[q1] as int,
                                bb,
                                #[trigger] stash@[q2] as int,
                                bb,
                            ) by {
                                assert(stash@[q1] == st[q1]);
                                if q2 == st.len() {
                                    assert(clear_of(cur, st[q1] as int, bb));
                                    assert(apart(st[q1] as int, bb, phys as int, bb));
                                } else {
                                    assert(stash@[q2] == st[q2]);
                                }
                            }
                            assert forall|x: int, len: int| #[trigger] clear_of(self.free_lists(), x, len) && apart_all(
                                x,
                                len,
                                stash@,
                                0,
                                bb,
                            ) implies clear_of(old(self).free_lists(), x, len) by {
                                assert(stash@[st.len() as int] == phys);
                                assert(apart(x, len, phys as int, bb));
                                assert(clear_of(cur, x, len));
                                assert(apart_all(x, len, st, 0, bb)) by {
                                    assert forall|q: int| 0 <= q < st.len() implies apart(
                                        x,
                                        len,
                                        #[trigger] st[q] as int,
                                        bb,
                                    ) by {
                                        assert(stash@[q] == st[q]);
                                    }
                                }
                            }
                        }
                    }
                },
            }
        }
        let mut i = 0usize;
        while i < stash.len()
            invariant
                self.wf(),
                order <= MAX_ORDER,
                i <= stash@.len(),
                self.total_frames == old(self).total_frames,
                self.hhdm_offset == old(self).hhdm_offset,
                stashed == (stash@.len() - i) * block_frames(order as int),
                self.free_frames + stashed <= self.total_frames,
                forall|q: int| 0 <= q < stash@.len() ==> block_ok(#[trigger] stash@[q], order as int),
                self.free_frames + stashed + (if found is Some { block_frames(order as int) } else { 0 })
                    == old(self).free_frames,
                forall|q: int| i <= q < stash@.len() ==> clear_of(
                    self.free_lists(),
                    #[trigger] stash@[q] as int,
                    block_bytes(order as int),
                ),
                forall|q1: int, q2: int|
                    0 <= q1 < q2 < stash@.len() ==> apart(
                        #[trigger] stash@[q1] as int,
                        block_bytes(order as int),
                        #[trigger] stash@[q2] as int,
                        block_bytes(order as int),
                    ),
                forall|x: int, len: int| clear_of(old(self).free_lists(), x, len) ==> #[trigger] clear_of(
                    self.free_lists(),
                    x,
                    len,
                ),
                found matches Some((phys, o)) ==> o == order && clear_of(
                    self.free_lists(),
                    phys as int,
                    block_bytes(order as int),
                ),
                found matches Some((phys, o)) ==> forall|q: int| 0 <= q < stash@.len() ==> apart(
                    #[trigger] stash@[q] as int,
                    block_bytes(order as int),
                    phys as int,
                    block_bytes(order as int),
                ),
                found matches Some((phys, o)) ==> forall|x: int, len: int| #[trigger] clear_of(
                    old(self).free_lists(),
                    x,
                    len,
                ) ==> apart(x, len, phys as int, block_bytes(order as int)),
                forall|q: int, x: int, len: int|
                    #![trigger stash@[q], clear_of(old(self).free_lists(), x, len)]
                    0 <= q < stash@.len() && clear_of(old(self).free_lists(), x, len) ==> apart(
                        x,
                        len,
                        stash@[q] as int,
                        block_bytes(order as int),
                    ),
                forall|x: int, len: int| #[trigger] clear_of(self.free_lists(), x, len) && apart_all(
                    x,
                    len,
                    stash@,
                    i as int,
                    block_bytes(order as int),
                ) && (found matches Some((fp, fo)) ==> apart(x, len, fp as int, block_bytes(order as int)))
                    ==> clear_of(old(self).free_lists(), x, len),
            decreases stash@.len() - i,
        {
            let p = stash[i];
            proof {
                lemma_block(order as u64);
                let n = stash@.len() - i;
                assert(n * block_frames(order as int) == (n - 1) * block_frames(order as int) + block_frames(
                    order as int,
                )) by (nonlinear_arith);
                assert((n - 1) * block_frames(order as int) >= 0) by (nonlinear_arith)
                    requires
                        n >= 1,
                        block_frames(order as int) >= 1,
                ;
            }
            let ghost cur = self.free_lists();
            self.deallocate(p, order);
            proof {
                stashed = stashed - block_frames(order as int);
                let bb = block_bytes(order as int);
                assert forall|q: int| i + 1 <= q < stash@.len() implies clear_of(
                    self.free_lists(),
                    #[trigger] stash@[q] as int,
                    bb,
                ) by {
                    assert(clear_of(cur, stash@[q] as int, bb));
                    assert(apart(stash@[i as int] as int, bb, stash@[q] as int, bb));
                }
                assert forall|x: int, len: int| clear_of(old(self).free_lists(), x, len) implies #[trigger] clear_of(
                    self.free_lists(),
                    x,
                    len,
                ) by {
                    assert(clear_of(cur, x, len));
                    assert(apart(x, len, stash@[i as int] as int, bb));
                }
                if let Some((fp, fo)) = found {
                    assert(clear_of(cur, fp as int, bb));
                    assert(apart(stash@[i as int] as int, bb, fp as int, bb));
                }
                assert forall|x: int, len: int| #[trigger] clear_of(self.free_lists(), x, len) && apart_all(
                    x,
                    len,
                    stash@,
                    i + 1,
                    bb,
                ) && (found matches Some((fp, fo)) ==> apart(x, len, fp as int, bb)) implies clear_of(
                    old(self).free_lists(),
                    x,
                    len,
                ) by {
                    assert(clear_of(cur, x, len));
                    assert(apart_all(x, len, stash@, i as int, bb));
                }
            }
            i += 1;
        }
        found
    }
}

} // verus!
