//! Turning the boot memory map into a running buddy allocator: the
//! regions that must stay out (the AP trampoline page, the kernel image,
//! the framebuffers, anything past the physmap cap) are cut out of every
//! usable range before it is handed to the buddy.

use vstd::prelude::*;
use crate::pmm::{Buddy, PAGE_SIZE, PmmStats, apart, clear_of, region_first, region_last, spec_region_frames};

verus! {

/// The AP trampoline page: the SIPI vector fixes the entry at 0x8000.
pub const AP_TRAMPOLINE_PHYS: u64 = 0x8000;

/// At most this many excluded ranges: the kernel image, the trampoline
/// and the framebuffers.
pub const MAX_EXCLUDES: usize = 8;

/// RAM above this stays out: the physmap does not reach it.
pub const PHYSMAP_CAP: u64 = 8 * 1024 * 1024 * 1024;

/// A range of physical bytes `[start, end)`.
#[derive(Clone, Copy, Debug, PartialEq, Eq, Structural)]
pub struct Range {
    pub start: u64,
    pub end: u64,
}

/// `x` rounded down to a page.
pub open spec fn page_down(x: u64) -> int {
    x - x % 4096
}

/// `x` rounded up to a page.
pub open spec fn page_up(x: u64) -> int {
    if x % 4096 == 0 { x as int } else { x - x % 4096 + 4096 }
}

/// Page bits and remainders agree.
proof fn lemma_page_mask(x: u64)
    by (bit_vector)
    ensures
        x & !4095u64 == x - x % 4096,
        x <= u64::MAX - 4095 ==> ((x + 4095) as u64) & !4095u64 == (if x % 4096 == 0 { x as int } else { x - x % 4096 + 4096 }),
        (x & !4095u64) % 4096 == 0,
        x <= u64::MAX - 4095 ==> (((x + 4095) as u64) & !4095u64) % 4096 == 0,
{
}

/// The excluded ranges, page-aligned.
pub struct Excludes {
    ranges: Vec<Range>,
}

impl View for Excludes {
    type V = Seq<Range>;

    closed spec fn view(&self) -> Seq<Range> {
        self.ranges@
    }
}

/// `r` starts and ends on page boundaries.
pub open spec fn page_aligned(r: Range) -> bool {
    r.start % 4096 == 0 && r.end % 4096 == 0
}

/// `s` is ordered by start.
pub open spec fn sorted_by_start(s: Seq<Range>) -> bool {
    forall|i: int, j: int| 0 <= i < j < s.len() ==> (#[trigger] s[i]).start <= (#[trigger] s[j]).start
}

impl Excludes {
    /// At most `MAX_EXCLUDES` ranges, none empty, all of whole pages.
    pub closed spec fn wf(&self) -> bool {
        &&& self.ranges@.len() <= MAX_EXCLUDES
        &&& forall|i: int| 0 <= i < self.ranges@.len() ==> (#[trigger] self.ranges@[i]).start < self.ranges@[i].end
        &&& forall|i: int| 0 <= i < self.ranges@.len() ==> page_aligned(#[trigger] self.ranges@[i])
    }

    pub fn new() -> (r: Self)
        ensures
            r.wf(),
            r@ == Seq::<Range>::empty(),
    {
        Excludes { ranges: Vec::new() }
    }

    /// Exclude `[start, end)` rounded out to whole pages. An empty range
    /// adds nothing; with the list full the range is dropped and `false`
    /// returned.
    pub fn push(&mut self, start: u64, end: u64) -> (r: bool)
        requires
            old(self).wf(),
            end <= u64::MAX - 4095,
        ensures
            final(self).wf(),
            page_down(start) >= page_up(end) ==> r && final(self)@ == old(self)@,
            page_down(start) < page_up(end) && old(self)@.len() >= MAX_EXCLUDES ==> !r && final(self)@
                == old(self)@,
            page_down(start) < page_up(end) && old(self)@.len() < MAX_EXCLUDES ==> r && final(self)@ == old(
                self,
            )@.push(Range { start: page_down(start) as u64, end: page_up(end) as u64 }),
    {
        proof {
            lemma_page_mask(start);
            lemma_page_mask(end);
        }
        let s = start & !(PAGE_SIZE - 1);
        let e = (end + (PAGE_SIZE - 1)) & !(PAGE_SIZE - 1);
        if s >= e {
            return true;
        }
        if self.ranges.len() >= MAX_EXCLUDES {
            return false;
        }
        self.ranges.push(Range { start: s, end: e });
        true
    }

    /// Order the ranges by start (insertion sort: a stable one).
    pub fn sort(&mut self)
        requires
            old(self).wf(),
        ensures
            final(self).wf(),
            sorted_by_start(final(self)@),
            final(self)@.to_multiset() == old(self)@.to_multiset(),
    {
        let n = self.ranges.len();
        let mut i: usize = 1;
        while i < n
            invariant
                n == self.ranges@.len(),
                n <= MAX_EXCLUDES,
                1 <= i <= n || n == 0,
                forall|q: int| 0 <= q < n ==> (#[trigger] self.ranges@[q]).start < self.ranges@[q].end,
                forall|q: int| 0 <= q < n ==> page_aligned(#[trigger] self.ranges@[q]),
                forall|a: int, b: int| 0 <= a < b < i && b < n ==> (#[trigger] self.ranges@[a]).start <= (#[trigger] self.ranges@[b]).start,
                self.ranges@.to_multiset() == old(self)@.to_multiset(),
            decreases n - i,
        {
            let mut j = i;
            while j > 0 && self.ranges[j - 1].start > self.ranges[j].start
                invariant
                    n == self.ranges@.len(),
                    n <= MAX_EXCLUDES,
                    0 <= j <= i < n,
                    forall|q: int| 0 <= q < n ==> (#[trigger] self.ranges@[q]).start < self.ranges@[q].end,
                    forall|q: int| 0 <= q < n ==> page_aligned(#[trigger] self.ranges@[q]),
                    forall|a: int, b: int| 0 <= a < b <= i && b != j ==> (#[trigger] self.ranges@[a]).start <= (#[trigger] self.ranges@[b]).start,
                    j < i ==> self.ranges@[j as int].start < self.ranges@[j + 1].start,
                    self.ranges@.to_multiset() == old(self)@.to_multiset(),
                decreases j,
            {
                let a = self.ranges[j - 1];
                let b = self.ranges[j];
                let ghost before = self.ranges@;
                self.ranges.set(j - 1, b);
                self.ranges.set(j, a);
                proof {
                    assert(self.ranges@ =~= before.update(j - 1, b).update(j as int, a));
                    lemma_swap_multiset(before, j - 1, j as int);
                }
                j -= 1;
            }
            i += 1;
        }
    }

    /// The ranges.
    pub fn as_slice(&self) -> (r: &[Range])
        ensures
            r@ == self@,
    {
        self.ranges.as_slice()
    }
}

/// `x` lies in `r`.
pub open spec fn in_range(r: Range, x: int) -> bool {
    r.start <= x < r.end
}

/// `x` lies in one of `rs`.
pub open spec fn covered(rs: Seq<Range>, x: int) -> bool {
    exists|q: int| 0 <= q < rs.len() && #[trigger] in_range(rs[q], x)
}

/// `ps` cut out of `[base, end)` what `rs` covers: the pieces lie in it,
/// in order and apart, hold nothing `rs` covers, hold everything in it
/// that `rs` does not cover, and each runs as far as it can (up to a
/// covered byte or an end of `[base, end)`).
pub open spec fn clip_ok(base: u64, end: u64, rs: Seq<Range>, ps: Seq<Range>) -> bool {
    &&& forall|k: int| 0 <= k < ps.len() ==> base <= (#[trigger] ps[k]).start < ps[k].end <= end
    &&& forall|k: int| 0 <= k < ps.len() ==> (#[trigger] ps[k]).start == base || covered(rs, ps[k].start - 1)
    &&& forall|k: int| 0 <= k < ps.len() ==> (#[trigger] ps[k]).end == end || covered(rs, ps[k].end as int)
    &&& forall|k: int, l: int| 0 <= k < l < ps.len() ==> (#[trigger] ps[k]).end <= (#[trigger] ps[l]).start
    &&& forall|k: int, x: int| 0 <= k < ps.len() && #[trigger] in_range(ps[k], x) ==> !covered(rs, x)
    &&& forall|x: int| base <= x < end && !covered(rs, x) ==> #[trigger] covered(ps, x)
}

/// The pieces of `[base, end)` that none of `sorted` (ordered by start)
/// covers, in order.
pub fn clip_pieces(base: u64, end: u64, sorted: &[Range]) -> (ps: Vec<Range>)
    requires
        sorted_by_start(sorted@),
        forall|q: int| 0 <= q < sorted@.len() ==> (#[trigger] sorted@[q]).start < sorted@[q].end,
    ensures
        clip_ok(base, end, sorted@, ps@),
{
    let mut ps: Vec<Range> = Vec::new();
    if base >= end {
        return ps;
    }
    let mut cur = base;
    let mut j: usize = 0;
    let mut open = true;
    while j < sorted.len() && open
        invariant
            sorted_by_start(sorted@),
            forall|q: int| 0 <= q < sorted@.len() ==> (#[trigger] sorted@[q]).start < sorted@[q].end,
            base < end,
            cur == base || covered(sorted@, cur - 1),
            forall|k: int| 0 <= k < ps@.len() ==> (#[trigger] ps@[k]).start == base || covered(sorted@, ps@[k].start - 1),
            forall|k: int| 0 <= k < ps@.len() ==> covered(sorted@, (#[trigger] ps@[k]).end as int),
            base <= cur < end,
            j <= sorted@.len(),
            open ==> forall|q: int| 0 <= q < j ==> (#[trigger] sorted@[q]).end <= cur,
            !open ==> forall|q: int| 0 <= q < sorted@.len() ==> (#[trigger] sorted@[q]).end <= cur || sorted@[q].start >= end,
            forall|k: int| 0 <= k < ps@.len() ==> base <= (#[trigger] ps@[k]).start < ps@[k].end <= cur,
            forall|k: int, l: int| 0 <= k < l < ps@.len() ==> (#[trigger] ps@[k]).end <= (#[trigger] ps@[l]).start,
            forall|k: int, x: int| 0 <= k < ps@.len() && #[trigger] in_range(ps@[k], x) ==> !covered(sorted@, x),
            forall|x: int| base <= x < cur && !covered(sorted@, x) ==> #[trigger] covered(ps@, x),
        decreases sorted@.len() - j + (if open { 1int } else { 0int }),
    {
        let r = sorted[j];
        if r.end <= cur {
            j += 1;
        } else if r.start >= end {
            proof {
                assert forall|q: int| 0 <= q < sorted@.len() implies (#[trigger] sorted@[q]).end <= cur
                    || sorted@[q].start >= end by {
                    if q >= j {
                        assert(sorted@[j as int].start <= sorted@[q].start);
                    }
                }
            }
            open = false;
        } else {
            let ex_s = if r.start > cur { r.start } else { cur };
            let ex_e = if r.end < end { r.end } else { end };
            if ex_s > cur {
                let ghost old_ps = ps@;
                let piece = Range { start: cur, end: ex_s };
                ps.push(piece);
                proof {
                    assert(in_range(sorted@[j as int], ex_s as int));
                    assert(ps@[old_ps.len() as int] == piece);
                    assert forall|k: int| 0 <= k < ps@.len() implies covered(sorted@, (#[trigger] ps@[k]).end as int) by {
                        if k < old_ps.len() {
                            assert(ps@[k] == old_ps[k]);
                        }
                    }
                    assert forall|k: int| 0 <= k < ps@.len() implies (#[trigger] ps@[k]).start == base || covered(
                        sorted@,
                        ps@[k].start - 1,
                    ) by {
                        if k < old_ps.len() {
                            assert(ps@[k] == old_ps[k]);
                        }
                    }
                    assert forall|x: int| #[trigger] in_range(piece, x) implies !covered(sorted@, x) by {
                        assert forall|q: int| 0 <= q < sorted@.len() implies !(#[trigger] in_range(sorted@[q], x)) by {
                            if q >= j {
                                assert(sorted@[j as int].start <= sorted@[q].start);
                            }
                        }
                    }
                    assert forall|k: int, x: int| 0 <= k < ps@.len() && #[trigger] in_range(ps@[k], x) implies !covered(
                        sorted@,
                        x,
                    ) by {
                        if k < old_ps.len() {
                            assert(ps@[k] == old_ps[k]);
                        }
                    }
                    assert forall|x: int| base <= x < ex_s && !covered(sorted@, x) implies #[trigger] covered(ps@, x) by {
                        if x < cur {
                            assert(covered(old_ps, x));
                            let k = choose|k: int| 0 <= k < old_ps.len() && #[trigger] in_range(old_ps[k], x);
                            assert(ps@[k] == old_ps[k]);
                        } else {
                            assert(in_range(ps@[old_ps.len() as int], x));
                        }
                    }
                }
            }
            let ghost cur0 = cur;
            proof {
                assert forall|x: int| base <= x < ex_e && !covered(sorted@, x) implies #[trigger] covered(ps@, x) by {
                    if x >= ex_s {
                        assert(in_range(sorted@[j as int], x));
                    }
                }
            }
            proof {
                if ex_e < end {
                    assert(in_range(sorted@[j as int], ex_e - 1));
                }
            }
            cur = ex_e;
            if cur >= end {
                return ps;
            }
            j += 1;
        }
    }
    let ghost old_ps = ps@;
    let piece = Range { start: cur, end };
    ps.push(piece);
    proof {
        assert(ps@[old_ps.len() as int] == piece);
        assert forall|k: int| 0 <= k < ps@.len() implies (#[trigger] ps@[k]).end == end || covered(sorted@, ps@[k].end as int) by {
            if k < old_ps.len() {
                assert(ps@[k] == old_ps[k]);
            }
        }
        assert forall|k: int| 0 <= k < ps@.len() implies (#[trigger] ps@[k]).start == base || covered(
            sorted@,
            ps@[k].start - 1,
        ) by {
            if k < old_ps.len() {
                assert(ps@[k] == old_ps[k]);
            }
        }
        assert forall|x: int| #[trigger] in_range(piece, x) implies !covered(sorted@, x) by {
            assert forall|q: int| 0 <= q < sorted@.len() implies !(#[trigger] in_range(sorted@[q], x)) by {
                if open {
                    assert(sorted@[q].end <= cur);
                } else {
                    assert(sorted@[q].end <= cur || sorted@[q].start >= end);
                }
            }
        }
        assert forall|k: int, x: int| 0 <= k < ps@.len() && #[trigger] in_range(ps@[k], x) implies !covered(sorted@, x) by {
            if k < old_ps.len() {
                assert(ps@[k] == old_ps[k]);
            }
        }
        assert forall|x: int| base <= x < end && !covered(sorted@, x) implies #[trigger] covered(ps@, x) by {
            if x < cur {
                assert(covered(old_ps, x));
                let k = choose|k: int| 0 <= k < old_ps.len() && #[trigger] in_range(old_ps[k], x);
                assert(ps@[k] == old_ps[k]);
            } else {
                assert(in_range(ps@[old_ps.len() as int], x));
            }
        }
    }
    ps
}

/// The page-rounded bytes of a piece that the buddy takes: whole pages,
/// frame 0 left out.
pub open spec fn given_start(p: Range) -> int {
    region_first(p.start) as int
}

pub open spec fn given_len(p: Range) -> int {
    region_last(p.end) - region_first(p.start)
}

/// Frames the buddy gains from the first `n` pieces.
pub open spec fn pieces_frames(ps: Seq<Range>, n: int) -> int
    decreases n,
{
    if n <= 0 { 0 } else { pieces_frames(ps, n - 1) + spec_region_frames(ps[n - 1].start, ps[n - 1].end) }
}

/// `[x, x + len)` stays clear after the first `n` pieces are given only
/// when it was clear and misses each of them.
pub open spec fn misses_pieces(ps: Seq<Range>, n: int, x: int, len: int) -> bool {
    forall|k: int| 0 <= k < n ==> apart(x, len, given_start(#[trigger] ps[k]), given_len(ps[k]))
}

/// Rounding a page boundary out of a small address.
proof fn lemma_round_bits(a: u64, b: u64)
    by (bit_vector)
    requires
        a <= 0x2_0000_0000,
        b <= 0x2_0000_0000,
    ensures
        ((if a < 4096 { 4096u64 } else { a }) + 4095) as u64 & !4095u64 >= a,
        ((if a < 4096 { 4096u64 } else { a }) + 4095) as u64 & !4095u64 >= 4096,
        (((if a < 4096 { 4096u64 } else { a }) + 4095) as u64 & !4095u64) % 4096 == 0,
        ((if a < 4096 { 4096u64 } else { a }) + 4095) as u64 & !4095u64 >= (a / 4096) * 4096,
        ((if a < 4096 { 4096u64 } else { a }) + 4095) as u64 & !4095u64 <= (if a < 4096 { 4096u64 } else { a }) + 4095,
        b & !4095u64 == (b / 4096) * 4096,
        b & !4095u64 <= b,
{
}

/// A piece gives at most the pages between its ends.
proof fn lemma_piece_frames(a: u64, b: u64)
    requires
        a < b <= PHYSMAP_CAP,
    ensures
        spec_region_frames(a, b) <= b / 4096 - a / 4096,
        given_start(Range { start: a, end: b }) >= a,
        given_start(Range { start: a, end: b }) >= 4096,
        given_start(Range { start: a, end: b }) + given_len(Range { start: a, end: b }) <= b,
{
    lemma_round_bits(a, b);
    let f = region_first(a) as int;
    let l = region_last(b) as int;
    assert(l == (b / 4096) * 4096);
    assert(f >= (a / 4096) * 4096);
    assert(f % 4096 == 0);
    if f < l {
        assert((l - f) / 4096 <= b / 4096 - a / 4096) by (nonlinear_arith)
            requires
                l == (b / 4096) * 4096,
                f >= (a / 4096) * 4096,
                f % 4096 == 0,
                f < l,
        ;
    }
}

/// Ordered pieces give at most the pages below the last one's end.
proof fn lemma_pieces_frames(ps: Seq<Range>, n: int)
    requires
        0 <= n <= ps.len(),
        forall|k: int| 0 <= k < ps.len() ==> (#[trigger] ps[k]).start < ps[k].end <= PHYSMAP_CAP,
        forall|k: int, l: int| 0 <= k < l < ps.len() ==> (#[trigger] ps[k]).end <= (#[trigger] ps[l]).start,
    ensures
        n > 0 ==> pieces_frames(ps, n) <= ps[n - 1].end / 4096 - ps[0].start / 4096,
        pieces_frames(ps, n) >= 0,
    decreases n,
{
    if n > 0 {
        lemma_pieces_frames(ps, n - 1);
        lemma_piece_frames(ps[n - 1].start, ps[n - 1].end);
        if n > 1 {
            assert(ps[n - 2].end <= ps[n - 1].start);
            assert(ps[n - 2].end / 4096 <= ps[n - 1].start / 4096) by (nonlinear_arith)
                requires
                    ps[n - 2].end <= ps[n - 1].start,
            ;
        }
    }
}

/// What is clear over a range is clear over any part of it.
proof fn lemma_clear_part(lists: Seq<Seq<u64>>, a: int, len: int, b: int, blen: int)
    requires
        clear_of(lists, a, len),
        blen <= 0 || (a <= b && b + blen <= a + len),
    ensures
        clear_of(lists, b, blen),
{
}

/// Give the buddy the pieces of `[base, end)` that none of `sorted`
/// covers.
pub fn insert_clipped(buddy: &mut Buddy, base: u64, end: u64, sorted: &[Range]) -> (ps: Ghost<Seq<Range>>)
    requires
        old(buddy).wf(),
        sorted_by_start(sorted@),
        forall|q: int| 0 <= q < sorted@.len() ==> (#[trigger] sorted@[q]).start < sorted@[q].end,
        end <= PHYSMAP_CAP,
        old(buddy).total() + PHYSMAP_CAP / 4096 <= usize::MAX,
        clear_of(old(buddy).free_lists(), base as int, end - base),
    ensures
        final(buddy).wf(),
        clip_ok(base, end, sorted@, ps@),
        final(buddy).total() == old(buddy).total() + pieces_frames(ps@, ps@.len() as int),
        final(buddy).free() == old(buddy).free() + pieces_frames(ps@, ps@.len() as int),
        final(buddy).total() <= old(buddy).total() + (if base < end { end / 4096 - base / 4096 } else { 0 }),
        forall|k: int| 0 <= k < ps@.len() ==> given_start(#[trigger] ps@[k]) >= 4096 && given_start(ps@[k])
            >= ps@[k].start && given_start(ps@[k]) + given_len(ps@[k]) <= ps@[k].end,
        forall|x: int, len: int| #[trigger] clear_of(final(buddy).free_lists(), x, len) == (clear_of(
            old(buddy).free_lists(),
            x,
            len,
        ) && misses_pieces(ps@, ps@.len() as int, x, len)),
{
    let pieces = clip_pieces(base, end, sorted);
    let ghost l0 = buddy.free_lists();
    let ghost t0 = buddy.total();
    let ghost f0 = buddy.free();
    proof {
        assert forall|k: int| 0 <= k < pieces@.len() implies #[trigger] clear_of(
            l0,
            pieces@[k].start as int,
            pieces@[k].end - pieces@[k].start,
        ) by {
            lemma_clear_part(l0, base as int, end - base, pieces@[k].start as int, pieces@[k].end - pieces@[k].start);
        }
    }
    let mut i: usize = 0;
    while i < pieces.len()
        invariant
            clip_ok(base, end, sorted@, pieces@),
            end <= PHYSMAP_CAP,
            i <= pieces@.len(),
            buddy.wf(),
            t0 + PHYSMAP_CAP / 4096 <= usize::MAX,
            buddy.total() == t0 + pieces_frames(pieces@, i as int),
            buddy.free() == f0 + pieces_frames(pieces@, i as int),
            forall|k: int| i <= k < pieces@.len() ==> #[trigger] clear_of(
                buddy.free_lists(),
                pieces@[k].start as int,
                pieces@[k].end - pieces@[k].start,
            ),
            forall|x: int, len: int| #[trigger] clear_of(buddy.free_lists(), x, len) == (clear_of(l0, x, len)
                && misses_pieces(pieces@, i as int, x, len)),
        decreases pieces@.len() - i,
    {
        let p = pieces[i];
        let ghost lb = buddy.free_lists();
        proof {
            lemma_piece_frames(p.start, p.end);
            lemma_pieces_frames(pieces@, i as int + 1);
            assert(pieces_frames(pieces@, i as int + 1) <= PHYSMAP_CAP / 4096);
            lemma_clear_part(lb, p.start as int, p.end - p.start, given_start(p), given_len(p));
        }
        buddy.insert_region(p.start, p.end);
        proof {
            let la = buddy.free_lists();
            assert forall|k: int| i + 1 <= k < pieces@.len() implies #[trigger] clear_of(
                la,
                pieces@[k].start as int,
                pieces@[k].end - pieces@[k].start,
            ) by {
                assert(pieces@[i as int].end <= pieces@[k].start);
                assert(clear_of(lb, pieces@[k].start as int, pieces@[k].end - pieces@[k].start));
            }
            assert forall|x: int, len: int| #[trigger] clear_of(la, x, len) == (clear_of(l0, x, len)
                && misses_pieces(pieces@, i + 1, x, len)) by {
                assert(clear_of(la, x, len) == (clear_of(lb, x, len) && apart(x, len, given_start(p), given_len(p))));
                assert(clear_of(lb, x, len) == (clear_of(l0, x, len) && misses_pieces(pieces@, i as int, x, len)));
                if misses_pieces(pieces@, i + 1, x, len) {
                    assert(apart(x, len, given_start(pieces@[i as int]), given_len(pieces@[i as int])));
                }
            }
        }
        i += 1;
    }
    proof {
        lemma_pieces_frames(pieces@, pieces@.len() as int);
        if pieces@.len() > 0 {
            assert(pieces@[pieces@.len() - 1].end <= end);
            assert(pieces@[0].start >= base);
            assert(pieces@[pieces@.len() - 1].end / 4096 <= end / 4096) by (nonlinear_arith)
                requires
                    pieces@[pieces@.len() - 1].end <= end,
            ;
            assert(base / 4096 <= pieces@[0].start / 4096) by (nonlinear_arith)
                requires
                    pieces@[0].start >= base,
            ;
        }
        assert forall|k: int| 0 <= k < pieces@.len() implies given_start(#[trigger] pieces@[k]) >= 4096 && given_start(
            pieces@[k],
        ) >= pieces@[k].start && given_start(pieces@[k]) + given_len(pieces@[k]) <= pieces@[k].end by {
            lemma_piece_frames(pieces@[k].start, pieces@[k].end);
        }
    }
    Ghost(pieces@)
}

/// A range cut out by `clip_ok` misses every piece.
proof fn lemma_excluded_apart(base: u64, end: u64, rs: Seq<Range>, ps: Seq<Range>, q: int, k: int)
    requires
        clip_ok(base, end, rs, ps),
        0 <= q < rs.len(),
        0 <= k < ps.len(),
        given_start(ps[k]) >= ps[k].start,
        given_start(ps[k]) + given_len(ps[k]) <= ps[k].end,
    ensures
        apart(rs[q].start as int, rs[q].end - rs[q].start, given_start(ps[k]), given_len(ps[k])),
{
    let e = rs[q];
    let p = ps[k];
    if e.start < e.end && p.start < p.end && !(e.end <= p.start || p.end <= e.start) {
        let x: int = if e.start >= p.start { e.start as int } else { p.start as int };
        assert(in_range(p, x));
        assert(in_range(rs[q], x));
        assert(covered(rs, x));
    }
}

/// The first frame that a range starting at `start` holds whole; never
/// frame 0.
pub open spec fn first_frame(start: u64) -> int {
    region_first(start) as int / 4096
}

/// The frame at which the whole frames of a range ending at `end` stop.
pub open spec fn end_frame(end: u64) -> int {
    region_last(end) as int / 4096
}

/// Frame `f` can be handed out: it is not frame 0 and shares no byte
/// with any range of `ex`.
pub open spec fn frame_clear(ex: Seq<Range>, f: int) -> bool {
    &&& f >= 1
    &&& forall|q: int| 0 <= q < ex.len() ==> (#[trigger] ex[q]).end <= 4096 * f || 4096 * f + 4096 <= ex[q].start
}

/// How many of the frames `lo..hi` can be handed out.
pub open spec fn clear_frames(ex: Seq<Range>, lo: int, hi: int) -> int
    decreases hi - lo,
{
    if hi <= lo {
        0
    } else {
        clear_frames(ex, lo, hi - 1) + if frame_clear(ex, hi - 1) { 1int } else { 0int }
    }
}

/// Where a usable range stops for the buddy: at its end or at
/// `PHYSMAP_CAP`, whichever comes first.
pub open spec fn capped_end(r: Range) -> u64 {
    if r.end < PHYSMAP_CAP { r.end } else { PHYSMAP_CAP }
}

/// The frames the buddy gets from the usable range `r`: those it holds
/// whole below the cap that can be handed out.
pub open spec fn range_frames(r: Range, ex: Seq<Range>) -> int {
    if r.start < capped_end(r) { clear_frames(ex, first_frame(r.start), end_frame(capped_end(r))) } else { 0 }
}

/// The frames the buddy gets from the first `n` usable ranges.
pub open spec fn usable_frames(usable: Seq<Range>, ex: Seq<Range>, n: int) -> int
    decreases n,
{
    if n <= 0 { 0 } else { usable_frames(usable, ex, n - 1) + range_frames(usable[n - 1], ex) }
}

/// Frame `f` lies whole, below the cap, in one of the first `n` usable
/// ranges.
pub open spec fn in_usable(usable: Seq<Range>, n: int, f: int) -> bool {
    exists|j: int|
        0 <= j < n && usable[j].start < capped_end(usable[j]) && first_frame(usable[j].start) <= f < end_frame(
            capped_end(#[trigger] usable[j]),
        )
}

/// The AP trampoline page.
pub open spec fn trampoline() -> Range {
    Range { start: AP_TRAMPOLINE_PHYS, end: (AP_TRAMPOLINE_PHYS + 4096) as u64 }
}

/// `ex` with `r` rounded out to pages added: an empty range adds
/// nothing, and a full list takes nothing more.
pub open spec fn with_excluded(ex: Seq<Range>, r: Range) -> Seq<Range> {
    if page_down(r.start) >= page_up(r.end) || ex.len() >= MAX_EXCLUDES {
        ex
    } else {
        ex.push(rounded(r.start, r.end))
    }
}

/// What is cut out: the trampoline page, then the kernel image, then the
/// first `n` framebuffers.
pub open spec fn excluded_upto(kernel: Range, fbs: Seq<Range>, n: int) -> Seq<Range>
    decreases n,
{
    if n <= 0 {
        with_excluded(seq![trampoline()], kernel)
    } else {
        with_excluded(excluded_upto(kernel, fbs, n - 1), fbs[n - 1])
    }
}

/// Splitting the frames at `mid`.
proof fn lemma_frames_split(ex: Seq<Range>, lo: int, mid: int, hi: int)
    requires
        lo <= mid <= hi,
    ensures
        clear_frames(ex, lo, hi) == clear_frames(ex, lo, mid) + clear_frames(ex, mid, hi),
    decreases hi - mid,
{
    if mid < hi {
        lemma_frames_split(ex, lo, mid, hi - 1);
    }
}

/// No frame of `lo..hi` can be handed out.
proof fn lemma_frames_none(ex: Seq<Range>, lo: int, hi: int)
    requires
        forall|f: int| lo <= f < hi ==> !#[trigger] frame_clear(ex, f),
    ensures
        clear_frames(ex, lo, hi) == 0,
    decreases hi - lo,
{
    if lo < hi {
        lemma_frames_none(ex, lo, hi - 1);
    }
}

/// Every frame of `lo..hi` can be handed out.
proof fn lemma_frames_all(ex: Seq<Range>, lo: int, hi: int)
    requires
        forall|f: int| lo <= f < hi ==> #[trigger] frame_clear(ex, f),
    ensures
        clear_frames(ex, lo, hi) == if lo < hi { hi - lo } else { 0 },
    decreases hi - lo,
{
    if lo < hi {
        lemma_frames_all(ex, lo, hi - 1);
    }
}

/// Lists that clear the same frames count the same.
proof fn lemma_frames_ext(a: Seq<Range>, b: Seq<Range>, lo: int, hi: int)
    requires
        forall|f: int| #[trigger] frame_clear(a, f) == frame_clear(b, f),
    ensures
        clear_frames(a, lo, hi) == clear_frames(b, lo, hi),
    decreases hi - lo,
{
    if lo < hi {
        lemma_frames_ext(a, b, lo, hi - 1);
        assert(frame_clear(a, hi - 1) == frame_clear(b, hi - 1));
    }
}

proof fn lemma_usable_ext(usable: Seq<Range>, a: Seq<Range>, b: Seq<Range>, n: int)
    requires
        forall|f: int| #[trigger] frame_clear(a, f) == frame_clear(b, f),
    ensures
        usable_frames(usable, a, n) == usable_frames(usable, b, n),
    decreases n,
{
    if n > 0 {
        lemma_usable_ext(usable, a, b, n - 1);
        let r = usable[n - 1];
        lemma_frames_ext(a, b, first_frame(r.start), end_frame(capped_end(r)));
    }
}

/// A reordering of the list clears the same frames.
proof fn lemma_frame_clear_perm(a: Seq<Range>, b: Seq<Range>)
    requires
        a.to_multiset() == b.to_multiset(),
    ensures
        forall|f: int| #[trigger] frame_clear(a, f) == frame_clear(b, f),
{
    broadcast use vstd::seq_lib::group_to_multiset_ensures;
    assert forall|f: int| #[trigger] frame_clear(a, f) == frame_clear(b, f) by {
        if frame_clear(a, f) && !frame_clear(b, f) {
            let q = choose|q: int| 0 <= q < b.len() && !((#[trigger] b[q]).end <= 4096 * f || 4096 * f + 4096 <= b[q].start);
            assert(b.contains(b[q]));
            assert(b.to_multiset().count(b[q]) > 0);
            assert(a.to_multiset().count(b[q]) > 0);
            assert(a.contains(b[q]));
            let t = choose|t: int| 0 <= t < a.len() && a[t] == b[q];
            assert(a[t].end <= 4096 * f || 4096 * f + 4096 <= a[t].start);
        }
        if frame_clear(b, f) && !frame_clear(a, f) {
            let q = choose|q: int| 0 <= q < a.len() && !((#[trigger] a[q]).end <= 4096 * f || 4096 * f + 4096 <= a[q].start);
            assert(a.contains(a[q]));
            assert(a.to_multiset().count(a[q]) > 0);
            assert(b.to_multiset().count(a[q]) > 0);
            assert(b.contains(a[q]));
            let t = choose|t: int| 0 <= t < b.len() && b[t] == a[q];
            assert(b[t].end <= 4096 * f || 4096 * f + 4096 <= b[t].start);
        }
    }
}

/// Frames and the page boundaries of a small address.
proof fn lemma_frame_bounds(a: u64)
    requires
        a <= PHYSMAP_CAP,
    ensures
        first_frame(a) >= 1,
        4096 * first_frame(a) == region_first(a),
        4096 * first_frame(a) >= a,
        4096 * first_frame(a) < a + 4096 || (a < 4096 && first_frame(a) == 1),
        4096 * end_frame(a) == region_last(a),
        4096 * end_frame(a) <= a < 4096 * end_frame(a) + 4096,
        a % 4096 == 0 ==> 4096 * end_frame(a) == a,
        a % 4096 == 0 && a >= 4096 ==> 4096 * first_frame(a) == a,
        spec_region_frames(a, a) == 0,
{
    lemma_round_bits(a, a);
    let rf = region_first(a) as int;
    let rl = region_last(a) as int;
    assert(rf == 4096 * (rf / 4096));
    assert(rl == 4096 * (rl / 4096));
}

/// The frames a range gives the buddy, counted by frame.
proof fn lemma_region_frames(s: u64, t: u64)
    requires
        s <= PHYSMAP_CAP,
        t <= PHYSMAP_CAP,
    ensures
        spec_region_frames(s, t) == if first_frame(s) < end_frame(t) { end_frame(t) - first_frame(s) } else { 0 },
{
    lemma_frame_bounds(s);
    lemma_frame_bounds(t);
}

/// An edge between covered and uncovered bytes is a page boundary.
proof fn lemma_edge_aligned(rs: Seq<Range>, x: int)
    requires
        forall|q: int| 0 <= q < rs.len() ==> page_aligned(#[trigger] rs[q]),
        covered(rs, x - 1) != covered(rs, x),
    ensures
        x % 4096 == 0,
{
    if x % 4096 != 0 {
        if covered(rs, x) {
            let q = choose|q: int| 0 <= q < rs.len() && #[trigger] in_range(rs[q], x);
            assert(page_aligned(rs[q]));
            assert(in_range(rs[q], x - 1));
        } else {
            let q = choose|q: int| 0 <= q < rs.len() && #[trigger] in_range(rs[q], x - 1);
            assert(page_aligned(rs[q]));
            assert(in_range(rs[q], x));
        }
    }
}

/// A frame with a covered byte cannot be handed out.
proof fn lemma_covered_frame(rs: Seq<Range>, f: int, x: int)
    requires
        4096 * f <= x < 4096 * f + 4096,
        covered(rs, x),
    ensures
        !frame_clear(rs, f),
{
    let q = choose|q: int| 0 <= q < rs.len() && #[trigger] in_range(rs[q], x);
    assert(!(rs[q].end <= 4096 * f || 4096 * f + 4096 <= rs[q].start));
}

/// A frame (not frame 0) wholly inside a piece can be handed out.
proof fn lemma_piece_frame(base: u64, end: u64, rs: Seq<Range>, ps: Seq<Range>, k: int, f: int)
    requires
        clip_ok(base, end, rs, ps),
        forall|q: int| 0 <= q < rs.len() ==> (#[trigger] rs[q]).start < rs[q].end,
        0 <= k < ps.len(),
        f >= 1,
        ps[k].start <= 4096 * f,
        4096 * f + 4096 <= ps[k].end,
    ensures
        frame_clear(rs, f),
{
    assert forall|q: int| 0 <= q < rs.len() implies (#[trigger] rs[q]).end <= 4096 * f || 4096 * f + 4096
        <= rs[q].start by {
        if !(rs[q].end <= 4096 * f || 4096 * f + 4096 <= rs[q].start) {
            let y: int = if rs[q].start >= 4096 * f { rs[q].start as int } else { 4096 * f };
            assert(in_range(ps[k], y));
            assert(in_range(rs[q], y));
        }
    }
}

/// A byte of `[base, end)` between two pieces, or before the first or
/// after the last, is covered.
proof fn lemma_gap_byte(base: u64, end: u64, rs: Seq<Range>, ps: Seq<Range>, k: int, x: int)
    requires
        clip_ok(base, end, rs, ps),
        0 <= k <= ps.len(),
        base <= x < end,
        k > 0 ==> ps[k - 1].end <= x,
        k < ps.len() ==> x < ps[k].start,
    ensures
        covered(rs, x),
{
    assert forall|q: int| 0 <= q < ps.len() implies !#[trigger] in_range(ps[q], x) by {
        if q < k - 1 {
            assert(ps[q].end <= ps[k - 1].start);
        } else if q > k {
            assert(ps[k].end <= ps[q].start);
        }
    }
    assert(!covered(ps, x));
}

/// The pieces of `[base, end)` give exactly the frames of `[base, end)`
/// that can be handed out.
proof fn lemma_pieces_count(base: u64, end: u64, rs: Seq<Range>, ps: Seq<Range>)
    requires
        clip_ok(base, end, rs, ps),
        base < end <= PHYSMAP_CAP,
        forall|q: int| 0 <= q < rs.len() ==> page_aligned(#[trigger] rs[q]),
        forall|q: int| 0 <= q < rs.len() ==> (#[trigger] rs[q]).start < rs[q].end,
    ensures
        pieces_frames(ps, ps.len() as int) == clear_frames(rs, first_frame(base), end_frame(end)),
{
    let fb = first_frame(base);
    lemma_frame_bounds(base);
    lemma_frame_bounds(end);
    lemma_pieces_prefix(base, end, rs, ps, ps.len() as int);
    let n = ps.len() as int;
    let le = end_frame(end);
    if n == 0 {
        assert forall|f: int| fb <= f < le implies !#[trigger] frame_clear(rs, f) by {
            lemma_gap_byte(base, end, rs, ps, 0, 4096 * f);
            lemma_covered_frame(rs, f, 4096 * f);
        }
        lemma_frames_none(rs, fb, le);
    } else {
        let l = ps[n - 1];
        lemma_frame_bounds(l.end);
        let el = end_frame(l.end);
        let e = if fb >= el { fb } else { el };
        if l.end != end {
            assert(covered(rs, l.end as int));
            assert(in_range(ps[n - 1], l.end - 1));
            lemma_edge_aligned(rs, l.end as int);
            assert forall|f: int| el <= f < le implies !#[trigger] frame_clear(rs, f) by {
                lemma_gap_byte(base, end, rs, ps, n, 4096 * f);
                lemma_covered_frame(rs, f, 4096 * f);
            }
        }
        if le >= e {
            lemma_frames_split(rs, fb, e, le);
            if l.end != end {
                lemma_frames_none(rs, e, le);
            }
        } else if le >= fb {
            lemma_frames_split(rs, fb, le, e);
        }
    }
}

/// The first `n` pieces give the frames that can be handed out from
/// `base`'s first frame up to where the `n`-th piece's whole frames stop.
proof fn lemma_pieces_prefix(base: u64, end: u64, rs: Seq<Range>, ps: Seq<Range>, n: int)
    requires
        clip_ok(base, end, rs, ps),
        base < end <= PHYSMAP_CAP,
        forall|q: int| 0 <= q < rs.len() ==> page_aligned(#[trigger] rs[q]),
        forall|q: int| 0 <= q < rs.len() ==> (#[trigger] rs[q]).start < rs[q].end,
        0 <= n <= ps.len(),
    ensures
        n == 0 ==> pieces_frames(ps, n) == 0,
        n > 0 ==> pieces_frames(ps, n) == clear_frames(
            rs,
            first_frame(base),
            if first_frame(base) >= end_frame(ps[n - 1].end) { first_frame(base) } else { end_frame(ps[n - 1].end) },
        ),
    decreases n,
{
    if n > 0 {
        lemma_pieces_prefix(base, end, rs, ps, n - 1);
        let k = n - 1;
        let p = ps[k];
        let fb = first_frame(base);
        lemma_frame_bounds(base);
        lemma_frame_bounds(p.start);
        lemma_frame_bounds(p.end);
        lemma_region_frames(p.start, p.end);
        let a = first_frame(p.start);
        let b = end_frame(p.end);
        let ep = if k == 0 { fb } else if fb >= end_frame(ps[k - 1].end) { fb } else { end_frame(ps[k - 1].end) };
        if k > 0 {
            lemma_frame_bounds(ps[k - 1].end);
            assert(ps[k - 1].end <= p.start);
            assert(ps[k - 1].start < ps[k - 1].end);
            assert(ps[k - 1].end != end);
            assert(covered(rs, ps[k - 1].end as int));
            assert(in_range(ps[k - 1], ps[k - 1].end - 1));
            lemma_edge_aligned(rs, ps[k - 1].end as int);
        }
        if p.start != base {
            assert(covered(rs, p.start - 1));
            assert(in_range(ps[k], p.start as int));
            lemma_edge_aligned(rs, p.start as int);
        }
        assert(fb <= ep <= a);
        assert forall|f: int| ep <= f < a implies !#[trigger] frame_clear(rs, f) by {
            lemma_gap_byte(base, end, rs, ps, k, 4096 * f);
            lemma_covered_frame(rs, f, 4096 * f);
        }
        assert forall|f: int| a <= f < b implies #[trigger] frame_clear(rs, f) by {
            lemma_piece_frame(base, end, rs, ps, k, f);
        }
        lemma_frames_split(rs, fb, ep, a);
        lemma_frames_none(rs, ep, a);
        if a <= b {
            lemma_frames_split(rs, fb, a, b);
            lemma_frames_all(rs, a, b);
        } else {
            let en = if fb >= b { fb } else { b };
            assert(ep <= en <= a);
            lemma_frames_split(rs, fb, ep, en);
            lemma_frames_none(rs, ep, en);
        }
    }
}

/// A frame of `[base, end)` that can be handed out lies in the part of
/// some piece the buddy takes.
proof fn lemma_frame_given(base: u64, end: u64, rs: Seq<Range>, ps: Seq<Range>, f: int)
    requires
        clip_ok(base, end, rs, ps),
        end <= PHYSMAP_CAP,
        base <= 4096 * f,
        4096 * f + 4096 <= end,
        frame_clear(rs, f),
    ensures
        !misses_pieces(ps, ps.len() as int, 4096 * f, 4096),
{
    let x = 4096 * f;
    assert forall|q: int| 0 <= q < rs.len() implies !#[trigger] in_range(rs[q], x) by {
        assert(rs[q].end <= 4096 * f || 4096 * f + 4096 <= rs[q].start);
    }
    assert(!covered(rs, x));
    assert(covered(ps, x));
    let k = choose|k: int| 0 <= k < ps.len() && #[trigger] in_range(ps[k], x);
    let p = ps[k];
    if p.end < x + 4096 {
        assert(covered(rs, p.end as int));
        lemma_covered_frame(rs, f, p.end as int);
    }
    lemma_frame_bounds(p.start);
    lemma_frame_bounds(p.end);
    assert(apart(x, 4096, given_start(p), given_len(p)) == false);
}

/// The free lists of a new buddy: empty at every order.
pub open spec fn fresh_lists(l: Seq<Seq<u64>>) -> bool {
    &&& l.len() == crate::pmm::MAX_ORDER + 1
    &&& forall|k: int| 0 <= k < l.len() ==> (#[trigger] l[k]).len() == 0
}

/// `usable` is ordered and its ranges do not overlap.
pub open spec fn ranges_ordered(usable: Seq<Range>) -> bool {
    &&& forall|i: int| 0 <= i < usable.len() ==> (#[trigger] usable[i]).start <= usable[i].end
    &&& forall|i: int, j: int| 0 <= i < j < usable.len() ==> (#[trigger] usable[i]).end <= (#[trigger] usable[j]).start
}

/// The range `[start, end)` rounded out to pages.
pub open spec fn rounded(start: u64, end: u64) -> Range {
    Range { start: page_down(start) as u64, end: page_up(end) as u64 }
}

/// Fill a new buddy from the usable RAM of the memory map, cutting out
/// the AP trampoline page, the kernel image and the framebuffers (each
/// rounded out to pages) and everything from `PHYSMAP_CAP` on. Returns
/// the buddy's stats, and whether every excluded range found room in
/// the list (a dropped one is not cut out).
pub fn init(buddy: &mut Buddy, usable: &[Range], kernel: Range, fbs: &[Range]) -> (r: (PmmStats, bool))
    requires
        old(buddy).wf(),
        old(buddy).total() == 0,
        fresh_lists(old(buddy).free_lists()),
        ranges_ordered(usable@),
        kernel.end <= u64::MAX - 4095,
        forall|i: int| 0 <= i < fbs@.len() ==> (#[trigger] fbs@[i]).end <= u64::MAX - 4095,
    ensures
        final(buddy).wf(),
        r.0.total_frames == final(buddy).total(),
        r.0.free_frames == final(buddy).free(),
        r.0.largest_free_order == crate::pmm::largest_order(final(buddy).free_lists()),
        fbs@.len() + 2 <= MAX_EXCLUDES ==> r.1,
        final(buddy).total() <= PHYSMAP_CAP / 4096,
        clear_of(final(buddy).free_lists(), 0, 4096),
        clear_of(final(buddy).free_lists(), AP_TRAMPOLINE_PHYS as int, 4096),
        clear_of(final(buddy).free_lists(), page_down(kernel.start), page_up(kernel.end) - page_down(kernel.start)),
        r.1 ==> forall|i: int| 0 <= i < fbs@.len() ==> #[trigger] clear_of(
            final(buddy).free_lists(),
            page_down(fbs@[i].start),
            page_up(fbs@[i].end) - page_down(fbs@[i].start),
        ),
        forall|x: int, len: int| x >= PHYSMAP_CAP ==> #[trigger] clear_of(final(buddy).free_lists(), x, len),
        final(buddy).free() == old(buddy).free() + usable_frames(
            usable@,
            excluded_upto(kernel, fbs@, fbs@.len() as int),
            usable@.len() as int,
        ),
        final(buddy).total() == old(buddy).total() + usable_frames(
            usable@,
            excluded_upto(kernel, fbs@, fbs@.len() as int),
            usable@.len() as int,
        ),
        forall|f: int|
            in_usable(usable@, usable@.len() as int, f) && #[trigger] frame_clear(
                excluded_upto(kernel, fbs@, fbs@.len() as int),
                f,
            ) ==> !clear_of(final(buddy).free_lists(), 4096 * f, 4096),
{
    broadcast use vstd::seq_lib::group_to_multiset_ensures;
    let tramp = Range { start: AP_TRAMPOLINE_PHYS, end: AP_TRAMPOLINE_PHYS + PAGE_SIZE };
    let mut excl = Excludes::new();
    let _ = excl.push(AP_TRAMPOLINE_PHYS, AP_TRAMPOLINE_PHYS + PAGE_SIZE);
    proof {
        lemma_page_mask(AP_TRAMPOLINE_PHYS);
        lemma_page_mask((AP_TRAMPOLINE_PHYS + PAGE_SIZE) as u64);
        assert(excl@ == seq![tramp]);
    }
    let _ = excl.push(kernel.start, kernel.end);
    let ghost kr = rounded(kernel.start, kernel.end);
    let ghost knonempty = page_down(kernel.start) < page_up(kernel.end);
    assert(excl@[0] == tramp);
    assert(knonempty ==> excl@.len() == 2 && excl@[1] == kr);
    assert(excl@ == excluded_upto(kernel, fbs@, 0));
    let mut kept = true;
    let mut i: usize = 0;
    while i < fbs.len()
        invariant
            excl.wf(),
            forall|q: int| 0 <= q < fbs@.len() ==> (#[trigger] fbs@[q]).end <= u64::MAX - 4095,
            i <= fbs@.len(),
            1 <= excl@.len() <= 2 + i,
            excl@[0] == tramp,
            knonempty ==> excl@.len() >= 2 && excl@[1] == kr,
            kept ==> forall|q: int| 0 <= q < i ==> page_down((#[trigger] fbs@[q]).start) >= page_up(fbs@[q].end)
                || excl@.contains(rounded(fbs@[q].start, fbs@[q].end)),
            fbs@.len() + 2 <= MAX_EXCLUDES ==> kept,
            excl@ == excluded_upto(kernel, fbs@, i as int),
        decreases fbs@.len() - i,
    {
        let f = fbs[i];
        let ghost before = excl@;
        let ok = excl.push(f.start, f.end);
        proof {
            if excl@.len() > before.len() {
                assert(excl@[before.len() as int] == rounded(f.start, f.end));
                assert forall|q: int| 0 <= q < i && #[trigger] before.contains(rounded(fbs@[q].start, fbs@[q].end)) implies excl@.contains(
                    rounded(fbs@[q].start, fbs@[q].end),
                ) by {
                    let t = choose|t: int| 0 <= t < before.len() && before[t] == rounded(fbs@[q].start, fbs@[q].end);
                    assert(excl@[t] == before[t]);
                }
            }
        }
        if !ok {
            kept = false;
        }
        i += 1;
    }
    let ghost pre = excl@;
    excl.sort();
    let sorted = excl.as_slice();
    proof {
        assert(pre.contains(tramp));
        assert(sorted@.to_multiset() == pre.to_multiset());
    }
    let mut j: usize = 0;
    let mut bound: u64 = 0;
    let ghost free0 = buddy.free();
    let ghost total0 = buddy.total();
    while j < usable.len()
        invariant
            buddy.wf(),
            forall|q: int| 0 <= q < sorted@.len() ==> page_aligned(#[trigger] sorted@[q]),
            buddy.free() == free0 + usable_frames(usable@, sorted@, j as int),
            buddy.total() == total0 + usable_frames(usable@, sorted@, j as int),
            forall|f: int|
                in_usable(usable@, j as int, f) && #[trigger] frame_clear(sorted@, f) ==> !clear_of(
                    buddy.free_lists(),
                    4096 * f,
                    4096,
                ),
            ranges_ordered(usable@),
            sorted_by_start(sorted@),
            forall|q: int| 0 <= q < sorted@.len() ==> (#[trigger] sorted@[q]).start < sorted@[q].end,
            j <= usable@.len(),
            bound <= PHYSMAP_CAP,
            j == 0 ==> bound == 0,
            j > 0 ==> bound <= usable@[j - 1].end,
            buddy.total() <= bound / 4096,
            forall|x: int, len: int| x >= bound ==> #[trigger] clear_of(buddy.free_lists(), x, len),
            clear_of(buddy.free_lists(), 0, 4096),
            forall|q: int| 0 <= q < sorted@.len() ==> #[trigger] clear_of(
                buddy.free_lists(),
                sorted@[q].start as int,
                sorted@[q].end - sorted@[q].start,
            ),
        decreases usable@.len() - j,
    {
        let r = usable[j];
        let end = if r.end < PHYSMAP_CAP { r.end } else { PHYSMAP_CAP };
        proof {
            if j > 0 {
                assert(usable@[j - 1].end <= r.start);
            }
        }
        if r.start < end {
            let ghost l0 = buddy.free_lists();
            let ghost t0 = buddy.total();
            proof {
                assert(clear_of(l0, r.start as int, end - r.start));
                assert(bound / 4096 <= r.start / 4096) by (nonlinear_arith)
                    requires
                        bound <= r.start,
                ;
                assert(end / 4096 <= PHYSMAP_CAP / 4096) by (nonlinear_arith)
                    requires
                        end <= PHYSMAP_CAP,
                ;
            }
            let ghost pre_free = buddy.free();
            let ps = insert_clipped(buddy, r.start, end, sorted);
            proof {
                let l1 = buddy.free_lists();
                lemma_pieces_count(r.start, end, sorted@, ps@);
                assert(end == capped_end(r));
                assert(usable@[j as int] == r);
                assert(range_frames(r, sorted@) == pieces_frames(ps@, ps@.len() as int));
                assert forall|f: int|
                    in_usable(usable@, j + 1, f) && #[trigger] frame_clear(sorted@, f) implies !clear_of(
                        l1,
                        4096 * f,
                        4096,
                    ) by {
                    let jj = choose|jj: int|
                        0 <= jj < j + 1 && usable@[jj].start < capped_end(usable@[jj]) && first_frame(usable@[jj].start)
                            <= f < end_frame(capped_end(#[trigger] usable@[jj]));
                    if jj == j {
                        lemma_frame_bounds(r.start);
                        lemma_frame_bounds(end);
                        lemma_frame_given(r.start, end, sorted@, ps@, f);
                    } else {
                        assert(in_usable(usable@, j as int, f));
                    }
                }
                assert forall|x: int, len: int| x >= end implies #[trigger] clear_of(l1, x, len) by {
                    assert(clear_of(l0, x, len));
                    assert forall|k: int| 0 <= k < ps@.len() implies apart(
                        x,
                        len,
                        given_start(#[trigger] ps@[k]),
                        given_len(ps@[k]),
                    ) by {}
                }
                assert(clear_of(l1, 0, 4096)) by {
                    assert forall|k: int| 0 <= k < ps@.len() implies apart(
                        0,
                        4096,
                        given_start(#[trigger] ps@[k]),
                        given_len(ps@[k]),
                    ) by {}
                }
                assert forall|q: int| 0 <= q < sorted@.len() implies #[trigger] clear_of(
                    l1,
                    sorted@[q].start as int,
                    sorted@[q].end - sorted@[q].start,
                ) by {
                    assert(clear_of(l0, sorted@[q].start as int, sorted@[q].end - sorted@[q].start));
                    assert forall|k: int| 0 <= k < ps@.len() implies apart(
                        sorted@[q].start as int,
                        sorted@[q].end - sorted@[q].start,
                        given_start(#[trigger] ps@[k]),
                        given_len(ps@[k]),
                    ) by {
                        lemma_excluded_apart(r.start, end, sorted@, ps@, q, k);
                    }
                }
            }
            bound = end;
        } else if bound < end {
            bound = end;
        }
        proof {
            assert(usable@[j as int] == r);
            assert(end == capped_end(r));
            if !(r.start < end) {
                assert(range_frames(r, sorted@) == 0);
                assert forall|f: int|
                    in_usable(usable@, j + 1, f) && #[trigger] frame_clear(sorted@, f) implies !clear_of(
                        buddy.free_lists(),
                        4096 * f,
                        4096,
                    ) by {
                    let jj = choose|jj: int|
                        0 <= jj < j + 1 && usable@[jj].start < capped_end(usable@[jj]) && first_frame(usable@[jj].start)
                            <= f < end_frame(capped_end(#[trigger] usable@[jj]));
                    if jj < j {
                        assert(in_usable(usable@, j as int, f));
                    }
                }
            }
        }
        j += 1;
    }
    proof {
        let ex = excluded_upto(kernel, fbs@, fbs@.len() as int);
        assert(pre == ex);
        lemma_frame_clear_perm(sorted@, pre);
        lemma_usable_ext(usable@, sorted@, pre, usable@.len() as int);
        assert forall|f: int|
            in_usable(usable@, usable@.len() as int, f) && #[trigger] frame_clear(ex, f) implies !clear_of(
                buddy.free_lists(),
                4096 * f,
                4096,
            ) by {
            assert(frame_clear(sorted@, f));
        }
    }
    proof {
        let l = buddy.free_lists();
        assert(buddy.total() <= PHYSMAP_CAP / 4096) by (nonlinear_arith)
            requires
                buddy.total() <= bound / 4096,
                bound <= PHYSMAP_CAP,
        ;
        pre.to_multiset_ensures();
        sorted@.to_multiset_ensures();
        assert(pre.to_multiset().count(tramp) > 0);
        assert(sorted@.to_multiset().count(tramp) > 0);
        assert(sorted@.contains(tramp));
        let qt = choose|q: int| 0 <= q < sorted@.len() && sorted@[q] == tramp;
        assert(clear_of(l, sorted@[qt].start as int, sorted@[qt].end - sorted@[qt].start));
        if knonempty {
            assert(pre[1] == kr);
            assert(pre.contains(kr));
            assert(pre.to_multiset().count(kr) > 0);
            assert(sorted@.to_multiset().count(kr) > 0);
            assert(sorted@.contains(kr));
            let qk = choose|q: int| 0 <= q < sorted@.len() && sorted@[q] == kr;
            assert(clear_of(l, sorted@[qk].start as int, sorted@[qk].end - sorted@[qk].start));
        }
        if kept {
            assert forall|q: int| 0 <= q < fbs@.len() implies #[trigger] clear_of(
                l,
                page_down(fbs@[q].start),
                page_up(fbs@[q].end) - page_down(fbs@[q].start),
            ) by {
                if page_down(fbs@[q].start) < page_up(fbs@[q].end) {
                    let w = rounded(fbs@[q].start, fbs@[q].end);
                    assert(pre.contains(w));
                    assert(pre.to_multiset().count(w) > 0);
                    assert(sorted@.to_multiset().count(w) > 0);
                    assert(sorted@.contains(w));
                    let qf = choose|t: int| 0 <= t < sorted@.len() && sorted@[t] == w;
                    assert(clear_of(l, sorted@[qf].start as int, sorted@[qf].end - sorted@[qf].start));
                }
            }
        }
    }
    (buddy.stats(), kept)
}

/// Swapping two entries keeps the multiset.
proof fn lemma_swap_multiset(s: Seq<Range>, a: int, b: int)
    requires
        0 <= a < s.len(),
        0 <= b < s.len(),
    ensures
        s.update(a, s[b]).update(b, s[a]).to_multiset() == s.to_multiset(),
{
    broadcast use vstd::seq_lib::group_to_multiset_ensures;
    let t = s.update(a, s[b]);
    assert(t.to_multiset() == s.to_multiset().remove(s[a]).insert(s[b]));
    assert(t.update(b, s[a]).to_multiset() == t.to_multiset().remove(t[b]).insert(s[a]));
    if a == b {
        assert(s.update(a, s[b]).update(b, s[a]) =~= s);
    } else {
        assert(t[b] == s[b]);
        assert(s.to_multiset().remove(s[a]).insert(s[b]).remove(s[b]).insert(s[a]) =~= s.to_multiset());
    }
}

} // verus!
