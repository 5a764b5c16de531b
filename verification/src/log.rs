//! Kernel log: levels, filter, fixed ring.
//!
//! Overflow drops the oldest record (overwrite on wrap). The kernel wraps
//! this in an IRQ-off lock so the fast path never allocates. The runtime
//! filter is checked on emit and again on `dmesg`.

use vstd::prelude::*;
use vstd::string::StringSliceAdditionalSpecFns;

verus! {

/// Kernel ring size. Host tests use smaller consts.
pub const RING_CAP: usize = 256;
/// Bytes of message text kept per record. Longer lines truncate.
pub const MSG_CAP: usize = 96;
/// Panic dump prints this many newest records.
pub const DUMP_LAST: usize = 16;

/// Severity. Smaller is more severe. Emit if `level <= max`.
#[derive(Clone, Copy, Debug, PartialEq, Eq, Structural, PartialOrd, Ord)]
pub enum Level {
    Error,
    Warn,
    Info,
    Debug,
    Trace,
}

/// Compile-time ceiling. Records above this are not formatted or stored.
pub const COMPILE_MAX: Level = Level::Trace;

/// Default runtime max. Boot markers are `Info`, so they land in the ring.
pub const DEFAULT_RUNTIME_MAX: Level = Level::Info;

/// The numeric severity: 0 for `Error` up to 4 for `Trace`.
pub open spec fn level_num(l: Level) -> u8 {
    match l {
        Level::Error => 0,
        Level::Warn => 1,
        Level::Info => 2,
        Level::Debug => 3,
        Level::Trace => 4,
    }
}

/// The level whose number is `v`, if any.
pub open spec fn level_of(v: u8) -> Option<Level> {
    if v == 0 {
        Some(Level::Error)
    } else if v == 1 {
        Some(Level::Warn)
    } else if v == 2 {
        Some(Level::Info)
    } else if v == 3 {
        Some(Level::Debug)
    } else if v == 4 {
        Some(Level::Trace)
    } else {
        None
    }
}

/// The accepted spellings of a level: its name or its number.
pub open spec fn level_named(s: Seq<char>) -> Option<Level> {
    if s == "error"@ || s == "0"@ {
        Some(Level::Error)
    } else if s == "warn"@ || s == "1"@ {
        Some(Level::Warn)
    } else if s == "info"@ || s == "2"@ {
        Some(Level::Info)
    } else if s == "debug"@ || s == "3"@ {
        Some(Level::Debug)
    } else if s == "trace"@ || s == "4"@ {
        Some(Level::Trace)
    } else {
        None
    }
}

impl Level {
    pub fn as_u8(self) -> (r: u8)
        ensures
            r == level_num(self),
    {
        match self {
            Level::Error => 0,
            Level::Warn => 1,
            Level::Info => 2,
            Level::Debug => 3,
            Level::Trace => 4,
        }
    }

    pub fn from_u8(v: u8) -> (r: Option<Self>)
        ensures
            r == level_of(v),
    {
        match v {
            0 => Some(Level::Error),
            1 => Some(Level::Warn),
            2 => Some(Level::Info),
            3 => Some(Level::Debug),
            4 => Some(Level::Trace),
            _ => None,
        }
    }

    pub fn as_str(self) -> (r: &'static str)
        ensures
            r@ == (match self {
                Level::Error => "error"@,
                Level::Warn => "warn"@,
                Level::Info => "info"@,
                Level::Debug => "debug"@,
                Level::Trace => "trace"@,
            }),
    {
        match self {
            Level::Error => "error",
            Level::Warn => "warn",
            Level::Info => "info",
            Level::Debug => "debug",
            Level::Trace => "trace",
        }
    }

    /// Parse a level from its name or its number.
    pub fn from_name(s: &str) -> (r: Option<Self>)
        ensures
            r == level_named(s@),
    {
        if str_eq(s, "error") || str_eq(s, "0") {
            Some(Level::Error)
        } else if str_eq(s, "warn") || str_eq(s, "1") {
            Some(Level::Warn)
        } else if str_eq(s, "info") || str_eq(s, "2") {
            Some(Level::Info)
        } else if str_eq(s, "debug") || str_eq(s, "3") {
            Some(Level::Debug)
        } else if str_eq(s, "trace") || str_eq(s, "4") {
            Some(Level::Trace)
        } else {
            None
        }
    }
}

/// Byte-wise equality of two string slices.
pub fn str_eq(a: &str, b: &str) -> (r: bool)
    ensures
        r == (a@ == b@),
{
    let x = a.as_bytes();
    let y = b.as_bytes();
    proof {
        vstd::utf8::encode_utf8_decode_utf8(a@);
        vstd::utf8::encode_utf8_decode_utf8(b@);
    }
    bytes_eq(x, y)
}

/// Element-wise equality of two byte slices.
pub fn bytes_eq(x: &[u8], y: &[u8]) -> (r: bool)
    ensures
        r == (x@ == y@),
{
    if x.len() != y.len() {
        return false;
    }
    let mut i: usize = 0;
    while i < x.len()
        invariant
            x@.len() == y@.len(),
            i <= x@.len(),
            forall|j: int| 0 <= j < i ==> x@[j] == y@[j],
        decreases x@.len() - i,
    {
        if x[i] != y[i] {
            return false;
        }
        i += 1;
    }
    assert(x@ =~= y@);
    true
}

/// `level` passes both the compile-time and the runtime cap.
pub open spec fn spec_allowed(level: Level, runtime_max: Level, compile_max: Level) -> bool {
    level_num(level) <= level_num(compile_max) && level_num(level) <= level_num(runtime_max)
}

/// True when `level` should be stored / shown given compile and runtime caps.
pub fn allowed(level: Level, runtime_max: Level, compile_max: Level) -> (r: bool)
    ensures
        r == spec_allowed(level, runtime_max, compile_max),
{
    level.as_u8() <= compile_max.as_u8() && level.as_u8() <= runtime_max.as_u8()
}

/// Runtime max level. The kernel keeps the logger behind its lock, so
/// setting the cap takes the filter by `&mut`.
pub struct Filter {
    max: Level,
}

impl Filter {
    /// The runtime cap.
    pub closed spec fn spec_max(&self) -> Level {
        self.max
    }

    pub fn new(max: Level) -> (r: Self)
        ensures
            r.spec_max() == max,
    {
        Filter { max }
    }

    pub fn set(&mut self, max: Level)
        ensures
            final(self).spec_max() == max,
    {
        self.max = max;
    }

    /// The current runtime cap.
    pub fn get(&self) -> (r: Level)
        ensures
            r == self.spec_max(),
    {
        self.max
    }

    /// Whether `level` passes the compile-time cap and the runtime cap.
    pub fn allows(&self, level: Level) -> (r: bool)
        ensures
            r == spec_allowed(level, self.spec_max(), COMPILE_MAX),
    {
        let m = self.get();
        allowed(level, m, COMPILE_MAX)
    }
}

#[derive(Clone, Copy, Debug)]
pub struct Record<const M: usize> {
    /// Monotonic milliseconds, or raw TSC before time init.
    pub timestamp: u64,
    pub cpu_id: u8,
    pub level: Level,
    pub len: u8,
    pub msg: [u8; M],
}

impl<const M: usize> Record<M> {
    /// The stored text: the first `len` bytes of `msg`.
    pub open spec fn text(self) -> Seq<u8> {
        self.msg@.take(self.len as int)
    }

    pub fn empty() -> (r: Self)
        ensures
            r.timestamp == 0,
            r.cpu_id == 0,
            r.level == Level::Info,
            r.len == 0,
            forall|i: int| 0 <= i < M ==> r.msg@[i] == 0,
    {
        Record { timestamp: 0, cpu_id: 0, level: Level::Info, len: 0, msg: [0u8; M] }
    }

    /// A record holding `msg`, cut to `M` bytes and to 255.
    pub fn from_msg(timestamp: u64, cpu_id: u8, level: Level, msg: &[u8]) -> (r: Self)
        ensures
            r.timestamp == timestamp,
            r.cpu_id == cpu_id,
            r.level == level,
            r.len == vstd::math::min(vstd::math::min(msg@.len() as int, M as int), 255),
            r.text() == msg@.take(r.len as int),
            r.len <= M,
            forall|i: int| r.len <= i < M ==> r.msg@[i] == 0,
    {
        let mut rec = Self::empty();
        rec.timestamp = timestamp;
        rec.cpu_id = cpu_id;
        rec.level = level;
        let mut n = msg.len();
        if n > M {
            n = M;
        }
        if n > 255 {
            n = 255;
        }
        rec.len = n as u8;
        let mut i: usize = 0;
        while i < n
            invariant
                i <= n,
                n <= M,
                n <= msg@.len(),
                rec.len == n,
                rec.timestamp == timestamp,
                rec.cpu_id == cpu_id,
                rec.level == level,
                forall|j: int| 0 <= j < i ==> rec.msg@[j] == msg@[j],
                forall|j: int| i <= j < M ==> rec.msg@[j] == 0,
            decreases n - i,
        {
            rec.msg[i] = msg[i];
            i += 1;
        }
        assert(rec.text() =~= msg@.take(n as int));
        rec
    }

    /// The stored text.
    pub fn msg(&self) -> (r: &[u8])
        requires
            self.len <= M,
        ensures
            r@ == self.text(),
    {
        let s = self.msg.as_slice();
        let r = &s[0..self.len as usize];
        assert(r@ =~= self.text());
        r
    }

    /// The stored text as UTF-8, or `"<bin>"` when it is not valid UTF-8.
    pub fn msg_str(&self) -> (r: &str)
        requires
            self.len <= M,
        ensures
            vstd::utf8::valid_utf8(self.text()) ==> r.spec_bytes() == self.text(),
            !vstd::utf8::valid_utf8(self.text()) ==> r@ == "<bin>"@,
    {
        let b = self.msg();
        match utf8_str(b) {
            Ok(s) => s,
            Err(_) => "<bin>",
        }
    }
}

/// The error `core::str::from_utf8` reports for bytes that are not UTF-8.
#[verifier::external_type_specification]
#[verifier::external_body]
pub struct ExUtf8Error(core::str::Utf8Error);

/// `core::str::from_utf8`: the bytes as a string slice, `Ok` exactly when
/// they are valid UTF-8 (what the error carries is not stated).
#[verifier::external_body]
pub(crate) fn utf8_str(b: &[u8]) -> (r: Result<&str, core::str::Utf8Error>)
    ensures
        vstd::utf8::valid_utf8(b@) <==> r is Ok,
        r matches Ok(s) ==> s.spec_bytes() == b@,
{
    core::str::from_utf8(b)
}

/// Fixed ring. Wrap overwrites the oldest record.
pub struct Ring<const N: usize, const M: usize> {
    recs: [Record<M>; N],
    /// Next write index.
    head: usize,
    /// Occupied slots, `0..=N`.
    len: usize,
    /// Records overwritten by wrap.
    dropped: u64,
    /// Total successful pushes (including those later overwritten).
    written: u64,
}

impl<const N: usize, const M: usize> View for Ring<N, M> {
    type V = Seq<Record<M>>;

    /// The held records, oldest first.
    closed spec fn view(&self) -> Seq<Record<M>> {
        Seq::new(self.len as nat, |i: int| self.recs@[self.slot(i)])
    }
}

impl<const N: usize, const M: usize> Ring<N, M> {
    /// Array slot of the `i`-th oldest record.
    pub closed spec fn slot(self, i: int) -> int {
        if self.len < N { i } else { (self.head + i) % (N as int) }
    }

    /// Indices in range; a ring that is not full has not wrapped yet.
    pub closed spec fn wf(self) -> bool {
        &&& N <= usize::MAX / 2
        &&& self.len <= N
        &&& (N > 0 ==> self.head < N)
        &&& (self.len < N ==> self.head == self.len)
        &&& forall|i: int| 0 <= i < self.len ==> (#[trigger] self@[i]).len <= M
    }

    /// The ring holds at most `N` records and every held record's length
    /// fits its buffer.
    pub proof fn lemma_held_len(self)
        requires
            self.wf(),
        ensures
            self@.len() <= N,
            forall|i: int| 0 <= i < self@.len() ==> (#[trigger] self@[i]).len <= M,
    {
    }

    pub closed spec fn spec_dropped(self) -> u64 {
        self.dropped
    }

    pub closed spec fn spec_written(self) -> u64 {
        self.written
    }

    pub fn new() -> (r: Self)
        requires
            N <= usize::MAX / 2,
        ensures
            r.wf(),
            r@ == Seq::<Record<M>>::empty(),
            r.spec_dropped() == 0,
            r.spec_written() == 0,
    {
        let r = Ring { recs: [Record::<M>::empty(); N], head: 0, len: 0, dropped: 0, written: 0 };
        assert(r@ =~= Seq::<Record<M>>::empty());
        r
    }

    pub fn capacity(&self) -> (r: usize)
        ensures
            r == N,
    {
        N
    }

    pub fn len(&self) -> (r: usize)
        requires
            self.wf(),
        ensures
            r == self@.len(),
    {
        self.len
    }

    pub fn dropped(&self) -> (r: u64)
        ensures
            r == self.spec_dropped(),
    {
        self.dropped
    }

    pub fn written(&self) -> (r: u64)
        ensures
            r == self.spec_written(),
    {
        self.written
    }

    /// Push. If full, the oldest record is dropped.
    pub fn push(&mut self, rec: Record<M>)
        requires
            old(self).wf(),
            rec.len <= M,
        ensures
            final(self).wf(),
            N == 0 ==> final(self)@ == old(self)@ && final(self).spec_dropped() == old(self).spec_dropped()
                && final(self).spec_written() == old(self).spec_written(),
            N > 0 && old(self)@.len() < N ==> final(self)@ == old(self)@.push(rec)
                && final(self).spec_dropped() == old(self).spec_dropped(),
            N > 0 && old(self)@.len() == N ==> final(self)@ == old(self)@.drop_first().push(rec)
                && final(self).spec_dropped() == sat_inc(old(self).spec_dropped()),
            N > 0 ==> final(self).spec_written() == sat_inc(old(self).spec_written()),
    {
        if N == 0 {
            return;
        }
        let ghost old_view = self@;
        let ghost old_len = self.len;
        if self.len == N {
            self.dropped = self.dropped.saturating_add(1);
        } else {
            self.len = self.len + 1;
        }
        let h = self.head;
        self.recs[h] = rec;
        self.head = (self.head + 1) % N;
        self.written = self.written.saturating_add(1);
        proof {
            crate::arith::lemma_wrap(h as int, 1, N as int);
            if old_len < N {
                assert forall|i: int| 0 <= i < self.len implies self@[i] == old_view.push(rec)[i] by {
                    if self.len == N {
                        assert(self.head == 0);
                        crate::arith::lemma_wrap(0, i, N as int);
                    }
                }
                assert(self@ =~= old_view.push(rec));
            } else {
                assert forall|i: int| 0 <= i < self.len implies self@[i] == old_view.drop_first().push(rec)[i] by {
                    crate::arith::lemma_wrap(self.head as int, i, N as int);
                    if i + 1 < N {
                        crate::arith::lemma_wrap(h as int, i + 1, N as int);
                        assert(old_view[i + 1] == self.recs@[(h + i + 1) % (N as int)]);
                    }
                }
                assert(self@ =~= old_view.drop_first().push(rec));
            }
        }
    }

    /// Oldest-first walk: the `i`-th oldest record.
    pub fn get(&self, i: usize) -> (r: Option<&Record<M>>)
        requires
            self.wf(),
        ensures
            i >= self@.len() ==> r.is_none(),
            i < self@.len() ==> r == Some(&self@[i as int]),
    {
        if i >= self.len {
            return None;
        }
        let idx = if self.len < N { i } else { (self.head + i) % N };
        proof {
            if self.len == N {
                crate::arith::lemma_wrap(self.head as int, i as int, N as int);
            }
        }
        Some(&self.recs[idx])
    }

    /// The held records, oldest first.
    pub fn iter(&self) -> (r: Vec<Record<M>>)
        requires
            self.wf(),
        ensures
            r@ == self@,
    {
        self.range(0, self.len)
    }

    /// The newest `n` records (all when fewer are held), oldest of them first.
    pub fn last_n(&self, n: usize) -> (r: Vec<Record<M>>)
        requires
            self.wf(),
        ensures
            r@ == self@.skip(self@.len() - vstd::math::min(n as int, self@.len() as int)),
    {
        let take = if n < self.len { n } else { self.len };
        let r = self.range(self.len - take, self.len);
        r
    }

    /// Records `from..to` in oldest-first order.
    fn range(&self, from: usize, to: usize) -> (r: Vec<Record<M>>)
        requires
            self.wf(),
            from <= to <= self@.len(),
        ensures
            r@ == self@.subrange(from as int, to as int),
    {
        let mut out: Vec<Record<M>> = Vec::new();
        let mut i = from;
        while i < to
            invariant
                self.wf(),
                from <= i <= to,
                to <= self@.len(),
                out@ =~= self@.subrange(from as int, i as int),
            decreases to - i,
        {
            let r = self.get(i);
            match r {
                Some(rec) => {
                    out.push(*rec);
                },
                None => {},
            }
            i += 1;
        }
        out
    }
}

/// One more, saturating at `u64::MAX`.
pub open spec fn sat_inc(v: u64) -> u64 {
    if v == u64::MAX { v } else { (v + 1) as u64 }
}

/// Ring + filter used by host tests and (by value) the kernel cell.
pub struct Logger<const N: usize, const M: usize> {
    pub ring: Ring<N, M>,
    pub filter: Filter,
}

impl<const N: usize, const M: usize> Logger<N, M> {
    pub fn new() -> (r: Self)
        requires
            N <= usize::MAX / 2,
        ensures
            r.ring.wf(),
            r.ring@ == Seq::<Record<M>>::empty(),
            r.filter.spec_max() == DEFAULT_RUNTIME_MAX,
    {
        Logger { ring: Ring::new(), filter: Filter::new(DEFAULT_RUNTIME_MAX) }
    }

    /// Store if the compile-time and runtime caps allow. Whether stored.
    pub fn emit(&mut self, rec: Record<M>) -> (r: bool)
        requires
            old(self).ring.wf(),
            rec.len <= M,
        ensures
            final(self).ring.wf(),
            final(self).filter == old(self).filter,
            r == spec_allowed(rec.level, old(self).filter.spec_max(), COMPILE_MAX),
            !r ==> final(self).ring@ == old(self).ring@,
            !r ==> final(self).ring.spec_dropped() == old(self).ring.spec_dropped()
                && final(self).ring.spec_written() == old(self).ring.spec_written(),
            r ==> level_num(rec.level) <= level_num(COMPILE_MAX),
            r && N == 0 ==> final(self).ring@ == old(self).ring@ && final(self).ring.spec_dropped()
                == old(self).ring.spec_dropped() && final(self).ring.spec_written() == old(self).ring.spec_written(),
            r && N > 0 ==> final(self).ring.spec_written() == sat_inc(old(self).ring.spec_written()),
            r && N > 0 && old(self).ring@.len() < N ==> final(self).ring@ == old(self).ring@.push(rec)
                && final(self).ring.spec_dropped() == old(self).ring.spec_dropped(),
            r && N > 0 && old(self).ring@.len() == N ==> final(self).ring@ == old(self).ring@.drop_first().push(rec)
                && final(self).ring.spec_dropped() == sat_inc(old(self).ring.spec_dropped()),
    {
        if !self.filter.allows(rec.level) {
            return false;
        }
        self.ring.push(rec);
        true
    }

    /// `dmesg` view: the held records that pass `view` (and the compile
    /// cap), oldest first.
    pub fn visible(&self, view: Level) -> (r: Vec<Record<M>>)
        requires
            self.ring.wf(),
        ensures
            r@ == self.ring@.filter(|rec: Record<M>| spec_allowed(rec.level, view, COMPILE_MAX)),
    {
        let all = self.ring.iter();
        let mut out: Vec<Record<M>> = Vec::new();
        let mut i: usize = 0;
        while i < all.len()
            invariant
                all@ == self.ring@,
                i <= all@.len(),
                out@ == all@.take(i as int).filter(|rec: Record<M>| spec_allowed(rec.level, view, COMPILE_MAX)),
            decreases all@.len() - i,
        {
            let rec = all[i];
            proof {
                let p = |rec: Record<M>| spec_allowed(rec.level, view, COMPILE_MAX);
                assert(all@.take(i + 1).drop_last() =~= all@.take(i as int));
                reveal(Seq::filter);
                assert(all@.take(i + 1).last() == rec);
            }
            if allowed(rec.level, view, COMPILE_MAX) {
                out.push(rec);
            }
            i += 1;
        }
        assert(all@.take(all@.len() as int) =~= all@);
        out
    }
}

} // verus!
