//! The kernel's log ring wiring, without the hardware: staging serial
//! bytes into records line by line, searching the ring, and the text of
//! `dmesg` and of the panic dump.
//!
//! The driver owns the ring and the per-CPU stages behind its locks, and
//! stamps each staged line with the time and the CPU.

use vstd::prelude::*;
use vstd::string::StringSliceAdditionalSpecFns;
use crate::log::{
    COMPILE_MAX, DUMP_LAST, Level, Logger, MSG_CAP, RING_CAP, Record, allowed, spec_allowed,
};
use crate::pci::{dec, push_dec64, push_str};

verus! {

/// The compile-time level cap.
pub fn compile_max() -> (r: Level)
    ensures
        r == COMPILE_MAX,
{
    COMPILE_MAX
}

/// One CPU's serial line being assembled.
pub struct Stage {
    buf: Vec<u8>,
}

impl View for Stage {
    type V = Seq<u8>;

    closed spec fn view(&self) -> Seq<u8> {
        self.buf@
    }
}

/// What staging `bytes` after `pending` leaves pending, and the lines it
/// completes: a carriage return is dropped, a newline ends a non-empty
/// line, and a byte past `MSG_CAP` is dropped.
pub open spec fn stage_feed(pending: Seq<u8>, bytes: Seq<u8>) -> (Seq<u8>, Seq<Seq<u8>>)
    decreases bytes.len(),
{
    if bytes.len() == 0 {
        (pending, Seq::empty())
    } else {
        let (p, lines) = stage_feed(pending, bytes.drop_last());
        let b = bytes.last();
        if b == 0x0D {
            (p, lines)
        } else if b == 0x0A {
            if p.len() > 0 { (Seq::empty(), lines.push(p)) } else { (p, lines) }
        } else if p.len() < MSG_CAP {
            (p.push(b), lines)
        } else {
            (p, lines)
        }
    }
}

/// Staging bytes in two runs gives what staging them in one does: the
/// lines of the first run, then those of the second, and the same line
/// left pending.
pub proof fn lemma_stage_chunks(pending: Seq<u8>, a: Seq<u8>, b: Seq<u8>)
    ensures
        ({
            let (p1, l1) = stage_feed(pending, a);
            let (p2, l2) = stage_feed(p1, b);
            stage_feed(pending, a + b) == (p2, l1 + l2)
        }),
    decreases b.len(),
{
    let (p1, l1) = stage_feed(pending, a);
    if b.len() == 0 {
        assert(a + b =~= a);
        assert(l1 + Seq::<Seq<u8>>::empty() =~= l1);
    } else {
        lemma_stage_chunks(pending, a, b.drop_last());
        assert((a + b).drop_last() =~= a + b.drop_last());
        assert((a + b).last() == b.last());
        let (q, lq) = stage_feed(p1, b.drop_last());
        assert(l1 + lq.push(q) =~= (l1 + lq).push(q));
    }
}

impl Stage {
    pub fn new() -> (r: Self)
        ensures
            r@ == Seq::<u8>::empty(),
    {
        Stage { buf: Vec::new() }
    }

    /// At most `MSG_CAP` bytes pending.
    pub closed spec fn wf(&self) -> bool {
        self.buf@.len() <= MSG_CAP
    }
}

/// Stage serial output for the ring: the lines `bytes` completes, or none
/// while the system halts, while this CPU is already emitting a record,
/// or when `Info` records are filtered out.
pub fn capture_serial(stage: &mut Stage, bytes: &[u8], halting: bool, emitting: bool, runtime: Level) -> (lines: Vec<
    Vec<u8>,
>)
    requires
        old(stage).wf(),
    ensures
        final(stage).wf(),
        (halting || emitting || !spec_allowed(Level::Info, runtime, COMPILE_MAX)) ==> lines@.len() == 0
            && final(stage)@ == old(stage)@,
        !(halting || emitting || !spec_allowed(Level::Info, runtime, COMPILE_MAX)) ==> {
            let (p, ls) = stage_feed(old(stage)@, bytes@);
            &&& final(stage)@ == p
            &&& lines@.len() == ls.len()
            &&& forall|i: int| 0 <= i < ls.len() ==> (#[trigger] lines@[i])@ == ls[i]
        },
{
    let mut lines: Vec<Vec<u8>> = Vec::new();
    if halting || emitting || !allowed(Level::Info, runtime, COMPILE_MAX) {
        return lines;
    }
    let mut i: usize = 0;
    while i < bytes.len()
        invariant
            i <= bytes@.len(),
            stage.buf@.len() <= MSG_CAP,
            ({
                let (p, ls) = stage_feed(old(stage)@, bytes@.take(i as int));
                &&& stage.buf@ == p
                &&& lines@.len() == ls.len()
                &&& forall|k: int| 0 <= k < ls.len() ==> (#[trigger] lines@[k])@ == ls[k]
            }),
        decreases bytes@.len() - i,
    {
        let b = bytes[i];
        proof {
            assert(bytes@.take(i + 1).drop_last() =~= bytes@.take(i as int));
            assert(bytes@.take(i + 1).last() == b);
        }
        if b == 0x0D {
        } else if b == 0x0A {
            if stage.buf.len() > 0 {
                let mut line: Vec<u8> = Vec::new();
                std::mem::swap(&mut line, &mut stage.buf);
                lines.push(line);
            }
        } else if stage.buf.len() < MSG_CAP {
            stage.buf.push(b);
        }
        i += 1;
    }
    assert(bytes@.take(bytes@.len() as int) =~= bytes@);
    lines
}

/// The `n` bytes of `s` from `k` on.
pub open spec fn window(s: Seq<u8>, k: int, n: int) -> Seq<u8> {
    s.subrange(k, k + n)
}

/// Some held record's text holds `needle`: every record holds the empty
/// needle.
pub open spec fn ring_holds(recs: Seq<Record<MSG_CAP>>, needle: Seq<u8>) -> bool {
    needle.len() == 0 || exists|i: int, k: int|
        0 <= i < recs.len() && 0 <= k && k + needle.len() <= recs[i].text().len()
            && #[trigger] window(recs[i].text(), k, needle.len() as int) == needle
}

/// `needle` occurs in `hay` at `k`.
fn occurs_at(hay: &[u8], needle: &[u8], k: usize) -> (r: bool)
    requires
        k + needle@.len() <= hay@.len(),
    ensures
        r == (hay@.subrange(k as int, k + needle@.len()) == needle@),
{
    let hl = hay.len();
    let mut j: usize = 0;
    while j < needle.len()
        invariant
            j <= needle@.len(),
            hl == hay@.len(),
            k + needle@.len() <= hay@.len(),
            forall|q: int| 0 <= q < j ==> hay@[k + q] == needle@[q],
        decreases needle@.len() - j,
    {
        if hay[k + j] != needle[j] {
            assert(hay@.subrange(k as int, k + needle@.len())[j as int] != needle@[j as int]);
            return false;
        }
        j += 1;
    }
    assert(hay@.subrange(k as int, k + needle@.len()) =~= needle@);
    true
}

/// Whether any held record contains `needle`.
pub fn contains_msg(log: &Logger<RING_CAP, MSG_CAP>, needle: &str) -> (r: bool)
    requires
        log.ring.wf(),
    ensures
        r == ring_holds(log.ring@, needle.spec_bytes()),
{
    let n = needle.as_bytes();
    if n.len() == 0 {
        return true;
    }
    let recs = log.ring.iter();
    proof {
        log.ring.lemma_held_len();
    }
    let mut i: usize = 0;
    while i < recs.len()
        invariant
            recs@ == log.ring@,
            n@ == needle.spec_bytes(),
            n@.len() > 0,
            i <= recs@.len(),
            forall|q: int| 0 <= q < recs@.len() ==> (#[trigger] recs@[q]).len <= MSG_CAP,
            forall|a: int, k: int|
                0 <= a < i && 0 <= k && k + n@.len() <= recs@[a].text().len() ==> #[trigger] window(
                    recs@[a].text(),
                    k,
                    n@.len() as int,
                ) != n@,
        decreases recs@.len() - i,
    {
        let rec = &recs[i];
        let hay = rec.msg();
        let hl = hay.len();
        if hl >= n.len() {
            let last = hl - n.len();
            let mut k: usize = 0;
            while k <= last
                invariant
                    i < recs@.len(),
                    recs@ == log.ring@,
                    n@ == needle.spec_bytes(),
                    n@.len() > 0,
                    hl == hay@.len(),
                    hay@ == recs@[i as int].text(),
                    last + n@.len() == hay@.len(),
                    k <= last + 1,
                    forall|q: int| 0 <= q < k ==> #[trigger] window(hay@, q, n@.len() as int) != n@,
                decreases last + 1 - k,
            {
                if occurs_at(hay, n, k) {
                    assert(window(recs@[i as int].text(), k as int, n@.len() as int) == n@);
                    return true;
                }
                k += 1;
            }
        }
        proof {
            assert forall|k: int| 0 <= k && k + n@.len() <= recs@[i as int].text().len() implies #[trigger] window(
                recs@[i as int].text(),
                k,
                n@.len() as int,
            ) != n@ by {
                assert(window(hay@, k, n@.len() as int) != n@);
            }
        }
        i += 1;
    }
    false
}

/// How many records the ring holds.
pub fn ring_len(log: &Logger<RING_CAP, MSG_CAP>) -> (r: usize)
    requires
        log.ring.wf(),
    ensures
        r == log.ring@.len(),
{
    log.ring.len()
}

/// Record `i`, oldest first.
pub fn record_at(log: &Logger<RING_CAP, MSG_CAP>, i: usize) -> (r: Option<Record<MSG_CAP>>)
    requires
        log.ring.wf(),
    ensures
        r == (if i < log.ring@.len() { Some(log.ring@[i as int]) } else { None::<Record<MSG_CAP>> }),
{
    match log.ring.get(i) {
        Some(rec) => Some(*rec),
        None => None,
    }
}

/// The bytes a record's message prints as: its text when that is UTF-8,
/// else `<bin>`.
pub open spec fn msg_bytes(r: Record<MSG_CAP>) -> Seq<u8> {
    if vstd::utf8::valid_utf8(r.text()) { r.text() } else { "<bin>".spec_bytes() }
}

/// A level's name as bytes.
pub open spec fn level_bytes(l: Level) -> Seq<u8> {
    match l {
        Level::Error => "error".spec_bytes(),
        Level::Warn => "warn".spec_bytes(),
        Level::Info => "info".spec_bytes(),
        Level::Debug => "debug".spec_bytes(),
        Level::Trace => "trace".spec_bytes(),
    }
}

/// The unit of timestamps: milliseconds once the TSC is calibrated, raw
/// TSC ticks before.
pub open spec fn unit_bytes(ms: bool) -> Seq<u8> {
    if ms { "ms".spec_bytes() } else { "tsc".spec_bytes() }
}

/// One record as a line after `prefix`:
/// `<prefix><timestamp><unit> cpu<n> <level> <message>`.
pub open spec fn record_line(prefix: Seq<u8>, r: Record<MSG_CAP>, ms: bool) -> Seq<u8> {
    prefix + dec(r.timestamp as nat) + unit_bytes(ms) + " cpu".spec_bytes() + dec(r.cpu_id as nat)
        + seq![0x20u8] + level_bytes(r.level) + seq![0x20u8] + msg_bytes(r) + seq![0x0Au8]
}

fn push_level(out: &mut Vec<u8>, l: Level)
    ensures
        final(out)@ == old(out)@ + level_bytes(l),
{
    let s = l.as_str();
    proof {
        reveal_strlit("error");
        reveal_strlit("warn");
        reveal_strlit("info");
        reveal_strlit("debug");
        reveal_strlit("trace");
    }
    match l {
        Level::Error => push_str(out, "error"),
        Level::Warn => push_str(out, "warn"),
        Level::Info => push_str(out, "info"),
        Level::Debug => push_str(out, "debug"),
        Level::Trace => push_str(out, "trace"),
    }
    let _ = s;
}

fn push_record(out: &mut Vec<u8>, prefix: &str, r: &Record<MSG_CAP>, ms: bool)
    requires
        r.len <= MSG_CAP,
    ensures
        final(out)@ == old(out)@ + record_line(prefix.spec_bytes(), *r, ms),
{
    push_str(out, prefix);
    push_dec64(out, r.timestamp);
    if ms {
        push_str(out, "ms");
    } else {
        push_str(out, "tsc");
    }
    push_str(out, " cpu");
    push_dec64(out, r.cpu_id as u64);
    out.push(0x20);
    push_level(out, r.level);
    out.push(0x20);
    let m = r.msg_str();
    proof {
        if vstd::utf8::valid_utf8(r.text()) {
        } else {
            assert(m.spec_bytes() == "<bin>".spec_bytes());
        }
    }
    push_str(out, m);
    out.push(0x0A);
    assert(out@ =~= old(out)@ + record_line(prefix.spec_bytes(), *r, ms));
}

/// The `dmesg` line of one record.
pub fn write_record(r: &Record<MSG_CAP>, ms: bool) -> (out: Vec<u8>)
    requires
        r.len <= MSG_CAP,
    ensures
        out@ == record_line("vibeOS: dmesg: ".spec_bytes(), *r, ms),
{
    let mut out: Vec<u8> = Vec::new();
    push_record(&mut out, "vibeOS: dmesg: ", r, ms);
    assert(out@ =~= record_line("vibeOS: dmesg: ".spec_bytes(), *r, ms));
    out
}

/// The lines of the first `n` records of `recs`, each after `prefix`.
pub open spec fn record_lines(prefix: Seq<u8>, recs: Seq<Record<MSG_CAP>>, n: int, ms: bool) -> Seq<u8>
    decreases n,
{
    if n <= 0 { Seq::empty() } else { record_lines(prefix, recs, n - 1, ms) + record_line(prefix, recs[n - 1], ms) }
}

/// `dmesg`: the lines of the held records that pass `view` (the runtime
/// cap when `view` is `None`), oldest first.
pub fn dmesg_write(log: &Logger<RING_CAP, MSG_CAP>, view: Option<Level>, runtime: Level, ms: bool) -> (out: Vec<u8>)
    requires
        log.ring.wf(),
    ensures
        ({
            let v = match view { Some(l) => l, None => runtime };
            let shown = log.ring@.filter(|rec: Record<MSG_CAP>| spec_allowed(rec.level, v, COMPILE_MAX));
            out@ == record_lines("vibeOS: dmesg: ".spec_bytes(), shown, shown.len() as int, ms)
        }),
{
    let v = match view {
        Some(l) => l,
        None => runtime,
    };
    let shown = log.visible(v);
    let mut out: Vec<u8> = Vec::new();
    let mut i: usize = 0;
    proof {
        assert forall|q: int| 0 <= q < shown@.len() implies (#[trigger] shown@[q]).len <= MSG_CAP by {
            lemma_held_lengths(log, v, q);
        }
    }
    while i < shown.len()
        invariant
            i <= shown@.len(),
            forall|q: int| 0 <= q < shown@.len() ==> (#[trigger] shown@[q]).len <= MSG_CAP,
            out@ == record_lines("vibeOS: dmesg: ".spec_bytes(), shown@, i as int, ms),
        decreases shown@.len() - i,
    {
        push_record(&mut out, "vibeOS: dmesg: ", &shown[i], ms);
        i += 1;
    }
    out
}

/// The records the panic dump shows for `n`: the newest `n` (the newest
/// `DUMP_LAST` for 0), oldest of them first.
pub open spec fn tail_of(recs: Seq<Record<MSG_CAP>>, n: usize) -> Seq<Record<MSG_CAP>> {
    let k = if n == 0 { DUMP_LAST as int } else { n as int };
    let k = if k < recs.len() { k } else { recs.len() as int };
    recs.skip(recs.len() - k)
}

/// The panic dump: `vibeOS: log: last <k> (<d> dropped)`, then one
/// `vibeOS: logrec:` line for each of the newest records.
pub fn dump_tail(log: &Logger<RING_CAP, MSG_CAP>, n: usize, ms: bool) -> (out: Vec<u8>)
    requires
        log.ring.wf(),
    ensures
        ({
            let tail = tail_of(log.ring@, n);
            out@ == "vibeOS: log: last ".spec_bytes() + dec(tail.len()) + " (".spec_bytes() + dec(
                log.ring.spec_dropped() as nat,
            ) + " dropped)".spec_bytes() + seq![0x0Au8] + record_lines(
                "vibeOS: logrec: ".spec_bytes(),
                tail,
                tail.len() as int,
                ms,
            )
        }),
{
    let n = if n == 0 { DUMP_LAST } else { n };
    let tail = log.ring.last_n(n);
    let mut out: Vec<u8> = Vec::new();
    push_str(&mut out, "vibeOS: log: last ");
    push_dec64(&mut out, tail.len() as u64);
    push_str(&mut out, " (");
    push_dec64(&mut out, log.ring.dropped());
    push_str(&mut out, " dropped)");
    out.push(0x0A);
    let ghost head = out@;
    proof {
        log.ring.lemma_held_len();
        assert forall|q: int| 0 <= q < tail@.len() implies (#[trigger] tail@[q]).len <= MSG_CAP by {
            assert(tail@[q] == log.ring@[log.ring@.len() - tail@.len() + q]);
        }
    }
    let mut i: usize = 0;
    while i < tail.len()
        invariant
            i <= tail@.len(),
            forall|q: int| 0 <= q < tail@.len() ==> (#[trigger] tail@[q]).len <= MSG_CAP,
            out@ == head + record_lines("vibeOS: logrec: ".spec_bytes(), tail@, i as int, ms),
        decreases tail@.len() - i,
    {
        push_record(&mut out, "vibeOS: logrec: ", &tail[i], ms);
        i += 1;
        assert(out@ =~= head + record_lines("vibeOS: logrec: ".spec_bytes(), tail@, i as int, ms));
    }
    out
}

/// A record that `dmesg` shows is one the ring holds, so its length fits.
proof fn lemma_held_lengths(log: &Logger<RING_CAP, MSG_CAP>, v: Level, q: int)
    requires
        log.ring.wf(),
        0 <= q < log.ring@.filter(|rec: Record<MSG_CAP>| spec_allowed(rec.level, v, COMPILE_MAX)).len(),
    ensures
        log.ring@.filter(|rec: Record<MSG_CAP>| spec_allowed(rec.level, v, COMPILE_MAX))[q].len <= MSG_CAP,
{
    let p = |rec: Record<MSG_CAP>| spec_allowed(rec.level, v, COMPILE_MAX);
    let f = log.ring@.filter(p);
    log.ring.lemma_held_len();
    assert(f.contains(f[q]));
    log.ring@.lemma_filter_contains_rev(p, f[q]);
}

} // verus!
