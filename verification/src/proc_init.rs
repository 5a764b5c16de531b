//! The process table's bookkeeping: pid allocation, zombies and what
//! `wait4` and `kill` do to the table, `ps` text, and the signal a user
//! fault raises. Address spaces, descriptors, wait queues and the
//! scheduler are the driver's.

use vstd::prelude::*;
use vstd::string::StringSliceAdditionalSpecFns;
use crate::pci::{dec, push_dec64, push_str};
use crate::proc::{
    INIT_PID, MAX_PROCS, ProcState, SIGBUS, SIGCHLD, SIGFPE, SIGILL, SIGSEGV, SIGSTOP, SIGTRAP, SigAct,
    default_action, spec_default_action,
};
use crate::syscall::{ECHILD, EINVAL, ESRCH};

verus! {

/// One process slot, as far as the table keeps it.
#[derive(Clone, Copy)]
pub struct ProcSlot {
    pub state: ProcState,
    pub pid: u32,
    pub ppid: u32,
    pub wait_status: u32,
    pub pending: u32,
    /// No reaper will wait: the slot is freed at exit.
    pub autoreap: bool,
    pub name: &'static str,
}

/// An unused slot.
pub open spec fn unused(s: ProcSlot) -> bool {
    &&& s.state == ProcState::Unused
    &&& s.pid == 0
    &&& s.ppid == 0
    &&& s.wait_status == 0
    &&& s.pending == 0
    &&& !s.autoreap
    &&& s.name@ == ""@
}

impl ProcSlot {
    pub fn empty() -> (r: Self)
        ensures
            unused(r),
    {
        ProcSlot { state: ProcState::Unused, pid: 0, ppid: 0, wait_status: 0, pending: 0, autoreap: false, name: "" }
    }
}

/// The bit of signal `sig` in a pending mask; none for 0 or above 31.
pub open spec fn spec_bit(sig: u32) -> u32 {
    if sig == 0 || sig > 31 { 0 } else { (1u32 << sig) as u32 }
}

pub fn bit(sig: u32) -> (r: u32)
    ensures
        r == spec_bit(sig),
{
    if sig == 0 || sig > 31 {
        0
    } else {
        1u32 << sig
    }
}

/// The table: slot `i` holds pid `i`; slot 0 is never a process.
pub struct ProcTable {
    procs: Vec<ProcSlot>,
}

impl View for ProcTable {
    type V = Seq<ProcSlot>;

    closed spec fn view(&self) -> Seq<ProcSlot> {
        self.procs@
    }
}

/// `t2` is `t1` with slot `i` replaced by `s`.
pub open spec fn with_slot(t1: Seq<ProcSlot>, i: int, s: ProcSlot) -> Seq<ProcSlot> {
    t1.update(i, s)
}

/// The first slot from `lo` on that holds a zombie child of `parent`
/// matching `want` (any child when negative).
pub open spec fn zombie_match(s: ProcSlot, parent: u32, want: i64) -> bool {
    s.state == ProcState::Zombie && s.ppid == parent && (want < 0 || want == s.pid as i64)
}

/// Slot `s` is a child of `parent` matching `want`.
pub open spec fn child_match(s: ProcSlot, parent: u32, want: i64) -> bool {
    s.state != ProcState::Unused && s.ppid == parent && (want < 0 || want == s.pid as i64)
}

/// What a `wait4` pass decided.
#[derive(Clone, Copy, Debug, PartialEq, Eq, Structural)]
pub enum WaitAct {
    /// Reaped this child with this status; `(0, 0)` for nothing yet
    /// under `WNOHANG`.
    Done(u32, u32),
    /// Fail with this errno.
    Fail(i32),
    /// Sleep on the caller's wait queue and try again.
    Sleep,
}

/// What `kill` changed besides the table: a stopped process continued,
/// and whether its wait queues need a wake.
#[derive(Clone, Copy, Debug, PartialEq, Eq, Structural)]
pub struct KillAct {
    pub cont: bool,
    pub wake: bool,
}

/// Slot `p` after signal `sig` is sent to it with nothing to handle it.
pub open spec fn killed(p: ProcSlot, sig: u32) -> ProcSlot {
    match spec_default_action(sig) {
        SigAct::Ign => if sig == SIGCHLD { ProcSlot { pending: p.pending | spec_bit(sig), ..p } } else { p },
        SigAct::Cont => if p.state == ProcState::Stopped {
            ProcSlot { state: ProcState::Live, pending: p.pending & !spec_bit(SIGSTOP), ..p }
        } else {
            p
        },
        SigAct::Stop => ProcSlot { state: ProcState::Stopped, pending: p.pending | spec_bit(SIGSTOP), ..p },
        SigAct::Term => ProcSlot { pending: p.pending | spec_bit(sig), ..p },
    }
}

/// What else sending `sig` to `p` calls for.
pub open spec fn kill_act(p: ProcSlot, sig: u32) -> KillAct {
    match spec_default_action(sig) {
        SigAct::Ign => KillAct { cont: false, wake: false },
        SigAct::Cont => KillAct { cont: p.state == ProcState::Stopped, wake: false },
        SigAct::Stop => KillAct { cont: false, wake: true },
        SigAct::Term => KillAct { cont: false, wake: true },
    }
}

impl ProcTable {
    /// One slot per pid: a slot in use holds the pid of its index, and
    /// slot 0 is never in use.
    pub closed spec fn wf(&self) -> bool {
        &&& self.procs@.len() == MAX_PROCS
        &&& self.procs@[0].state == ProcState::Unused
        &&& forall|i: int| 0 <= i < MAX_PROCS && (#[trigger] self.procs@[i]).state != ProcState::Unused ==> self.procs@[i].pid == i
    }

    /// A slot in use holds the pid of its index.
    pub proof fn lemma_slot_pid(&self, i: int)
        requires
            self.wf(),
            0 <= i < MAX_PROCS,
            self@[i].state != ProcState::Unused,
        ensures
            self@[i].pid == i,
            i != 0,
    {
    }

    /// Every slot unused.
    pub fn new() -> (r: Self)
        ensures
            r.wf(),
            forall|i: int| 0 <= i < MAX_PROCS ==> unused(#[trigger] r@[i]),
    {
        let mut procs: Vec<ProcSlot> = Vec::new();
        let mut i: usize = 0;
        while i < MAX_PROCS
            invariant
                i <= MAX_PROCS,
                procs@.len() == i,
                forall|j: int| 0 <= j < i ==> unused(#[trigger] procs@[j]),
            decreases MAX_PROCS - i,
        {
            procs.push(ProcSlot::empty());
            i += 1;
        }
        ProcTable { procs }
    }

    /// The live (or stopped, or zombie) process `pid`.
    pub fn get(&self, pid: u32) -> (r: Option<ProcSlot>)
        requires
            self.wf(),
        ensures
            r == (if pid == 0 || pid >= MAX_PROCS || self@[pid as int].state == ProcState::Unused
                || self@[pid as int].pid != pid {
                None::<ProcSlot>
            } else {
                Some(self@[pid as int])
            }),
    {
        let i = pid as usize;
        if i == 0 || i >= MAX_PROCS {
            return None;
        }
        let p = self.procs[i];
        if p.state == ProcState::Unused || p.pid != pid {
            None
        } else {
            Some(p)
        }
    }

    /// Take a pid: `prefer` when its slot is free, else (unless `prefer`
    /// is init's) the lowest free pid from 2 on. The slot becomes a live
    /// process with that pid.
    pub fn alloc_pid(&mut self, prefer: u32) -> (r: Option<u32>)
        requires
            old(self).wf(),
        ensures
            final(self).wf(),
            (prefer != 0 && prefer < MAX_PROCS && old(self)@[prefer as int].state == ProcState::Unused) ==> r == Some(
                prefer,
            ),
            !(prefer != 0 && prefer < MAX_PROCS && old(self)@[prefer as int].state == ProcState::Unused) ==> {
                if prefer == INIT_PID {
                    r is None
                } else {
                    match r {
                        Some(p) => 2 <= p < MAX_PROCS && old(self)@[p as int].state == ProcState::Unused && forall|
                            j: int,
                        | 2 <= j < p ==> (#[trigger] old(self)@[j]).state != ProcState::Unused,
                        None => forall|j: int| 2 <= j < MAX_PROCS ==> (#[trigger] old(self)@[j]).state
                            != ProcState::Unused,
                    }
                }
            },
            r is None ==> final(self)@ == old(self)@,
            r matches Some(p) ==> final(self)@ == with_slot(
                old(self)@,
                p as int,
                ProcSlot { state: ProcState::Live, pid: p, ..old(self)@[p as int] },
            ),
    {
        let mut pid: u32 = 0;
        if prefer != 0 {
            let i = prefer as usize;
            if i < MAX_PROCS && self.procs[i].state == ProcState::Unused {
                pid = prefer;
            }
        }
        if pid == 0 {
            if prefer == INIT_PID {
                return None;
            }
            let mut i: usize = 2;
            let mut found: usize = 0;
            while i < MAX_PROCS
                invariant
                    self.procs@.len() == MAX_PROCS,
                    self@ == old(self)@,
                    2 <= i <= MAX_PROCS,
                    found == 0 ==> forall|j: int| 2 <= j < i ==> (#[trigger] self.procs@[j]).state != ProcState::Unused,
                    found != 0 ==> 2 <= found < MAX_PROCS && self.procs@[found as int].state == ProcState::Unused
                        && forall|j: int| 2 <= j < found ==> (#[trigger] self.procs@[j]).state != ProcState::Unused,
                decreases MAX_PROCS - i,
            {
                if found == 0 && self.procs[i].state == ProcState::Unused {
                    found = i;
                }
                i += 1;
            }
            if found == 0 {
                return None;
            }
            pid = found as u32;
        }
        let mut s = self.procs[pid as usize];
        s.state = ProcState::Live;
        s.pid = pid;
        self.procs.set(pid as usize, s);
        Some(pid)
    }

    /// Fill slot `pid` for a new process of `ppid` named `name`.
    pub fn init_slot(&mut self, pid: u32, ppid: u32, name: &'static str)
        requires
            old(self).wf(),
            1 <= pid < MAX_PROCS,
        ensures
            final(self).wf(),
            final(self)@ == with_slot(
                old(self)@,
                pid as int,
                ProcSlot {
                    state: ProcState::Live,
                    pid,
                    ppid,
                    wait_status: 0,
                    pending: 0,
                    autoreap: false,
                    name,
                },
            ),
    {
        self.procs.set(
            pid as usize,
            ProcSlot { state: ProcState::Live, pid, ppid, wait_status: 0, pending: 0, autoreap: false, name },
        );
    }

    /// The first zombie child of `parent` matching `want`: its pid and
    /// wait status.
    pub fn find_zombie(&self, parent: u32, want: i64) -> (r: Option<(u32, u32)>)
        requires
            self.wf(),
        ensures
            r is None ==> forall|j: int| 1 <= j < MAX_PROCS ==> !zombie_match(#[trigger] self@[j], parent, want),
            r matches Some((p, st)) ==> exists|i: int|
                1 <= i < MAX_PROCS && zombie_match(#[trigger] self@[i], parent, want) && self@[i].pid == p
                    && self@[i].wait_status == st && forall|j: int| 1 <= j < i ==> !zombie_match(
                    #[trigger] self@[j],
                    parent,
                    want,
                ),
    {
        let mut i: usize = 1;
        while i < MAX_PROCS
            invariant
                self.procs@.len() == MAX_PROCS,
                1 <= i <= MAX_PROCS,
                forall|j: int| 1 <= j < i ==> !zombie_match(#[trigger] self.procs@[j], parent, want),
            decreases MAX_PROCS - i,
        {
            let p = self.procs[i];
            if p.state == ProcState::Zombie && p.ppid == parent && (want < 0 || want == p.pid as i64) {
                assert(zombie_match(self@[i as int], parent, want));
                return Some((p.pid, p.wait_status));
            }
            i += 1;
        }
        None
    }

    /// Whether `parent` has a child matching `want`.
    pub fn has_child(&self, parent: u32, want: i64) -> (r: bool)
        requires
            self.wf(),
        ensures
            r == exists|i: int| 1 <= i < MAX_PROCS && child_match(#[trigger] self@[i], parent, want),
    {
        let mut i: usize = 1;
        while i < MAX_PROCS
            invariant
                self.procs@.len() == MAX_PROCS,
                1 <= i <= MAX_PROCS,
                forall|j: int| 1 <= j < i ==> !child_match(#[trigger] self.procs@[j], parent, want),
            decreases MAX_PROCS - i,
        {
            let p = self.procs[i];
            if p.state != ProcState::Unused && p.ppid == parent && (want < 0 || want == p.pid as i64) {
                assert(child_match(self@[i as int], parent, want));
                return true;
            }
            i += 1;
        }
        false
    }

    /// Free slot `pid`.
    pub fn reap_zombie(&mut self, pid: u32)
        requires
            old(self).wf(),
            pid < MAX_PROCS,
        ensures
            final(self).wf(),
            final(self)@.len() == old(self)@.len(),
            unused(final(self)@[pid as int]),
            forall|j: int| 0 <= j < MAX_PROCS && j != pid ==> #[trigger] final(self)@[j] == old(self)@[j],
    {
        self.procs.set(pid as usize, ProcSlot::empty());
    }

    /// One pass of `wait4` by `self_pid` for `want`: reap the first
    /// matching zombie, or fail with `ECHILD` when there is no matching
    /// child (or no caller process), or return at once under `nohang`,
    /// or sleep.
    pub fn wait_step(&mut self, self_pid: u32, want: i64, nohang: bool) -> (r: WaitAct)
        requires
            old(self).wf(),
        ensures
            final(self).wf(),
            self_pid == 0 ==> r == WaitAct::Fail(ECHILD) && final(self)@ == old(self)@,
            self_pid != 0 ==> match r {
                WaitAct::Done(p, st) => if p != 0 {
                    exists|i: int|
                        1 <= i < MAX_PROCS && zombie_match(#[trigger] old(self)@[i], self_pid, want) && old(self)@[i].pid
                            == p && old(self)@[i].wait_status == st && (forall|j: int|
                            1 <= j < i ==> !zombie_match(#[trigger] old(self)@[j], self_pid, want)) && unused(
                            final(self)@[i],
                        ) && (forall|j: int| 0 <= j < MAX_PROCS && j != i ==> #[trigger] final(self)@[j] == old(self)@[j])
                } else {
                    st == 0 && nohang && final(self)@ == old(self)@ && (forall|j: int|
                        1 <= j < MAX_PROCS ==> !zombie_match(#[trigger] old(self)@[j], self_pid, want)) && exists|i: int|
                        1 <= i < MAX_PROCS && child_match(#[trigger] old(self)@[i], self_pid, want)
                },
                WaitAct::Fail(e) => e == ECHILD && final(self)@ == old(self)@ && forall|j: int|
                    1 <= j < MAX_PROCS ==> !child_match(#[trigger] old(self)@[j], self_pid, want),
                WaitAct::Sleep => !nohang && final(self)@ == old(self)@ && (forall|j: int|
                    1 <= j < MAX_PROCS ==> !zombie_match(#[trigger] old(self)@[j], self_pid, want)) && exists|i: int|
                    1 <= i < MAX_PROCS && child_match(#[trigger] old(self)@[i], self_pid, want),
            },
    {
        if self_pid == 0 {
            return WaitAct::Fail(ECHILD);
        }
        match self.find_zombie(self_pid, want) {
            Some((cpid, st)) => {
                let ghost i = choose|i: int|
                    1 <= i < MAX_PROCS && zombie_match(#[trigger] self@[i], self_pid, want) && self@[i].pid == cpid
                        && self@[i].wait_status == st && forall|j: int| 1 <= j < i ==> !zombie_match(
                        #[trigger] self@[j],
                        self_pid,
                        want,
                    );
                proof {
                    assert(zombie_match(self@[i], self_pid, want));
                    self.lemma_slot_pid(i);
                }
                self.reap_zombie(cpid);
                WaitAct::Done(cpid, st)
            },
            None => {
                if !self.has_child(self_pid, want) {
                    return WaitAct::Fail(ECHILD);
                }
                if nohang {
                    return WaitAct::Done(0, 0);
                }
                WaitAct::Sleep
            },
        }
    }

    /// The table's part of an exit (after the children found a new
    /// parent): `pid` becomes a zombie holding `wait_status`, with nothing
    /// pending; a process nobody will wait for is freed at once, else its
    /// parent gets `SIGCHLD`. Returns the parent.
    pub fn exit_slot(&mut self, pid: u32, wait_status: u32) -> (ppid: u32)
        requires
            old(self).wf(),
        ensures
            final(self).wf(),
            (pid == 0 || pid >= MAX_PROCS || old(self)@[pid as int].state == ProcState::Unused) ==> ppid == 0
                && final(self)@ == old(self)@,
            !(pid == 0 || pid >= MAX_PROCS || old(self)@[pid as int].state == ProcState::Unused) ==> {
                let p = old(self)@[pid as int];
                let z = ProcSlot { state: ProcState::Zombie, wait_status, pending: 0, ..p };
                let t1 = with_slot(old(self)@, pid as int, z);
                &&& ppid == p.ppid
                &&& p.autoreap ==> unused(final(self)@[pid as int]) && forall|j: int|
                    0 <= j < MAX_PROCS && j != pid ==> #[trigger] final(self)@[j] == old(self)@[j]
                &&& !p.autoreap ==> final(self)@ == (if 0 < ppid < MAX_PROCS && t1[ppid as int].state
                    != ProcState::Unused && t1[ppid as int].pid == ppid {
                    with_slot(t1, ppid as int, ProcSlot { pending: t1[ppid as int].pending | spec_bit(SIGCHLD), ..t1[ppid as int] })
                } else {
                    t1
                })
            },
    {
        let mut p = match self.get(pid) {
            Some(p) => p,
            None => return 0,
        };
        p.state = ProcState::Zombie;
        p.wait_status = wait_status;
        p.pending = 0;
        let ppid = p.ppid;
        self.procs.set(pid as usize, p);
        if p.autoreap {
            self.reap_zombie(pid);
        } else {
            match self.get(ppid) {
                Some(mut par) => {
                    par.pending = par.pending | bit(SIGCHLD);
                    self.procs.set(ppid as usize, par);
                },
                None => {},
            }
        }
        ppid
    }

    /// The table's part of `kill(target, sig)`: `EINVAL` for a signal
    /// outside 1 to 31, `ESRCH` when `target` is no live or stopped
    /// process; else the signal's default action on the target.
    pub fn kill_step(&mut self, target: u32, sig: u32) -> (r: Result<KillAct, i32>)
        requires
            old(self).wf(),
        ensures
            final(self).wf(),
            (sig == 0 || sig > 31) ==> r == Err::<KillAct, i32>(EINVAL) && final(self)@ == old(self)@,
            !(sig == 0 || sig > 31) && (target == 0 || target >= MAX_PROCS || old(self)@[target as int].state
                == ProcState::Unused || old(self)@[target as int].state == ProcState::Zombie) ==> r == Err::<
                KillAct,
                i32,
            >(ESRCH) && final(self)@ == old(self)@,
            r is Ok ==> final(self)@ == with_slot(old(self)@, target as int, killed(old(self)@[target as int], sig))
                && r == Ok::<KillAct, i32>(kill_act(old(self)@[target as int], sig)),
            r is Ok <==> !(sig == 0 || sig > 31) && !(target == 0 || target >= MAX_PROCS || old(self)@[target as int].state
                == ProcState::Unused || old(self)@[target as int].state == ProcState::Zombie),
    {
        if sig == 0 || sig > 31 {
            return Err(EINVAL);
        }
        let mut p = match self.get(target) {
            Some(p) => p,
            None => return Err(ESRCH),
        };
        if p.state == ProcState::Unused || p.state == ProcState::Zombie {
            return Err(ESRCH);
        }
        let act = match default_action(sig) {
            SigAct::Ign => {
                if sig == SIGCHLD {
                    p.pending = p.pending | bit(sig);
                }
                KillAct { cont: false, wake: false }
            },
            SigAct::Cont => {
                let was = p.state == ProcState::Stopped;
                if was {
                    p.state = ProcState::Live;
                    p.pending = p.pending & !bit(SIGSTOP);
                }
                KillAct { cont: was, wake: false }
            },
            SigAct::Stop => {
                p.pending = p.pending | bit(SIGSTOP);
                p.state = ProcState::Stopped;
                KillAct { cont: false, wake: true }
            },
            SigAct::Term => {
                p.pending = p.pending | bit(sig);
                KillAct { cont: false, wake: true }
            },
        };
        self.procs.set(target as usize, p);
        Ok(act)
    }
}

/// A process state's name in `ps`.
pub open spec fn spec_state_name(st: ProcState) -> Seq<char> {
    match st {
        ProcState::Unused => "unused"@,
        ProcState::Live => "run"@,
        ProcState::Stopped => "stop"@,
        ProcState::Zombie => "zombie"@,
    }
}

/// One `ps` line: `<pid> <ppid> <state> <name>`.
pub open spec fn ps_line(s: ProcSlot) -> Seq<u8> {
    dec(s.pid as nat) + seq![0x20u8] + dec(s.ppid as nat) + seq![0x20u8] + vstd::utf8::encode_utf8(
        spec_state_name(s.state),
    ) + seq![0x20u8] + s.name.spec_bytes() + seq![0x0Au8]
}

/// The `ps` text from slot `i` on after `acc`: a line per slot in use,
/// stopping at the first line that does not fit in `cap` bytes.
pub open spec fn ps_from(slots: Seq<ProcSlot>, i: int, cap: int, acc: Seq<u8>) -> Seq<u8>
    decreases MAX_PROCS - i,
{
    if i < 0 || i >= MAX_PROCS || i >= slots.len() {
        acc
    } else if slots[i].state == ProcState::Unused {
        ps_from(slots, i + 1, cap, acc)
    } else if acc.len() + ps_line(slots[i]).len() > cap {
        acc
    } else {
        ps_from(slots, i + 1, cap, acc + ps_line(slots[i]))
    }
}

fn ps_line_exec(p: &ProcSlot) -> (r: Vec<u8>)
    ensures
        r@ == ps_line(*p),
{
    let mut out: Vec<u8> = Vec::new();
    push_dec64(&mut out, p.pid as u64);
    out.push(0x20);
    push_dec64(&mut out, p.ppid as u64);
    out.push(0x20);
    push_str(&mut out, p.state.name());
    out.push(0x20);
    push_str(&mut out, p.name);
    out.push(0x0A);
    assert(out@ =~= ps_line(*p));
    out
}

impl ProcTable {
    /// The `ps` text (as the `psinfo` call copies it out): a line per
    /// process, in pid order, as many whole lines as fit in `cap` bytes.
    pub fn format_ps(&self, cap: usize) -> (r: Vec<u8>)
        requires
            self.wf(),
        ensures
            r@ == ps_from(self@, 1, cap as int, Seq::empty()),
            r@.len() <= cap,
    {
        let mut out: Vec<u8> = Vec::new();
        let mut i: usize = 1;
        while i < MAX_PROCS
            invariant
                self.procs@.len() == MAX_PROCS,
                1 <= i <= MAX_PROCS,
                out@.len() <= cap,
                ps_from(self@, i as int, cap as int, out@) == ps_from(self@, 1, cap as int, Seq::empty()),
            decreases MAX_PROCS - i,
        {
            let p = self.procs[i];
            if p.state != ProcState::Unused {
                let line = ps_line_exec(&p);
                if line.len() > cap - out.len() {
                    return out;
                }
                let ghost before = out@;
                let mut k: usize = 0;
                while k < line.len()
                    invariant
                        k <= line@.len(),
                        out@ == before + line@.take(k as int),
                    decreases line@.len() - k,
                {
                    out.push(line[k]);
                    k += 1;
                    assert(out@ =~= before + line@.take(k as int));
                }
                assert(line@.take(k as int) =~= line@);
            }
            i += 1;
        }
        out
    }
}

/// What a run of bytes leaves after splitting it at newlines: the lines
/// ended so far (a `\r` before the newline dropped) and the open one.
pub open spec fn split_feed(b: Seq<u8>) -> (Seq<Seq<u8>>, Seq<u8>)
    decreases b.len(),
{
    if b.len() == 0 {
        (Seq::empty(), Seq::empty())
    } else {
        let (ls, cur) = split_feed(b.drop_last());
        if b.last() == 0x0A {
            (ls.push(strip_cr(cur)), Seq::empty())
        } else {
            (ls, cur.push(b.last()))
        }
    }
}

/// A line without the `\r` that ended it.
pub open spec fn strip_cr(l: Seq<u8>) -> Seq<u8> {
    if l.len() > 0 && l.last() == 0x0D { l.drop_last() } else { l }
}

/// The lines of a text: ended by a newline (a `\r\n` counts as one), the
/// last one possibly not.
pub open spec fn text_lines(b: Seq<u8>) -> Seq<Seq<u8>> {
    let (ls, cur) = split_feed(b);
    if cur.len() > 0 { ls.push(cur) } else { ls }
}

/// The first `n` of `ls`, each after `prefix` and ended by a newline.
pub open spec fn prefixed(prefix: Seq<u8>, ls: Seq<Seq<u8>>, n: int) -> Seq<u8>
    decreases n,
{
    if n <= 0 || n > ls.len() { Seq::empty() } else { prefixed(prefix, ls, n - 1) + prefix + ls[n - 1] + seq![0x0Au8] }
}

fn push_bytes(out: &mut Vec<u8>, b: &Vec<u8>)
    ensures
        final(out)@ == old(out)@ + b@,
{
    let mut k: usize = 0;
    while k < b.len()
        invariant
            k <= b@.len(),
            out@ == old(out)@ + b@.take(k as int),
        decreases b@.len() - k,
    {
        out.push(b[k]);
        k += 1;
        assert(out@ =~= old(out)@ + b@.take(k as int));
    }
    assert(b@.take(k as int) =~= b@);
}

/// Each line of `text` after `prefix`, ended by a newline.
pub fn prefix_lines(prefix: &str, text: &Vec<u8>) -> (out: Vec<u8>)
    ensures
        out@ == prefixed(prefix.spec_bytes(), text_lines(text@), text_lines(text@).len() as int),
{
    let ghost pb = prefix.spec_bytes();
    let mut out: Vec<u8> = Vec::new();
    let mut cur: Vec<u8> = Vec::new();
    let mut i: usize = 0;
    while i < text.len()
        invariant
            i <= text@.len(),
            pb == prefix.spec_bytes(),
            ({
                let (ls, c) = split_feed(text@.take(i as int));
                &&& cur@ == c
                &&& out@ == prefixed(pb, ls, ls.len() as int)
            }),
        decreases text@.len() - i,
    {
        let b = text[i];
        proof {
            assert(text@.take(i + 1).drop_last() =~= text@.take(i as int));
            assert(text@.take(i + 1).last() == b);
        }
        if b == 0x0A {
            let ghost (ls, c) = split_feed(text@.take(i as int));
            if cur.len() > 0 && cur[cur.len() - 1] == 0x0D {
                cur.pop();
            }
            assert(cur@ =~= strip_cr(c));
            push_str(&mut out, prefix);
            push_bytes(&mut out, &cur);
            out.push(0x0A);
            proof {
                let ls2 = ls.push(strip_cr(c));
                assert(prefixed(pb, ls2, ls2.len() as int - 1) == prefixed(pb, ls, ls.len() as int)) by {
                    lemma_prefixed_push(pb, ls, strip_cr(c), ls.len() as int);
                }
                assert(out@ =~= prefixed(pb, ls2, ls2.len() as int));
            }
            cur = Vec::new();
        } else {
            cur.push(b);
        }
        i += 1;
    }
    proof {
        assert(text@.take(i as int) =~= text@);
    }
    if cur.len() > 0 {
        let ghost (ls, c) = split_feed(text@);
        push_str(&mut out, prefix);
        push_bytes(&mut out, &cur);
        out.push(0x0A);
        proof {
            let ls2 = ls.push(c);
            lemma_prefixed_push(pb, ls, c, ls.len() as int);
            assert(out@ =~= prefixed(pb, ls2, ls2.len() as int));
        }
    }
    out
}

/// Pushing a line leaves the prefix of the first `n` lines alone.
proof fn lemma_prefixed_push(prefix: Seq<u8>, ls: Seq<Seq<u8>>, l: Seq<u8>, n: int)
    requires
        0 <= n <= ls.len(),
    ensures
        prefixed(prefix, ls.push(l), n) == prefixed(prefix, ls, n),
    decreases n,
{
    if n > 0 {
        lemma_prefixed_push(prefix, ls, l, n - 1);
        assert(ls.push(l)[n - 1] == ls[n - 1]);
    }
}

impl ProcTable {
    /// The kernel's `ps`: each line of the `ps` text (at most 512 bytes)
    /// after `vibeOS: ps: `.
    pub fn write_ps(&self) -> (out: Vec<u8>)
        requires
            self.wf(),
        ensures
            ({
                let text = ps_from(self@, 1, 512, Seq::empty());
                out@ == prefixed("vibeOS: ps: ".spec_bytes(), text_lines(text), text_lines(text).len() as int)
            }),
    {
        let text = self.format_ps(512);
        prefix_lines("vibeOS: ps: ", &text)
    }
}

/// The signal a user-mode fault on vector `vec` raises, if any.
pub open spec fn spec_sig_for_vec(vec: u8) -> Option<u32> {
    if vec == crate::vectors::DE || vec == crate::vectors::MF || vec == crate::vectors::XF {
        Some(SIGFPE)
    } else if vec == crate::vectors::UD {
        Some(SIGILL)
    } else if vec == crate::vectors::NP || vec == crate::vectors::SS {
        Some(SIGBUS)
    } else if vec == crate::vectors::GP || vec == crate::vectors::PF {
        Some(SIGSEGV)
    } else if vec == crate::vectors::BP {
        Some(SIGTRAP)
    } else {
        None
    }
}

pub fn sig_for_vec(vec: u8) -> (r: Option<u32>)
    ensures
        r == spec_sig_for_vec(vec),
{
    if vec == crate::vectors::DE || vec == crate::vectors::MF || vec == crate::vectors::XF {
        Some(SIGFPE)
    } else if vec == crate::vectors::UD {
        Some(SIGILL)
    } else if vec == crate::vectors::NP || vec == crate::vectors::SS {
        Some(SIGBUS)
    } else if vec == crate::vectors::GP || vec == crate::vectors::PF {
        Some(SIGSEGV)
    } else if vec == crate::vectors::BP {
        Some(SIGTRAP)
    } else {
        None
    }
}

} // verus!
