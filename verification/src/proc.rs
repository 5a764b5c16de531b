//! Process types: pid, fd table, wait status, early signals.
//!
//! The kernel's process table, fork and exec live in the binary.

use vstd::prelude::*;

verus! {

pub const MAX_PROCS: usize = 16;
pub const MAX_FDS: usize = 16;
pub const INIT_PID: u32 = 1;
pub const NAME_MAX: usize = 16;
/// Bytes in a path.
pub const MAX_PATH: usize = 256;

/// Linux open flag `O_CLOEXEC`.
pub const O_CLOEXEC: u32 = 0x80000;
/// Linux `FD_CLOEXEC`. Distinct from open `O_CLOEXEC`.
pub const FD_CLOEXEC: u32 = 1;

pub const WNOHANG: u64 = 1;

pub const SIGHUP: u32 = 1;
pub const SIGINT: u32 = 2;
pub const SIGQUIT: u32 = 3;
pub const SIGILL: u32 = 4;
pub const SIGTRAP: u32 = 5;
pub const SIGABRT: u32 = 6;
pub const SIGBUS: u32 = 7;
pub const SIGFPE: u32 = 8;
pub const SIGKILL: u32 = 9;
pub const SIGUSR1: u32 = 10;
pub const SIGSEGV: u32 = 11;
pub const SIGUSR2: u32 = 12;
pub const SIGPIPE: u32 = 13;
pub const SIGALRM: u32 = 14;
pub const SIGTERM: u32 = 15;
pub const SIGCHLD: u32 = 17;
pub const SIGCONT: u32 = 18;
pub const SIGSTOP: u32 = 19;
pub const SIGTSTP: u32 = 20;

#[derive(Clone, Copy, Debug, PartialEq, Eq, Structural)]
pub enum ProcState {
    Unused,
    Live,
    Stopped,
    Zombie,
}

impl ProcState {
    pub fn name(self) -> (r: &'static str)
        ensures
            r@ == (match self {
                ProcState::Unused => "unused"@,
                ProcState::Live => "run"@,
                ProcState::Stopped => "stop"@,
                ProcState::Zombie => "zombie"@,
            }),
    {
        match self {
            ProcState::Unused => "unused",
            ProcState::Live => "run",
            ProcState::Stopped => "stop",
            ProcState::Zombie => "zombie",
        }
    }
}

#[derive(Clone, Copy, Debug, PartialEq, Eq, Structural)]
pub struct Creds {
    pub uid: u32,
    pub gid: u32,
    pub euid: u32,
    pub egid: u32,
}

impl Creds {
    /// All ids zero.
    pub fn root() -> (r: Self)
        ensures
            r.uid == 0 && r.gid == 0 && r.euid == 0 && r.egid == 0,
    {
        Creds { uid: 0, gid: 0, euid: 0, egid: 0 }
    }
}

#[derive(Clone, Copy, Debug, PartialEq, Eq, Structural)]
pub enum FdKind {
    Empty,
    Console,
    File(u16),
}

#[derive(Clone, Copy, Debug, PartialEq, Eq, Structural)]
pub struct Fd {
    pub kind: FdKind,
    pub flags: u32,
}

/// The closed slot.
pub open spec fn fd_empty() -> Fd {
    Fd { kind: FdKind::Empty, flags: 0 }
}

impl Fd {
    pub open spec fn spec_is_open(self) -> bool {
        !(self.kind is Empty)
    }

    pub open spec fn spec_cloexec(self) -> bool {
        self.flags & FD_CLOEXEC != 0
    }

    /// The closed slot.
    pub fn empty() -> (r: Self)
        ensures
            r == fd_empty(),
    {
        Fd { kind: FdKind::Empty, flags: 0 }
    }

    #[verifier::when_used_as_spec(spec_is_open)]
    pub fn is_open(self) -> (r: bool)
        ensures
            r == self.spec_is_open(),
    {
        match self.kind {
            FdKind::Empty => false,
            FdKind::Console | FdKind::File(_) => true,
        }
    }

    #[verifier::when_used_as_spec(spec_cloexec)]
    pub fn cloexec(self) -> (r: bool)
        ensures
            r == self.spec_cloexec(),
    {
        self.flags & FD_CLOEXEC != 0
    }
}

/// `s` with `FD_CLOEXEC` cleared.
pub open spec fn without_cloexec(s: Fd) -> Fd {
    Fd { kind: s.kind, flags: s.flags & !FD_CLOEXEC }
}

/// The lowest closed slot of `s`, if any.
pub open spec fn lowest_free(s: Seq<Fd>) -> Option<int> {
    if exists|i: int| 0 <= i < s.len() && !(#[trigger] s[i]).spec_is_open() {
        Some(choose|i: int| 0 <= i < s.len() && !(#[trigger] s[i]).spec_is_open()
            && forall|j: int| 0 <= j < i ==> (#[trigger] s[j]).spec_is_open())
    } else {
        None
    }
}

#[derive(Clone, Copy, Debug)]
pub struct FdTable {
    slots: [Fd; MAX_FDS],
}

impl View for FdTable {
    type V = Seq<Fd>;

    /// Every slot, by descriptor number.
    closed spec fn view(&self) -> Seq<Fd> {
        self.slots@
    }
}

impl FdTable {
    /// Every descriptor table, whatever was done to it, has exactly
    /// `MAX_FDS` slots.
    pub proof fn lemma_len(self)
        ensures
            self@.len() == MAX_FDS,
    {
    }

    /// All slots closed.
    pub fn empty() -> (r: Self)
        ensures
            r@.len() == MAX_FDS,
            forall|i: int| 0 <= i < MAX_FDS ==> r@[i] == fd_empty(),
    {
        FdTable { slots: [Fd { kind: FdKind::Empty, flags: 0 }; MAX_FDS] }
    }

    /// Descriptors 0, 1 and 2 on the console, the rest closed.
    pub fn stdio() -> (r: Self)
        ensures
            r@.len() == MAX_FDS,
            forall|i: int| 0 <= i < 3 ==> r@[i] == (Fd { kind: FdKind::Console, flags: 0 }),
            forall|i: int| 3 <= i < MAX_FDS ==> r@[i] == fd_empty(),
    {
        let mut t = Self::empty();
        t.slots[0] = Fd { kind: FdKind::Console, flags: 0 };
        t.slots[1] = Fd { kind: FdKind::Console, flags: 0 };
        t.slots[2] = Fd { kind: FdKind::Console, flags: 0 };
        t
    }

    /// The open slot `fd`, if any.
    pub fn get(&self, fd: u32) -> (r: Option<Fd>)
        ensures
            r == (if fd < MAX_FDS && self@[fd as int].spec_is_open() { Some(self@[fd as int]) } else { None }),
    {
        let i = fd as usize;
        if i >= MAX_FDS || !self.slots[i].is_open() {
            None
        } else {
            Some(self.slots[i])
        }
    }

    /// Overwrite slot `fd`. `Err` if out of range.
    pub fn set(&mut self, fd: u32, slot: Fd) -> (r: Result<(), ()>)
        ensures
            fd < MAX_FDS ==> r is Ok && final(self)@ == old(self)@.update(fd as int, slot),
            fd >= MAX_FDS ==> r is Err && final(self)@ == old(self)@,
    {
        let i = fd as usize;
        if i >= MAX_FDS {
            return Err(());
        }
        self.slots[i] = slot;
        Ok(())
    }

    /// Put `slot` in the lowest closed descriptor. `Err` when all are open.
    pub fn allocate(&mut self, slot: Fd) -> (r: Result<u32, ()>)
        ensures
            lowest_free(old(self)@) is None ==> r is Err && final(self)@ == old(self)@,
            lowest_free(old(self)@) matches Some(k) ==> r == Ok::<u32, ()>(k as u32)
                && final(self)@ == old(self)@.update(k, slot),
    {
        let mut i: u32 = 0;
        while i < MAX_FDS as u32
            invariant
                i <= MAX_FDS,
                self@ == old(self)@,
                forall|j: int| 0 <= j < i ==> (#[trigger] self@[j]).spec_is_open(),
            decreases MAX_FDS - i,
        {
            if !self.slots[i as usize].is_open() {
                proof {
                    lemma_lowest_free_is(self@, i as int);
                }
                self.slots[i as usize] = slot;
                return Ok(i);
            }
            i += 1;
        }
        assert(lowest_free(self@) is None);
        Err(())
    }

    /// Close and return the old slot. `None` if not open.
    pub fn close(&mut self, fd: u32) -> (r: Option<Fd>)
        ensures
            fd < MAX_FDS && old(self)@[fd as int].spec_is_open() ==> r == Some(old(self)@[fd as int])
                && final(self)@ == old(self)@.update(fd as int, fd_empty()),
            !(fd < MAX_FDS && old(self)@[fd as int].spec_is_open()) ==> r is None
                && final(self)@ == old(self)@,
    {
        let i = fd as usize;
        if i >= MAX_FDS || !self.slots[i].is_open() {
            return None;
        }
        let old_slot = self.slots[i];
        self.slots[i] = Fd { kind: FdKind::Empty, flags: 0 };
        Some(old_slot)
    }

    /// New fd for the same file, CLOEXEC cleared (Linux `dup`).
    pub fn dup(&mut self, old_fd: u32) -> (r: Result<u32, ()>)
        ensures
            !(old_fd < MAX_FDS && old(self)@[old_fd as int].spec_is_open()) ==> r is Err
                && final(self)@ == old(self)@,
            old_fd < MAX_FDS && old(self)@[old_fd as int].spec_is_open() ==> {
                let s = without_cloexec(old(self)@[old_fd as int]);
                &&& lowest_free(old(self)@) is None ==> r is Err && final(self)@ == old(self)@
                &&& lowest_free(old(self)@) matches Some(k) ==> r == Ok::<u32, ()>(k as u32)
                    && final(self)@ == old(self)@.update(k, s)
            },
    {
        let s = match self.get(old_fd) {
            Some(s) => s,
            None => return Err(()),
        };
        self.allocate(Fd { kind: s.kind, flags: s.flags & !FD_CLOEXEC })
    }

    /// Linux `dup2`: copy `old` onto `new`, CLOEXEC cleared on `new_fd`.
    /// Returns the slot that occupied `new_fd` (to drop the file).
    pub fn dup2(&mut self, old_fd: u32, new_fd: u32) -> (r: Result<Option<Fd>, ()>)
        ensures
            !(old_fd < MAX_FDS && old(self)@[old_fd as int].spec_is_open()) ==> r is Err
                && final(self)@ == old(self)@,
            old_fd < MAX_FDS && old(self)@[old_fd as int].spec_is_open() && old_fd == new_fd ==> r == Ok::<Option<Fd>, ()>(None)
                && final(self)@ == old(self)@,
            old_fd < MAX_FDS && old(self)@[old_fd as int].spec_is_open() && old_fd != new_fd && new_fd >= MAX_FDS ==> r is Err
                && final(self)@ == old(self)@,
            old_fd < MAX_FDS && old(self)@[old_fd as int].spec_is_open() && old_fd != new_fd && new_fd < MAX_FDS ==> {
                &&& r == Ok::<Option<Fd>, ()>(
                    if old(self)@[new_fd as int].spec_is_open() { Some(old(self)@[new_fd as int]) } else { None })
                &&& final(self)@ == old(self)@.update(new_fd as int, without_cloexec(old(self)@[old_fd as int]))
            },
    {
        if old_fd == new_fd {
            match self.get(old_fd) {
                Some(_) => return Ok(None),
                None => return Err(()),
            }
        }
        let s = match self.get(old_fd) {
            Some(s) => s,
            None => return Err(()),
        };
        if new_fd as usize >= MAX_FDS {
            return Err(());
        }
        let displaced = self.close(new_fd);
        self.slots[new_fd as usize] = Fd { kind: s.kind, flags: s.flags & !FD_CLOEXEC };
        assert(self@ =~= old(self)@.update(new_fd as int, without_cloexec(old(self)@[old_fd as int])));
        Ok(displaced)
    }

    /// Drop CLOEXEC fds on exec. Returns, by descriptor, the file ids of
    /// the closed file slots for the caller to close in the file table.
    pub fn apply_cloexec(&mut self) -> (r: [Option<u16>; MAX_FDS])
        ensures
            forall|i: int| 0 <= i < MAX_FDS ==> {
                let s = #[trigger] old(self)@[i];
                &&& final(self)@[i] == (if s.spec_is_open() && s.spec_cloexec() { fd_empty() } else { s })
                &&& r@[i] == (if s.spec_is_open() && s.spec_cloexec() {
                    match s.kind {
                        FdKind::File(fid) => Some(fid),
                        _ => None,
                    }
                } else {
                    None
                })
            },
            final(self)@.len() == MAX_FDS,
    {
        let mut gone: [Option<u16>; MAX_FDS] = [None; MAX_FDS];
        let mut i: usize = 0;
        while i < MAX_FDS
            invariant
                i <= MAX_FDS,
                self@.len() == MAX_FDS,
                forall|j: int| i <= j < MAX_FDS ==> #[trigger] self@[j] == old(self)@[j],
                forall|j: int| i <= j < MAX_FDS ==> (#[trigger] gone@[j]) is None,
                forall|j: int| 0 <= j < i ==> {
                    let s = #[trigger] old(self)@[j];
                    &&& self@[j] == (if s.spec_is_open() && s.spec_cloexec() { fd_empty() } else { s })
                    &&& gone@[j] == (if s.spec_is_open() && s.spec_cloexec() {
                        match s.kind {
                            FdKind::File(fid) => Some(fid),
                            _ => None,
                        }
                    } else {
                        None
                    })
                },
            decreases MAX_FDS - i,
        {
            if self.slots[i].is_open() && self.slots[i].cloexec() {
                if let FdKind::File(fid) = self.slots[i].kind {
                    gone[i] = Some(fid);
                }
                self.slots[i] = Fd { kind: FdKind::Empty, flags: 0 };
            }
            i += 1;
        }
        gone
    }

    /// Every slot, by descriptor number.
    pub fn iter(&self) -> (r: [Fd; MAX_FDS])
        ensures
            r@ == self@,
    {
        self.slots
    }
}

proof fn lemma_lowest_free_is(s: Seq<Fd>, k: int)
    requires
        0 <= k < s.len(),
        !s[k].spec_is_open(),
        forall|j: int| 0 <= j < k ==> (#[trigger] s[j]).spec_is_open(),
    ensures
        lowest_free(s) == Some(k),
{
    let c = choose|i: int| 0 <= i < s.len() && !(#[trigger] s[i]).spec_is_open()
        && forall|j: int| 0 <= j < i ==> (#[trigger] s[j]).spec_is_open();
    if c < k {
    } else if c > k {
        assert(s[k].spec_is_open());
    }
}

#[derive(Clone, Copy, Debug, PartialEq, Eq)]
pub struct Cwd {
    pub buf: [u8; MAX_PATH],
    pub len: u8,
}

impl Cwd {
    /// `/`.
    pub fn root() -> (r: Self)
        ensures
            r.len == 1,
            r.buf@[0] == 0x2F,
    {
        let mut buf = [0u8; MAX_PATH];
        buf[0] = 0x2F;
        Cwd { buf, len: 1 }
    }

    pub fn as_bytes(&self) -> (r: &[u8])
        ensures
            r@ == self.buf@.take(self.len as int),
    {
        let s = self.buf.as_slice();
        let r = &s[0..self.len as usize];
        assert(r@ =~= self.buf@.take(self.len as int));
        r
    }
}

/// The masks and shifts of the wait-status word as arithmetic.
proof fn lemma_status_bits(x: u32)
    by (bit_vector)
    ensures
        (x & 0xff) << 8 == (x % 256) * 256,
        x & 0x7f == x % 128,
        ((x & 0xff) << 8) | 0x7f == (x % 256) * 256 + 0x7f,
        (x >> 8) & 0xff == x / 256 % 256,
        x & 0xff == x % 256,
{
}

/// Linux wait(2) status of a normal exit with `code`.
pub fn wait_exited(code: u32) -> (r: u32)
    ensures
        r == (code % 256) * 256,
{
    proof {
        lemma_status_bits(code);
    }
    (code & 0xff) << 8
}

/// Linux wait(2) status of a death by `sig`.
pub fn wait_signaled(sig: u32) -> (r: u32)
    ensures
        r == sig % 128,
{
    proof {
        lemma_status_bits(sig);
    }
    sig & 0x7f
}

/// Linux wait(2) status of a stop by `sig`.
pub fn wait_stopped(sig: u32) -> (r: u32)
    ensures
        r == (sig % 256) * 256 + 0x7f,
{
    proof {
        lemma_status_bits(sig);
    }
    ((sig & 0xff) << 8) | 0x7f
}

pub fn wifexited(st: u32) -> (r: bool)
    ensures
        r == (st % 128 == 0),
{
    proof {
        lemma_status_bits(st);
    }
    st & 0x7f == 0
}

pub fn wexitstatus(st: u32) -> (r: u32)
    ensures
        r == st / 256 % 256,
{
    proof {
        lemma_status_bits(st);
    }
    (st >> 8) & 0xff
}

pub fn wifsignaled(st: u32) -> (r: bool)
    ensures
        r == (st % 128 != 0 && st % 128 != 0x7f),
{
    proof {
        lemma_status_bits(st);
    }
    let s = st & 0x7f;
    s != 0 && s != 0x7f
}

pub fn wtermsig(st: u32) -> (r: u32)
    ensures
        r == st % 128,
{
    proof {
        lemma_status_bits(st);
    }
    st & 0x7f
}

pub fn wifstopped(st: u32) -> (r: bool)
    ensures
        r == (st % 256 == 0x7f),
{
    proof {
        lemma_status_bits(st);
    }
    st & 0xff == 0x7f
}

#[derive(Clone, Copy, Debug, PartialEq, Eq, Structural)]
pub enum SigAct {
    Term,
    Ign,
    Stop,
    Cont,
}

/// What a signal does when nothing handles it.
pub open spec fn spec_default_action(sig: u32) -> SigAct {
    if sig == SIGCHLD {
        SigAct::Ign
    } else if sig == SIGCONT {
        SigAct::Cont
    } else if sig == SIGSTOP || sig == SIGTSTP {
        SigAct::Stop
    } else {
        SigAct::Term
    }
}

/// The default actions by signal: the job-control stop signals SIGSTOP
/// and SIGTSTP stop the process and are the only ones that do, SIGCONT
/// continues it, SIGCHLD is ignored, and SIGKILL and the usual fatal
/// signals (hangup, interrupt, quit, segfault, broken pipe, terminate,
/// the two user signals) terminate it.
pub proof fn lemma_default_actions()
    ensures
        spec_default_action(SIGSTOP) == SigAct::Stop,
        spec_default_action(SIGTSTP) == SigAct::Stop,
        forall|sig: u32| spec_default_action(sig) == SigAct::Stop <==> (sig == SIGSTOP || sig == SIGTSTP),
        forall|sig: u32| spec_default_action(sig) == SigAct::Cont <==> sig == SIGCONT,
        forall|sig: u32| spec_default_action(sig) == SigAct::Ign <==> sig == SIGCHLD,
        spec_default_action(SIGKILL) == SigAct::Term,
        spec_default_action(SIGHUP) == SigAct::Term,
        spec_default_action(SIGINT) == SigAct::Term,
        spec_default_action(SIGQUIT) == SigAct::Term,
        spec_default_action(SIGSEGV) == SigAct::Term,
        spec_default_action(SIGPIPE) == SigAct::Term,
        spec_default_action(SIGTERM) == SigAct::Term,
        spec_default_action(SIGUSR1) == SigAct::Term,
        spec_default_action(SIGUSR2) == SigAct::Term,
{
}

pub fn default_action(sig: u32) -> (r: SigAct)
    ensures
        r == spec_default_action(sig),
{
    match sig {
        SIGCHLD => SigAct::Ign,
        SIGCONT => SigAct::Cont,
        SIGSTOP | SIGTSTP => SigAct::Stop,
        SIGKILL => SigAct::Term,
        _ => SigAct::Term,
    }
}

/// Uncatchable even when handlers exist.
pub fn forced(sig: u32) -> (r: bool)
    ensures
        r == (sig == SIGKILL || sig == SIGSTOP),
{
    sig == SIGKILL || sig == SIGSTOP
}

/// The short name of a signal, `?` for an unknown number.
pub open spec fn spec_sig_name(sig: u32) -> Seq<char> {
    if sig == SIGHUP { "HUP"@ }
    else if sig == SIGINT { "INT"@ }
    else if sig == SIGQUIT { "QUIT"@ }
    else if sig == SIGILL { "ILL"@ }
    else if sig == SIGTRAP { "TRAP"@ }
    else if sig == SIGABRT { "ABRT"@ }
    else if sig == SIGBUS { "BUS"@ }
    else if sig == SIGFPE { "FPE"@ }
    else if sig == SIGKILL { "KILL"@ }
    else if sig == SIGUSR1 { "USR1"@ }
    else if sig == SIGSEGV { "SEGV"@ }
    else if sig == SIGUSR2 { "USR2"@ }
    else if sig == SIGPIPE { "PIPE"@ }
    else if sig == SIGALRM { "ALRM"@ }
    else if sig == SIGTERM { "TERM"@ }
    else if sig == SIGCHLD { "CHLD"@ }
    else if sig == SIGCONT { "CONT"@ }
    else if sig == SIGSTOP { "STOP"@ }
    else if sig == SIGTSTP { "TSTP"@ }
    else { "?"@ }
}

pub fn sig_name(sig: u32) -> (r: &'static str)
    ensures
        r@ == spec_sig_name(sig),
{
    match sig {
        SIGHUP => "HUP",
        SIGINT => "INT",
        SIGQUIT => "QUIT",
        SIGILL => "ILL",
        SIGTRAP => "TRAP",
        SIGABRT => "ABRT",
        SIGBUS => "BUS",
        SIGFPE => "FPE",
        SIGKILL => "KILL",
        SIGUSR1 => "USR1",
        SIGSEGV => "SEGV",
        SIGUSR2 => "USR2",
        SIGPIPE => "PIPE",
        SIGALRM => "ALRM",
        SIGTERM => "TERM",
        SIGCHLD => "CHLD",
        SIGCONT => "CONT",
        SIGSTOP => "STOP",
        SIGTSTP => "TSTP",
        _ => "?",
    }
}

/// Open `O_CLOEXEC` becomes per-fd `FD_CLOEXEC`.
pub fn fd_flags_from_open(oflags: u32) -> (r: u32)
    ensures
        r == (if oflags & O_CLOEXEC != 0 { FD_CLOEXEC } else { 0 }),
{
    if oflags & O_CLOEXEC != 0 {
        FD_CLOEXEC
    } else {
        0
    }
}

} // verus!
