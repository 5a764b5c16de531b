//! Thread ids, TCB, and the context-switch frame.
//!
//! Stack mapping and the switch itself belong to the kernel binary; this
//! half holds the types and the frame rules. The scheduler's decisions on
//! the TCB table are in `thread_init`.

use vstd::prelude::*;
use crate::time::Instant;

verus! {

/// Global TCB table size.
pub const MAX_THREADS: usize = 64;

/// x86 reserved-1 bit. `prepare_thread` seeds this and leaves IF clear.
pub const RFLAGS_RESERVED1: u64 = 0x2;
/// `RFLAGS.IF`. `schedule` ORs this on resume when `irq_nest == 0`.
pub const RFLAGS_IF: u64 = 0x200;

/// The raw value that marks "no thread".
pub const THREAD_NONE_RAW: u32 = 0xFFFF_FFFF;

/// Slot index in the global TCB table. 0 is the bootstrap thread.
#[derive(Clone, Copy, Debug, PartialEq, Eq, Structural, PartialOrd, Ord, Hash)]
pub struct ThreadId(pub u32);

impl ThreadId {
    /// The bootstrap thread, slot 0.
    pub fn bootstrap() -> (r: Self)
        ensures
            r.0 == 0,
    {
        ThreadId(0)
    }

    /// Empty idle / ready-head slot. Not a table index.
    pub fn none() -> (r: Self)
        ensures
            r.0 == THREAD_NONE_RAW,
    {
        ThreadId(THREAD_NONE_RAW)
    }

    /// Whether this id is the "no thread" marker.
    pub open spec fn spec_is_none(self) -> bool {
        self.0 == THREAD_NONE_RAW
    }

    pub fn raw(self) -> (r: u32)
        ensures
            r == self.0,
    {
        self.0
    }

    #[verifier::when_used_as_spec(spec_is_none)]
    pub fn is_none(self) -> (r: bool)
        ensures
            r == self.spec_is_none(),
    {
        self.0 == THREAD_NONE_RAW
    }
}

/// Placement for per-CPU queues.
#[derive(Clone, Copy, Debug, PartialEq, Eq, Structural)]
pub enum CpuAffinity {
    Any,
    Pinned(u32),
}

impl CpuAffinity {
    pub fn name(self) -> (r: &'static str)
        ensures
            r@ == (match self {
                CpuAffinity::Any => "any"@,
                CpuAffinity::Pinned(_) => "pinned"@,
            }),
    {
        match self {
            CpuAffinity::Any => "any",
            CpuAffinity::Pinned(_) => "pinned",
        }
    }
}

#[derive(Clone, Copy, Debug, PartialEq, Eq, Structural)]
pub enum ThreadState {
    Ready,
    Running,
    Sleeping { deadline: Instant },
    /// Waiting on a wait queue.
    Blocked,
    Dead,
}

impl ThreadState {
    pub fn name(self) -> (r: &'static str)
        ensures
            r@ == (match self {
                ThreadState::Ready => "ready"@,
                ThreadState::Running => "running"@,
                ThreadState::Sleeping { .. } => "sleeping"@,
                ThreadState::Blocked => "blocked"@,
                ThreadState::Dead => "dead"@,
            }),
    {
        match self {
            ThreadState::Ready => "ready",
            ThreadState::Running => "running",
            ThreadState::Sleeping { .. } => "sleeping",
            ThreadState::Blocked => "blocked",
            ThreadState::Dead => "dead",
        }
    }
}

/// Guarded kernel stack identity (default 4 x 4 KiB + unmapped guard).
/// Mapping is the kernel's; this is only the VA.
#[derive(Clone, Copy, Debug)]
pub struct KernelStack {
    pub guard: u64,
    pub pages: usize,
}

/// Global TCB. `next`/`prev` are the run-queue links.
pub struct Tcb {
    pub id: ThreadId,
    pub name: &'static str,
    pub state: ThreadState,
    pub stack: Option<KernelStack>,
    pub context: CpuContext,
    /// Address of the thread's entry function.
    pub entry: u64,
    /// Intrusive ready-list link.
    pub next: Option<ThreadId>,
    pub prev: Option<ThreadId>,
    pub affinity: CpuAffinity,
    pub cpu: u32,
    /// `InterruptGuard` depth frozen while this thread is off-CPU.
    pub irq_nest: u32,
    pub switches: u64,
    /// TSC cycles accounted while this thread was current.
    pub run_tsc: u64,
}

/// Callee-saved GPRs, rflags, rsp, return address. No XMM: soft-float.
#[derive(Clone, Copy, Debug)]
pub struct CpuContext {
    pub rbx: u64,
    pub rbp: u64,
    pub r12: u64,
    pub r13: u64,
    pub r14: u64,
    pub r15: u64,
    pub rflags: u64,
    pub rsp: u64,
    pub rip: u64,
}

/// Byte offsets of the `CpuContext` fields, as the switch code uses them.
pub const CTX_RBX: usize = 0;
pub const CTX_RBP: usize = 8;
pub const CTX_R12: usize = 16;
pub const CTX_R13: usize = 24;
pub const CTX_R14: usize = 32;
pub const CTX_R15: usize = 40;
pub const CTX_RFLAGS: usize = 48;
pub const CTX_RSP: usize = 56;
pub const CTX_RIP: usize = 64;
/// Size of a `CpuContext`: nine quadwords.
pub const CTX_SIZE: usize = 72;

impl CpuContext {
    pub open spec fn is_empty_frame(self) -> bool {
        &&& self.rbx == 0
        &&& self.rbp == 0
        &&& self.r12 == 0
        &&& self.r13 == 0
        &&& self.r14 == 0
        &&& self.r15 == 0
        &&& self.rflags == RFLAGS_RESERVED1
        &&& self.rsp == 0
        &&& self.rip == 0
    }

    /// All registers zero, rflags with only the reserved bit (IF clear).
    pub fn empty() -> (r: Self)
        ensures
            r.is_empty_frame(),
    {
        CpuContext {
            rbx: 0,
            rbp: 0,
            r12: 0,
            r13: 0,
            r14: 0,
            r15: 0,
            rflags: RFLAGS_RESERVED1,
            rsp: 0,
            rip: 0,
        }
    }
}

/// SysV: `rsp % 16 == 8` on function entry. `stack_top` must be 16-aligned.
/// IF is off (`rflags = 0x2`); `schedule` applies [`apply_if_on_resume`].
pub fn prepare_thread(ctx: &mut CpuContext, stack_top: u64, entry: u64)
    requires
        stack_top % 16 == 0,
        stack_top > 0,
    ensures
        final(ctx).rbx == 0,
        final(ctx).rbp == 0,
        final(ctx).r12 == 0,
        final(ctx).r13 == 0,
        final(ctx).r14 == 0,
        final(ctx).r15 == 0,
        final(ctx).rflags == RFLAGS_RESERVED1,
        final(ctx).rip == entry,
        final(ctx).rsp == stack_top - 8,
        final(ctx).rsp % 16 == 8,
{
    *ctx = CpuContext::empty();
    ctx.rip = entry;
    ctx.rsp = stack_top - 8;
}

/// IF-on-resume policy: a thread that resumes with no interrupt guard
/// held runs with IF set; a nested guard keeps IF clear.
pub fn apply_if_on_resume(rflags: &mut u64, irq_nest: u32)
    ensures
        irq_nest == 0 ==> *final(rflags) == *old(rflags) | RFLAGS_IF,
        irq_nest != 0 ==> *final(rflags) == *old(rflags) & !RFLAGS_IF,
{
    if irq_nest == 0 {
        *rflags = *rflags | RFLAGS_IF;
    } else {
        *rflags = *rflags & !RFLAGS_IF;
    }
}

} // verus!
