//! Syscall numbers, errno, and dispatch metadata. Handlers live in the
//! kernel binary; this half says which arguments are user pointers and
//! how a bad one is answered.

use vstd::prelude::*;

verus! {

/// Linux `EPERM`.
pub const EPERM: i32 = 1;
/// Linux `ENOENT`.
pub const ENOENT: i32 = 2;
/// Linux `ESRCH`.
pub const ESRCH: i32 = 3;
/// Linux `ECHILD`.
pub const ECHILD: i32 = 10;
/// Linux `EAGAIN`.
pub const EAGAIN: i32 = 11;
/// Linux `ENOMEM`.
pub const ENOMEM: i32 = 12;
/// Linux `EACCES`.
pub const EACCES: i32 = 13;
/// Linux `EFAULT`.
pub const EFAULT: i32 = 14;
/// Linux `EBADF`.
pub const EBADF: i32 = 9;
/// Linux `EBUSY`.
pub const EBUSY: i32 = 16;
/// Linux `EEXIST`.
pub const EEXIST: i32 = 17;
/// Linux `ENOTDIR`.
pub const ENOTDIR: i32 = 20;
/// Linux `EISDIR`.
pub const EISDIR: i32 = 21;
/// Linux `EINVAL`.
pub const EINVAL: i32 = 22;
/// Linux `EMFILE`.
pub const EMFILE: i32 = 24;
/// Linux `EFBIG`.
pub const EFBIG: i32 = 27;
/// Linux `ENOSYS`.
pub const ENOSYS: i32 = 38;
/// Linux `ENAMETOOLONG`.
pub const ENAMETOOLONG: i32 = 36;
/// Linux `EIO`.
pub const EIO: i32 = 5;
/// Linux `E2BIG`.
pub const E2BIG: i32 = 7;
/// Linux `ENOEXEC`.
pub const ENOEXEC: i32 = 8;

pub const SYS_READ: u64 = 0;
pub const SYS_WRITE: u64 = 1;
pub const SYS_OPEN: u64 = 2;
pub const SYS_CLOSE: u64 = 3;
pub const SYS_LSEEK: u64 = 8;
pub const SYS_DUP: u64 = 32;
pub const SYS_DUP2: u64 = 33;
pub const SYS_GETPID: u64 = 39;
pub const SYS_FORK: u64 = 57;
pub const SYS_EXECVE: u64 = 59;
pub const SYS_EXIT: u64 = 60;
pub const SYS_WAIT4: u64 = 61;
pub const SYS_KILL: u64 = 62;
pub const SYS_FCNTL: u64 = 72;
pub const SYS_GETPPID: u64 = 110;
pub const SYS_SCHED_YIELD: u64 = 24;
/// vibeOS-specific process listing. `rdi` buf, `rsi` len.
pub const SYS_PSINFO: u64 = 500;

pub const F_GETFD: u64 = 1;
pub const F_SETFD: u64 = 2;

/// The negated errno a syscall returns.
pub fn neg(errno: i32) -> (r: i64)
    ensures
        r == -(errno as int),
{
    -(errno as i64)
}

/// Why a user pointer range was refused.
#[derive(Clone, Copy, Debug, PartialEq, Eq, Structural)]
pub enum UserMemError {
    NonCanonical,
    Kernel,
    Overflow,
    Unmapped,
    NullGuard,
}

impl UserMemError {
    /// Every refusal reads back as `EFAULT`.
    pub fn errno(self) -> (r: i32)
        ensures
            r == EFAULT,
    {
        EFAULT
    }
}

/// Saved frame on the kernel stack, in the order the entry stub pushes
/// it, low address first.
#[derive(Clone, Copy, Debug)]
pub struct SyscallFrame {
    pub user_rsp: u64,
    pub nr: u64,
    pub rip: u64,
    pub arg2: u64,
    pub rbx: u64,
    pub rbp: u64,
    pub arg1: u64,
    pub arg0: u64,
    pub arg4: u64,
    pub arg5: u64,
    pub arg3: u64,
    pub r11: u64,
    pub r12: u64,
    pub r13: u64,
    pub r14: u64,
    pub r15: u64,
}

impl SyscallFrame {
    /// The six arguments, in order.
    pub fn args(self) -> (r: [u64; 6])
        ensures
            r@ == seq![self.arg0, self.arg1, self.arg2, self.arg3, self.arg4, self.arg5],
    {
        let r = [self.arg0, self.arg1, self.arg2, self.arg3, self.arg4, self.arg5];
        assert(r@ =~= seq![self.arg0, self.arg1, self.arg2, self.arg3, self.arg4, self.arg5]);
        r
    }
}

/// A ring-3 register frame: the 21 words of Linux's x86_64
/// `user_regs_struct`, in its order, low address first. The last five
/// are the hardware `iretq` frame.
#[derive(Clone, Copy, Debug, Default, PartialEq, Eq, Structural)]
pub struct UserFrame {
    pub r15: u64,
    pub r14: u64,
    pub r13: u64,
    pub r12: u64,
    pub rbp: u64,
    pub rbx: u64,
    pub r11: u64,
    pub r10: u64,
    pub r9: u64,
    pub r8: u64,
    pub rax: u64,
    pub rcx: u64,
    pub rdx: u64,
    pub rsi: u64,
    pub rdi: u64,
    pub orig_rax: u64,
    pub rip: u64,
    pub cs: u64,
    pub rflags: u64,
    pub rsp: u64,
    pub ss: u64,
}

/// Full user GPR set for fork child / exec / iret-into-user.
#[derive(Clone, Copy, Debug)]
pub struct UserRegs {
    pub rax: u64,
    pub rbx: u64,
    pub rcx: u64,
    pub rdx: u64,
    pub rsi: u64,
    pub rdi: u64,
    pub rbp: u64,
    pub r8: u64,
    pub r9: u64,
    pub r10: u64,
    pub r11: u64,
    pub r12: u64,
    pub r13: u64,
    pub r14: u64,
    pub r15: u64,
    pub rip: u64,
    pub rsp: u64,
    pub rflags: u64,
    pub fs_base: u64,
}

impl UserRegs {
    /// Every register zero.
    pub fn empty() -> (r: Self)
        ensures
            r.rax == 0 && r.rbx == 0 && r.rcx == 0 && r.rdx == 0 && r.rsi == 0 && r.rdi == 0,
            r.rbp == 0 && r.r8 == 0 && r.r9 == 0 && r.r10 == 0 && r.r11 == 0 && r.r12 == 0,
            r.r13 == 0 && r.r14 == 0 && r.r15 == 0 && r.rip == 0 && r.rsp == 0 && r.rflags == 0,
            r.fs_base == 0,
    {
        UserRegs {
            rax: 0,
            rbx: 0,
            rcx: 0,
            rdx: 0,
            rsi: 0,
            rdi: 0,
            rbp: 0,
            r8: 0,
            r9: 0,
            r10: 0,
            r11: 0,
            r12: 0,
            r13: 0,
            r14: 0,
            r15: 0,
            rip: 0,
            rsp: 0,
            rflags: 0,
            fs_base: 0,
        }
    }

    /// The user registers a `syscall` left in `f`, with `retval` in rax.
    /// `syscall` put the return rip in rcx and rflags in r11.
    pub fn from_syscall(f: &SyscallFrame, retval: u64) -> (r: Self)
        ensures
            r.rax == retval,
            r.rbx == f.rbx,
            r.rcx == f.rip,
            r.rdx == f.arg2,
            r.rsi == f.arg1,
            r.rdi == f.arg0,
            r.rbp == f.rbp,
            r.r8 == f.arg4,
            r.r9 == f.arg5,
            r.r10 == f.arg3,
            r.r11 == f.r11,
            r.r12 == f.r12,
            r.r13 == f.r13,
            r.r14 == f.r14,
            r.r15 == f.r15,
            r.rip == f.rip,
            r.rsp == f.user_rsp,
            r.rflags == f.r11,
            r.fs_base == 0,
    {
        UserRegs {
            rax: retval,
            rbx: f.rbx,
            rcx: f.rip,
            rdx: f.arg2,
            rsi: f.arg1,
            rdi: f.arg0,
            rbp: f.rbp,
            r8: f.arg4,
            r9: f.arg5,
            r10: f.arg3,
            r11: f.r11,
            r12: f.r12,
            r13: f.r13,
            r14: f.r14,
            r15: f.r15,
            rip: f.rip,
            rsp: f.user_rsp,
            rflags: f.r11,
            fs_base: 0,
        }
    }

    /// Write these registers back into `f` for the `sysret` path. The
    /// number slot is left alone.
    pub fn apply_to_syscall(self, f: &mut SyscallFrame)
        ensures
            final(f).user_rsp == self.rsp,
            final(f).nr == old(f).nr,
            final(f).rip == self.rip,
            final(f).arg2 == self.rdx,
            final(f).rbx == self.rbx,
            final(f).rbp == self.rbp,
            final(f).arg1 == self.rsi,
            final(f).arg0 == self.rdi,
            final(f).arg4 == self.r8,
            final(f).arg5 == self.r9,
            final(f).arg3 == self.r10,
            final(f).r11 == self.rflags,
            final(f).r12 == self.r12,
            final(f).r13 == self.r13,
            final(f).r14 == self.r14,
            final(f).r15 == self.r15,
    {
        f.user_rsp = self.rsp;
        f.rip = self.rip;
        f.arg2 = self.rdx;
        f.rbx = self.rbx;
        f.rbp = self.rbp;
        f.arg1 = self.rsi;
        f.arg0 = self.rdi;
        f.arg4 = self.r8;
        f.arg5 = self.r9;
        f.arg3 = self.r10;
        f.r11 = self.rflags;
        f.r12 = self.r12;
        f.r13 = self.r13;
        f.r14 = self.r14;
        f.r15 = self.r15;
    }
}

/// Per-entry arity and which args are user pointers.
#[derive(Clone, Copy, Debug, PartialEq, Eq)]
pub struct SyscallInfo {
    pub name: &'static str,
    pub nr: u64,
    pub arity: u8,
    /// Bit i set means arg i is a user pointer.
    pub ptr_mask: u8,
    /// Index of the length arg for that pointer, or `0xff` if none.
    pub len_arg: u8,
}

/// The table's entry for `nr`: `(arity, ptr_mask, len_arg)`.
pub open spec fn spec_info(nr: u64) -> Option<(u8, u8, u8)> {
    if nr == SYS_READ { Some((3u8, 2u8, 2u8)) }
    else if nr == SYS_WRITE { Some((3u8, 2u8, 2u8)) }
    else if nr == SYS_OPEN { Some((3u8, 0u8, 0xffu8)) }
    else if nr == SYS_CLOSE { Some((1u8, 0u8, 0xffu8)) }
    else if nr == SYS_LSEEK { Some((3u8, 0u8, 0xffu8)) }
    else if nr == SYS_DUP { Some((1u8, 0u8, 0xffu8)) }
    else if nr == SYS_DUP2 { Some((2u8, 0u8, 0xffu8)) }
    else if nr == SYS_SCHED_YIELD { Some((0u8, 0u8, 0xffu8)) }
    else if nr == SYS_GETPID { Some((0u8, 0u8, 0xffu8)) }
    else if nr == SYS_GETPPID { Some((0u8, 0u8, 0xffu8)) }
    else if nr == SYS_FORK { Some((0u8, 0u8, 0xffu8)) }
    else if nr == SYS_EXECVE { Some((3u8, 0u8, 0xffu8)) }
    else if nr == SYS_EXIT { Some((1u8, 0u8, 0xffu8)) }
    else if nr == SYS_WAIT4 { Some((4u8, 0u8, 0xffu8)) }
    else if nr == SYS_KILL { Some((2u8, 0u8, 0xffu8)) }
    else if nr == SYS_FCNTL { Some((3u8, 0u8, 0xffu8)) }
    else if nr == SYS_PSINFO { Some((2u8, 1u8, 1u8)) }
    else { None }
}

/// Metadata of every supported syscall, one entry per number.
pub fn table() -> (r: Vec<SyscallInfo>)
    ensures
        r@.len() == 17,
        forall|i: int| 0 <= i < r@.len() ==> spec_info((#[trigger] r@[i]).nr)
            == Some((r@[i].arity, r@[i].ptr_mask, r@[i].len_arg)),
        forall|i: int, j: int| 0 <= i < j < r@.len() ==> (#[trigger] r@[i]).nr != (#[trigger] r@[j]).nr,
        forall|i: int| 0 <= i < r@.len() ==> (#[trigger] r@[i]).len_arg == 0xff || r@[i].len_arg < 6,
        forall|i: int| 0 <= i < r@.len() ==> (#[trigger] r@[i]).arity <= 6,
        r@[0].nr == SYS_READ && r@[1].nr == SYS_WRITE && r@[2].nr == SYS_OPEN && r@[3].nr == SYS_CLOSE,
        r@[4].nr == SYS_LSEEK && r@[5].nr == SYS_DUP && r@[6].nr == SYS_DUP2,
        r@[7].nr == SYS_SCHED_YIELD && r@[8].nr == SYS_GETPID && r@[9].nr == SYS_GETPPID,
        r@[10].nr == SYS_FORK && r@[11].nr == SYS_EXECVE && r@[12].nr == SYS_EXIT,
        r@[13].nr == SYS_WAIT4 && r@[14].nr == SYS_KILL && r@[15].nr == SYS_FCNTL && r@[16].nr == SYS_PSINFO,
{
    let r = vec![
        SyscallInfo { name: "read", nr: SYS_READ, arity: 3, ptr_mask: 2, len_arg: 2 },
        SyscallInfo { name: "write", nr: SYS_WRITE, arity: 3, ptr_mask: 2, len_arg: 2 },
        SyscallInfo { name: "open", nr: SYS_OPEN, arity: 3, ptr_mask: 0, len_arg: 0xff },
        SyscallInfo { name: "close", nr: SYS_CLOSE, arity: 1, ptr_mask: 0, len_arg: 0xff },
        SyscallInfo { name: "lseek", nr: SYS_LSEEK, arity: 3, ptr_mask: 0, len_arg: 0xff },
        SyscallInfo { name: "dup", nr: SYS_DUP, arity: 1, ptr_mask: 0, len_arg: 0xff },
        SyscallInfo { name: "dup2", nr: SYS_DUP2, arity: 2, ptr_mask: 0, len_arg: 0xff },
        SyscallInfo { name: "sched_yield", nr: SYS_SCHED_YIELD, arity: 0, ptr_mask: 0, len_arg: 0xff },
        SyscallInfo { name: "getpid", nr: SYS_GETPID, arity: 0, ptr_mask: 0, len_arg: 0xff },
        SyscallInfo { name: "getppid", nr: SYS_GETPPID, arity: 0, ptr_mask: 0, len_arg: 0xff },
        SyscallInfo { name: "fork", nr: SYS_FORK, arity: 0, ptr_mask: 0, len_arg: 0xff },
        SyscallInfo { name: "execve", nr: SYS_EXECVE, arity: 3, ptr_mask: 0, len_arg: 0xff },
        SyscallInfo { name: "exit", nr: SYS_EXIT, arity: 1, ptr_mask: 0, len_arg: 0xff },
        SyscallInfo { name: "wait4", nr: SYS_WAIT4, arity: 4, ptr_mask: 0, len_arg: 0xff },
        SyscallInfo { name: "kill", nr: SYS_KILL, arity: 2, ptr_mask: 0, len_arg: 0xff },
        SyscallInfo { name: "fcntl", nr: SYS_FCNTL, arity: 3, ptr_mask: 0, len_arg: 0xff },
        SyscallInfo { name: "psinfo", nr: SYS_PSINFO, arity: 2, ptr_mask: 1, len_arg: 1 },
    ];
    r
}

/// The table entry for `nr`, if the syscall exists.
pub fn info(nr: u64) -> (r: Option<SyscallInfo>)
    ensures
        spec_info(nr) is None ==> r is None,
        spec_info(nr) matches Some(t) ==> r matches Some(i) && i.nr == nr && (i.arity, i.ptr_mask, i.len_arg) == t,
{
    let t = table();
    let mut i: usize = 0;
    while i < t.len()
        invariant
            i <= t@.len(),
            t@.len() == 17,
            forall|k: int| 0 <= k < t@.len() ==> spec_info((#[trigger] t@[k]).nr)
                == Some((t@[k].arity, t@[k].ptr_mask, t@[k].len_arg)),
            forall|k: int| 0 <= k < i ==> (#[trigger] t@[k]).nr != nr,
        decreases t@.len() - i,
    {
        if t[i].nr == nr {
            return Some(t[i]);
        }
        i += 1;
    }
    proof {
        if spec_info(nr) is Some {
            assert(t@[0].nr != nr && t@[1].nr != nr && t@[2].nr != nr && t@[3].nr != nr);
            assert(t@[4].nr != nr && t@[5].nr != nr && t@[6].nr != nr && t@[7].nr != nr);
            assert(t@[8].nr != nr && t@[9].nr != nr && t@[10].nr != nr && t@[11].nr != nr);
            assert(t@[12].nr != nr && t@[13].nr != nr && t@[14].nr != nr && t@[15].nr != nr);
            assert(t@[16].nr != nr);
        }
    }
    None
}

/// All-or-nothing: any refusal of a non-empty range is `EFAULT`, and the
/// caller copies nothing. An empty range is always fine.
pub fn check_user_ptr(check: impl Fn(u64, u64) -> Result<(), UserMemError>, ptr: u64, len: u64) -> (r: Result<(), i32>)
    requires
        len != 0 ==> call_requires(check, (ptr, len)),
    ensures
        len == 0 ==> r is Ok,
        len != 0 ==> exists|res: Result<(), UserMemError>| call_ensures(check, (ptr, len), res)
            && (res is Ok ==> r is Ok) && (res is Err ==> r == Err::<(), i32>(EFAULT)),
{
    if len == 0 {
        return Ok(());
    }
    let res = check(ptr, len);
    match res {
        Ok(()) => Ok(()),
        Err(e) => Err(e.errno()),
    }
}

/// Argument `i` of `inf` is a user pointer.
pub open spec fn is_ptr_arg(inf: SyscallInfo, i: int) -> bool {
    inf.ptr_mask & (1u8 << (i as u8)) != 0
}

/// The length checked for pointer argument `i`.
pub open spec fn ptr_len(inf: SyscallInfo, args: [u64; 6]) -> u64 {
    if inf.len_arg == 0xff { 0 } else { args@[inf.len_arg as int] }
}

/// `check` accepted argument `i` as a pointer range.
pub open spec fn arg_passes(check: impl Fn(u64, u64) -> Result<(), UserMemError>, inf: SyscallInfo, args: [u64; 6], i: int) -> bool {
    ptr_len(inf, args) == 0 || exists|res: Result<(), UserMemError>|
        call_ensures(check, (args@[i], ptr_len(inf, args)), res) && res is Ok
}

/// Check every pointer argument of `inf` against `check`, stopping at the
/// first refusal. The length of a pointer comes from `len_arg`, or is 0.
pub fn validate_args(inf: SyscallInfo, args: [u64; 6], check: impl Fn(u64, u64) -> Result<(), UserMemError>) -> (r: Result<(), i32>)
    requires
        inf.arity <= 6,
        inf.len_arg == 0xff || inf.len_arg < 6,
        forall|p: u64, l: u64| call_requires(check, (p, l)),
    ensures
        r is Ok || r == Err::<(), i32>(EFAULT),
        r is Ok ==> forall|i: int| 0 <= i < inf.arity && #[trigger] is_ptr_arg(inf, i) ==> arg_passes(check, inf, args, i),
        r is Err ==> exists|i: int, e: UserMemError| 0 <= i < inf.arity && is_ptr_arg(inf, i)
            && ptr_len(inf, args) != 0 && #[trigger] call_ensures(check, (args@[i], ptr_len(inf, args)), Err::<(), UserMemError>(e)),
{
    let mut i: u8 = 0;
    while i < inf.arity
        invariant
            i <= inf.arity <= 6,
            inf.len_arg == 0xff || inf.len_arg < 6,
            forall|p: u64, l: u64| call_requires(check, (p, l)),
            forall|j: int| 0 <= j < i && #[trigger] is_ptr_arg(inf, j) ==> arg_passes(check, inf, args, j),
        decreases inf.arity - i,
    {
        let bit: u8 = 1u8 << i;
        assert(is_ptr_arg(inf, i as int) == (inf.ptr_mask & bit != 0));
        if inf.ptr_mask & bit != 0 {
            let ptr = args[i as usize];
            let len = if inf.len_arg == 0xff { 0 } else { args[inf.len_arg as usize] };
            assert(ptr == args@[i as int]);
            assert(len == ptr_len(inf, args));
            if len != 0 {
                let res = check(ptr, len);
                match res {
                    Ok(()) => {
                        assert(call_ensures(check, (ptr, len), res));
                        assert(arg_passes(check, inf, args, i as int));
                    },
                    Err(e) => {
                        assert(call_ensures(check, (args@[i as int], ptr_len(inf, args)), Err::<(), UserMemError>(e)));
                        return Err(e.errno());
                    },
                }
            }
        }
        i += 1;
    }
    Ok(())
}

} // verus!
