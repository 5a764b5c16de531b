use std::mem::size_of;
use vibeos::syscall::{
    check_user_ptr, info, neg, table, validate_args, SyscallFrame, UserFrame, UserMemError, UserRegs, E2BIG,
    EACCES, EAGAIN, EBADF, ECHILD, EFAULT, EFBIG, EINVAL, EIO, EMFILE, ENAMETOOLONG, ENOENT, ENOEXEC, ENOMEM,
    ENOSYS, EPERM, ESRCH, SYS_CLOSE, SYS_DUP, SYS_DUP2, SYS_EXECVE, SYS_EXIT, SYS_FCNTL, SYS_FORK, SYS_GETPID,
    SYS_GETPPID, SYS_KILL, SYS_LSEEK, SYS_OPEN, SYS_PSINFO, SYS_READ, SYS_SCHED_YIELD, SYS_WAIT4, SYS_WRITE,
};

#[test]
fn user_frame_is_user_regs_struct() {
    assert_eq!(size_of::<UserFrame>(), 21 * 8);
    let f = UserFrame { r15: 1, rbx: 6, rax: 11, rdi: 15, orig_rax: 16, rip: 17, ss: 21, ..UserFrame::default() };
    assert_eq!(f.r15, 1);
    assert_eq!(f.ss, 21);
}

#[test]
fn errno_linux_values() {
    assert_eq!(EPERM, 1);
    assert_eq!(ENOENT, 2);
    assert_eq!(ESRCH, 3);
    assert_eq!(EIO, 5);
    assert_eq!(E2BIG, 7);
    assert_eq!(ENOEXEC, 8);
    assert_eq!(EBADF, 9);
    assert_eq!(ECHILD, 10);
    assert_eq!(EAGAIN, 11);
    assert_eq!(ENOMEM, 12);
    assert_eq!(EACCES, 13);
    assert_eq!(EFAULT, 14);
    assert_eq!(EINVAL, 22);
    assert_eq!(EMFILE, 24);
    assert_eq!(EFBIG, 27);
    assert_eq!(ENAMETOOLONG, 36);
    assert_eq!(ENOSYS, 38);
    assert_eq!(neg(ENOSYS), -38);
    assert_eq!(UserMemError::Unmapped.errno(), EFAULT);
}

#[test]
fn table_arity_and_unknown_is_none() {
    let w = info(SYS_WRITE).unwrap();
    assert_eq!(w.name, "write");
    assert_eq!(w.arity, 3);
    assert_eq!(w.ptr_mask, 1 << 1);
    assert_eq!(w.len_arg, 2);
    assert!(info(SYS_GETPID).is_some());
    assert!(info(SYS_EXIT).is_some());
    assert!(info(SYS_SCHED_YIELD).is_some());
    assert!(info(SYS_FORK).is_some());
    assert!(info(SYS_EXECVE).is_some());
    assert!(info(SYS_WAIT4).is_some());
    assert!(info(SYS_READ).is_some());
    assert!(info(SYS_OPEN).is_some());
    assert!(info(SYS_PSINFO).is_some());
    assert!(info(0xC0FFEE).is_none());
    assert!(info(u64::MAX).is_none());
    let t = table();
    let mut n = 0;
    for e in t.iter() {
        n += 1;
        match e.nr {
            SYS_READ | SYS_WRITE | SYS_OPEN | SYS_CLOSE | SYS_LSEEK | SYS_DUP | SYS_DUP2 | SYS_SCHED_YIELD
            | SYS_GETPID | SYS_GETPPID | SYS_FORK | SYS_EXECVE | SYS_EXIT | SYS_WAIT4 | SYS_KILL | SYS_FCNTL
            | SYS_PSINFO => {}
            _ => panic!("unexpected nr"),
        }
    }
    assert_eq!(n, t.len());
    assert_eq!(n, 17);
}

#[test]
fn frame_layout_matches_entry_pushes() {
    assert_eq!(size_of::<SyscallFrame>(), 128);
    let f = SyscallFrame {
        user_rsp: 0,
        nr: 1,
        rip: 2,
        arg2: 3,
        rbx: 4,
        rbp: 5,
        arg1: 6,
        arg0: 7,
        arg4: 8,
        arg5: 9,
        arg3: 10,
        r11: 11,
        r12: 12,
        r13: 13,
        r14: 14,
        r15: 15,
    };
    assert_eq!(f.args(), [7, 6, 3, 10, 8, 9]);
}

#[test]
fn ptr_policy_all_or_nothing() {
    let check_ok = |_p: u64, _l: u64| -> Result<(), UserMemError> { Ok(()) };
    assert!(check_user_ptr(check_ok, 0x1000, 0).is_ok());
    assert!(check_user_ptr(check_ok, 0x1000, 8).is_ok());
    let check_fault = |_p: u64, _l: u64| -> Result<(), UserMemError> { Err(UserMemError::Unmapped) };
    assert_eq!(check_user_ptr(check_fault, 0x1000, 8), Err(EFAULT));
    assert!(check_user_ptr(check_fault, 0x1000, 0).is_ok());

    let inf = info(SYS_WRITE).unwrap();
    let args = [1, 0x1000, 4, 0, 0, 0];
    assert!(validate_args(inf, args, check_ok).is_ok());
    assert_eq!(validate_args(inf, args, check_fault), Err(EFAULT));
    let zero = [1, 0xFFFF_8000_0000_0000, 0, 0, 0, 0];
    assert!(validate_args(inf, zero, check_fault).is_ok());
}

#[test]
fn user_regs_roundtrip_through_syscall_frame() {
    let f = SyscallFrame {
        user_rsp: 0x7000,
        nr: 1,
        rip: 0x4000,
        arg2: 3,
        rbx: 4,
        rbp: 5,
        arg1: 6,
        arg0: 7,
        arg4: 8,
        arg5: 9,
        arg3: 10,
        r11: 0x202,
        r12: 12,
        r13: 13,
        r14: 14,
        r15: 15,
    };
    let r = UserRegs::from_syscall(&f, 42);
    assert_eq!(r.rax, 42);
    assert_eq!(r.rip, 0x4000);
    assert_eq!(r.rsp, 0x7000);
    let mut g = SyscallFrame { user_rsp: 0, nr: 0, rip: 0, arg2: 0, rbx: 0, rbp: 0, arg1: 0, arg0: 0, arg4: 0, arg5: 0, arg3: 0, r11: 0, r12: 0, r13: 0, r14: 0, r15: 0 };
    r.apply_to_syscall(&mut g);
    assert_eq!(g.rip, 0x4000);
    assert_eq!(g.user_rsp, 0x7000);
    assert_eq!(g.rbx, 4);
    assert_eq!(UserRegs::empty().rip, 0);
}
