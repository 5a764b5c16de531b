use vibeos::proc::{
    default_action, fd_flags_from_open, forced, sig_name, wait_exited, wait_signaled, wait_stopped, wexitstatus,
    wifexited, wifsignaled, wifstopped, wtermsig, Creds, Cwd, Fd, FdKind, FdTable, ProcState, SigAct, FD_CLOEXEC,
    INIT_PID, MAX_FDS, MAX_PROCS, O_CLOEXEC, SIGCHLD, SIGCONT, SIGILL, SIGKILL, SIGSEGV, SIGSTOP, SIGTERM,
};

#[test]
fn wait_status_linux_shape() {
    let st = wait_exited(42);
    assert!(wifexited(st));
    assert_eq!(wexitstatus(st), 42);
    assert!(!wifsignaled(st));
    let sig = wait_signaled(SIGSEGV);
    assert!(wifsignaled(sig));
    assert_eq!(wtermsig(sig), SIGSEGV);
    assert!(!wifexited(sig));
    let stop = wait_stopped(SIGSTOP);
    assert!(wifstopped(stop));
    assert!(!wifexited(stop));
    assert!(!wifsignaled(stop));
}

#[test]
fn fd_table_stdio_dup_cloexec() {
    let mut t = FdTable::stdio();
    assert!(matches!(t.get(0).unwrap().kind, FdKind::Console));
    assert!(matches!(t.get(1).unwrap().kind, FdKind::Console));
    assert!(matches!(t.get(2).unwrap().kind, FdKind::Console));
    assert!(t.get(3).is_none());
    let n = t.dup(1).unwrap();
    assert_eq!(n, 3);
    assert!(!t.get(n).unwrap().cloexec());
    t.set(4, Fd { kind: FdKind::File(7), flags: FD_CLOEXEC }).unwrap();
    let gone = t.apply_cloexec();
    assert_eq!(gone[4], Some(7));
    assert!(t.get(4).is_none());
    assert!(t.get(1).is_some());
    let old = t.dup2(1, 2).unwrap();
    assert!(old.is_some());
    assert!(matches!(t.get(2).unwrap().kind, FdKind::Console));
    assert!(t.dup2(1, 1).unwrap().is_none());
    assert!(t.close(99).is_none());
    assert!(t.dup(9).is_err());
    let _ = O_CLOEXEC;
    assert_eq!(fd_flags_from_open(O_CLOEXEC), FD_CLOEXEC);
    assert_eq!(fd_flags_from_open(0), 0);
}

#[test]
fn signal_defaults() {
    assert_eq!(default_action(SIGCHLD), SigAct::Ign);
    assert_eq!(default_action(SIGKILL), SigAct::Term);
    assert_eq!(default_action(SIGSTOP), SigAct::Stop);
    assert_eq!(default_action(SIGSEGV), SigAct::Term);
    assert_eq!(default_action(SIGILL), SigAct::Term);
    assert!(forced(SIGKILL));
    assert!(forced(SIGSTOP));
    assert!(!forced(SIGTERM));
    assert_eq!(sig_name(SIGSEGV), "SEGV");
    assert_eq!(ProcState::Zombie.name(), "zombie");
    assert_eq!(Creds::root().uid, 0);
    assert_eq!(INIT_PID, 1);
    assert_eq!(MAX_PROCS, 16);
    let c = Cwd::root();
    assert_eq!(c.as_bytes(), b"/");
    assert_eq!(default_action(SIGCONT), SigAct::Cont);
}

#[test]
fn fd_table_full() {
    let mut t = FdTable::empty();
    let mut n = 0u32;
    while n < MAX_FDS as u32 {
        t.allocate(Fd { kind: FdKind::Console, flags: 0 }).unwrap();
        n += 1;
    }
    assert!(t.allocate(Fd { kind: FdKind::Console, flags: 0 }).is_err());
    t.close(0);
    assert_eq!(t.allocate(Fd { kind: FdKind::File(1), flags: 0 }).unwrap(), 0);
}

#[test]
fn wait_status_exit_code_keeps_low_byte() {
    assert_eq!(wexitstatus(wait_exited(0x1FF)), 0xFF);
    assert_eq!(wait_exited(1), 0x100);
    assert_eq!(wait_stopped(SIGSTOP), (19 << 8) | 0x7F);
    assert_eq!(sig_name(99), "?");
    assert_eq!(Fd::empty().kind, FdKind::Empty);
    assert!(!Fd::empty().is_open());
    assert_eq!(FdTable::stdio().iter()[3], Fd::empty());
}
