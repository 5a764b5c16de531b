use vibeos::proc::{ProcState, INIT_PID, SIGCHLD, SIGCONT, SIGKILL, SIGSTOP, SIGTERM};
use vibeos::proc_init::{bit, prefix_lines, sig_for_vec, KillAct, ProcTable, WaitAct};
use vibeos::syscall::{ECHILD, EINVAL, ESRCH};
use vibeos::vectors::{BP, DE, GP, NP, PF, UD};

fn table() -> ProcTable {
    let mut t = ProcTable::new();
    assert_eq!(t.alloc_pid(INIT_PID), Some(1));
    t.init_slot(1, 0, "init");
    assert_eq!(t.alloc_pid(0), Some(2));
    t.init_slot(2, 1, "sh");
    assert_eq!(t.alloc_pid(0), Some(3));
    t.init_slot(3, 2, "ls");
    t
}

#[test]
fn pids_prefer_then_lowest_free() {
    let mut t = table();
    assert_eq!(t.alloc_pid(INIT_PID), None);
    assert_eq!(t.alloc_pid(7), Some(7));
    assert_eq!(t.alloc_pid(7), Some(4));
    assert_eq!(t.get(7).map(|p| p.state), Some(ProcState::Live));
    assert!(t.get(0).is_none());
    assert!(t.get(9).is_none());
    let mut full = ProcTable::new();
    let mut n = 0;
    while full.alloc_pid(0).is_some() {
        n += 1;
    }
    assert_eq!(n, 14);
}

#[test]
fn wait_reaps_zombies_and_reports_echild() {
    let mut t = table();
    assert_eq!(t.wait_step(2, -1, true), WaitAct::Done(0, 0));
    assert_eq!(t.wait_step(2, -1, false), WaitAct::Sleep);
    assert_eq!(t.wait_step(3, -1, false), WaitAct::Fail(ECHILD));
    assert_eq!(t.wait_step(0, -1, false), WaitAct::Fail(ECHILD));
    assert_eq!(t.kill_step(3, SIGTERM), Ok(KillAct { cont: false, wake: true }));
    assert!(t.has_child(2, 3));
    assert!(!t.has_child(2, 5));
    assert_eq!(t.exit_slot(3, 0x0f00), 2);
    assert_eq!(t.get(3).unwrap().state, ProcState::Zombie);
    assert_eq!(t.get(2).unwrap().pending, 1 << 17);
    assert_eq!(t.find_zombie(2, -1), Some((3, 0x0f00)));
    assert_eq!(t.find_zombie(2, 4), None);
    assert_eq!(t.wait_step(2, 3, false), WaitAct::Done(3, 0x0f00));
    assert!(t.get(3).is_none());
    assert_eq!(t.wait_step(2, -1, true), WaitAct::Fail(ECHILD));
    assert_eq!(t.exit_slot(9, 0), 0);
}

#[test]
fn kill_follows_default_actions() {
    let mut t = table();
    assert_eq!(t.kill_step(3, 0), Err(EINVAL));
    assert_eq!(t.kill_step(3, 32), Err(EINVAL));
    assert_eq!(t.kill_step(9, SIGKILL), Err(ESRCH));
    assert_eq!(t.kill_step(3, SIGSTOP), Ok(KillAct { cont: false, wake: true }));
    assert_eq!(t.get(3).unwrap().state, ProcState::Stopped);
    assert_eq!(t.get(3).unwrap().pending, bit(SIGSTOP));
    assert_eq!(t.kill_step(3, SIGCONT), Ok(KillAct { cont: true, wake: false }));
    assert_eq!(t.get(3).unwrap().state, ProcState::Live);
    assert_eq!(t.get(3).unwrap().pending, 0);
    assert_eq!(t.kill_step(3, SIGCONT), Ok(KillAct { cont: false, wake: false }));
    assert_eq!(t.kill_step(2, SIGCHLD), Ok(KillAct { cont: false, wake: false }));
    assert_eq!(t.get(2).unwrap().pending, 1 << 17);
    assert_eq!(bit(0), 0);
    assert_eq!(bit(40), 0);
}

#[test]
fn ps_text_lines() {
    let t = table();
    let text = String::from_utf8(t.format_ps(512)).unwrap();
    assert_eq!(text, "1 0 run init\n2 1 run sh\n3 2 run ls\n");
    assert_eq!(String::from_utf8(t.format_ps(25)).unwrap(), "1 0 run init\n2 1 run sh\n");
    assert_eq!(
        String::from_utf8(t.write_ps()).unwrap(),
        "vibeOS: ps: 1 0 run init\nvibeOS: ps: 2 1 run sh\nvibeOS: ps: 3 2 run ls\n"
    );
    assert_eq!(prefix_lines("> ", &b"a\r\nb\nc".to_vec()), b"> a\n> b\n> c\n".to_vec());
    assert_eq!(prefix_lines("> ", &Vec::new()), Vec::<u8>::new());
}

#[test]
fn user_faults_map_to_signals() {
    assert_eq!(sig_for_vec(DE), Some(8));
    assert_eq!(sig_for_vec(UD), Some(4));
    assert_eq!(sig_for_vec(NP), Some(7));
    assert_eq!(sig_for_vec(GP), Some(11));
    assert_eq!(sig_for_vec(PF), Some(11));
    assert_eq!(sig_for_vec(BP), Some(5));
    assert_eq!(sig_for_vec(0x20), None);
}
