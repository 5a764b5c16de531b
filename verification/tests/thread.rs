use std::mem::size_of;
use vibeos::thread::{
    apply_if_on_resume, prepare_thread, CpuAffinity, CpuContext, ThreadId, ThreadState, CTX_R12, CTX_R13, CTX_R14,
    CTX_R15, CTX_RBP, CTX_RBX, CTX_RFLAGS, CTX_RIP, CTX_RSP, CTX_SIZE, RFLAGS_IF, RFLAGS_RESERVED1,
};
use vibeos::time::Instant;

#[test]
fn context_layout() {
    assert_eq!(CTX_RBX, 0);
    assert_eq!(CTX_RBP, 8);
    assert_eq!(CTX_R12, 16);
    assert_eq!(CTX_R13, 24);
    assert_eq!(CTX_R14, 32);
    assert_eq!(CTX_R15, 40);
    assert_eq!(CTX_RFLAGS, 48);
    assert_eq!(CTX_RSP, 56);
    assert_eq!(CTX_RIP, 64);
    assert_eq!(size_of::<CpuContext>(), 72);
    assert_eq!(CTX_SIZE, 72);
}

#[test]
fn prepare_thread_sysv_align() {
    let mut ctx = CpuContext::empty();
    let top = 0xFFFF_D000_0001_0000u64;
    prepare_thread(&mut ctx, top, 0x1111);
    assert_eq!(ctx.rsp % 16, 8);
    assert_eq!(ctx.rip, 0x1111);
    assert_eq!(ctx.rflags, RFLAGS_RESERVED1);
    assert_eq!(ctx.rflags & RFLAGS_IF, 0);
}

#[test]
fn if_on_resume_policy() {
    let mut r = RFLAGS_RESERVED1;
    apply_if_on_resume(&mut r, 0);
    assert_eq!(r & RFLAGS_IF, RFLAGS_IF);
    apply_if_on_resume(&mut r, 1);
    assert_eq!(r & RFLAGS_IF, 0);
    apply_if_on_resume(&mut r, 0);
    assert_eq!(r & RFLAGS_IF, RFLAGS_IF);
}

#[test]
fn thread_state_names() {
    assert_eq!(ThreadState::Ready.name(), "ready");
    assert_eq!(ThreadState::Running.name(), "running");
    assert_eq!(ThreadState::Sleeping { deadline: Instant { ns: 1 } }.name(), "sleeping");
    assert_eq!(ThreadState::Blocked.name(), "blocked");
    assert_eq!(ThreadState::Dead.name(), "dead");
    assert_eq!(CpuAffinity::Any.name(), "any");
    assert_eq!(CpuAffinity::Pinned(1).name(), "pinned");
    assert_eq!(ThreadId::bootstrap().raw(), 0);
    assert!(ThreadId::none().is_none());
    assert_eq!(size_of::<ThreadId>(), 4);
}

#[test]
fn prepared_context_starts_clean() {
    let mut ctx = CpuContext::empty();
    prepare_thread(&mut ctx, 0x10_0000, 0x2222);
    assert_eq!(ctx.rsp, 0x10_0000 - 8);
    assert_eq!(ctx.rbx, 0);
    assert_eq!(ctx.r15, 0);
    assert!(!ThreadId(3).is_none());
}
