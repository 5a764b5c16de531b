//! vibeOS kernel logic: the hardware-free half of a small x86_64 kernel,
//! with its contracts proved by Verus.

pub mod arith;
pub mod lock;
pub mod kbd;
pub mod kva;
pub mod log;
pub mod log_init;
pub mod paging;
pub mod paging_init;
pub mod part;
pub mod part_init;
pub mod pci;
pub mod pci_init;
pub mod per_cpu;
pub mod pic;
pub mod pmm;
pub mod pmm_init;
pub mod proc;
pub mod proc_init;
pub mod sched;
pub mod shell;
pub mod shell_init;
pub mod smp;
pub mod symtab;
pub mod sync;
pub mod syscall;
pub mod thread;
pub mod thread_init;
pub mod time;
pub mod time_init;
pub mod uart;
pub mod vectors;
