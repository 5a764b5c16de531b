# vibeos

The hardware-free logic of vibeOS, a small x86_64 kernel, as a Rust library
whose behaviour is stated in `requires` / `ensures` contracts and proved
with Verus.

## Layout

- `src/` — the verified library. Each module keeps one area of the kernel:
  - memory: `pmm` (buddy allocator of physical frames), `pmm_init` (the
    boot memory map), `kva` (kernel virtual-address ranges), `paging` and
    `paging_init` (four-level page tables and the kernel's initial tables);
  - scheduling: `thread` (thread ids, frames), `sched` (ready FIFO and the
    sorted timeout list), `thread_init` (the scheduler's decisions on the
    TCB table), `per_cpu`, `smp`, `lock`, `sync`;
  - processes and system calls: `proc`, `proc_init`, `syscall`;
  - devices: `pci` (config space, BARs, capability walk, bus scan, with
    every access kept in a ghost log), `pci_init`, `pic`, `uart`, `kbd`,
    `vectors`, `time`, `time_init`;
  - storage: `part` (MBR and GPT parsing), `part_init` (disk stamping and
    the partition registry);
  - diagnostics: `log`, `log_init`, `symtab`, `shell`, `shell_init`;
  - `arith`: small arithmetic lemmas shared by the others.
- `tests/` — tests that run the library on concrete values.
- `app/` — the parts that need the machine or the host: spin locks and
  clocks over atomics, serial capture, disk I/O around the partition code,
  and the shell's dispatch loop.

## Checking

`verus` on `src/lib.rs` proves every contract; `cargo test` runs `tests/`.
