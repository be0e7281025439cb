# TinyOS-RV64, verified core

A small RISC-V 64 (QEMU `virt`) teaching kernel: Sv39 paging with one page table per
task, a shared supervisor-only identity mapping of DRAM, user tasks in U-mode, a
preemptive round-robin scheduler, five system calls and page-fault kill.

- `src/` is the kernel's logic, verified with Verus: page-table entries and walks
  (`mm/pte.rs`, `mm/pagetable.rs`), the frame allocator (`mm/frame.rs`), copying between
  user and kernel memory (`mm/copy.rs`), building user address spaces (`mm/space.rs`,
  `task.rs`), the scheduler (`task.rs`), timer, SBI call descriptors, system calls and the
  trap handler's decisions. Physical memory is reached through the `PhysMemory` trait.
- `app/` is the platform layer that Verus does not see: CSR access and `ecall` in inline
  assembly, the boot path, the trap entry point and raw physical memory.
- `tests/` runs the library on concrete values, with `PhysMem` as memory.
