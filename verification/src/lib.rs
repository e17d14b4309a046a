//! Core of a small x86-64 kernel, modelled as verified state machines:
//! page-frame allocation, the four-level page-table mapper, interrupt
//! dispatch, ELF loading into a fresh address space, the round-robin
//! scheduler and the syscall layer.
//!
//! Hardware effects (port writes, CR3 loads, IRET) are represented by
//! explicit state records so that every decision the kernel makes is a
//! function from plain values to plain values.

pub mod units;
pub mod addr;
pub mod elf;
pub mod bootinfo;
pub mod pg_alloc;
pub mod mmu;
pub mod small_vec;
pub mod arch;
pub mod process;
pub mod sched;
pub mod syscalls;
pub mod interrupts;
pub mod mm;
