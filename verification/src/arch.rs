//! The processor-facing records: the register frame the trap stubs push,
//! the machine state the kernel drives (CR3, the interrupt flag), the GDT
//! selector layout, the TSS image, and the descriptor encodings the
//! hardware consumes.

use vstd::prelude::*;
use crate::addr::VirtAddr;
use crate::mmu::PageMapLevel4;
use crate::units::PAGE_SIZE;

verus! {

pub const KERNEL_BASE: u64 = 0xffff_ff80_0000_0000;

/// Fixed selectors of the assembly-defined GDT.
pub const GDT_KERN_CODE: u16 = 8;
pub const GDT_KERN_DATA: u16 = 16;
pub const GDT_USER_DATA: u16 = 24;
pub const GDT_USER_CODE: u16 = 32;
pub const GDT_TSS_LOW: u16 = 40;
pub const GDT_TSS_TOP: u16 = 48;

/// The RFLAGS interrupt-enable bit.
pub const RFLAGS_IF: u64 = 0x200;

/// Base of the per-process user stack and its size (16 KiB).
pub const USER_STACK_START: u64 = 0x10_0000_0000;
pub const USER_STACK_SIZE: u64 = 4 * 4096;

/// The registers the trap stub pushes, in push order, together with the
/// CPU-pushed interrupt frame; the canonical checkpoint of a suspended
/// thread.
#[derive(Clone, Copy, PartialEq, Eq, Structural, Debug)]
pub struct RegisterFrame {
    pub r15: u64,
    pub r14: u64,
    pub r13: u64,
    pub r12: u64,
    pub r11: u64,
    pub r10: u64,
    pub r9: u64,
    pub r8: u64,
    pub rbp: u64,
    pub rdi: u64,
    pub rsi: u64,
    pub rdx: u64,
    pub rcx: u64,
    pub rbx: u64,
    pub rax: u64,
    pub error_code: u32,
    pub number: u32,
    pub rip: u64,
    pub cs: u64,
    pub rflags: u64,
    pub rsp: u64,
    pub ss: u64,
}

impl RegisterFrame {
    /// The all-zero frame, as a value.
    pub open spec fn spec_zeroed() -> RegisterFrame {
        RegisterFrame {
            r15: 0u64, r14: 0u64, r13: 0u64, r12: 0u64, r11: 0u64, r10: 0u64,
            r9: 0u64, r8: 0u64, rbp: 0u64, rdi: 0u64, rsi: 0u64, rdx: 0u64,
            rcx: 0u64, rbx: 0u64, rax: 0u64, error_code: 0u32, number: 0u32,
            rip: 0u64, cs: 0u64, rflags: 0u64, rsp: 0u64, ss: 0u64,
        }
    }

    /// An all-zero frame.
    pub fn zeroed() -> (r: Self)
        ensures
            r == (RegisterFrame {
                r15: 0u64, r14: 0u64, r13: 0u64, r12: 0u64, r11: 0u64, r10: 0u64,
                r9: 0u64, r8: 0u64, rbp: 0u64, rdi: 0u64, rsi: 0u64, rdx: 0u64,
                rcx: 0u64, rbx: 0u64, rax: 0u64, error_code: 0u32, number: 0u32,
                rip: 0u64, cs: 0u64, rflags: 0u64, rsp: 0u64, ss: 0u64,
            }),
    {
        RegisterFrame {
            r15: 0, r14: 0, r13: 0, r12: 0, r11: 0, r10: 0, r9: 0, r8: 0, rbp: 0,
            rdi: 0, rsi: 0, rdx: 0, rcx: 0, rbx: 0, rax: 0, error_code: 0, number: 0,
            rip: 0, cs: 0, rflags: 0, rsp: 0, ss: 0,
        }
    }

    /// The initial frame of a fresh user process: ring-3 selectors,
    /// interrupts enabled, stack pointer 16 bytes under the stack top, and
    /// every other field zero.
    pub fn new_userspace() -> (r: Self)
        ensures
            r == (RegisterFrame {
                rsp: (USER_STACK_START + USER_STACK_SIZE - 16) as u64,
                rflags: RFLAGS_IF,
                cs: (GDT_USER_CODE as u64 | 3) as u64,
                ss: (GDT_USER_DATA as u64 | 3) as u64,
                ..RegisterFrame::spec_zeroed()
            }),
            r.cs == GDT_USER_CODE as u64 | 3,
            r.ss == GDT_USER_DATA as u64 | 3,
            r.rflags == RFLAGS_IF,
            r.rsp == USER_STACK_START + USER_STACK_SIZE - 16,
            r.rip == 0,
    {
        let mut f = RegisterFrame::zeroed();
        f.rsp = USER_STACK_START + USER_STACK_SIZE - 16;
        f.rflags = RFLAGS_IF;
        f.cs = (GDT_USER_CODE as u64) | 3;
        f.ss = (GDT_USER_DATA as u64) | 3;
        f
    }

    pub fn set_program_counter(&mut self, addr: u64)
        ensures
            *final(self) == (RegisterFrame { rip: addr, ..*old(self) }),
    {
        self.rip = addr;
    }

    /// The frame of a runnable user process carries ring-3 selectors and
    /// has interrupts enabled.
    pub open spec fn user_resumable(self) -> bool {
        self.cs == GDT_USER_CODE as u64 | 3 && self.ss == GDT_USER_DATA as u64 | 3 && self.rflags
            & RFLAGS_IF != 0
    }
}

/// The machine state the kernel core drives explicitly: which root
/// directory is live and whether interrupts are enabled.
pub struct CpuState {
    pub cr3: u64,
    pub interrupts_enabled: bool,
}

impl CpuState {
    pub fn startup() -> (r: Self)
        ensures
            r.cr3 == 0,
            !r.interrupts_enabled,
    {
        CpuState { cr3: 0, interrupts_enabled: false }
    }

    pub fn enable_interrupts(&mut self)
        ensures
            *final(self) == (CpuState { interrupts_enabled: true, ..*old(self) }),
    {
        self.interrupts_enabled = true;
    }

    pub fn disable_interrupts(&mut self)
        ensures
            *final(self) == (CpuState { interrupts_enabled: false, ..*old(self) }),
    {
        self.interrupts_enabled = false;
    }
}

impl PageMapLevel4 {
    /// Load this directory's root frame into CR3.
    pub fn switch_to_this(&self, cpu: &mut CpuState)
        ensures
            *final(cpu) == (CpuState { cr3: self.addr.0, ..*old(cpu) }),
    {
        cpu.cr3 = self.addr.0;
    }
}

/// The order in which the context-switch routine pushes the IRET frame
/// before restoring general registers: SS, RSP, RFLAGS, CS, RIP.  The
/// order is mandatory: IRETQ pops them in reverse.
pub fn iret_frame(regs: &RegisterFrame) -> (r: Vec<u64>)
    ensures
        r@ =~= seq![regs.ss, regs.rsp, regs.rflags, regs.cs, regs.rip],
{
    let mut v: Vec<u64> = Vec::new();
    v.push(regs.ss);
    v.push(regs.rsp);
    v.push(regs.rflags);
    v.push(regs.cs);
    v.push(regs.rip);
    v
}

/// The two GDT descriptor words that describe the TSS at `addr` of the
/// given size: an available 64-bit TSS, present, ring 0.
pub fn create_tss_descriptors(addr: u64, size: u64) -> (r: (u64, u64))
    ensures
        r.0 == ((size & 0xffff) | ((addr & 0xffff) << 16) | (((addr >> 16) & 0xff) << 32) | (
        0x9u64 << 40) | (1u64 << 47) | (((size >> 16) & 0xf) << 48) | (((addr >> 24) & 0xff)
            << 56)),
        r.1 == addr >> 32,
{
    let addr_1 = addr & 0xffff;
    let addr_2 = (addr >> 16) & 0xff;
    let addr_3 = (addr >> 24) & 0xff;
    let addr_4 = addr >> 32;
    let size_low = size & 0xffff;
    let size_top = (size >> 16) & 0xf;
    let desc_type: u64 = 0x9;
    let present: u64 = 1;
    let low = size_low | (addr_1 << 16) | (addr_2 << 32) | (desc_type << 40) | (present << 47) | (
    size_top << 48) | (addr_3 << 56);
    (low, addr_4)
}

/// The STAR model-specific register value that selects the kernel and user
/// segments for SYSCALL/SYSRET, as the GDT layout requires.
pub fn star_value() -> (r: u64)
    ensures
        r == ((((GDT_USER_DATA - 8) as u64 | 3) << 48) | ((GDT_KERN_CODE as u64) << 32)),
        (r >> 32) & 0xfffc == GDT_KERN_CODE as u64,
        ((r >> 32) & 0xffff) + 8 == GDT_KERN_DATA as u64,
{
    let star_low = GDT_KERN_CODE as u64;
    let star_top = ((GDT_USER_DATA - 8) as u64) | 3;
    let r = (star_top << 48) | (star_low << 32);
    proof {
        assert((((19u64 << 48) | (8u64 << 32)) >> 32) & 0xfffc == 8
            && ((((19u64 << 48) | (8u64 << 32)) >> 32) & 0xffff) + 8 == 16) by (bit_vector);
        assert(star_top == 19 && star_low == 8) by (bit_vector)
            requires star_top == (16u64 | 3u64) && star_low == 8u64;
    }
    r
}

/// The size in bytes of the in-memory TSS image (its I/O map offset).
pub const TSS_SIZE: u16 = 104;

/// The TSS image: stack pointers for ring transitions and interrupt
/// stacks; everything else reserved.
#[derive(Clone, Copy, PartialEq, Eq, Structural, Debug)]
pub struct TaskStateSegment {
    pub rsp0: u64,
    pub ist1: u64,
    pub iomap_offs: u16,
}

impl TaskStateSegment {
    /// A zeroed TSS whose I/O map offset points past the structure.
    pub fn new() -> (r: Self)
        ensures
            r.rsp0 == 0,
            r.ist1 == 0,
            r.iomap_offs == TSS_SIZE,
    {
        TaskStateSegment { rsp0: 0, ist1: 0, iomap_offs: TSS_SIZE }
    }
}

} // verus!
