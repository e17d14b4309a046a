//! Interrupt and exception plumbing as data: IDT entry encoding, the
//! exception table, page-fault triage against the kernel stack guards, IRQ
//! dispatch decisions, and the PIC and RTC register programming.

use vstd::prelude::*;
use crate::arch::RegisterFrame;
use crate::units::{PAGE_SIZE, round_down};

verus! {

/// Vector the PIC's IRQ 0 is remapped to.
pub const PIC_IRQ_OFFSET: u8 = 32;

pub const PIC1: u16 = 0x20;
pub const PIC2: u16 = 0xa0;
pub const PIC1_DATA: u16 = 0x21;
pub const PIC2_DATA: u16 = 0xa1;

/// One gate of the interrupt descriptor table, as the hardware reads it.
#[derive(Clone, Copy, PartialEq, Eq, Structural, Debug)]
pub struct IDTEntry {
    pub handler_addr_low: u16,
    pub gdt_selector: u16,
    pub attributes: u16,
    pub handler_addr_mid: u16,
    pub handler_addr_top: u32,
    pub reserved: u32,
}

/// The attribute word of a gate: present, the ring that may invoke it,
/// and the kind, 0xf for traps and 0xe for interrupts.
pub open spec fn spec_attributes(kernel_only: bool, is_exception: bool) -> u16 {
    (0x8000u16 | (if kernel_only {
        0u16
    } else {
        0x6000u16
    }) | (if is_exception {
        0xf00u16
    } else {
        0xe00u16
    })) as u16
}

/// Encode one IDT gate: the handler address split across three fields, the
/// kernel code selector, and the attribute word.
pub fn create_idt_entry(handler: u64, kernel_only: bool, is_exception: bool) -> (r: IDTEntry)
    ensures
        r.handler_addr_low == handler & 0xffff,
        r.handler_addr_mid == (handler >> 16) & 0xffff,
        r.handler_addr_top == handler >> 32,
        r.gdt_selector == crate::arch::GDT_KERN_CODE,
        r.attributes == spec_attributes(kernel_only, is_exception),
        r.reserved == 0,
{
    let handler_addr_low = (handler & 0xffff) as u16;
    let handler_addr_mid = ((handler >> 16) & 0xffff) as u16;
    let handler_addr_top = (handler >> 32) as u32;
    proof {
        let h = handler;
        assert(h & 0xffff <= 0xffff && (h >> 16) & 0xffff <= 0xffff && (h >> 32)
            <= 0xffff_ffff) by (bit_vector);
    }
    let present: u16 = 0x8000;
    let ring: u16 = if kernel_only {
        0
    } else {
        0x6000
    };
    let gate_type: u16 = if is_exception {
        0xf00
    } else {
        0xe00
    };
    let attributes: u16 = present | ring | gate_type;
    IDTEntry {
        handler_addr_low,
        gdt_selector: crate::arch::GDT_KERN_CODE,
        attributes,
        handler_addr_mid,
        handler_addr_top,
        reserved: 0,
    }
}

/// Build the 256-entry IDT: exception stubs as ring-0 trap gates in the
/// first 32 slots, IRQ stubs as ring-0 interrupt gates from vector 32 on,
/// everything else empty.
pub fn build_idt(exc_stubs: &Vec<u64>, irq_stubs: &Vec<u64>) -> (r: Vec<IDTEntry>)
    requires
        exc_stubs@.len() == 32,
        irq_stubs@.len() <= 224,
    ensures
        r@.len() == 256,
        forall|i: int|
            0 <= i < 32 ==> #[trigger] r@[i] == create_spec(exc_stubs@[i], true, true),
        forall|j: int|
            0 <= j < irq_stubs@.len() ==> #[trigger] r@[32 + j] == create_spec(
                irq_stubs@[j],
                true,
                false,
            ),
        forall|i: int|
            32 + irq_stubs@.len() <= i < 256 ==> (#[trigger] r@[i]).attributes == 0,
{
    let mut idt: Vec<IDTEntry> = Vec::new();
    let mut i: usize = 0;
    while i < 32
        invariant
            i <= 32,
            idt@.len() == i,
            exc_stubs@.len() == 32,
            forall|k: int| 0 <= k < i ==> #[trigger] idt@[k] == create_spec(exc_stubs@[k], true, true),
        decreases 32 - i,
    {
        idt.push(create_idt_entry(exc_stubs[i], true, true));
        i += 1;
    }
    let mut j: usize = 0;
    while j < irq_stubs.len()
        invariant
            j <= irq_stubs@.len(),
            irq_stubs@.len() <= 224,
            exc_stubs@.len() == 32,
            idt@.len() == 32 + j,
            forall|k: int| 0 <= k < 32 ==> #[trigger] idt@[k] == create_spec(exc_stubs@[k], true, true),
            forall|k: int|
                0 <= k < j ==> #[trigger] idt@[32 + k] == create_spec(irq_stubs@[k], true, false),
        decreases irq_stubs@.len() - j,
    {
        idt.push(create_idt_entry(irq_stubs[j], true, false));
        j += 1;
    }
    while idt.len() < 256
        invariant
            32 <= idt@.len() <= 256,
            irq_stubs@.len() <= 224,
            exc_stubs@.len() == 32,
            idt@.len() >= 32 + irq_stubs@.len(),
            forall|k: int| 0 <= k < 32 ==> #[trigger] idt@[k] == create_spec(exc_stubs@[k], true, true),
            forall|k: int|
                0 <= k < irq_stubs@.len() ==> #[trigger] idt@[32 + k] == create_spec(
                    irq_stubs@[k],
                    true,
                    false,
                ),
            forall|k: int|
                32 + irq_stubs@.len() <= k < idt@.len() ==> (#[trigger] idt@[k]).attributes == 0,
        decreases 256 - idt@.len(),
    {
        idt.push(
            IDTEntry {
                handler_addr_low: 0,
                gdt_selector: 0,
                attributes: 0,
                handler_addr_mid: 0,
                handler_addr_top: 0,
                reserved: 0,
            },
        );
    }
    idt
}

/// The value `create_idt_entry` returns.
pub open spec fn create_spec(handler: u64, kernel_only: bool, is_exception: bool) -> IDTEntry {
    IDTEntry {
        handler_addr_low: (handler & 0xffff) as u16,
        gdt_selector: crate::arch::GDT_KERN_CODE,
        attributes: spec_attributes(kernel_only, is_exception),
        handler_addr_mid: ((handler >> 16) & 0xffff) as u16,
        handler_addr_top: (handler >> 32) as u32,
        reserved: 0,
    }
}

/// Which exception vectors have a registered handler: divide-by-zero,
/// breakpoint (used to test userspace-initiated traps; it yields to the
/// scheduler) and page fault.  Everything else prints a frame dump and
/// halts.
pub fn exception_has_handler(vec: u8) -> (r: bool)
    ensures
        r == (vec == 0 || vec == 3 || vec == 14),
{
    vec == 0 || vec == 3 || vec == 14
}

/// The four kernel stack-guard pages, by their linker symbols' addresses.
#[derive(Clone, Copy, PartialEq, Eq, Structural, Debug)]
pub struct GuardPages {
    pub stack_guard_top: u64,
    pub stack_guard_bot: u64,
    pub int_stack_guard_bot: u64,
    pub priv_stack_guard_bot: u64,
}

/// What a page fault at `cr2` means for the kernel.
#[derive(Clone, Copy, PartialEq, Eq, Structural, Debug)]
pub enum PageFaultDiagnosis {
    StackOverflow,
    StackUnderflow,
    Other,
}

/// Triage a page fault: a faulting address whose page is the top stack
/// guard's higher-half alias is a kernel stack overflow, the bottom
/// guard's an underflow; anything else is reported and halts.  The full
/// rounded faulting address is compared, so the diagnosis is
/// deterministic for every guard placement.
pub fn page_fault(cr2: u64, guards: &GuardPages) -> (r: PageFaultDiagnosis)
    requires
        guards.stack_guard_top <= 0x7f_ffff_ffff,
        guards.stack_guard_bot <= 0x7f_ffff_ffff,
    ensures
        r == spec_page_fault(cr2, *guards),
{
    proof {
        crate::units::lemma_pow2_4096();
    }
    let round = crate::units::po2_round_down(cr2, PAGE_SIZE);
    if round == crate::arch::KERNEL_BASE + guards.stack_guard_top {
        PageFaultDiagnosis::StackOverflow
    } else if round == crate::arch::KERNEL_BASE + guards.stack_guard_bot {
        PageFaultDiagnosis::StackUnderflow
    } else {
        PageFaultDiagnosis::Other
    }
}

/// See `page_fault`.
pub open spec fn spec_page_fault(cr2: u64, guards: GuardPages) -> PageFaultDiagnosis {
    if round_down(cr2 as int, PAGE_SIZE as int) == crate::arch::KERNEL_BASE
        + guards.stack_guard_top {
        PageFaultDiagnosis::StackOverflow
    } else if round_down(cr2 as int, PAGE_SIZE as int) == crate::arch::KERNEL_BASE
        + guards.stack_guard_bot {
        PageFaultDiagnosis::StackUnderflow
    } else {
        PageFaultDiagnosis::Other
    }
}

/// What the exception dispatcher decides for a captured frame.  Before any
/// handler runs, the current process's stored registers are overwritten
/// with the frame (the scheduler's part); these are the handlers:
/// divide-by-zero prints and halts, breakpoint yields to the scheduler,
/// a page fault is triaged against the stack guards, and every other
/// vector prints a frame dump and halts.
#[derive(Clone, Copy, PartialEq, Eq, Structural, Debug)]
pub enum ExceptionAction {
    ReportDivideByZero,
    YieldToScheduler,
    PageFault(PageFaultDiagnosis),
    Halt,
}

/// Dispatch one captured exception frame: pick the registered handler for
/// its vector, or halt.
pub fn exception_dispatch(frame: &RegisterFrame, guards: &GuardPages, cr2: u64) -> (r:
    ExceptionAction)
    requires
        guards.stack_guard_top <= 0x7f_ffff_ffff,
        guards.stack_guard_bot <= 0x7f_ffff_ffff,
    ensures
        frame.number == 0 ==> r is ReportDivideByZero,
        frame.number == 3 ==> r is YieldToScheduler,
        frame.number == 14 ==> r == ExceptionAction::PageFault(spec_page_fault(cr2, *guards)),
        frame.number != 0 && frame.number != 3 && frame.number != 14 ==> r is Halt,
{
    if frame.number == 0 {
        ExceptionAction::ReportDivideByZero
    } else if frame.number == 3 {
        ExceptionAction::YieldToScheduler
    } else if frame.number == 14 {
        ExceptionAction::PageFault(page_fault(cr2, guards))
    } else {
        ExceptionAction::Halt
    }
}

/// What an IRQ vector obliges the kernel to do: IRQ 8 is the RTC tick,
/// which acknowledges the RTC, sends EOI and enters the scheduler; every
/// other line just gets its EOI.
#[derive(Clone, Copy, PartialEq, Eq, Structural, Debug)]
pub enum IrqAction {
    RtcTickAndSchedule,
    JustEoi,
}

pub fn irq_dispatch(vec: u8) -> (r: IrqAction)
    ensures
        vec == 8 ==> r is RtcTickAndSchedule,
        vec != 8 ==> r is JustEoi,
{
    if vec == 8 {
        IrqAction::RtcTickAndSchedule
    } else {
        IrqAction::JustEoi
    }
}

/// Which PIC chips receive the end-of-interrupt byte for `irq`: the slave
/// only for cascaded lines, the master always.
pub fn irq_eoi(irq: u8) -> (r: (bool, bool))
    ensures
        r.0 == (irq >= 8),
        r.1 == true,
{
    (irq >= 8, true)
}

/// The two PIC mask registers and the remapped vector offsets.
#[derive(Clone, Copy, PartialEq, Eq, Structural, Debug)]
pub struct PicState {
    pub offset1: u8,
    pub offset2: u8,
    pub mask1: u8,
    pub mask2: u8,
}

/// Remap IRQs 0..15 to vectors 32..47 so they do not collide with CPU
/// exceptions, and mask every line.
pub fn remap(pic: &mut PicState)
    ensures
        final(pic).offset1 == PIC_IRQ_OFFSET,
        final(pic).offset2 == PIC_IRQ_OFFSET + 8,
        final(pic).mask1 == 0xff,
        final(pic).mask2 == 0xff,
{
    pic.offset1 = PIC_IRQ_OFFSET;
    pic.offset2 = PIC_IRQ_OFFSET + 8;
    pic.mask1 = 0xff;
    pic.mask2 = 0xff;
}

/// Clear the mask bit of one IRQ line so its interrupts get through.
pub fn enable_line(pic: &mut PicState, irq: u8)
    requires
        irq < 16,
    ensures
        irq < 8 ==> *final(pic) == (PicState {
            mask1: (old(pic).mask1 & !((1u8 << irq) as u8)) as u8,
            ..*old(pic)
        }),
        irq >= 8 ==> *final(pic) == (PicState {
            mask2: (old(pic).mask2 & !((1u8 << (irq - 8)) as u8)) as u8,
            ..*old(pic)
        }),
{
    if irq < 8 {
        let bit = 1u8 << irq;
        pic.mask1 = pic.mask1 & !bit;
    } else {
        let bit = 1u8 << (irq - 8);
        pic.mask2 = pic.mask2 & !bit;
    }
}

/// Set the mask bit of one IRQ line so its interrupts are held.
pub fn disable_line(pic: &mut PicState, irq: u8)
    requires
        irq < 16,
    ensures
        irq < 8 ==> *final(pic) == (PicState {
            mask1: (old(pic).mask1 | ((1u8 << irq) as u8)) as u8,
            ..*old(pic)
        }),
        irq >= 8 ==> *final(pic) == (PicState {
            mask2: (old(pic).mask2 | ((1u8 << (irq - 8)) as u8)) as u8,
            ..*old(pic)
        }),
{
    if irq < 8 {
        let bit = 1u8 << irq;
        pic.mask1 = pic.mask1 | bit;
    } else {
        let bit = 1u8 << (irq - 8);
        pic.mask2 = pic.mask2 | bit;
    }
}

/// The RTC's register file, as far as the kernel programs it.
#[derive(Clone, Copy, PartialEq, Eq, Structural, Debug)]
pub struct RtcState {
    pub reg_a: u8,
    pub reg_b: u8,
}

/// The periodic-interrupt enable bit of register B.
pub const RTC_INTERRUPT_ENABLE: u8 = 0x40;

/// The rate code for the 2 Hz periodic tick.
pub const RTC_RATE: u8 = 15;

/// Program the RTC for periodic interrupts: set the enable bit in register
/// B and the tick rate in the low four bits of register A.
pub fn rtc_init(rtc: &mut RtcState)
    ensures
        final(rtc).reg_b == old(rtc).reg_b | RTC_INTERRUPT_ENABLE,
        final(rtc).reg_a == (old(rtc).reg_a & 0xf0) | RTC_RATE,
{
    rtc.reg_b = rtc.reg_b | RTC_INTERRUPT_ENABLE;
    rtc.reg_a = (rtc.reg_a & 0xf0) | RTC_RATE;
}

/// Whether the UART line-status byte says a byte is waiting to be read.
pub fn uart_can_read(lsr: u8) -> (r: bool)
    ensures
        r == (lsr & 0x01 != 0),
{
    lsr & 0x01 != 0
}

/// Whether the UART line-status byte says the transmitter is idle.
pub fn uart_can_write(lsr: u8) -> (r: bool)
    ensures
        r == (lsr & 0x20 != 0),
{
    lsr & 0x20 != 0
}

} // verus!
