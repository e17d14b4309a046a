// The kernel address space, the scheduler, the loader and the syscall
// layer, exercised end to end on a small machine.

use kote::addr::VirtAddr;
use kote::arch::{KERNEL_BASE, USER_STACK_START};
use kote::bootinfo::{MemoryMap, Region};
use kote::interrupts::{self, GuardPages, PageFaultDiagnosis};
use kote::mm;
use kote::pg_alloc;
use kote::process::{Process, State};
use kote::sched::{Scheduler, TaskSwitch};
use kote::syscalls::{self, SyscallArgs, SyscallOutcome};

fn allocator(frames: u64) -> pg_alloc::PageAllocator {
    let mmap = MemoryMap { entries: vec![Region { start: 0, end: frames * 4096 }] };
    pg_alloc::init(frames as usize, &mmap)
}

/// A minimal valid ELF64 EXEC image: one PT_LOAD segment at 0x40_0000 with
/// the given file bytes and memory size.
fn tiny_elf(entry: u64, file_bytes: &[u8], memsz: u64) -> Vec<u8> {
    let mut elf = vec![0u8; 64 + 56 + file_bytes.len()];
    elf[0] = 0x7f;
    elf[1] = b'E';
    elf[2] = b'L';
    elf[3] = b'F';
    elf[4] = 2; // 64-bit
    elf[5] = 1; // little-endian
    elf[7] = 0; // System-V
    elf[16..18].copy_from_slice(&2u16.to_le_bytes()); // ET_EXEC
    elf[18..20].copy_from_slice(&62u16.to_le_bytes()); // EM_X86_64
    elf[20..24].copy_from_slice(&1u32.to_le_bytes()); // EV_CURRENT
    elf[24..32].copy_from_slice(&entry.to_le_bytes());
    elf[32..40].copy_from_slice(&64u64.to_le_bytes()); // e_phoff
    elf[54..56].copy_from_slice(&56u16.to_le_bytes()); // e_phentsize
    elf[56..58].copy_from_slice(&1u16.to_le_bytes()); // e_phnum
    // Program header at offset 64.
    elf[64..68].copy_from_slice(&1u32.to_le_bytes()); // PT_LOAD
    elf[68..72].copy_from_slice(&5u32.to_le_bytes()); // PF_R | PF_X
    elf[72..80].copy_from_slice(&120u64.to_le_bytes()); // p_offset
    elf[80..88].copy_from_slice(&0x40_0000u64.to_le_bytes()); // p_vaddr
    elf[96..104].copy_from_slice(&(file_bytes.len() as u64).to_le_bytes()); // p_filesz
    elf[104..112].copy_from_slice(&memsz.to_le_bytes()); // p_memsz
    elf[120..].copy_from_slice(file_bytes);
    elf
}

#[test]
fn elf_header_validation() {
    let good = tiny_elf(0x40_0000, &[0x90, 0x90], 2);
    assert!(kote::elf::parse_ehdr(&good).is_ok());

    let mut bad_magic = good.clone();
    bad_magic[1] = b'F';
    assert_eq!(kote::elf::parse_ehdr(&bad_magic), Err(kote::elf::ElfError::BadMagic));

    let mut bad_class = good.clone();
    bad_class[4] = 1;
    assert_eq!(kote::elf::parse_ehdr(&bad_class), Err(kote::elf::ElfError::BadClass));

    let mut bad_machine = good.clone();
    bad_machine[18] = 0x03;
    assert_eq!(kote::elf::parse_ehdr(&bad_machine), Err(kote::elf::ElfError::BadMachine));

    let short = vec![0u8; 10];
    assert_eq!(kote::elf::parse_ehdr(&short), Err(kote::elf::ElfError::TooShort));
}

#[test]
fn le_readers() {
    let b = vec![0x78, 0x56, 0x34, 0x12, 0xaa, 0xbb, 0xcc, 0xdd, 0x01];
    assert_eq!(kote::elf::read_le_u16(&b, 0), 0x5678);
    assert_eq!(kote::elf::read_le_u32(&b, 0), 0x12345678);
    assert_eq!(kote::elf::read_le_u64(&b, 1), 0x01dd_ccbb_aa12_3456);
}

// Loading an image whose memory size exceeds its file size zero-fills the
// tail (observed through the new directory).
#[test]
fn load_zero_fills_tail() {
    let mut a = allocator(512);
    let elf = tiny_elf(0x40_0000, &[1, 2, 3], 64);
    let p = Process::from_elf("fixture", &elf, &mut a).unwrap();
    assert_eq!(p.registers.rip, 0x40_0000);
    assert!(matches!(p.state, State::Runnable));
    let read = |dir: &kote::mmu::PageMapLevel4, a: &pg_alloc::PageAllocator, va: u64| -> u8 {
        let pa = dir.translate_addr(VirtAddr(va)).unwrap();
        a.read_byte((pa / 4096) as usize, (pa % 4096) as usize)
    };
    assert_eq!(read(&p.root_dir, &a, 0x40_0000), 1);
    assert_eq!(read(&p.root_dir, &a, 0x40_0001), 2);
    assert_eq!(read(&p.root_dir, &a, 0x40_0002), 3);
    for off in 3..64 {
        assert_eq!(read(&p.root_dir, &a, 0x40_0000 + off), 0);
    }
}

// Each loader rejection, on an input built to provoke exactly it.
#[test]
fn load_segment_error_variants() {
    let elf = vec![0u8; 256];
    let ph = kote::elf::Elf64Phdr {
        p_type: 1,
        p_flags: 6,
        p_offset: 0,
        p_vaddr: 0x40_0000,
        p_paddr: 0,
        p_filesz: 4,
        p_memsz: 8,
        p_align: 4096,
    };

    // A second segment over the same page: Overlap.
    let mut a = allocator(512);
    let mut dir = kote::mmu::PageMapLevel4::new(&mut a);
    assert_eq!(kote::process::load_segment(&mut dir, &mut a, &elf, &ph), Ok(()));
    assert_eq!(
        kote::process::load_segment(&mut dir, &mut a, &elf, &ph),
        Err(kote::elf::ElfError::Overlap)
    );

    // An exhausted allocator: OutOfMemory.
    let mut tiny = allocator(4);
    let mut dir2 = kote::mmu::PageMapLevel4::new(&mut tiny);
    assert_eq!(
        kote::process::load_segment(&mut dir2, &mut tiny, &elf, &ph),
        Err(kote::elf::ElfError::OutOfMemory)
    );

    // An oversized segment: BadSegment.
    let mut big = ph;
    big.p_memsz = 0x1000_0001;
    let mut a3 = allocator(512);
    let mut dir3 = kote::mmu::PageMapLevel4::new(&mut a3);
    assert_eq!(
        kote::process::load_segment(&mut dir3, &mut a3, &elf, &big),
        Err(kote::elf::ElfError::BadSegment)
    );
}

#[test]
fn writable_and_executable_segment_refused() {
    let mut a = allocator(512);
    let mut elf = tiny_elf(0x40_0000, &[1], 1);
    elf[68..72].copy_from_slice(&7u32.to_le_bytes()); // PF_R | PF_W | PF_X
    assert!(matches!(
        Process::from_elf("fixture", &elf, &mut a),
        Err(kote::elf::ElfError::BadSegment)
    ));
}

// The write syscall: success on a user buffer, ERR_NO_PERMISSIONS on a
// kernel pointer, ERR_BAD_ARGS on invalid UTF-8.
#[test]
fn write_syscall_validation() {
    let mut a = allocator(512);
    let elf = tiny_elf(0x40_0000, &[0x90], 1);
    let p = Process::from_elf("fixture", &elf, &mut a).unwrap();

    // Plant "hi!" on the user stack (writable and user-accessible).
    let msg = USER_STACK_START;
    let pa = p.root_dir.translate_addr(VirtAddr(msg)).unwrap();
    for (i, b) in b"hi!".iter().enumerate() {
        a.write_byte((pa / 4096) as usize, (pa % 4096) as usize + i, *b);
    }

    let ok = SyscallArgs { number: 1, arg1: msg, arg2: 3, arg3: 0, arg4: 0 };
    let (code, out) = syscalls::write(&ok, &p.root_dir, &a);
    assert_eq!(code, syscalls::SYSR_OK);
    assert_eq!(out.unwrap(), b"hi!".to_vec());

    // A kernel-space pointer is rejected without touching the console.
    let kernel_ptr = SyscallArgs {
        number: 1,
        arg1: KERNEL_BASE,
        arg2: 800_000,
        arg3: 0,
        arg4: 0,
    };
    let (code, out) = syscalls::write(&kernel_ptr, &p.root_dir, &a);
    assert_eq!(code, syscalls::SYSR_ERR_NO_PERMISSIONS);
    assert!(out.is_none());

    // A non-UTF-8 byte is rejected as bad arguments.
    a.write_byte((pa / 4096) as usize, (pa % 4096) as usize, 0xff);
    let bad = SyscallArgs { number: 1, arg1: msg, arg2: 1, arg3: 0, arg4: 0 };
    let (code, out) = syscalls::write(&bad, &p.root_dir, &a);
    assert_eq!(code, syscalls::SYSR_ERR_BAD_ARGS);
    assert!(out.is_none());

    // Unknown syscall numbers are bad arguments; yield schedules.
    let unknown = SyscallArgs { number: 9, arg1: 0, arg2: 0, arg3: 0, arg4: 0 };
    let (outcome, _) = syscalls::syscall_dispatch(&unknown, &p.root_dir, &a);
    assert_eq!(outcome, SyscallOutcome::Done(syscalls::SYSR_ERR_BAD_ARGS));
    let y = SyscallArgs { number: 0, arg1: 0, arg2: 0, arg3: 0, arg4: 0 };
    let (outcome, _) = syscalls::syscall_dispatch(&y, &p.root_dir, &a);
    assert_eq!(outcome, SyscallOutcome::Schedule);
}

// In a ring of N always-runnable processes, N consecutive scheduling steps
// visit every process exactly once.
#[test]
fn scheduler_fairness() {
    let mut a = allocator(2048);
    let elf = tiny_elf(0x40_0000, &[0x90], 1);
    let mut sched = Scheduler::new(8);
    for name in ["one", "two", "three", "four"] {
        sched.processes.push_back(Process::from_elf(name, &elf, &mut a).unwrap());
    }
    // Make slot 0 the running process.
    sched.set_current(0);
    let mut visited = vec![false; 4];
    for _ in 0..4 {
        match sched.next() {
            TaskSwitch::NewTask(idx) => {
                assert!(!visited[idx]);
                visited[idx] = true;
            }
            other => panic!("expected a new task, got {:?}", other),
        }
    }
    assert!(visited.iter().all(|v| *v));
}

#[test]
fn scheduler_idles_without_runnable_processes() {
    let sched = Scheduler::new(4);
    assert_eq!(sched.get_next(), TaskSwitch::Idle);
}

// The kernel root directory: identity window minus the guard pages, and
// the page-fault triage that recognizes them.
#[test]
fn kernel_dir_guard_pages() {
    let mut a = allocator(16384);
    let guards = GuardPages {
        stack_guard_top: 0x20_0000,
        stack_guard_bot: 0x40_0000,
        int_stack_guard_bot: 0x60_0000,
        priv_stack_guard_bot: 0x80_0000,
    };
    let dir = mm::create_kern_root_dir(&mut a, 4096, &guards);
    // Identity translation everywhere but the guards.
    for pa in [0u64, 0x1000, 0x12_3456, 0x20_1000, 0xa0_0000] {
        assert_eq!(dir.translate_addr(VirtAddr(KERNEL_BASE + pa)), Some(pa));
    }
    // The guard pages do not translate at all.
    for g in [0x20_0000u64, 0x40_0000, 0x60_0000, 0x80_0000] {
        assert_eq!(dir.translate_addr(VirtAddr(KERNEL_BASE + g)), None);
    }
    // A fault inside the top guard is diagnosed as a stack overflow.
    assert_eq!(
        interrupts::page_fault(KERNEL_BASE + 0x20_0123, &guards),
        PageFaultDiagnosis::StackOverflow
    );
    assert_eq!(
        interrupts::page_fault(KERNEL_BASE + 0x40_0fff, &guards),
        PageFaultDiagnosis::StackUnderflow
    );
    assert_eq!(
        interrupts::page_fault(KERNEL_BASE + 0x123_4567, &guards),
        PageFaultDiagnosis::Other
    );
}

#[test]
fn idt_and_pic_encodings() {
    let e = interrupts::create_idt_entry(0x1234_5678_9abc_def0, true, true);
    assert_eq!(e.handler_addr_low, 0xdef0);
    assert_eq!(e.handler_addr_mid, 0x9abc);
    assert_eq!(e.handler_addr_top, 0x1234_5678);
    assert_eq!(e.gdt_selector, 8);
    assert_eq!(e.attributes, 0x8f00);
    let i = interrupts::create_idt_entry(0, true, false);
    assert_eq!(i.attributes, 0x8e00);

    let mut pic = interrupts::PicState { offset1: 0, offset2: 0, mask1: 0, mask2: 0 };
    interrupts::remap(&mut pic);
    assert_eq!((pic.offset1, pic.offset2), (32, 40));
    assert_eq!((pic.mask1, pic.mask2), (0xff, 0xff));
    interrupts::enable_line(&mut pic, 2);
    assert_eq!(pic.mask1, 0xfb);
    interrupts::enable_line(&mut pic, 8);
    assert_eq!(pic.mask2, 0xfe);
    interrupts::disable_line(&mut pic, 2);
    assert_eq!(pic.mask1, 0xff);

    let mut rtc = interrupts::RtcState { reg_a: 0x25, reg_b: 0 };
    interrupts::rtc_init(&mut rtc);
    assert_eq!(rtc.reg_b, 0x40);
    assert_eq!(rtc.reg_a, 0x2f);

    assert!(interrupts::uart_can_read(0x01));
    assert!(!interrupts::uart_can_read(0x20));
    assert!(interrupts::uart_can_write(0x20));

    assert_eq!(interrupts::irq_eoi(8), (true, true));
    assert_eq!(interrupts::irq_eoi(1), (false, true));
}

#[test]
fn exception_dispatch_decisions() {
    let guards = GuardPages {
        stack_guard_top: 0x20_0000,
        stack_guard_bot: 0x40_0000,
        int_stack_guard_bot: 0x60_0000,
        priv_stack_guard_bot: 0x80_0000,
    };
    let mut frame = kote::arch::RegisterFrame::zeroed();
    frame.number = 3;
    assert_eq!(
        interrupts::exception_dispatch(&frame, &guards, 0),
        interrupts::ExceptionAction::YieldToScheduler
    );
    frame.number = 14;
    assert_eq!(
        interrupts::exception_dispatch(&frame, &guards, kote::arch::KERNEL_BASE + 0x20_0008),
        interrupts::ExceptionAction::PageFault(PageFaultDiagnosis::StackOverflow)
    );
    frame.number = 13;
    assert_eq!(
        interrupts::exception_dispatch(&frame, &guards, 0),
        interrupts::ExceptionAction::Halt
    );
    assert!(interrupts::exception_has_handler(0));
    assert!(!interrupts::exception_has_handler(13));
    assert!(matches!(interrupts::irq_dispatch(8), interrupts::IrqAction::RtcTickAndSchedule));
    assert!(matches!(interrupts::irq_dispatch(1), interrupts::IrqAction::JustEoi));
}

#[test]
fn tss_and_star() {
    let (low, top) = kote::arch::create_tss_descriptors(0x1122_3344_5566_7788, 104);
    assert_eq!(top, 0x1122_3344);
    assert_eq!(low & 0xffff, 104);
    assert_eq!((low >> 16) & 0xffff, 0x7788);
    assert_eq!((low >> 40) & 0xf, 0x9);
    assert_eq!((low >> 47) & 1, 1);
    let star = kote::arch::star_value();
    assert_eq!((star >> 32) & 0xfffc, 8);
    let f = kote::arch::RegisterFrame::new_userspace();
    let iret = kote::arch::iret_frame(&f);
    assert_eq!(iret, vec![f.ss, f.rsp, f.rflags, f.cs, f.rip]);
}
