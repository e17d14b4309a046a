//! Processes and the ELF loader: building a fresh user address space,
//! loading the program's segments into it, and initializing the register
//! frame that first enters ring 3.

use vstd::prelude::*;
use crate::addr::{PhysAddr, VirtAddr};
use crate::arch::{RegisterFrame, KERNEL_BASE, USER_STACK_START, USER_STACK_SIZE};
use crate::elf::{self, Elf64Phdr, ElfError, PT_LOAD, PF_W, PF_X, PHDR_SIZE};
use crate::mmu::{PageMapLevel4, PRESENT, WRITABLE, USER_ACCESSIBLE, ADDR_MASK};
use crate::units::PAGE_SIZE;
use crate::pg_alloc::PageAllocator;

verus! {

/// What a process is doing, from the scheduler's point of view.  Only the
/// scheduler changes it.
#[derive(Clone, Copy, PartialEq, Eq, Structural, Debug)]
pub enum State {
    Runnable,
    Running,
    Stopped,
}

/// One user task: its address space, its saved registers, and its state.
pub struct Process {
    pub name: &'static str,
    pub root_dir: PageMapLevel4,
    pub registers: RegisterFrame,
    pub state: State,
}

impl Process {
    pub open spec fn wf(self) -> bool {
        self.root_dir.wf()
    }

    /// Build a process from an in-memory ELF image: a fresh root directory
    /// preseeded with the kernel's higher-half mapping and a user stack,
    /// the image's loadable segments copied in, and a ring-3 register
    /// frame whose program counter is the image's entry point.
    pub fn from_elf(name: &'static str, elf_bytes: &Vec<u8>, alloc: &mut PageAllocator) -> (r:
        Result<Process, ElfError>)
        requires
            old(alloc).wf(),
            old(alloc).num_frames() * PAGE_SIZE <= 0x10_0000_0000_0000,
        ensures
            final(alloc).wf(),
            final(alloc).num_frames() == old(alloc).num_frames(),
            (match r {
                Ok(p) => {
                    &&& p.wf()
                    &&& p.state is Runnable
                    &&& p.registers.user_resumable()
                    &&& p.registers.rip == elf::le_u64_of(elf_bytes@, 24)
                    &&& p.registers.rsp == USER_STACK_START + USER_STACK_SIZE - 16
                    &&& elf::header_valid(elf_bytes@)
                    &&& forall|t: int|
                        0 <= t < elf::le_u16_of(elf_bytes@, 56) && (#[trigger] elf::phdr_at(
                            elf_bytes@,
                            elf::le_u64_of(elf_bytes@, 32) + t * PHDR_SIZE,
                        )).p_type == PT_LOAD ==> segment_loaded(
                            p.root_dir,
                            *final(alloc),
                            elf_bytes@,
                            elf::phdr_at(
                                elf_bytes@,
                                elf::le_u64_of(elf_bytes@, 32) + t * PHDR_SIZE,
                            ),
                        )
                },
                Err(_) => true,
            }),
            old(alloc).free_count() >= 2 * KERN_PRESEED_LPAGES + 4 * (USER_STACK_SIZE as int
                / PAGE_SIZE as int) + 1 && elf::header_valid(elf_bytes@) && elf::phdrs_in_bounds(
                elf_bytes@,
            ) && elf::le_u16_of(elf_bytes@, 56) == 0 ==> r is Ok,
    {
        let dir_or = new_userspace_root_dir(alloc);
        let mut dir = match dir_or {
            Some(d) => d,
            None => {
                return Err(ElfError::OutOfMemory);
            },
        };
        let entry = match load(&mut dir, alloc, elf_bytes) {
            Ok(e) => e,
            Err(err) => {
                return Err(err);
            },
        };
        let mut registers = RegisterFrame::new_userspace();
        registers.set_program_counter(entry);
        proof {
            assert(0x200u64 & 0x200u64 != 0) by (bit_vector);
        }
        Ok(Process { name, root_dir: dir, registers, state: State::Runnable })
    }
}

/// How many 2 MiB pages of the higher half a fresh user directory maps
/// onto the start of physical memory, so that kernel code keeps resolving
/// after a CR3 switch.
pub const KERN_PRESEED_LPAGES: usize = 64;

/// A fresh user root directory: the kernel's higher-half window mapped
/// kernel-only (present and writable but not user-accessible), and the
/// user stack backed by fresh writable user pages.  Returns `None` when
/// the allocator cannot supply the frames.
pub fn new_userspace_root_dir(alloc: &mut PageAllocator) -> (r: Option<PageMapLevel4>)
    requires
        old(alloc).wf(),
        old(alloc).num_frames() * PAGE_SIZE <= 0x10_0000_0000_0000,
    ensures
        final(alloc).wf(),
        final(alloc).num_frames() == old(alloc).num_frames(),
        r is None <==> old(alloc).free_count() < 2 * KERN_PRESEED_LPAGES + 4 * (
        USER_STACK_SIZE as int / PAGE_SIZE as int) + 1,
        (match r {
            Some(dir) => {
                &&& dir.wf()
                &&& forall|p: u64|
                    USER_STACK_START <= p < USER_STACK_START + USER_STACK_SIZE && p % PAGE_SIZE
                        == 0 ==> (match #[trigger] dir.leaf_4k(p) {
                        Some(e) => crate::mmu::present(e) && e & USER_ACCESSIBLE != 0 && e
                            & WRITABLE != 0,
                        None => false,
                    })
                &&& forall|a: u64|
                    KERNEL_BASE <= a < KERNEL_BASE + KERN_PRESEED_LPAGES * 0x20_0000
                        ==> !(#[trigger] dir.page_user_accessible(a))
            },
            None => true,
        }),
{
    if alloc.free_list_len() < 2 * KERN_PRESEED_LPAGES + 4 * (USER_STACK_SIZE / PAGE_SIZE) as usize
        + 1 {
        return None;
    }
    let mut dir = PageMapLevel4::new(alloc);
    proof {
        assert(KERNEL_BASE as int % (crate::units::PAGE_SIZE_LARGE as int) == 0);
    }
    dir.map_region_large(
        alloc,
        VirtAddr(KERNEL_BASE),
        PhysAddr(0),
        KERN_PRESEED_LPAGES,
        PRESENT | WRITABLE,
    );
    proof {
        assert forall|p: u64|
            KERNEL_BASE <= p < KERNEL_BASE + KERN_PRESEED_LPAGES * 0x20_0000 && p % 0x20_0000 == 0
                implies (match #[trigger] dir.leaf_2m(p) {
            Some(e) => e & USER_ACCESSIBLE == 0,
            None => false,
        }) by {
            assert(dir.l2_entry(p) == Some(
                ((((0 + (p - KERNEL_BASE)) as u64) | (PRESENT | WRITABLE))
                    | crate::mmu::LARGE) as u64,
            ));
            let x = (p - KERNEL_BASE) as u64;
            assert(x % 0x20_0000 == 0) by (nonlinear_arith)
                requires
                    x == p - KERNEL_BASE && p as int % 0x20_0000 == 0 && KERNEL_BASE as int
                        % 0x20_0000 == 0 && p >= KERNEL_BASE;
            assert((((x | (1u64 | 2u64)) | 0x80u64) & 1u64) != 0 && (((x | (1u64 | 2u64))
                | 0x80u64) & 0x80u64) != 0 && (((x | (1u64 | 2u64)) | 0x80u64) & 4u64)
                == 0) by (bit_vector)
                requires x % 0x20_0000 == 0;
        }
    }
    proof {
        assert(USER_STACK_START as int % (crate::units::PAGE_SIZE as int) == 0
            && USER_STACK_SIZE as int % (crate::units::PAGE_SIZE as int) == 0);
        assert((2u64 | 4u64) & 0xf_ffff_ffff_f000u64 == 0) by (bit_vector);
        assert forall|p: u64|
            USER_STACK_START <= p < USER_STACK_START + USER_STACK_SIZE && p % PAGE_SIZE == 0
                implies (#[trigger] dir.leaf_4k(p)) is None && dir.leaf_2m(p) is None by {
            lemma_low_half_untouched(dir, p);
        }
    }
    proof {
        assert((2u64 | 4u64) & 0xf_ffff_ffff_f000u64 == 0) by (bit_vector);
    }
    dir.alloc_range_aligned(alloc, VirtAddr(USER_STACK_START), USER_STACK_SIZE, WRITABLE | USER_ACCESSIBLE);
    proof {
        assert forall|a: u64|
            KERNEL_BASE <= a < KERNEL_BASE + KERN_PRESEED_LPAGES * 0x20_0000 implies !(
        #[trigger] dir.page_user_accessible(a)) by {
            lemma_kernel_window_not_user(dir, a);
        }
        assert forall|p: u64|
            USER_STACK_START <= p < USER_STACK_START + USER_STACK_SIZE && p % PAGE_SIZE == 0
                implies (match #[trigger] dir.leaf_4k(p) {
            Some(e) => crate::mmu::present(e) && e & USER_ACCESSIBLE != 0 && e & WRITABLE != 0,
            None => false,
        }) by {
            let e = dir.leaf_4k(p)->Some_0;
            let ea = crate::mmu::entry_addr(e);
            if dir.leaf_4k(p) is Some {
                let ea64 = ea;
                assert((((ea64 | (2u64 | 4u64)) | 1u64) & 4u64) != 0 && (((ea64 | (2u64 | 4u64))
                    | 1u64) & 2u64) != 0) by (bit_vector);
            }
        }
    }
    Some(dir)
}

/// A stack page lies in the low half, which the kernel-window mapping
/// never touches; in a directory whose only mappings so far are the
/// higher-half window, its path is absent.
proof fn lemma_low_half_untouched(dir: PageMapLevel4, p: u64)
    requires
        forall|va2: u64|
            !crate::mmu::in_mapped_2m_range(va2, KERNEL_BASE, KERN_PRESEED_LPAGES as int) ==> (
            #[trigger] dir.l1_entry(va2)) is None && dir.leaf_2m(va2) is None,
        p < 0x8000_0000_0000,
    ensures
        dir.leaf_4k(p) is None,
        dir.leaf_2m(p) is None,
{
    lemma_low_half_not_in_kernel_window(p);
}

/// Low-half addresses are in no slot of the kernel window: their level-4
/// index is below 256, the window's is at least 256.
proof fn lemma_low_half_not_in_kernel_window(a: u64)
    requires
        a < 0x8000_0000_0000,
    ensures
        !crate::mmu::in_mapped_2m_range(a, KERNEL_BASE, KERN_PRESEED_LPAGES as int),
{
    crate::mmu::lemma_kernel_window_slots(a);
}

/// Addresses inside the freshly mapped kernel window are mapped by large
/// leaves without the user bit, so they are not user-accessible.
proof fn lemma_kernel_window_not_user(dir: PageMapLevel4, a: u64)
    requires
        KERNEL_BASE <= a < KERNEL_BASE + KERN_PRESEED_LPAGES * 0x20_0000,
        forall|p: u64|
            KERNEL_BASE <= p < KERNEL_BASE + KERN_PRESEED_LPAGES * 0x20_0000 && p % 0x20_0000 == 0
                ==> (match #[trigger] dir.leaf_2m(p) {
                Some(e) => e & USER_ACCESSIBLE == 0,
                None => false,
            }),
    ensures
        !dir.page_user_accessible(a),
{
    crate::mmu::lemma_window_address_user_bit(dir, a, KERNEL_BASE, KERN_PRESEED_LPAGES as int);
}

/// Load every `PT_LOAD` segment of a validated ELF image into `dir` and
/// return the image's entry point.
pub fn load(dir: &mut PageMapLevel4, alloc: &mut PageAllocator, elf_bytes: &Vec<u8>) -> (r: Result<
    u64,
    ElfError,
>)
    requires
        old(dir).wf(),
        old(alloc).wf(),
        old(alloc).num_frames() * PAGE_SIZE <= 0x10_0000_0000_0000,
    ensures
        final(dir).wf(),
        final(alloc).wf(),
        final(alloc).num_frames() == old(alloc).num_frames(),
        r is Ok ==> elf::header_valid(elf_bytes@) && elf::phdrs_in_bounds(elf_bytes@),
        (match r {
            Ok(entry) => entry == elf::le_u64_of(elf_bytes@, 24),
            Err(_) => true,
        }),
        elf::header_valid(elf_bytes@) && elf::phdrs_in_bounds(elf_bytes@) && elf::le_u16_of(
            elf_bytes@,
            56,
        ) == 0 ==> r is Ok,
        r is Ok ==> forall|t: int|
            0 <= t < elf::le_u16_of(elf_bytes@, 56) && (#[trigger] elf::phdr_at(
                elf_bytes@,
                elf::le_u64_of(elf_bytes@, 32) + t * PHDR_SIZE,
            )).p_type == PT_LOAD ==> segment_loaded(
                *final(dir),
                *final(alloc),
                elf_bytes@,
                elf::phdr_at(elf_bytes@, elf::le_u64_of(elf_bytes@, 32) + t * PHDR_SIZE),
            ),
{
    let ehdr = match elf::parse_ehdr(elf_bytes) {
        Ok(h) => h,
        Err(e) => {
            return Err(e);
        },
    };
    let mut i: usize = 0;
    let n = ehdr.e_phnum as usize;
    while i < n
        invariant
            dir.wf(),
            alloc.wf(),
            alloc.num_frames() == old(alloc).num_frames(),
            alloc.num_frames() * PAGE_SIZE <= 0x10_0000_0000_0000,
            n == elf::le_u16_of(elf_bytes@, 56),
            elf::le_u64_of(elf_bytes@, 32) + n * PHDR_SIZE <= elf_bytes@.len(),
            elf::le_u64_of(elf_bytes@, 32) == ehdr.e_phoff,
            ehdr.e_phoff + n * PHDR_SIZE <= elf_bytes.len(),
            forall|t: int|
                0 <= t < i && (#[trigger] elf::phdr_at(
                    elf_bytes@,
                    ehdr.e_phoff + t * PHDR_SIZE,
                )).p_type == PT_LOAD ==> segment_loaded(
                    *dir,
                    *alloc,
                    elf_bytes@,
                    elf::phdr_at(elf_bytes@, ehdr.e_phoff + t * PHDR_SIZE),
                ) && (elf::phdr_at(elf_bytes@, ehdr.e_phoff + t * PHDR_SIZE).p_memsz == 0
                    || seg_static_ok(
                    elf_bytes@,
                    elf::phdr_at(elf_bytes@, ehdr.e_phoff + t * PHDR_SIZE),
                )),
        decreases n - i,
    {
        proof {
            assert(ehdr.e_phoff + (i + 1) * PHDR_SIZE <= ehdr.e_phoff + n * PHDR_SIZE
                && i * PHDR_SIZE + PHDR_SIZE == (i + 1) * PHDR_SIZE) by (nonlinear_arith)
                requires 0 <= i < n && PHDR_SIZE > 0;
        }
        let off = (ehdr.e_phoff + (i as u64) * PHDR_SIZE) as usize;
        let phdr = elf::parse_phdr(elf_bytes, off);
        let ghost dpre = *dir;
        let ghost apre = *alloc;
        if phdr.p_type == PT_LOAD {
            match load_segment(dir, alloc, elf_bytes, &phdr) {
                Ok(()) => {},
                Err(e) => {
                    return Err(e);
                },
            }
            proof {
                assert(phdr == elf::phdr_at(elf_bytes@, ehdr.e_phoff + i * PHDR_SIZE));
                assert forall|t: int|
                    0 <= t < i + 1 && (#[trigger] elf::phdr_at(
                        elf_bytes@,
                        ehdr.e_phoff + t * PHDR_SIZE,
                    )).p_type == PT_LOAD implies segment_loaded(
                    *dir,
                    *alloc,
                    elf_bytes@,
                    elf::phdr_at(elf_bytes@, ehdr.e_phoff + t * PHDR_SIZE),
                ) && (elf::phdr_at(elf_bytes@, ehdr.e_phoff + t * PHDR_SIZE).p_memsz == 0
                    || seg_static_ok(
                    elf_bytes@,
                    elf::phdr_at(elf_bytes@, ehdr.e_phoff + t * PHDR_SIZE),
                )) by {
                    if t < i {
                        lemma_segment_loaded_preserved(
                            dpre,
                            apre,
                            *dir,
                            *alloc,
                            elf_bytes@,
                            elf::phdr_at(elf_bytes@, ehdr.e_phoff + t * PHDR_SIZE),
                        );
                    }
                }
            }
        }
        i += 1;
    }
    Ok(ehdr.e_entry)
}

/// A segment may not ask to be both writable and executable.
pub open spec fn seg_wx_ok(ph: Elf64Phdr) -> bool {
    !(ph.p_flags & PF_W != 0 && ph.p_flags & PF_X != 0)
}

/// The size, placement and file bounds a loadable segment must satisfy.
pub open spec fn seg_static_ok(elf: Seq<u8>, ph: Elf64Phdr) -> bool {
    &&& ph.p_memsz <= 0x1000_0000
    &&& ph.p_vaddr <= 0x7f_ffff_f000
    &&& ph.p_filesz <= ph.p_memsz
    &&& ph.p_offset + ph.p_filesz <= elf.len()
}

/// First page of the segment's page-rounded range.
pub open spec fn seg_base(ph: Elf64Phdr) -> int {
    crate::units::round_down(ph.p_vaddr as int, PAGE_SIZE as int)
}

/// Bytes in the segment's page-rounded range.
pub open spec fn seg_span(ph: Elf64Phdr) -> int {
    crate::units::round_up(ph.p_memsz + (ph.p_vaddr - seg_base(ph)), PAGE_SIZE as int)
}

/// Pages in the segment's page-rounded range.
pub open spec fn seg_pages(ph: Elf64Phdr) -> int {
    seg_span(ph) / (PAGE_SIZE as int)
}

/// No page of the segment's page-rounded range is mapped yet.
pub open spec fn seg_range_free(dir: PageMapLevel4, ph: Elf64Phdr) -> bool {
    forall|p: u64|
        seg_base(ph) <= p < seg_base(ph) + seg_span(ph) && p % PAGE_SIZE == 0 ==> (
        #[trigger] dir.leaf_4k(p)) is None && dir.leaf_2m(p) is None
}

/// Byte `k` of the segment is in place: its address is mapped by a
/// present user 4 KiB leaf with the permissions the flags demand, backed
/// by a live RAM frame, and reads the file byte (below `p_filesz`) or
/// zero (the rest of `p_memsz`).
pub open spec fn segment_byte_ok(
    dir: PageMapLevel4,
    alloc: PageAllocator,
    elf: Seq<u8>,
    ph: Elf64Phdr,
    k: int,
) -> bool {
    let va = (ph.p_vaddr + k) as u64;
    &&& dir.leaf_2m(va) is None
    &&& (match dir.leaf_4k(va) {
        Some(e) => {
            &&& crate::mmu::entry_addr(e) as int / (PAGE_SIZE as int) < alloc.num_frames()
            &&& alloc.refc(crate::mmu::entry_addr(e) as int / (PAGE_SIZE as int)) >= 1
            &&& e & USER_ACCESSIBLE != 0
            &&& (e & WRITABLE != 0 <==> ph.p_flags & PF_W != 0)
            &&& (e & crate::mmu::NON_EXECUTABLE != 0 <==> ph.p_flags & PF_X == 0)
        },
        None => false,
    })
    &&& crate::syscalls::virt_byte(dir, alloc, va) == (if k < ph.p_filesz {
        elf[ph.p_offset + k]
    } else {
        0u8
    })
}

/// Every byte of the segment is in place.
pub open spec fn segment_loaded(
    dir: PageMapLevel4,
    alloc: PageAllocator,
    elf: Seq<u8>,
    ph: Elf64Phdr,
) -> bool {
    forall|k: int| 0 <= k < ph.p_memsz ==> #[trigger] segment_byte_ok(dir, alloc, elf, ph, k)
}

/// An address and its containing page read the same descriptors.
proof fn lemma_va_page_entries(dir: PageMapLevel4, va: u64, page: u64)
    requires
        page % 4096 == 0,
        page <= va < page + 4096,
    ensures
        dir.l1_entry(va) == dir.l1_entry(page),
        dir.l2_entry(va) == dir.l2_entry(page),
        dir.leaf_4k(va) == dir.leaf_4k(page),
        dir.leaf_2m(va) == dir.leaf_2m(page),
{
    crate::mmu::lemma_same_slot_in_page(page, va);
    crate::mmu::lemma_entries_same_slot(dir, va, page);
}

/// The byte an address mapped by a present 4 KiB leaf reads: the byte at
/// its offset within the leaf's frame.
proof fn lemma_mapped_byte(d: PageMapLevel4, a: PageAllocator, va: u64)
    requires
        a.wf(),
        d.leaf_4k(va) is Some,
        d.leaf_2m(va) is None,
        crate::mmu::entry_addr(d.leaf_4k(va)->Some_0) as int / (PAGE_SIZE as int)
            < a.num_frames(),
    ensures
        crate::syscalls::virt_byte(d, a, va) == a.bytes(
            crate::mmu::entry_addr(d.leaf_4k(va)->Some_0) as int / (PAGE_SIZE as int),
        )[crate::mmu::page_offset(va)],
{
    let e = d.leaf_4k(va)->Some_0;
    let ea = crate::mmu::entry_addr(e);
    crate::mmu::lemma_entry_addr_aligned(e);
    crate::mmu::lemma_l1_some_l2_some(d, va);
    let poff = crate::mmu::page_offset(va);
    crate::units::lemma_mod_range(va as int, 4096);
    assert(d.translate(va) == Some(ea + poff));
    let f = ea as int / (PAGE_SIZE as int);
    assert((ea + poff) / (PAGE_SIZE as int) == f && (ea + poff) % (PAGE_SIZE as int)
        == poff) by (nonlinear_arith)
        requires
            ea as int % 4096 == 0,
            0 <= poff < 4096,
            f == ea as int / 4096,
            PAGE_SIZE == 4096,
            ea >= 0;
}

/// The permission word built from segment flags: user-visible and
/// present, writable and no-execute exactly as the flags say, and empty
/// in the address field.
proof fn lemma_flags_bits(pf: u32)
    ensures
        elf::spec_flags_to_permissions(pf) & ADDR_MASK == 0,
        elf::spec_flags_to_permissions(pf) & USER_ACCESSIBLE != 0,
        (elf::spec_flags_to_permissions(pf) & WRITABLE != 0 <==> pf & PF_W != 0),
        (elf::spec_flags_to_permissions(pf) & crate::mmu::NON_EXECUTABLE != 0 <==> pf & PF_X
            == 0),
{
    assert((((1u64 | 4u64)) & 0xf_ffff_ffff_f000u64) == 0 && ((((1u64 | 4u64) | 2u64))
        & 0xf_ffff_ffff_f000u64) == 0 && ((((1u64 | 4u64) | 0x8000_0000_0000_0000u64))
        & 0xf_ffff_ffff_f000u64) == 0 && (((((1u64 | 4u64) | 2u64) | 0x8000_0000_0000_0000u64))
        & 0xf_ffff_ffff_f000u64) == 0 && ((1u64 | 4u64) & 4u64) != 0 && (((1u64 | 4u64) | 2u64)
        & 4u64) != 0 && (((1u64 | 4u64) | 0x8000_0000_0000_0000u64) & 4u64) != 0 && ((((1u64
        | 4u64) | 2u64) | 0x8000_0000_0000_0000u64) & 4u64) != 0 && ((1u64 | 4u64) & 2u64) == 0
        && (((1u64 | 4u64) | 2u64) & 2u64) != 0 && (((1u64 | 4u64) | 0x8000_0000_0000_0000u64)
        & 2u64) == 0 && ((((1u64 | 4u64) | 2u64) | 0x8000_0000_0000_0000u64) & 2u64) != 0 && ((
    1u64 | 4u64) & 0x8000_0000_0000_0000u64) == 0 && (((1u64 | 4u64) | 2u64)
        & 0x8000_0000_0000_0000u64) == 0 && (((1u64 | 4u64) | 0x8000_0000_0000_0000u64)
        & 0x8000_0000_0000_0000u64) != 0 && ((((1u64 | 4u64) | 2u64) | 0x8000_0000_0000_0000u64)
        & 0x8000_0000_0000_0000u64) != 0) by (bit_vector);
}

/// A leaf rebuilt from an aligned frame address and a permission word
/// keeps the address and shows exactly the word's permission bits.
proof fn lemma_final_leaf_bits(ea: u64, q: u64)
    requires
        ea % 4096 == 0,
        ea < 0x10_0000_0000_0000,
        q & 0xf_ffff_ffff_f000 == 0,
    ensures
        crate::mmu::entry_addr(((ea | q) | 1u64) as u64) == ea,
        crate::mmu::present(((ea | q) | 1u64) as u64),
        (((ea | q) | 1u64) & 4u64 != 0 <==> q & 4u64 != 0),
        (((ea | q) | 1u64) & 2u64 != 0 <==> q & 2u64 != 0),
        (((ea | q) | 1u64) & 0x8000_0000_0000_0000u64 != 0 <==> q & 0x8000_0000_0000_0000u64
            != 0),
{
    assert((((ea | q) | 1u64) & 0xf_ffff_ffff_f000u64) == ea && (((ea | q) | 1u64) & 1u64) != 0
        && ((((ea | q) | 1u64) & 4u64 != 0) == (q & 4u64 != 0)) && ((((ea | q) | 1u64) & 2u64
        != 0) == (q & 2u64 != 0)) && ((((ea | q) | 1u64) & 0x8000_0000_0000_0000u64 != 0) == (q
        & 0x8000_0000_0000_0000u64 != 0))) by (bit_vector)
        requires
            ea % 4096 == 0 && ea < 0x10_0000_0000_0000u64 && q & 0xf_ffff_ffff_f000u64 == 0;
}

/// Writing one byte through the leaf that backs `jva` changes the byte
/// seen at `jva` and no other byte of the freshly backed range.
proof fn lemma_range_byte_after_write(
    d1: PageMapLevel4,
    pre: PageAllocator,
    post: PageAllocator,
    aligned: u64,
    full_size: u64,
    jva: u64,
    kva: u64,
    val: u8,
)
    requires
        pre.wf(),
        post.wf(),
        post.num_frames() == pre.num_frames(),
        aligned as int % (PAGE_SIZE as int) == 0,
        full_size as int % (PAGE_SIZE as int) == 0,
        aligned + full_size < 0x8000_0000_0000,
        aligned <= jva < aligned + full_size,
        aligned <= kva < aligned + full_size,
        forall|p: u64|
            aligned <= p < aligned + full_size && p % PAGE_SIZE == 0 ==> (#[trigger] d1.leaf_4k(
                p,
            )) is Some && crate::mmu::entry_addr(d1.leaf_4k(p)->Some_0) as int / (
            PAGE_SIZE as int) < pre.num_frames() && d1.leaf_2m(p) is None,
        forall|p1: u64, p2: u64|
            aligned <= p1 < aligned + full_size && p1 % PAGE_SIZE == 0 && aligned <= p2 < aligned
                + full_size && p2 % PAGE_SIZE == 0 && p1 != p2 ==> crate::mmu::entry_addr(
                (#[trigger] d1.leaf_4k(p1))->Some_0,
            ) as int / (PAGE_SIZE as int) != crate::mmu::entry_addr(
                (#[trigger] d1.leaf_4k(p2))->Some_0,
            ) as int / (PAGE_SIZE as int),
        ({
            let jp = (crate::units::round_down(jva as int, PAGE_SIZE as int)) as u64;
            let jf = crate::mmu::entry_addr(d1.leaf_4k(jp)->Some_0) as int / (PAGE_SIZE as int);
            &&& post.bytes(jf) == pre.bytes(jf).update(jva - jp, val)
            &&& (forall|g: int|
                0 <= g < pre.num_frames() && g != jf ==> #[trigger] post.bytes(g) == pre.bytes(
                    g,
                ))
        }),
    ensures
        kva == jva ==> crate::syscalls::virt_byte(d1, post, kva) == val,
        kva != jva ==> crate::syscalls::virt_byte(d1, post, kva) == crate::syscalls::virt_byte(
            d1,
            pre,
            kva,
        ),
{
    let jp = (crate::units::round_down(jva as int, PAGE_SIZE as int)) as u64;
    let kp = (crate::units::round_down(kva as int, PAGE_SIZE as int)) as u64;
    crate::units::lemma_round_down_props(jva as int, PAGE_SIZE as int);
    crate::units::lemma_round_down_props(kva as int, PAGE_SIZE as int);
    crate::units::lemma_round_down_lb(jva as int, aligned as int, PAGE_SIZE as int);
    crate::units::lemma_round_down_lb(kva as int, aligned as int, PAGE_SIZE as int);
    lemma_va_page_entries(d1, jva, jp);
    lemma_va_page_entries(d1, kva, kp);
    let jl = d1.leaf_4k(jp)->Some_0;
    let kl = d1.leaf_4k(kp)->Some_0;
    let jf = crate::mmu::entry_addr(jl) as int / (PAGE_SIZE as int);
    let kf = crate::mmu::entry_addr(kl) as int / (PAGE_SIZE as int);
    lemma_mapped_byte(d1, pre, kva);
    lemma_mapped_byte(d1, post, kva);
    assert(crate::mmu::page_offset(kva) == kva - kp);
    assert(crate::mmu::page_offset(jva) == jva - jp);
    assert(pre.bytes(jf).len() == PAGE_SIZE);
    if kva == jva {
        assert(post.bytes(jf)[kva - kp] == val);
    } else {
        if kp == jp {
            assert(kf == jf);
            assert(kva - kp != jva - jp);
            assert(post.bytes(jf)[kva as int - kp] == pre.bytes(jf)[kva as int - kp]);
        } else {
            assert(kf != jf);
            assert(post.bytes(kf) == pre.bytes(kf));
        }
    }
}

/// A loaded segment stays loaded while its present leaves, the level-2
/// view and the live frames it rests on are untouched.
pub proof fn lemma_segment_loaded_preserved(
    pre_d: PageMapLevel4,
    pre_a: PageAllocator,
    post_d: PageMapLevel4,
    post_a: PageAllocator,
    elf: Seq<u8>,
    ph: Elf64Phdr,
)
    requires
        pre_a.wf(),
        post_a.wf(),
        pre_a.num_frames() == post_a.num_frames(),
        segment_loaded(pre_d, pre_a, elf, ph),
        ph.p_memsz == 0 || seg_static_ok(elf, ph),
        forall|va2: u64|
            va2 < 0x1_0000_0000_0000 && (#[trigger] pre_d.leaf_4k(va2)) is Some
                ==> post_d.leaf_4k(va2) == pre_d.leaf_4k(va2),
        forall|va2: u64| #[trigger] post_d.leaf_2m(va2) == pre_d.leaf_2m(va2),
        forall|g: int|
            0 <= g < pre_a.num_frames() && !pre_a.is_free(g) ==> #[trigger] post_a.refc(g)
                == pre_a.refc(g) && post_a.bytes(g) == pre_a.bytes(g) && !post_a.is_free(g),
    ensures
        segment_loaded(post_d, post_a, elf, ph),
{
    assert forall|k: int| 0 <= k < ph.p_memsz implies #[trigger] segment_byte_ok(
        post_d,
        post_a,
        elf,
        ph,
        k,
    ) by {
        assert(segment_byte_ok(pre_d, pre_a, elf, ph, k));
        let va = (ph.p_vaddr + k) as u64;
        assert(va < 0x1_0000_0000_0000);
        let e = pre_d.leaf_4k(va)->Some_0;
        let f = crate::mmu::entry_addr(e) as int / (PAGE_SIZE as int);
        if pre_a.is_free(f) {
            crate::pg_alloc::lemma_free_refc_zero(pre_a, f);
        }
        lemma_mapped_byte(pre_d, pre_a, va);
        lemma_mapped_byte(post_d, post_a, va);
    }
}


/// Copy the segment's file bytes through the freshly backed mapping, one
/// byte at a time; every other byte of the range keeps reading zero, and
/// no frame outside the range is touched.
#[verifier::rlimit(100)]
#[verifier::spinoff_prover]
fn copy_segment_bytes(
    dir: &PageMapLevel4,
    alloc: &mut PageAllocator,
    elf_bytes: &Vec<u8>,
    phdr: &Elf64Phdr,
    aligned: u64,
    full_size: u64,
    Ghost(a0): Ghost<PageAllocator>,
)
    requires
        dir.wf(),
        old(alloc).wf(),
        old(alloc).num_frames() == a0.num_frames(),
        old(alloc).num_frames() * PAGE_SIZE <= 0x10_0000_0000_0000,
        phdr.p_filesz <= phdr.p_memsz,
        phdr.p_memsz <= 0x1000_0000,
        phdr.p_vaddr <= 0x7f_ffff_f000,
        phdr.p_offset + phdr.p_filesz <= elf_bytes@.len(),
        aligned as int % (PAGE_SIZE as int) == 0,
        full_size as int % (PAGE_SIZE as int) == 0,
        aligned <= phdr.p_vaddr,
        phdr.p_vaddr + phdr.p_memsz <= aligned + full_size,
        aligned + full_size < 0x8000_0000_0000,
        forall|p: u64|
            aligned <= p < aligned + full_size && p % PAGE_SIZE == 0 ==> (match #[trigger] dir.leaf_4k(
                p,
            ) {
                Some(e) => {
                    &&& crate::mmu::present(e)
                    &&& crate::mmu::entry_addr(e) as int / (PAGE_SIZE as int) < old(alloc).num_frames()
                    &&& old(alloc).refc(crate::mmu::entry_addr(e) as int / (PAGE_SIZE as int))
                        == 1
                    &&& a0.is_free(crate::mmu::entry_addr(e) as int / (PAGE_SIZE as int))
                },
                None => false,
            }),
        forall|p: u64|
            aligned <= p < aligned + full_size && p % PAGE_SIZE == 0 ==> (#[trigger] dir.leaf_2m(
                p,
            )) is None,
        forall|p1: u64, p2: u64|
            aligned <= p1 < aligned + full_size && p1 % PAGE_SIZE == 0 && aligned <= p2 < aligned
                + full_size && p2 % PAGE_SIZE == 0 && p1 != p2 ==> crate::mmu::entry_addr(
                (#[trigger] dir.leaf_4k(p1))->Some_0,
            ) as int / (PAGE_SIZE as int) != crate::mmu::entry_addr(
                (#[trigger] dir.leaf_4k(p2))->Some_0,
            ) as int / (PAGE_SIZE as int),
        forall|k: int|
            0 <= k < phdr.p_memsz ==> #[trigger] crate::syscalls::virt_byte(
                *dir,
                *old(alloc),
                (phdr.p_vaddr + k) as u64,
            ) == 0u8,
    ensures
        final(alloc).wf(),
        final(alloc).num_frames() == old(alloc).num_frames(),
        final(alloc).infos@ == old(alloc).infos@,
        final(alloc).free_order@ == old(alloc).free_order@,
        final(alloc).free_head == old(alloc).free_head,
        forall|k: int|
            0 <= k < phdr.p_filesz ==> #[trigger] crate::syscalls::virt_byte(
                *dir,
                *final(alloc),
                (phdr.p_vaddr + k) as u64,
            ) == elf_bytes@[phdr.p_offset + k],
        forall|k: int|
            phdr.p_filesz <= k < phdr.p_memsz ==> #[trigger] crate::syscalls::virt_byte(
                *dir,
                *final(alloc),
                (phdr.p_vaddr + k) as u64,
            ) == 0u8,
        forall|g: int|
            0 <= g < final(alloc).num_frames() && !a0.is_free(g) ==> #[trigger] final(alloc).bytes(
                g,
            ) == old(alloc).bytes(g),
{
    let ghost d1 = *dir;
    let ghost a1 = *old(alloc);
    let elf_len = elf_bytes.len();
    let mut j: u64 = 0;
    let copy_len = phdr.p_filesz;
    while j < copy_len
        invariant
            dir.wf(),
            alloc.wf(),
            *dir == d1,
            alloc.num_frames() == a1.num_frames(),
            a1.num_frames() == a0.num_frames(),
            a1.num_frames() * PAGE_SIZE <= 0x10_0000_0000_0000,
            alloc.infos@ == a1.infos@,
            alloc.free_order@ == a1.free_order@,
            alloc.free_head == a1.free_head,
            a1.wf(),
            elf_bytes@.len() == elf_len,
            j <= copy_len,
            copy_len == phdr.p_filesz,
            phdr.p_filesz <= phdr.p_memsz,
            phdr.p_memsz <= 0x1000_0000,
            phdr.p_vaddr <= 0x7f_ffff_f000,
            phdr.p_offset + copy_len <= elf_bytes@.len(),
            aligned as int % (PAGE_SIZE as int) == 0,
            full_size as int % (PAGE_SIZE as int) == 0,
            aligned <= phdr.p_vaddr,
            phdr.p_vaddr + phdr.p_memsz <= aligned + full_size,
            aligned + full_size < 0x8000_0000_0000,
            forall|p: u64|
                aligned <= p < aligned + full_size && p % PAGE_SIZE == 0 ==> (match #[trigger] d1.leaf_4k(
                    p,
                ) {
                    Some(e) => {
                        &&& crate::mmu::present(e)
                        &&& crate::mmu::entry_addr(e) as int / (PAGE_SIZE as int)
                            < a1.num_frames()
                        &&& a1.refc(crate::mmu::entry_addr(e) as int / (PAGE_SIZE as int)) == 1
                        &&& a0.is_free(crate::mmu::entry_addr(e) as int / (PAGE_SIZE as int))
                    },
                    None => false,
                }),
            forall|p: u64|
                aligned <= p < aligned + full_size && p % PAGE_SIZE == 0 ==> (
                #[trigger] d1.leaf_2m(p)) is None,
            forall|p1: u64, p2: u64|
                aligned <= p1 < aligned + full_size && p1 % PAGE_SIZE == 0 && aligned <= p2
                    < aligned + full_size && p2 % PAGE_SIZE == 0 && p1 != p2
                    ==> crate::mmu::entry_addr(
                    (#[trigger] d1.leaf_4k(p1))->Some_0,
                ) as int / (PAGE_SIZE as int) != crate::mmu::entry_addr(
                    (#[trigger] d1.leaf_4k(p2))->Some_0,
                ) as int / (PAGE_SIZE as int),
            forall|k: int|
                0 <= k < j ==> #[trigger] crate::syscalls::virt_byte(
                    *dir,
                    *alloc,
                    (phdr.p_vaddr + k) as u64,
                ) == elf_bytes@[phdr.p_offset + k],
            forall|k: int|
                j <= k < phdr.p_memsz ==> #[trigger] crate::syscalls::virt_byte(
                    *dir,
                    *alloc,
                    (phdr.p_vaddr + k) as u64,
                ) == 0u8,
            forall|g: int|
                0 <= g < alloc.num_frames() && !a0.is_free(g) ==> #[trigger] alloc.bytes(g)
                    == a1.bytes(g),
        decreases copy_len - j,
    {
        let va = phdr.p_vaddr + j;
        proof {
            crate::units::lemma_pow2_4096();
        }
        let page = crate::units::po2_round_down(va, PAGE_SIZE);
        proof {
            crate::units::lemma_round_down_props(va as int, PAGE_SIZE as int);
            crate::units::lemma_round_down_lb(va as int, aligned as int, PAGE_SIZE as int);
            assert(d1.leaf_4k(page) is Some);
        }
        let leaf = match dir.get_l1(VirtAddr(page)) {
            Some(e) => e,
            None => 0,
        };
        proof {
            assert(crate::mmu::present(leaf) && leaf == d1.leaf_4k(page)->Some_0);
            assert(alloc.num_frames() == alloc.infos.len());
            assert(crate::mmu::entry_addr(leaf) as int / (PAGE_SIZE as int) < a1.num_frames());
            assert(a1.num_frames() * PAGE_SIZE <= 0x10_0000_0000_0000);
            assert(a1.num_frames() <= 0x10_0000_0000_0000) by (nonlinear_arith)
                requires
                    a1.num_frames() * PAGE_SIZE <= 0x10_0000_0000_0000,
                    PAGE_SIZE == 4096,
                    a1.num_frames() >= 0;
            assert(crate::mmu::entry_addr(leaf) / PAGE_SIZE == crate::mmu::entry_addr(
                leaf,
            ) as int / (PAGE_SIZE as int));
        }
        let frame = (crate::mmu::entry_address(leaf) / PAGE_SIZE) as usize;
        let off_in_page = (va - page) as usize;
        proof {
            crate::mmu::lemma_entry_addr_aligned(leaf);
            assert(frame == crate::mmu::entry_addr(leaf) as int / (PAGE_SIZE as int))
                by (nonlinear_arith)
                requires
                    frame == crate::mmu::entry_addr(leaf) / PAGE_SIZE,
                    PAGE_SIZE == 4096;
        }
        let byte = elf_bytes[(phdr.p_offset + j) as usize];
        let ghost pre_w = *alloc;
        alloc.write_byte(frame, off_in_page, byte);
        proof {
            assert forall|k: int|
                0 <= k < j + 1 implies #[trigger] crate::syscalls::virt_byte(
                *dir,
                *alloc,
                (phdr.p_vaddr + k) as u64,
            ) == elf_bytes@[phdr.p_offset + k] by {
                let kva = (phdr.p_vaddr + k) as u64;
                lemma_range_byte_after_write(
                    d1,
                    pre_w,
                    *alloc,
                    aligned,
                    full_size,
                    va,
                    kva,
                    byte,
                );
            }
            assert forall|k: int|
                j + 1 <= k < phdr.p_memsz implies #[trigger] crate::syscalls::virt_byte(
                *dir,
                *alloc,
                (phdr.p_vaddr + k) as u64,
            ) == 0u8 by {
                let kva = (phdr.p_vaddr + k) as u64;
                assert(kva != va);
                lemma_range_byte_after_write(
                    d1,
                    pre_w,
                    *alloc,
                    aligned,
                    full_size,
                    va,
                    kva,
                    byte,
                );
            }
            assert forall|g: int|
                0 <= g < alloc.num_frames() && !a0.is_free(g) implies #[trigger] alloc.bytes(g)
                == a1.bytes(g) by {
                assert(a0.is_free(frame as int));
            }
        }
        j += 1;
    }
}


/// A present 4 KiB leaf cannot share a level-1 slot with any page of a
/// range whose pages are all unmapped.
#[verifier::rlimit(100)]
#[verifier::spinoff_prover]
proof fn lemma_present_leaf_outside(
    d0: PageMapLevel4,
    aligned: u64,
    full_size: u64,
    npages: u64,
    va2: u64,
)
    requires
        aligned as int % (PAGE_SIZE as int) == 0,
        full_size as int % (PAGE_SIZE as int) == 0,
        aligned + full_size < 0x8000_0000_0000,
        npages == full_size / PAGE_SIZE,
        forall|p: u64|
            aligned <= p < aligned + full_size && p % PAGE_SIZE == 0 ==> (#[trigger] d0.leaf_4k(
                p,
            )) is None && d0.leaf_2m(p) is None,
        va2 < 0x1_0000_0000_0000,
        d0.leaf_4k(va2) is Some,
    ensures
        !crate::mmu::in_mapped_4k_range(va2, aligned, npages as int),
{
    if crate::mmu::in_mapped_4k_range(va2, aligned, npages as int) {
        reveal(crate::mmu::in_mapped_4k_range);
        assert((npages as int) * PAGE_SIZE == full_size as int) by (nonlinear_arith)
            requires
                npages == full_size / PAGE_SIZE,
                full_size as int % (PAGE_SIZE as int) == 0,
                PAGE_SIZE == 4096;
        let pw = choose|pw: u64|
            aligned <= pw < aligned + (npages as int) * PAGE_SIZE && pw % PAGE_SIZE == 0
                && #[trigger] crate::mmu::same_4k_slot(va2, pw);
        assert(aligned <= pw < aligned + full_size && pw % PAGE_SIZE == 0
            && crate::mmu::same_4k_slot(va2, pw));
        assert(d0.leaf_4k(pw) is None);
        let pv = (crate::units::round_down(va2 as int, PAGE_SIZE as int)) as u64;
        crate::units::lemma_round_down_props(va2 as int, PAGE_SIZE as int);
        assert(pv % 4096 == 0 && pv <= va2 < pv + 4096);
        crate::mmu::lemma_same_slot_in_page(pv, va2);
        assert(crate::mmu::same_4k_slot(va2, pv));
        if pv != pw {
            crate::mmu::lemma_distinct_4k_slots(pv, pw);
            assert(crate::mmu::same_4k_slot(pv, pw));
            assert(false);
        }
        crate::mmu::lemma_entries_same_slot(d0, va2, pw);
        assert(d0.leaf_4k(va2) == d0.leaf_4k(pw));
        assert(false);
    }
}

/// After the permission pass, every byte of the segment is in place: the
/// rebuilt leaves keep their frames, so each address still reads the byte
/// the copy left there, now under the flags-derived permissions.
#[verifier::rlimit(100)]
#[verifier::spinoff_prover]
proof fn lemma_segment_finished(
    d1: PageMapLevel4,
    d2: PageMapLevel4,
    a2: PageAllocator,
    elf: Seq<u8>,
    ph: Elf64Phdr,
    aligned: u64,
    full_size: u64,
)
    requires
        a2.wf(),
        ph.p_filesz <= ph.p_memsz,
        ph.p_memsz <= 0x1000_0000,
        ph.p_vaddr <= 0x7f_ffff_f000,
        aligned as int % (PAGE_SIZE as int) == 0,
        full_size as int % (PAGE_SIZE as int) == 0,
        aligned <= ph.p_vaddr,
        ph.p_vaddr + ph.p_memsz <= aligned + full_size,
        aligned + full_size < 0x8000_0000_0000,
        forall|p: u64|
            aligned <= p < aligned + full_size && p % PAGE_SIZE == 0 ==> (match #[trigger] d1.leaf_4k(
                p,
            ) {
                Some(e) => {
                    &&& crate::mmu::present(e)
                    &&& crate::mmu::entry_addr(e) as int / (PAGE_SIZE as int) < a2.num_frames()
                    &&& a2.refc(crate::mmu::entry_addr(e) as int / (PAGE_SIZE as int)) == 1
                },
                None => false,
            }),
        forall|p: u64|
            aligned <= p < aligned + full_size && p % PAGE_SIZE == 0 ==> (#[trigger] d1.leaf_2m(
                p,
            )) is None,
        forall|p: u64|
            aligned <= p < aligned + full_size && p % PAGE_SIZE == 0 ==> #[trigger] d2.l1_entry(
                p,
            ) == (match d1.leaf_4k(p) {
                Some(e) => Some(
                    ((crate::mmu::entry_addr(e) | elf::spec_flags_to_permissions(ph.p_flags))
                        | PRESENT) as u64,
                ),
                None => d1.l1_entry(p),
            }),
        forall|va2: u64| #[trigger] d2.l2_entry(va2) == d1.l2_entry(va2),
        forall|k: int|
            0 <= k < ph.p_filesz ==> #[trigger] crate::syscalls::virt_byte(
                d1,
                a2,
                (ph.p_vaddr + k) as u64,
            ) == elf[ph.p_offset + k],
        forall|k: int|
            ph.p_filesz <= k < ph.p_memsz ==> #[trigger] crate::syscalls::virt_byte(
                d1,
                a2,
                (ph.p_vaddr + k) as u64,
            ) == 0u8,
    ensures
        segment_loaded(d2, a2, elf, ph),
{
    lemma_flags_bits(ph.p_flags);
    let q = elf::spec_flags_to_permissions(ph.p_flags);
    assert forall|k: int| 0 <= k < ph.p_memsz implies #[trigger] segment_byte_ok(
        d2,
        a2,
        elf,
        ph,
        k,
    ) by {
        let kva = (ph.p_vaddr + k) as u64;
        let kp = (crate::units::round_down(kva as int, PAGE_SIZE as int)) as u64;
        crate::units::lemma_round_down_props(kva as int, PAGE_SIZE as int);
        crate::units::lemma_round_down_lb(kva as int, aligned as int, PAGE_SIZE as int);
        lemma_va_page_entries(d1, kva, kp);
        lemma_va_page_entries(d2, kva, kp);
        let e_old = d1.leaf_4k(kp)->Some_0;
        let ea = crate::mmu::entry_addr(e_old);
        crate::mmu::lemma_entry_addr_aligned(e_old);
        lemma_final_leaf_bits(ea, q);
        assert(d2.l1_entry(kp) == Some(((ea | q) | crate::mmu::PRESENT) as u64));
        assert(d2.leaf_4k(kp) == Some(((ea | q) | 1u64) as u64));
        lemma_mapped_byte(d1, a2, kva);
        lemma_mapped_byte(d2, a2, kva);
    }
}

/// Load one `PT_LOAD` segment: back its page-rounded range with fresh
/// zeroed user pages, copy the file bytes in through the new mapping, and
/// drop the range to its final permissions (always present and
/// user-visible, writable only for `PF_W`, never writable and executable
/// at once).
#[verifier::rlimit(100)]
#[verifier::spinoff_prover]
pub fn load_segment(
    dir: &mut PageMapLevel4,
    alloc: &mut PageAllocator,
    elf_bytes: &Vec<u8>,
    phdr: &Elf64Phdr,
) -> (r: Result<(), ElfError>)
    requires
        old(dir).wf(),
        old(alloc).wf(),
        old(alloc).num_frames() * PAGE_SIZE <= 0x10_0000_0000_0000,
    ensures
        final(dir).wf(),
        final(alloc).wf(),
        final(alloc).num_frames() == old(alloc).num_frames(),
        r is Ok <==> seg_wx_ok(*phdr) && (phdr.p_memsz == 0 || (seg_static_ok(
            elf_bytes@,
            *phdr,
        ) && old(alloc).free_count() >= 4 * seg_pages(*phdr) && seg_range_free(
            *old(dir),
            *phdr,
        ))),
        r == Err::<(), ElfError>(ElfError::BadSegment) <==> !seg_wx_ok(*phdr) || (phdr.p_memsz
            != 0 && !seg_static_ok(elf_bytes@, *phdr)),
        r == Err::<(), ElfError>(ElfError::OutOfMemory) <==> seg_wx_ok(*phdr) && phdr.p_memsz
            != 0 && seg_static_ok(elf_bytes@, *phdr) && old(alloc).free_count() < 4 * seg_pages(
            *phdr,
        ),
        r == Err::<(), ElfError>(ElfError::Overlap) <==> seg_wx_ok(*phdr) && phdr.p_memsz != 0
            && seg_static_ok(elf_bytes@, *phdr) && old(alloc).free_count() >= 4 * seg_pages(
            *phdr,
        ) && !seg_range_free(*old(dir), *phdr),
        r is Err ==> *final(dir) == *old(dir) && *final(alloc) == *old(alloc),
        r is Ok ==> segment_loaded(*final(dir), *final(alloc), elf_bytes@, *phdr),
        forall|va2: u64|
            va2 < 0x1_0000_0000_0000 && (#[trigger] old(dir).leaf_4k(va2)) is Some ==> final(dir).leaf_4k(va2) == old(dir).leaf_4k(va2),
        forall|va2: u64| #[trigger] final(dir).leaf_2m(va2) == old(dir).leaf_2m(va2),
        forall|g: int|
            0 <= g < old(alloc).num_frames() && !old(alloc).is_free(g) ==> #[trigger] final(alloc).refc(g) == old(alloc).refc(g) && final(alloc).bytes(g) == old(alloc).bytes(g)
                && !final(alloc).is_free(g),
        forall|g: int|
            0 <= g < old(alloc).num_frames() && #[trigger] final(alloc).is_free(g) ==> old(alloc).is_free(g),
        final(alloc).free_count() >= old(alloc).free_count() - 4 * seg_pages(*phdr),
{
    if phdr.p_flags & PF_W != 0 && phdr.p_flags & PF_X != 0 {
        return Err(ElfError::BadSegment);
    }
    if phdr.p_memsz == 0 {
        return Ok(());
    }
    let elf_len = elf_bytes.len();
    if phdr.p_memsz > 0x1000_0000 || phdr.p_vaddr > 0x7f_ffff_f000 || phdr.p_filesz
        > phdr.p_memsz {
        return Err(ElfError::BadSegment);
    }
    if phdr.p_offset > u64::MAX - phdr.p_filesz || phdr.p_offset + phdr.p_filesz
        > elf_len as u64 {
        return Err(ElfError::BadSegment);
    }
    proof {
        crate::units::lemma_pow2_4096();
    }
    let aligned = crate::units::po2_round_down(phdr.p_vaddr, PAGE_SIZE);
    let offset = phdr.p_vaddr - aligned;
    proof {
        crate::units::lemma_round_down_props(phdr.p_vaddr as int, PAGE_SIZE as int);
    }
    let full_size = crate::units::po2_round_up(phdr.p_memsz + offset, PAGE_SIZE);
    proof {
        crate::units::lemma_round_up_props(phdr.p_memsz + offset, PAGE_SIZE as int);
        assert(aligned as int == seg_base(*phdr) && full_size as int == seg_span(*phdr));
    }
    let npages = full_size / PAGE_SIZE;
    proof {
        assert(full_size as int / (PAGE_SIZE as int) == seg_pages(*phdr) && npages == seg_pages(
            *phdr,
        ) && 4 * (full_size as int / PAGE_SIZE as int) == 4 * npages) by (nonlinear_arith)
            requires
                npages == full_size / PAGE_SIZE,
                full_size as int % (PAGE_SIZE as int) == 0,
                full_size as int == seg_span(*phdr),
                seg_pages(*phdr) == seg_span(*phdr) / (PAGE_SIZE as int),
                PAGE_SIZE == 4096;
    }
    if alloc.free_list_len() < 4 * npages as usize {
        return Err(ElfError::OutOfMemory);
    }
    if !dir.range_unmapped(VirtAddr(aligned), full_size) {
        return Err(ElfError::Overlap);
    }
    proof {
        assert((4u64 | 2u64) & 0xf_ffff_ffff_f000u64 == 0) by (bit_vector);
    }
    let ghost d0 = *dir;
    let ghost a0 = *alloc;
    dir.alloc_range_aligned(alloc, VirtAddr(aligned), full_size, USER_ACCESSIBLE | WRITABLE);
    let ghost d1 = *dir;
    let ghost a1 = *alloc;
    proof {
        assert(forall|x: u64| (((x | (4u64 | 2u64)) | 1u64) & 1u64) != 0) by (bit_vector);
        assert forall|p: u64|
            aligned <= p < aligned + full_size && p % PAGE_SIZE == 0 implies (
        #[trigger] d1.leaf_2m(p)) is None && (match d1.leaf_4k(p) {
            Some(e) => crate::mmu::present(e),
            None => false,
        }) by {
            assert(d0.leaf_4k(p) is None && d0.leaf_2m(p) is None);
            assert(d1.leaf_4k(p) is Some);
            let e = d1.leaf_4k(p)->Some_0;
            assert(e == ((crate::mmu::entry_addr(e) | (USER_ACCESSIBLE | WRITABLE))
                | PRESENT) as u64);
        }
        assert forall|k: int|
            0 <= k < phdr.p_memsz implies #[trigger] crate::syscalls::virt_byte(
            *dir,
            *alloc,
            (phdr.p_vaddr + k) as u64,
        ) == 0u8 by {
            let kva = (phdr.p_vaddr + k) as u64;
            let kp = (crate::units::round_down(kva as int, PAGE_SIZE as int)) as u64;
            crate::units::lemma_round_down_props(kva as int, PAGE_SIZE as int);
            crate::units::lemma_round_down_lb(kva as int, aligned as int, PAGE_SIZE as int);
            lemma_va_page_entries(d1, kva, kp);
            lemma_mapped_byte(d1, a1, kva);
            crate::units::lemma_mod_range(kva as int, 4096);
        }
    }
    copy_segment_bytes(dir, alloc, elf_bytes, phdr, aligned, full_size, Ghost(a0));
    let final_perms = elf::flags_to_permissions(phdr.p_flags);
    proof {
        lemma_flags_bits(phdr.p_flags);
    }
    let ghost a2 = *alloc;
    dir.change_range_perms(VirtAddr(aligned), full_size, final_perms);
    proof {
        assert((full_size as int + PAGE_SIZE - 1) / (PAGE_SIZE as int) == full_size as int
            / (PAGE_SIZE as int)) by (nonlinear_arith)
            requires
                full_size as int % (PAGE_SIZE as int) == 0,
                PAGE_SIZE == 4096;
        lemma_segment_finished(d1, *dir, a2, elf_bytes@, *phdr, aligned, full_size);
        assert forall|va2: u64|
            va2 < 0x1_0000_0000_0000 && (#[trigger] d0.leaf_4k(va2)) is Some implies dir.leaf_4k(
            va2,
        ) == d0.leaf_4k(va2) by {
            lemma_present_leaf_outside(d0, aligned, full_size, npages, va2);
        }
        assert forall|g: int|
            0 <= g < a0.num_frames() && !a0.is_free(g) implies #[trigger] alloc.refc(g)
            == a0.refc(g) && alloc.bytes(g) == a0.bytes(g) && !alloc.is_free(g) by {
            assert(a1.refc(g) == a0.refc(g) && !a1.is_free(g) && a1.bytes(g) == a0.bytes(g));
        }
        assert forall|g: int|
            0 <= g < a0.num_frames() && #[trigger] alloc.is_free(g) implies a0.is_free(g) by {
            assert(a1.is_free(g));
        }
        assert(alloc.free_count() == a1.free_count());
    }
    Ok(())
}

} // verus!
