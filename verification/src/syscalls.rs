//! The syscall layer: argument extraction from the trap frame, pointer
//! validation against the caller's address space, and dispatch.
//!
//! Return convention: RAX carries 0 for success, 1 when the supplied buffer
//! is not fully user-accessible, 2 for malformed arguments (unknown syscall
//! number or a write buffer that is not UTF-8).

use vstd::prelude::*;
use crate::addr::VirtAddr;
use crate::arch::RegisterFrame;
use crate::mmu::PageMapLevel4;
use crate::pg_alloc::PageAllocator;
use crate::units::PAGE_SIZE;

verus! {

pub const SYSC_YIELD: u64 = 0;
pub const SYSC_WRITE: u64 = 1;

pub const SYSR_OK: u64 = 0;
pub const SYSR_ERR_NO_PERMISSIONS: u64 = 1;
pub const SYSR_ERR_BAD_ARGS: u64 = 2;

/// Highest end address a syscall buffer may reach: the topmost page is
/// never handed to user space.
pub const BUFFER_LIMIT: u64 = 0xffff_ffff_ffff_f000;

/// Syscall arguments in the System-V-like placement: the number in RAX,
/// then RDI, RSI, RDX and R10 (R10 stands in for the clobbered RCX).
#[derive(Clone, Copy, PartialEq, Eq, Structural, Debug)]
pub struct SyscallArgs {
    pub number: u64,
    pub arg1: u64,
    pub arg2: u64,
    pub arg3: u64,
    pub arg4: u64,
}

impl SyscallArgs {
    pub fn from_frame(regs: &RegisterFrame) -> (r: Self)
        ensures
            r.number == regs.rax,
            r.arg1 == regs.rdi,
            r.arg2 == regs.rsi,
            r.arg3 == regs.rdx,
            r.arg4 == regs.r10,
    {
        SyscallArgs {
            number: regs.rax,
            arg1: regs.rdi,
            arg2: regs.rsi,
            arg3: regs.rdx,
            arg4: regs.r10,
        }
    }
}

/// What the dispatcher asks the kernel to do next: re-enter the scheduler
/// (a yield) or return a value to the caller, possibly after emitting the
/// validated bytes to the console collaborator.
#[derive(Clone, Copy, PartialEq, Eq, Structural, Debug)]
pub enum SyscallOutcome {
    Schedule,
    Done(u64),
}

/// Whether a byte sequence is well-formed UTF-8.
pub uninterp spec fn utf8_ok(bytes: Seq<u8>) -> bool;

/// Relies on core::str::from_utf8: whether a byte slice decodes as UTF-8
/// depends on the bytes alone.
#[verifier::external_body]
fn check_utf8(bytes: &Vec<u8>) -> (r: bool)
    ensures
        r == utf8_ok(bytes@),
{
    core::str::from_utf8(bytes.as_slice()).is_ok()
}

/// The byte visible at virtual address `va` through `dir`, taking zero for
/// unmapped or non-RAM addresses.
pub open spec fn virt_byte(dir: PageMapLevel4, alloc: PageAllocator, va: u64) -> u8 {
    match dir.translate(va) {
        Some(pa) => if pa / (PAGE_SIZE as int) < alloc.num_frames() {
            alloc.bytes(pa / (PAGE_SIZE as int))[pa % (PAGE_SIZE as int)]
        } else {
            0
        },
        None => 0,
    }
}

/// Every address of `[ptr, ptr + len)` translates to a RAM frame.
pub open spec fn region_backed(
    dir: PageMapLevel4,
    alloc: PageAllocator,
    ptr: u64,
    len: u64,
) -> bool {
    forall|i: int|
        0 <= i < len ==> (match #[trigger] dir.translate((ptr + i) as u64) {
            Some(pa) => pa / (PAGE_SIZE as int) < alloc.num_frames(),
            None => false,
        })
}

/// Read `len` bytes starting at user address `ptr` through `dir`, or
/// report that some address is unmapped or outside RAM.
pub fn read_user_bytes(dir: &PageMapLevel4, alloc: &PageAllocator, ptr: u64, len: u64) -> (r:
    Option<Vec<u8>>)
    requires
        dir.wf(),
        alloc.wf(),
        ptr + len <= u64::MAX,
        len <= usize::MAX,
    ensures
        r is Some <==> region_backed(*dir, *alloc, ptr, len),
        (match r {
            Some(v) => v@.len() == len && forall|i: int|
                0 <= i < len ==> v@[i] == virt_byte(*dir, *alloc, (ptr + i) as u64),
            None => true,
        }),
    decreases len,
{
    if len == 0 {
        let empty: Vec<u8> = Vec::new();
        return Some(empty);
    }
    let pa = match dir.translate_addr(VirtAddr(ptr)) {
        Some(pa) => pa,
        None => {
            proof {
                assert(dir.translate((ptr + 0) as u64) is None);
            }
            return None;
        },
    };
    let frame = pa / PAGE_SIZE;
    let nframes = alloc.frame_count();
    if frame >= nframes as u64 {
        proof {
            assert(dir.translate((ptr + 0) as u64) is Some);
        }
        return None;
    }
    let b = alloc.read_byte(frame as usize, (pa % PAGE_SIZE) as usize);
    proof {
        crate::units::lemma_mod_range(pa as int, PAGE_SIZE as int);
    }
    let rest = read_user_bytes(dir, alloc, ptr + 1, len - 1);
    match rest {
        None => {
            proof {
                if region_backed(*dir, *alloc, ptr, len) {
                    assert forall|i: int|
                        0 <= i < len - 1 implies (match #[trigger] dir.translate(
                        ((ptr + 1) + i) as u64,
                    ) {
                        Some(pa2) => pa2 / (PAGE_SIZE as int) < alloc.num_frames(),
                        None => false,
                    }) by {
                        assert(dir.translate((ptr + (i + 1)) as u64) is Some);
                    }
                }
            }
            None
        },
        Some(mut v) => {
            v.insert(0, b);
            proof {
                assert forall|i: int|
                    0 <= i < len implies (match #[trigger] dir.translate((ptr + i) as u64) {
                    Some(pa2) => pa2 / (PAGE_SIZE as int) < alloc.num_frames(),
                    None => false,
                }) by {
                    if i > 0 {
                        assert(dir.translate(((ptr + 1) + (i - 1)) as u64) is Some);
                    }
                }
                assert forall|i: int|
                    0 <= i < len implies v@[i] == virt_byte(*dir, *alloc, (ptr + i) as u64) by {
                    if i > 0 {
                        assert(v@[i] == virt_byte(*dir, *alloc, ((ptr + 1) + (i - 1)) as u64));
                    }
                }
            }
            Some(v)
        },
    }
}

/// The buffer of a `write(ptr, len)` call is acceptable: within the
/// addressable bounds, fully user-accessible in the caller's address space,
/// and wholly backed by RAM frames.
pub open spec fn write_accepted(args: SyscallArgs, dir: PageMapLevel4, alloc: PageAllocator) -> bool {
    &&& args.arg1 + args.arg2 <= BUFFER_LIMIT
    &&& args.arg2 <= usize::MAX
    &&& dir.region_user_accessible(args.arg1, (args.arg1 + args.arg2) as u64)
    &&& region_backed(dir, alloc, args.arg1, args.arg2)
}

/// The bytes a `write(ptr, len)` call reads through the caller's address
/// space.
pub open spec fn write_bytes(args: SyscallArgs, dir: PageMapLevel4, alloc: PageAllocator) -> Seq<
    u8,
> {
    Seq::new(args.arg2 as nat, |i: int| virt_byte(dir, alloc, (args.arg1 + i) as u64))
}

/// Everything the `write` syscall promises about its return code and the
/// bytes it hands to the console collaborator.
pub open spec fn write_contract(
    args: SyscallArgs,
    dir: PageMapLevel4,
    alloc: PageAllocator,
    code: u64,
    out: Option<Vec<u8>>,
) -> bool {
    &&& (code == SYSR_ERR_NO_PERMISSIONS <==> !write_accepted(args, dir, alloc))
    &&& (write_accepted(args, dir, alloc) ==> {
        &&& (code == SYSR_OK <==> utf8_ok(write_bytes(args, dir, alloc)))
        &&& (code == SYSR_ERR_BAD_ARGS <==> !utf8_ok(write_bytes(args, dir, alloc)))
        &&& (utf8_ok(write_bytes(args, dir, alloc)) ==> (out matches Some(v) && v@ == write_bytes(
            args,
            dir,
            alloc,
        )))
    })
    &&& (code != SYSR_OK ==> out is None)
}

/// The `write(ptr, len)` syscall: validate that the buffer is fully
/// user-accessible in the caller's address space and well-formed UTF-8;
/// the validated bytes are handed back for the console collaborator to
/// emit.
pub fn write(args: &SyscallArgs, dir: &PageMapLevel4, alloc: &PageAllocator) -> (r: (
    u64,
    Option<Vec<u8>>,
))
    requires
        dir.wf(),
        alloc.wf(),
    ensures
        write_contract(*args, *dir, *alloc, r.0, r.1),
{
    let ptr = args.arg1;
    let len = args.arg2;
    if len > BUFFER_LIMIT || ptr > BUFFER_LIMIT - len {
        return (SYSR_ERR_NO_PERMISSIONS, None);
    }
    if len > usize::MAX as u64 {
        return (SYSR_ERR_NO_PERMISSIONS, None);
    }
    if !dir.is_region_user_accessible(VirtAddr(ptr), VirtAddr(ptr + len)) {
        return (SYSR_ERR_NO_PERMISSIONS, None);
    }
    let bytes = match read_user_bytes(dir, alloc, ptr, len) {
        Some(v) => v,
        None => {
            return (SYSR_ERR_NO_PERMISSIONS, None);
        },
    };
    proof {
        assert(bytes@ =~= Seq::new(args.arg2 as nat, |i: int| virt_byte(*dir, *alloc, (args.arg1
            + i) as u64)));
    }
    if check_utf8(&bytes) {
        (SYSR_OK, Some(bytes))
    } else {
        (SYSR_ERR_BAD_ARGS, None)
    }
}

/// Dispatch one syscall: yield re-enters the scheduler, write validates
/// and emits, anything else is rejected.
pub fn syscall_dispatch(args: &SyscallArgs, dir: &PageMapLevel4, alloc: &PageAllocator) -> (r: (
    SyscallOutcome,
    Option<Vec<u8>>,
))
    requires
        dir.wf(),
        alloc.wf(),
    ensures
        args.number == SYSC_YIELD ==> r.0 is Schedule && r.1 is None,
        args.number != SYSC_YIELD && args.number != SYSC_WRITE ==> r.0 == SyscallOutcome::Done(
            SYSR_ERR_BAD_ARGS,
        ) && r.1 is None,
        args.number == SYSC_WRITE ==> (r.0 matches SyscallOutcome::Done(code) && write_contract(
            *args,
            *dir,
            *alloc,
            code,
            r.1,
        )),
{
    if args.number == SYSC_YIELD {
        (SyscallOutcome::Schedule, None)
    } else if args.number == SYSC_WRITE {
        let (code, out) = write(args, dir, alloc);
        (SyscallOutcome::Done(code), out)
    } else {
        (SyscallOutcome::Done(SYSR_ERR_BAD_ARGS), None)
    }
}

} // verus!
