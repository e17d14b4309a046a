//! ELF64 executable images: header layouts, little-endian field readers and
//! validation of the identity the kernel demands of an embedded program
//! (64-bit, little-endian, System-V, EXEC, x86-64, current version).
//!
//! The segment loader that builds a process address space from an image
//! lives in `process`; this module is purely about reading the format.

use vstd::prelude::*;

verus! {

/// Size in bytes of an ELF64 file header.
pub const EHDR_SIZE: u64 = 64;

/// Size in bytes of an ELF64 program header.
pub const PHDR_SIZE: u64 = 56;

/// Program-header type of a loadable segment.
pub const PT_LOAD: u32 = 1;

/// Segment permission bits from `p_flags`.
pub const PF_X: u32 = 1;
pub const PF_W: u32 = 2;
pub const PF_R: u32 = 4;

#[derive(Clone, Copy, PartialEq, Eq, Structural, Debug)]
pub struct Elf64Ehdr {
    pub e_type: u16,
    pub e_machine: u16,
    pub e_version: u32,
    pub e_entry: u64,
    pub e_phoff: u64,
    pub e_shoff: u64,
    pub e_flags: u32,
    pub e_ehsize: u16,
    pub e_phentsize: u16,
    pub e_phnum: u16,
    pub e_shentsize: u16,
    pub e_shnum: u16,
    pub e_shstrndx: u16,
}

#[derive(Clone, Copy, PartialEq, Eq, Structural, Debug)]
pub struct Elf64Phdr {
    pub p_type: u32,
    pub p_flags: u32,
    pub p_offset: u64,
    pub p_vaddr: u64,
    pub p_paddr: u64,
    pub p_filesz: u64,
    pub p_memsz: u64,
    pub p_align: u64,
}

#[derive(Clone, Copy, PartialEq, Eq, Structural, Debug)]
pub struct Elf64Shdr {
    pub sh_name: u32,
    pub sh_type: u32,
    pub sh_flags: u64,
    pub sh_addr: u64,
    pub sh_offset: u64,
    pub sh_size: u64,
    pub sh_link: u32,
    pub sh_info: u32,
    pub sh_addralign: u64,
    pub sh_entsize: u64,
}

/// Why an image was rejected.
#[derive(Clone, Copy, PartialEq, Eq, Structural, Debug)]
pub enum ElfError {
    TooShort,
    BadMagic,
    BadClass,
    BadEncoding,
    BadAbi,
    BadType,
    BadMachine,
    BadVersion,
    BadPhentSize,
    PhdrsOutOfBounds,
    BadSegment,
    Overlap,
    OutOfMemory,
}

/// The 16-bit little-endian value stored at byte offset `i`.
pub open spec fn le_u16_of(b: Seq<u8>, i: int) -> int {
    b[i] + 0x100 * b[i + 1]
}

/// The 32-bit little-endian value stored at byte offset `i`.
pub open spec fn le_u32_of(b: Seq<u8>, i: int) -> int {
    b[i] + 0x100 * b[i + 1] + 0x1_0000 * b[i + 2] + 0x100_0000 * b[i + 3]
}

/// The 64-bit little-endian value stored at byte offset `i`.
pub open spec fn le_u64_of(b: Seq<u8>, i: int) -> int {
    b[i] + 0x100 * b[i + 1] + 0x1_0000 * b[i + 2] + 0x100_0000 * b[i + 3] + 0x1_0000_0000 * b[i + 4]
        + 0x100_0000_0000 * b[i + 5] + 0x1_0000_0000_0000 * b[i + 6] + 0x100_0000_0000_0000 * b[i
        + 7]
}

pub fn read_le_u16(b: &Vec<u8>, off: usize) -> (r: u16)
    requires
        off + 2 <= b.len(),
    ensures
        r == le_u16_of(b@, off as int),
{
    b[off] as u16 + b[off + 1] as u16 * 0x100
}

pub fn read_le_u32(b: &Vec<u8>, off: usize) -> (r: u32)
    requires
        off + 4 <= b.len(),
    ensures
        r == le_u32_of(b@, off as int),
{
    b[off] as u32 + b[off + 1] as u32 * 0x100 + b[off + 2] as u32 * 0x1_0000 + b[off + 3] as u32
        * 0x100_0000
}

pub fn read_le_u64(b: &Vec<u8>, off: usize) -> (r: u64)
    requires
        off + 8 <= b.len(),
    ensures
        r == le_u64_of(b@, off as int),
{
    b[off] as u64 + b[off + 1] as u64 * 0x100 + b[off + 2] as u64 * 0x1_0000 + b[off + 3] as u64
        * 0x100_0000 + b[off + 4] as u64 * 0x1_0000_0000 + b[off + 5] as u64 * 0x100_0000_0000 + b[off
        + 6] as u64 * 0x1_0000_0000_0000 + b[off + 7] as u64 * 0x100_0000_0000_0000
}

/// The image begins with `\x7fELF`.
pub open spec fn magic_ok(b: Seq<u8>) -> bool {
    b.len() >= 4 && b[0] == 0x7f && b[1] == 0x45u8 && b[2] == 0x4cu8 && b[3] == 0x46u8
}

/// The identity bytes the kernel accepts: 64-bit class, little-endian
/// data, System-V ABI.
pub open spec fn ident_ok(b: Seq<u8>) -> bool {
    b.len() >= 16 && b[4] == 2u8 && b[5] == 1u8 && b[7] == 0u8
}

/// The header fields the kernel accepts: an EXEC image for x86-64,
/// current version, with the standard program-header entry size.
pub open spec fn fields_ok(b: Seq<u8>) -> bool {
    le_u16_of(b, 16) == 2 && le_u16_of(b, 18) == 62 && le_u32_of(b, 20) == 1 && le_u16_of(b, 54)
        == 56
}

/// A byte image whose ELF header the kernel accepts.
pub open spec fn header_valid(b: Seq<u8>) -> bool {
    b.len() > EHDR_SIZE && magic_ok(b) && ident_ok(b) && fields_ok(b)
}

/// All program headers promised by a valid header lie inside the image.
pub open spec fn phdrs_in_bounds(b: Seq<u8>) -> bool {
    le_u64_of(b, 32) + le_u16_of(b, 56) * PHDR_SIZE <= b.len()
}

/// Read and validate the file header of `elf`.
///
/// Returns the parsed header exactly when the image satisfies
/// `header_valid` and `phdrs_in_bounds`; each rejection names the first
/// check that failed, in the order the checks are listed.
pub fn parse_ehdr(elf: &Vec<u8>) -> (r: Result<Elf64Ehdr, ElfError>)
    ensures
        r.is_ok() <==> header_valid(elf@) && phdrs_in_bounds(elf@),
        r matches Ok(h) ==> {
            &&& h.e_type == le_u16_of(elf@, 16)
            &&& h.e_machine == le_u16_of(elf@, 18)
            &&& h.e_version == le_u32_of(elf@, 20)
            &&& h.e_entry == le_u64_of(elf@, 24)
            &&& h.e_phoff == le_u64_of(elf@, 32)
            &&& h.e_shoff == le_u64_of(elf@, 40)
            &&& h.e_flags == le_u32_of(elf@, 48)
            &&& h.e_ehsize == le_u16_of(elf@, 52)
            &&& h.e_phentsize == le_u16_of(elf@, 54)
            &&& h.e_phnum == le_u16_of(elf@, 56)
            &&& h.e_shentsize == le_u16_of(elf@, 58)
            &&& h.e_shnum == le_u16_of(elf@, 60)
            &&& h.e_shstrndx == le_u16_of(elf@, 62)
        },
        r == Err::<Elf64Ehdr, ElfError>(ElfError::TooShort) <==> elf@.len() <= EHDR_SIZE,
        r == Err::<Elf64Ehdr, ElfError>(ElfError::BadMagic) <==> elf@.len() > EHDR_SIZE
            && !magic_ok(elf@),
{
    if elf.len() <= EHDR_SIZE as usize {
        return Err(ElfError::TooShort);
    }
    if !(elf[0] == 0x7f && elf[1] == 0x45 && elf[2] == 0x4c && elf[3] == 0x46) {
        return Err(ElfError::BadMagic);
    }
    if elf[4] != 2 {
        return Err(ElfError::BadClass);
    }
    if elf[5] != 1 {
        return Err(ElfError::BadEncoding);
    }
    if elf[7] != 0 {
        return Err(ElfError::BadAbi);
    }
    let e_type = read_le_u16(elf, 16);
    let e_machine = read_le_u16(elf, 18);
    let e_version = read_le_u32(elf, 20);
    let e_phentsize = read_le_u16(elf, 54);
    if e_type != 2 {
        return Err(ElfError::BadType);
    }
    if e_machine != 62 {
        return Err(ElfError::BadMachine);
    }
    if e_version != 1 {
        return Err(ElfError::BadVersion);
    }
    if e_phentsize != 56 {
        return Err(ElfError::BadPhentSize);
    }
    let e_phoff = read_le_u64(elf, 32);
    let e_phnum = read_le_u16(elf, 56);
    if e_phoff > u64::MAX - (e_phnum as u64) * PHDR_SIZE || e_phoff + (e_phnum as u64) * PHDR_SIZE
        > elf.len() as u64 {
        return Err(ElfError::PhdrsOutOfBounds);
    }
    Ok(
        Elf64Ehdr {
            e_type,
            e_machine,
            e_version,
            e_entry: read_le_u64(elf, 24),
            e_phoff,
            e_shoff: read_le_u64(elf, 40),
            e_flags: read_le_u32(elf, 48),
            e_ehsize: read_le_u16(elf, 52),
            e_phentsize,
            e_phnum,
            e_shentsize: read_le_u16(elf, 58),
            e_shnum: read_le_u16(elf, 60),
            e_shstrndx: read_le_u16(elf, 62),
        },
    )
}

/// The program header stored at byte offset `off`.
pub open spec fn phdr_at(b: Seq<u8>, off: int) -> Elf64Phdr {
    Elf64Phdr {
        p_type: le_u32_of(b, off) as u32,
        p_flags: le_u32_of(b, off + 4) as u32,
        p_offset: le_u64_of(b, off + 8) as u64,
        p_vaddr: le_u64_of(b, off + 16) as u64,
        p_paddr: le_u64_of(b, off + 24) as u64,
        p_filesz: le_u64_of(b, off + 32) as u64,
        p_memsz: le_u64_of(b, off + 40) as u64,
        p_align: le_u64_of(b, off + 48) as u64,
    }
}

/// Read the program header at byte offset `off`.
pub fn parse_phdr(elf: &Vec<u8>, off: usize) -> (r: Elf64Phdr)
    requires
        off + PHDR_SIZE <= elf.len(),
    ensures
        r == phdr_at(elf@, off as int),
{
    Elf64Phdr {
        p_type: read_le_u32(elf, off),
        p_flags: read_le_u32(elf, off + 4),
        p_offset: read_le_u64(elf, off + 8),
        p_vaddr: read_le_u64(elf, off + 16),
        p_paddr: read_le_u64(elf, off + 24),
        p_filesz: read_le_u64(elf, off + 32),
        p_memsz: read_le_u64(elf, off + 40),
        p_align: read_le_u64(elf, off + 48),
    }
}

/// Page-table permission bits for a loaded segment, derived from its
/// `p_flags`: always present and user-visible, writable exactly for PF_W,
/// no-execute exactly when PF_X is clear.  A segment both writable and
/// executable is refused by the loader, so this mapping assumes not both.
pub fn flags_to_permissions(p_flags: u32) -> (perms: u64)
    requires
        !(p_flags & PF_W != 0 && p_flags & PF_X != 0),
    ensures
        perms == spec_flags_to_permissions(p_flags),
{
    let mut perms: u64 = crate::mmu::PRESENT | crate::mmu::USER_ACCESSIBLE;
    if p_flags & PF_W != 0 {
        perms = perms | crate::mmu::WRITABLE;
    }
    if p_flags & PF_X == 0 {
        perms = perms | crate::mmu::NON_EXECUTABLE;
    }
    perms
}

/// See `flags_to_permissions`.
pub open spec fn spec_flags_to_permissions(p_flags: u32) -> u64 {
    let base: u64 = crate::mmu::PRESENT | crate::mmu::USER_ACCESSIBLE;
    let with_w: u64 = if p_flags & PF_W != 0 {
        base | crate::mmu::WRITABLE
    } else {
        base
    };
    if p_flags & PF_X == 0 {
        with_w | crate::mmu::NON_EXECUTABLE
    } else {
        with_w
    }
}

} // verus!
