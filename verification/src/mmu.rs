//! The four-level x86-64 page-table mapper.
//!
//! A `PageMapLevel4` owns its whole translation tree: each present non-leaf
//! entry carries both the raw descriptor word the hardware would read and
//! the table it points to.  The physical frame that backs every table is
//! drawn from the `PageAllocator` and keeps at least one reference for as
//! long as the entry exists, so table frames are never handed out twice.
//!
//! Leaf entries are bare descriptor words: 4 KiB leaves live at level 1,
//! 2 MiB leaves (`LARGE`) at level 2.

use vstd::prelude::*;
use crate::addr::{PhysAddr, VirtAddr};
use crate::pg_alloc::{PageAllocator, alloc_evolved};
use crate::units::{PAGE_SIZE, PAGE_SIZE_LARGE};

verus! {

/// Entries in a directory of any level.
pub const ENTRIES: usize = 512;

pub const PRESENT: u64 = 1;
pub const WRITABLE: u64 = 2;
pub const USER_ACCESSIBLE: u64 = 4;
pub const LARGE: u64 = 0x80;
pub const NON_EXECUTABLE: u64 = 0x8000_0000_0000_0000;

/// Bits of a descriptor that address the pointed-to frame.
pub const ADDR_MASK: u64 = 0xf_ffff_ffff_f000;

/// A level-1 (page table) entry: maps one 4 KiB page.
#[derive(Clone, Copy, PartialEq, Eq, Structural, Debug)]
pub struct PageTableEntry {
    pub scalar: u64,
}

/// A level-1 table: 512 page mappings.
pub struct PageTable {
    pub entries: Vec<PageTableEntry>,
}

/// A level-2 (page directory) entry: either a 2 MiB leaf (`LARGE`) or a
/// pointer to a level-1 table, which it then owns.
pub struct PageDirectoryEntry {
    pub scalar: u64,
    pub table: Option<PageTable>,
}

pub struct PageDirectory {
    pub entries: Vec<PageDirectoryEntry>,
}

/// A level-3 (page directory pointer) entry.
pub struct PageDirPointerEntry {
    pub scalar: u64,
    pub dir: Option<PageDirectory>,
}

pub struct PageDirPointer {
    pub entries: Vec<PageDirPointerEntry>,
}

/// A level-4 (root) entry.
pub struct Pml4Entry {
    pub scalar: u64,
    pub pdpt: Option<PageDirPointer>,
}

/// A root page directory: the value loaded into CR3 and the owned tree.
pub struct PageMapLevel4 {
    pub addr: PhysAddr,
    pub entries: Vec<Pml4Entry>,
}

pub open spec fn present(e: u64) -> bool {
    e & PRESENT != 0
}

pub open spec fn is_large(e: u64) -> bool {
    e & LARGE != 0
}

/// The physical address bits of a descriptor.
pub open spec fn entry_addr(e: u64) -> u64 {
    e & ADDR_MASK
}

/// Index of the level-4 slot an address selects (bits 39..47).
pub open spec fn l4_index(va: u64) -> int {
    (va as int / 0x80_0000_0000) % 512
}

/// Index of the level-3 slot (bits 30..38).
pub open spec fn l3_index(va: u64) -> int {
    (va as int / 0x4000_0000) % 512
}

/// Index of the level-2 slot (bits 21..29).
pub open spec fn l2_index(va: u64) -> int {
    (va as int / 0x20_0000) % 512
}

/// Index of the level-1 slot (bits 12..20).
pub open spec fn l1_index(va: u64) -> int {
    (va as int / 0x1000) % 512
}

/// Offset within a 4 KiB page.
pub open spec fn page_offset(va: u64) -> int {
    va as int % 0x1000
}

/// Two addresses select the same level-1 slot (and so the same 4 KiB
/// mapping).
pub open spec fn same_4k_slot(a: u64, b: u64) -> bool {
    l4_index(a) == l4_index(b) && l3_index(a) == l3_index(b) && l2_index(a) == l2_index(b)
        && l1_index(a) == l1_index(b)
}

/// Two addresses select the same level-2 slot.
pub open spec fn same_2m_slot(a: u64, b: u64) -> bool {
    l4_index(a) == l4_index(b) && l3_index(a) == l3_index(b) && l2_index(a) == l2_index(b)
}

/// The level offsets of an address split for a 4 KiB walk.
#[derive(Clone, Copy, PartialEq, Eq, Structural, Debug)]
pub struct PageFrames4K {
    pub pml4_offs: usize,
    pub pdpt_offs: usize,
    pub pd_offset: usize,
    pub pt_offset: usize,
    pub pg_offset: usize,
}

/// The level offsets of an address split for a 2 MiB walk.
#[derive(Clone, Copy, PartialEq, Eq, Structural, Debug)]
pub struct PageFrames2M {
    pub pml4_offs: usize,
    pub pdpt_offs: usize,
    pub pd_offset: usize,
    pub pg_offset: usize,
}

/// How the shift-and-mask index computations relate to the arithmetic
/// definitions of the level indices.
proof fn lemma_index_bits(va: u64)
    ensures
        ((va >> 39) & 0x1ff) as int == l4_index(va),
        ((va >> 30) & 0x1ff) as int == l3_index(va),
        ((va >> 21) & 0x1ff) as int == l2_index(va),
        ((va >> 12) & 0x1ff) as int == l1_index(va),
        (va & 0xfff) as int == page_offset(va),
        ((va & 0x1f_ffff) as int) == va as int % 0x20_0000,
        l4_index(va) < 512 && l3_index(va) < 512 && l2_index(va) < 512 && l1_index(va) < 512,
        l4_index(va) >= 0 && l3_index(va) >= 0 && l2_index(va) >= 0 && l1_index(va) >= 0,
{
    assert(((va >> 39) & 0x1ff) == (va / 0x80_0000_0000u64) % 512) by (bit_vector);
    assert(((va >> 30) & 0x1ff) == (va / 0x4000_0000u64) % 512) by (bit_vector);
    assert(((va >> 21) & 0x1ff) == (va / 0x20_0000u64) % 512) by (bit_vector);
    assert(((va >> 12) & 0x1ff) == (va / 0x1000u64) % 512) by (bit_vector);
    assert((va & 0xfff) == va % 0x1000u64) by (bit_vector);
    assert((va & 0x1f_ffff) == va % 0x20_0000u64) by (bit_vector);
    assert(((va >> 39) & 0x1ff) < 512) by (bit_vector);
    assert(((va >> 30) & 0x1ff) < 512) by (bit_vector);
    assert(((va >> 21) & 0x1ff) < 512) by (bit_vector);
    assert(((va >> 12) & 0x1ff) < 512) by (bit_vector);
}

/// Split an address into the four level offsets and the 4 KiB page offset.
pub fn to_4k_page_frames(addr: VirtAddr) -> (r: PageFrames4K)
    ensures
        r.pml4_offs == l4_index(addr.0),
        r.pdpt_offs == l3_index(addr.0),
        r.pd_offset == l2_index(addr.0),
        r.pt_offset == l1_index(addr.0),
        r.pg_offset == page_offset(addr.0),
{
    proof {
        lemma_index_bits(addr.0);
    }
    PageFrames4K {
        pml4_offs: ((addr.0 >> 39) & 0x1ff) as usize,
        pdpt_offs: ((addr.0 >> 30) & 0x1ff) as usize,
        pd_offset: ((addr.0 >> 21) & 0x1ff) as usize,
        pt_offset: ((addr.0 >> 12) & 0x1ff) as usize,
        pg_offset: (addr.0 & 0xfff) as usize,
    }
}

/// Split an address into the three level offsets and the 2 MiB page offset.
pub fn to_2m_page_frames(addr: VirtAddr) -> (r: PageFrames2M)
    ensures
        r.pml4_offs == l4_index(addr.0),
        r.pdpt_offs == l3_index(addr.0),
        r.pd_offset == l2_index(addr.0),
        r.pg_offset == addr.0 as int % 0x20_0000,
{
    proof {
        lemma_index_bits(addr.0);
    }
    PageFrames2M {
        pml4_offs: ((addr.0 >> 39) & 0x1ff) as usize,
        pdpt_offs: ((addr.0 >> 30) & 0x1ff) as usize,
        pd_offset: ((addr.0 >> 21) & 0x1ff) as usize,
        pg_offset: (addr.0 & 0x1f_ffff) as usize,
    }
}

/// An address outside the slots of a page run is also outside the slots of
/// its tail, and differs from the head page's slot.
proof fn lemma_not_in_submapped_4k(va2: u64, from: u64, pages: int)
    requires
        pages >= 1,
        from % PAGE_SIZE == 0,
        from + pages * PAGE_SIZE <= 0x1_0000_0000_0000_0000,
        !in_mapped_4k_range(va2, from, pages),
    ensures
        !in_mapped_4k_range(va2, (from + PAGE_SIZE) as u64, pages - 1),
        !same_4k_slot(va2, from),
{
    reveal(in_mapped_4k_range);
    assert(!same_4k_slot(va2, from));
    let from1 = (from + PAGE_SIZE) as u64;
    if in_mapped_4k_range(va2, from1, pages - 1) {
        let p = choose|p: u64|
            from1 <= p < from1 + (pages - 1) * PAGE_SIZE && p % PAGE_SIZE == 0
                && #[trigger] same_4k_slot(va2, p);
        assert(from <= p < from + pages * PAGE_SIZE);
    }
}

/// The head page of a run does not share a slot with any page of the tail.
proof fn lemma_head_not_in_submapped_4k(from: u64, pages: int)
    requires
        pages >= 1,
        from % PAGE_SIZE == 0,
        from + pages * PAGE_SIZE <= 0x1_0000_0000_0000_0000,
        pages * PAGE_SIZE <= 0x1_0000_0000_0000,
    ensures
        !in_mapped_4k_range(from, (from + PAGE_SIZE) as u64, pages - 1),
{
    reveal(in_mapped_4k_range);
    let from1 = (from + PAGE_SIZE) as u64;
    if in_mapped_4k_range(from, from1, pages - 1) {
        let p = choose|p: u64|
            from1 <= p < from1 + (pages - 1) * PAGE_SIZE && p % PAGE_SIZE == 0
                && #[trigger] same_4k_slot(from, p);
        lemma_distinct_4k_slots(from, p);
    }
}

/// An empty run of pages covers no slots at all.
proof fn lemma_empty_mapped_4k(va2: u64, from: u64)
    ensures
        !in_mapped_4k_range(va2, from, 0),
{
    reveal(in_mapped_4k_range);
}

/// An address outside the slots of a large-page run is also outside the
/// slots of its tail, and differs from the head page's slot.
proof fn lemma_not_in_submapped_2m(va2: u64, from: u64, lpages: int)
    requires
        lpages >= 1,
        from % PAGE_SIZE_LARGE == 0,
        from + lpages * PAGE_SIZE_LARGE <= 0x1_0000_0000_0000_0000,
        !in_mapped_2m_range(va2, from, lpages),
    ensures
        !in_mapped_2m_range(va2, (from + PAGE_SIZE_LARGE) as u64, lpages - 1),
        !same_2m_slot(va2, from),
{
    reveal(in_mapped_2m_range);
    assert(!same_2m_slot(va2, from));
    let from1 = (from + PAGE_SIZE_LARGE) as u64;
    if in_mapped_2m_range(va2, from1, lpages - 1) {
        let p = choose|p: u64|
            from1 <= p < from1 + (lpages - 1) * PAGE_SIZE_LARGE && p % PAGE_SIZE_LARGE == 0
                && #[trigger] same_2m_slot(va2, p);
        assert(from <= p < from + lpages * PAGE_SIZE_LARGE);
    }
}

/// The head large page of a run shares no slot with any page of the tail.
proof fn lemma_head_not_in_submapped_2m(from: u64, lpages: int)
    requires
        lpages >= 1,
        from % PAGE_SIZE_LARGE == 0,
        from + lpages * PAGE_SIZE_LARGE <= 0x1_0000_0000_0000_0000,
        lpages * PAGE_SIZE_LARGE <= 0x1_0000_0000_0000,
    ensures
        !in_mapped_2m_range(from, (from + PAGE_SIZE_LARGE) as u64, lpages - 1),
{
    reveal(in_mapped_2m_range);
    let from1 = (from + PAGE_SIZE_LARGE) as u64;
    if in_mapped_2m_range(from, from1, lpages - 1) {
        let p = choose|p: u64|
            from1 <= p < from1 + (lpages - 1) * PAGE_SIZE_LARGE && p % PAGE_SIZE_LARGE == 0
                && #[trigger] same_2m_slot(from, p);
        lemma_distinct_2m_slots(from, p);
    }
}

/// An empty run of large pages covers no slots at all.
proof fn lemma_empty_mapped_2m(va2: u64, from: u64)
    ensures
        !in_mapped_2m_range(va2, from, 0),
{
    reveal(in_mapped_2m_range);
}

/// A membership witness: a 2 MiB-aligned page of the run lies in the run.
proof fn lemma_mapped_2m_witness(va2: u64, from: u64, lpages: int, p: u64)
    requires
        from <= p < from + lpages * PAGE_SIZE_LARGE,
        p % PAGE_SIZE_LARGE == 0,
        same_2m_slot(va2, p),
    ensures
        in_mapped_2m_range(va2, from, lpages),
{
    reveal(in_mapped_2m_range);
}

/// The address field of a descriptor is page-aligned and below 2^52.
pub proof fn lemma_entry_addr_aligned(e: u64)
    ensures
        entry_addr(e) % 4096 == 0,
        entry_addr(e) < 0x10_0000_0000_0000,
{
    assert((e & 0xf_ffff_ffff_f000u64) % 4096 == 0 && (e & 0xf_ffff_ffff_f000u64)
        < 0x10_0000_0000_0000u64) by (bit_vector);
}

/// Addresses in the same level-1 slot read the same descriptors.
pub proof fn lemma_entries_same_slot(dir: PageMapLevel4, a: u64, b: u64)
    requires
        same_4k_slot(a, b),
    ensures
        dir.l1_entry(a) == dir.l1_entry(b),
        dir.l2_entry(a) == dir.l2_entry(b),
{
    reveal(PageMapLevel4::l1_entry);
    reveal(PageMapLevel4::l2_entry);
}

/// A leaf descriptor built from an aligned frame address, permission bits
/// outside the address field and the present bit keeps all three readable.
proof fn lemma_leaf_scalar(x: u64, q: u64)
    requires
        x % 4096 == 0,
        x < 0x10_0000_0000_0000,
        q & 0xf_ffff_ffff_f000 == 0,
    ensures
        entry_addr(x | q | 1) == x,
        present(x | q | 1),
{
    assert((((x | q) | 1u64) & 0xf_ffff_ffff_f000u64) == x && (((x | q) | 1u64) & 1u64) != 0)
        by (bit_vector)
        requires x % 4096 == 0 && x < 0x10_0000_0000_0000u64 && q & 0xf_ffff_ffff_f000u64 == 0;
}

/// Addresses in the same level-2 slot read the same level-2 and level-1
/// descriptors when the level-2 slot carries no table.
pub proof fn lemma_entries_same_slot_2m(dir: PageMapLevel4, a: u64, b: u64)
    requires
        same_2m_slot(a, b),
    ensures
        dir.l2_entry(a) == dir.l2_entry(b),
        dir.l1_entry(a) is None <==> dir.l1_entry(b) is None,
{
    reveal(PageMapLevel4::l1_entry);
    reveal(PageMapLevel4::l2_entry);
}

/// Without a level-2 descriptor there is no level-1 descriptor either.
pub proof fn lemma_l2_none_l1_none(dir: PageMapLevel4, va: u64)
    requires
        dir.l2_entry(va) is None,
    ensures
        dir.l1_entry(va) is None,
{
    reveal(PageMapLevel4::l1_entry);
    reveal(PageMapLevel4::l2_entry);
}

/// A level-1 descriptor can only exist under a level-2 descriptor.
pub proof fn lemma_l1_some_l2_some(dir: PageMapLevel4, va: u64)
    requires
        dir.l1_entry(va) is Some,
    ensures
        dir.l2_entry(va) is Some,
{
    reveal(PageMapLevel4::l1_entry);
    reveal(PageMapLevel4::l2_entry);
}

impl PageTable {
    pub open spec fn wf(self) -> bool {
        self.entries@.len() == 512
    }
}

impl PageDirectoryEntry {
    pub open spec fn wf(self) -> bool {
        match self.table {
            Some(t) => present(self.scalar) && !is_large(self.scalar) && t.wf(),
            None => !present(self.scalar) || is_large(self.scalar),
        }
    }
}

impl PageDirectory {
    pub open spec fn wf(self) -> bool {
        self.entries@.len() == 512 && forall|i: int|
            0 <= i < 512 ==> (#[trigger] self.entries@[i]).wf()
    }
}

impl PageDirPointerEntry {
    pub open spec fn wf(self) -> bool {
        match self.dir {
            Some(d) => present(self.scalar) && d.wf(),
            None => !present(self.scalar),
        }
    }
}

impl PageDirPointer {
    pub open spec fn wf(self) -> bool {
        self.entries@.len() == 512 && forall|i: int|
            0 <= i < 512 ==> (#[trigger] self.entries@[i]).wf()
    }
}

impl Pml4Entry {
    pub open spec fn wf(self) -> bool {
        match self.pdpt {
            Some(p) => present(self.scalar) && p.wf(),
            None => !present(self.scalar),
        }
    }
}

impl PageMapLevel4 {
    pub open spec fn wf(self) -> bool {
        self.entries@.len() == 512 && forall|i: int|
            0 <= i < 512 ==> (#[trigger] self.entries@[i]).wf()
    }

    /// The level-2 descriptor on `va`'s path, if levels 4 and 3 are present.
    #[verifier::opaque]
    pub open spec fn l2_entry(self, va: u64) -> Option<u64> {
        match self.entries@[l4_index(va)].pdpt {
            None => None,
            Some(pdpt) => match pdpt.entries@[l3_index(va)].dir {
                None => None,
                Some(dir) => Some(dir.entries@[l2_index(va)].scalar),
            },
        }
    }

    /// The level-1 descriptor on `va`'s path, if all three upper levels
    /// point at tables.
    #[verifier::opaque]
    pub open spec fn l1_entry(self, va: u64) -> Option<u64> {
        match self.entries@[l4_index(va)].pdpt {
            None => None,
            Some(pdpt) => match pdpt.entries@[l3_index(va)].dir {
                None => None,
                Some(dir) => match dir.entries@[l2_index(va)].table {
                    None => None,
                    Some(t) => Some(t.entries@[l1_index(va)].scalar),
                },
            },
        }
    }

    /// The present 4 KiB leaf mapping `va`, if any.
    pub open spec fn leaf_4k(self, va: u64) -> Option<u64> {
        match self.l1_entry(va) {
            Some(e) => if present(e) {
                Some(e)
            } else {
                None
            },
            None => None,
        }
    }

    /// The present 2 MiB leaf mapping `va`, if any.
    pub open spec fn leaf_2m(self, va: u64) -> Option<u64> {
        match self.l2_entry(va) {
            Some(e) => if present(e) && is_large(e) {
                Some(e)
            } else {
                None
            },
            None => None,
        }
    }

    /// The physical address `va` maps to, through either a 2 MiB leaf or a
    /// present 4 KiB leaf.
    pub open spec fn translate(self, va: u64) -> Option<int> {
        match self.l2_entry(va) {
            None => None,
            Some(e2) => if present(e2) && is_large(e2) {
                Some(entry_addr(e2) + (va as int % 0x20_0000))
            } else {
                match self.l1_entry(va) {
                    None => None,
                    Some(e1) => if present(e1) {
                        Some(entry_addr(e1) + page_offset(va))
                    } else {
                        None
                    },
                }
            },
        }
    }

    /// The 4 KiB mapping of `va` exists and is present with the user bit.
    pub open spec fn page_user_accessible(self, va: u64) -> bool {
        match self.l2_entry(va) {
            None => false,
            Some(e2) => if present(e2) && is_large(e2) {
                e2 & USER_ACCESSIBLE != 0
            } else {
                match self.l1_entry(va) {
                    None => false,
                    Some(e1) => present(e1) && e1 & USER_ACCESSIBLE != 0,
                }
            },
        }
    }

    /// Every address of `[from, to)` is reachable through a present,
    /// user-accessible mapping.
    pub open spec fn region_user_accessible(self, from: u64, to: u64) -> bool {
        forall|a: u64| from <= a < to ==> #[trigger] self.page_user_accessible(a)
    }

    /// A fresh, empty root directory whose level-4 frame is drawn from the
    /// allocator and keeps one reference.  Nothing is mapped.
    pub fn new(alloc: &mut PageAllocator) -> (r: Self)
        requires
            old(alloc).wf(),
            old(alloc).free_count() >= 1,
            old(alloc).num_frames() * PAGE_SIZE <= 0x10_0000_0000_0000,
        ensures
            r.wf(),
            r.addr.0 % PAGE_SIZE == 0,
            r.addr.0 / PAGE_SIZE < final(alloc).num_frames(),
            final(alloc).refc(r.addr.0 as int / PAGE_SIZE as int) == 1,
            forall|va: u64| (#[trigger] r.l1_entry(va)) is None,
            forall|va: u64| (#[trigger] r.l2_entry(va)) is None,
            forall|va: u64| (#[trigger] r.translate(va)) is None,
            forall|va: u64| !(#[trigger] r.page_user_accessible(va)),
            alloc_evolved(*old(alloc), *final(alloc), 1),
    {
        let f = alloc.alloc_page();
        alloc.inc_refc(f);
        proof {
            lemma_frame_bound(f as int, alloc.num_frames(), 0x10_0000_0000_0000);
        }
        let mut entries: Vec<Pml4Entry> = Vec::new();
        let mut i: usize = 0;
        while i < ENTRIES
            invariant
                i <= 512,
                entries@.len() == i,
                forall|j: int|
                    0 <= j < i ==> (#[trigger] entries@[j]).scalar == 0 && entries@[j].pdpt
                        is None,
            decreases 512 - i,
        {
            entries.push(Pml4Entry { scalar: 0, pdpt: None });
            i += 1;
        }
        let fa: u64 = (f as u64) * PAGE_SIZE;
        proof {
            assert(fa % 4096 == 0) by (nonlinear_arith)
                requires fa == (f as int) * 4096;
            assert((fa as int) / (PAGE_SIZE as int) == f) by (nonlinear_arith)
                requires fa == (f as int) * 4096 && PAGE_SIZE == 4096;
            lemma_zero_entry();
        }
        let r = PageMapLevel4 { addr: PhysAddr(fa), entries };
        proof {
            reveal(PageMapLevel4::l1_entry);
            reveal(PageMapLevel4::l2_entry);
            assert forall|va: u64| (#[trigger] r.l1_entry(va)) is None && r.l2_entry(va)
                is None by {
                lemma_index_bits(va);
            }
        }
        r
    }

    /// A placeholder directory: no tables, nothing mapped, CR3 value zero.
    pub fn empty() -> (r: Self)
        ensures
            r.addr.0 == 0,
            r.entries@.len() == 0,
    {
        PageMapLevel4 { addr: PhysAddr(0), entries: Vec::new() }
    }

    /// Read the level-1 descriptor on `va`'s path without changing
    /// anything.
    pub fn get_l1(&self, addr: VirtAddr) -> (r: Option<u64>)
        requires
            self.wf(),
        ensures
            r == self.l1_entry(addr.0),
    {
        proof {
            reveal(PageMapLevel4::l1_entry);
        }
        let frames = to_4k_page_frames(addr);
        let e4 = &self.entries[frames.pml4_offs];
        match &e4.pdpt {
            None => None,
            Some(pdpt) => {
                let e3 = &pdpt.entries[frames.pdpt_offs];
                match &e3.dir {
                    None => None,
                    Some(dir) => {
                        let e2 = &dir.entries[frames.pd_offset];
                        match &e2.table {
                            None => None,
                            Some(t) => Some(t.entries[frames.pt_offset].scalar),
                        }
                    },
                }
            },
        }
    }

    /// Read the level-2 descriptor on `va`'s path.
    pub fn get_l2(&self, addr: VirtAddr) -> (r: Option<u64>)
        requires
            self.wf(),
        ensures
            r == self.l2_entry(addr.0),
    {
        proof {
            reveal(PageMapLevel4::l2_entry);
        }
        let frames = to_2m_page_frames(addr);
        let e4 = &self.entries[frames.pml4_offs];
        match &e4.pdpt {
            None => None,
            Some(pdpt) => {
                let e3 = &pdpt.entries[frames.pdpt_offs];
                match &e3.dir {
                    None => None,
                    Some(dir) => Some(dir.entries[frames.pd_offset].scalar),
                }
            },
        }
    }

    /// Descend to the level-1 slot of `addr`, allocating any missing
    /// intermediate tables; each new table frame keeps one reference.
    #[verifier::rlimit(100)]
    fn ensure_path_4k(&mut self, alloc: &mut PageAllocator, addr: VirtAddr)
        requires
            old(self).wf(),
            old(alloc).wf(),
            old(alloc).free_count() >= 3,
            old(alloc).num_frames() * PAGE_SIZE <= 0x10_0000_0000_0000,
            !(old(self).l2_entry(addr.0) matches Some(e2) && present(e2) && is_large(e2)),
        ensures
            final(self).wf(),
            final(self).addr == old(self).addr,
            final(self).l1_entry(addr.0) == (match old(self).l1_entry(addr.0) {
                Some(e) => Some(e),
                None => Some(0u64),
            }),
            final(self).l2_entry(addr.0) matches Some(e2) && present(e2) && !is_large(e2),
            (old(self).l2_entry(addr.0) is None || old(self).l2_entry(addr.0) == Some(0u64))
                ==> (match final(self).l2_entry(addr.0) {
                Some(e2) => e2 & WRITABLE != 0 && e2 & USER_ACCESSIBLE != 0,
                None => false,
            }),
            forall|va2: u64|
                !same_4k_slot(va2, addr.0) ==> final(self).leaf_4k(va2) == old(self).leaf_4k(va2),
            forall|va2: u64| final(self).leaf_2m(va2) == old(self).leaf_2m(va2),
            forall|va2: u64|
                old(self).l1_entry(va2) is Some && !same_4k_slot(va2, addr.0) ==> final(self).l1_entry(
                    va2,
                ) == old(self).l1_entry(va2),
            alloc_evolved(*old(alloc), *final(alloc), 3),
    {
        let frames = to_4k_page_frames(addr);
        proof {
            lemma_index_bits(addr.0);
            reveal(PageMapLevel4::l1_entry);
            reveal(PageMapLevel4::l2_entry);
        }
        let ghost alloc0 = *alloc;
        let e4 = &mut self.entries[frames.pml4_offs];
        if e4.pdpt.is_none() {
            let f = alloc.alloc_page();
            alloc.inc_refc(f);
            proof {
                lemma_frame_bound(f as int, alloc.num_frames(), 0x10_0000_0000_0000);
            }
            e4.scalar = table_frame_scalar(f);
            e4.pdpt = Some(new_page_dir_pointer());
        }
        proof {
            assert(alloc_evolved(alloc0, *alloc, 1));
        }
        let ghost alloc1 = *alloc;
        if let Some(pdpt) = &mut e4.pdpt {
            let e3 = &mut pdpt.entries[frames.pdpt_offs];
            if e3.dir.is_none() {
                let f = alloc.alloc_page();
                alloc.inc_refc(f);
                proof {
                    lemma_frame_bound(f as int, alloc.num_frames(), 0x10_0000_0000_0000);
                }
                e3.scalar = table_frame_scalar(f);
                e3.dir = Some(new_page_directory());
            }
            proof {
                assert(alloc_evolved(alloc1, *alloc, 1));
            }
            let ghost alloc2 = *alloc;
            if let Some(dir) = &mut e3.dir {
                let e2 = &mut dir.entries[frames.pd_offset];
                if e2.table.is_none() {
                    let f = alloc.alloc_page();
                    alloc.inc_refc(f);
                    proof {
                        lemma_frame_bound(f as int, alloc.num_frames(), 0x10_0000_0000_0000);
                    }
                    e2.scalar = table_frame_scalar(f);
                    e2.table = Some(new_page_table());
                    proof {
                        assert(e2.scalar & WRITABLE != 0 && e2.scalar & USER_ACCESSIBLE != 0);
                    }
                } else {
                    proof {
                        reveal(PageMapLevel4::l2_entry);
                        assert(old(self).l2_entry(addr.0) == Some(e2.scalar) && present(
                            e2.scalar,
                        ));
                        assert(!(e2.scalar == 0)) by {
                            lemma_zero_entry();
                        }
                    }
                }
                proof {
                    assert(alloc_evolved(alloc2, *alloc, 1));
                }
            }
        }
        proof {
            crate::pg_alloc::lemma_alloc_evolved_trans(alloc0, alloc1, *alloc, 1, 2);
            reveal(PageMapLevel4::l1_entry);
            reveal(PageMapLevel4::l2_entry);
            assert forall|i: int| 0 <= i < 512 implies (#[trigger] self.entries@[i]).wf() by {
                if i != l4_index(addr.0) {
                    assert(self.entries@[i] == old(self).entries@[i]);
                }
            }
            assert forall|va2: u64|
                !same_4k_slot(va2, addr.0) implies self.leaf_4k(va2) == old(self).leaf_4k(
                va2,
            ) by {
                lemma_index_bits(va2);
                lemma_zero_entry();
            }
            assert forall|va2: u64| self.leaf_2m(va2) == old(self).leaf_2m(va2) by {
                lemma_index_bits(va2);
                lemma_zero_entry();
            }
            assert forall|va2: u64|
                old(self).l1_entry(va2) is Some && !same_4k_slot(va2, addr.0) implies self.l1_entry(
                va2,
            ) == old(self).l1_entry(va2) by {
                lemma_index_bits(va2);
            }
        }
    }

    /// Walk to the level-1 descriptor of `addr`, creating missing tables
    /// when `create` is set; the descriptor (if any) is returned by value.
    pub fn walk_dir(&mut self, alloc: &mut PageAllocator, addr: VirtAddr, create: bool) -> (r:
        Option<PageTableEntry>)
        requires
            old(self).wf(),
            old(alloc).wf(),
            create ==> old(alloc).free_count() >= 3,
            old(alloc).num_frames() * PAGE_SIZE <= 0x10_0000_0000_0000,
            create ==> old(self).leaf_2m(addr.0) is None,
        ensures
            final(self).wf(),
            final(self).addr == old(self).addr,
            !create ==> *final(self) == *old(self) && *final(alloc) == *old(alloc) && r == (match old(self).l1_entry(addr.0) {
                Some(e) => Some(PageTableEntry { scalar: e }),
                None => None,
            }),
            create ==> r == (match old(self).l1_entry(addr.0) {
                Some(e) => Some(PageTableEntry { scalar: e }),
                None => Some(PageTableEntry { scalar: 0 }),
            }),
            create ==> final(self).l1_entry(addr.0) is Some,
            create && (old(self).l2_entry(addr.0) is None || old(self).l2_entry(addr.0) == Some(
                0u64,
            )) ==> (match final(self).l2_entry(addr.0) {
                Some(e2) => present(e2) && !is_large(e2) && e2 & WRITABLE != 0 && e2
                    & USER_ACCESSIBLE != 0,
                None => false,
            }),
            create ==> alloc_evolved(*old(alloc), *final(alloc), 3),
            create ==> forall|va2: u64|
                !same_4k_slot(va2, addr.0) ==> final(self).leaf_4k(va2) == old(self).leaf_4k(va2),
            create ==> forall|va2: u64|
                old(self).l1_entry(va2) is Some && !same_4k_slot(va2, addr.0) ==> final(self).l1_entry(
                    va2,
                ) == old(self).l1_entry(va2),
            create ==> forall|va2: u64| final(self).leaf_2m(va2) == old(self).leaf_2m(va2),
    {
        if create {
            self.ensure_path_4k(alloc, addr);
            match self.get_l1(addr) {
                Some(e) => Some(PageTableEntry { scalar: e }),
                None => None,
            }
        } else {
            match self.get_l1(addr) {
                Some(e) => Some(PageTableEntry { scalar: e }),
                None => None,
            }
        }
    }

    /// Install a mapping of frame `page` at `addr` with the given
    /// permission bits; an evicted present mapping loses one reference.
    pub fn map_page_at_addr(
        &mut self,
        alloc: &mut PageAllocator,
        page: usize,
        addr: VirtAddr,
        perms: u64,
    )
        requires
            old(self).wf(),
            old(alloc).wf(),
            old(alloc).free_count() >= 3,
            old(alloc).num_frames() * PAGE_SIZE <= 0x10_0000_0000_0000,
            page < old(alloc).num_frames(),
            !old(alloc).is_free(page as int),
            old(alloc).refc(page as int) < 0xffff,
            old(self).leaf_2m(addr.0) is None,
            (match old(self).leaf_4k(addr.0) {
                Some(e) => entry_addr(e) / PAGE_SIZE < old(alloc).num_frames() && old(alloc).refc(
                    entry_addr(e) as int / PAGE_SIZE as int,
                ) >= 1,
                None => true,
            }),
        ensures
            final(self).wf(),
            final(self).addr == old(self).addr,
            final(self).l1_entry(addr.0) == Some(
                (((page * PAGE_SIZE) as u64) | perms | PRESENT) as u64,
            ),
            forall|va2: u64|
                !same_4k_slot(va2, addr.0) ==> final(self).leaf_4k(va2) == old(self).leaf_4k(va2),
            forall|va2: u64| final(self).leaf_2m(va2) == old(self).leaf_2m(va2),
            final(alloc).wf(),
            final(alloc).num_frames() == old(alloc).num_frames(),
            (match old(self).leaf_4k(addr.0) {
                Some(e) => {
                    let ef = entry_addr(e) as int / PAGE_SIZE as int;
                    if ef == page {
                        final(alloc).refc(page as int) == old(alloc).refc(page as int)
                    } else {
                        final(alloc).refc(page as int) == old(alloc).refc(page as int) + 1
                            && final(alloc).refc(ef) == old(alloc).refc(ef) - 1
                    }
                },
                None => final(alloc).refc(page as int) == old(alloc).refc(page as int) + 1,
            }),
            forall|g: int|
                0 <= g < final(alloc).num_frames() && !old(alloc).is_free(g) && g != page && (match old(self).leaf_4k(addr.0) {
                    Some(e) => g != entry_addr(e) as int / PAGE_SIZE as int,
                    None => true,
                }) ==> #[trigger] final(alloc).refc(g) == old(alloc).refc(g) && !final(alloc).is_free(g),
            forall|g: int|
                0 <= g < final(alloc).num_frames() && !old(alloc).is_free(g)
                    ==> #[trigger] final(alloc).bytes(g) == old(alloc).bytes(g),
            old(self).leaf_4k(addr.0) is None ==> final(alloc).free_count() >= old(alloc).free_count() - 3,
            old(self).leaf_4k(addr.0) is None ==> forall|g: int|
                0 <= g < final(alloc).num_frames() && #[trigger] final(alloc).is_free(g) ==> old(alloc).is_free(g),
            old(self).leaf_4k(addr.0) is None ==> forall|g: int|
                0 <= g < final(alloc).num_frames() && old(alloc).is_free(g) && !(
                #[trigger] final(alloc).is_free(g)) ==> final(alloc).refc(g) == 1 && final(alloc).bytes(g) == Seq::new(PAGE_SIZE as nat, |j: int| 0u8),
    {
        proof {
            lemma_frame_bound(page as int, old(alloc).num_frames(), 0x10_0000_0000_0000);
        }
        self.ensure_path_4k(alloc, addr);
        alloc.inc_refc(page);
        let leaf = match self.get_l1(addr) {
            Some(e) => e,
            None => 0,
        };
        proof {
            lemma_zero_entry();
        }
        if entry_present(leaf) {
            alloc.dec_page_refc(PhysAddr(entry_address(leaf)));
        }
        let new_scalar = ((page as u64) * PAGE_SIZE) | perms | PRESENT;
        self.set_l1(addr, new_scalar);
    }

    /// Map `pages` consecutive 4 KiB pages starting at `from` onto the
    /// physical range starting at `to`.  No reference counts change: this
    /// is the raw mapping primitive used for ranges the allocator does not
    /// track, such as the kernel's identity map.
    #[verifier::rlimit(100)]
    #[verifier::spinoff_prover]
    pub fn map_region(
        &mut self,
        alloc: &mut PageAllocator,
        from: VirtAddr,
        to: PhysAddr,
        pages: usize,
        perms: u64,
    )
        requires
            old(self).wf(),
            old(alloc).wf(),
            crate::units::aligned(from.0 as int, PAGE_SIZE as int),
            crate::units::aligned(to.0 as int, PAGE_SIZE as int),
            old(alloc).free_count() >= 3 * pages,
            old(alloc).num_frames() * PAGE_SIZE <= 0x10_0000_0000_0000,
            from.0 + pages * PAGE_SIZE <= 0x1_0000_0000_0000_0000,
            pages * PAGE_SIZE <= 0x1_0000_0000_0000,
            to.0 + pages * PAGE_SIZE <= 0x10_0000_0000_0000,
            forall|p: u64|
                from.0 <= p < from.0 + pages * PAGE_SIZE && p % PAGE_SIZE == 0 ==> (
                #[trigger] old(self).leaf_2m(p)) is None,
        ensures
            final(self).wf(),
            final(self).addr == old(self).addr,
            forall|p: u64|
                from.0 <= p < from.0 + pages * PAGE_SIZE && p % PAGE_SIZE == 0
                    ==> #[trigger] final(self).l1_entry(p) == Some(
                    (((to.0 + (p - from.0)) as u64) | perms) as u64,
                ),
            forall|va2: u64|
                !in_mapped_4k_range(va2, from.0, pages as int) ==> #[trigger] final(self).leaf_4k(
                    va2,
                ) == old(self).leaf_4k(va2),
            forall|va2: u64|
                old(self).l1_entry(va2) is Some && !in_mapped_4k_range(va2, from.0, pages as int)
                    ==> #[trigger] final(self).l1_entry(va2) == old(self).l1_entry(va2),
            forall|va2: u64| final(self).leaf_2m(va2) == old(self).leaf_2m(va2),
            alloc_evolved(*old(alloc), *final(alloc), 3 * pages),
        decreases pages,
    {
        if pages == 0 {
            proof {
                crate::pg_alloc::lemma_alloc_evolved_refl(*alloc, 0);
                assert forall|va2: u64| !(#[trigger] in_mapped_4k_range(va2, from.0, 0)) by {
                    lemma_empty_mapped_4k(va2, from.0);
                }
            }
            return ;
        }
        proof {
            assert((pages - 1) * PAGE_SIZE == pages * PAGE_SIZE - PAGE_SIZE && 3 * (pages - 1) == 3
                * pages - 3) by (nonlinear_arith);
            crate::units::lemma_round_down_props(from.0 as int, PAGE_SIZE as int);
            assert(old(self).leaf_2m(from.0) is None);
        }
        let ghost pre_alloc = *alloc;
        self.walk_dir(alloc, from, true);
        self.set_l1(from, to.0 | perms);
        let ghost mid_self = *self;
        let ghost mid_alloc = *alloc;
        proof {
            assert forall|p: u64|
                from.0 + PAGE_SIZE <= p < (from.0 + PAGE_SIZE) + (pages - 1) * PAGE_SIZE && p
                    % PAGE_SIZE == 0 implies (#[trigger] mid_self.leaf_2m(p)) is None by {
                assert(old(self).leaf_2m(p) is None);
            }
        }
        if pages > 1 {
            self.map_region(
                alloc,
                VirtAddr(from.0 + PAGE_SIZE),
                PhysAddr(to.0 + PAGE_SIZE),
                pages - 1,
                perms,
            );
        } else {
            proof {
                crate::pg_alloc::lemma_alloc_evolved_refl(*alloc, 0);
            }
        }
        proof {
            crate::pg_alloc::lemma_alloc_evolved_trans(pre_alloc, mid_alloc, *alloc, 3, 3 * (
            pages - 1));
            let from1 = (from.0 + PAGE_SIZE) as u64;
            let rest = (pages - 1) as int;
            lemma_head_not_in_submapped_4k(from.0, pages as int);
            assert forall|p: u64|
                from.0 <= p < from.0 + pages * PAGE_SIZE && p % PAGE_SIZE == 0
                    implies #[trigger] self.l1_entry(p) == Some(
                (((to.0 + (p - from.0)) as u64) | perms) as u64,
            ) by {
                if p == from.0 {
                    assert(mid_self.l1_entry(from.0) == Some((to.0 | perms) as u64));
                } else {
                    assert(p >= from.0 + PAGE_SIZE) by {
                        crate::units::lemma_aligned_step(
                            from.0 as int,
                            p as int,
                            PAGE_SIZE as int,
                        );
                    }
                    assert(self.l1_entry(p) == Some(
                        ((((to.0 + PAGE_SIZE) as u64) + (p - from1)) as u64 | perms) as u64,
                    ));
                }
            }
            assert forall|va2: u64|
                !in_mapped_4k_range(va2, from.0, pages as int) implies #[trigger] self.leaf_4k(va2)
                == old(self).leaf_4k(va2) by {
                lemma_not_in_submapped_4k(va2, from.0, pages as int);
                assert(mid_self.leaf_4k(va2) == old(self).leaf_4k(va2));
                assert(self.leaf_4k(va2) == mid_self.leaf_4k(va2));
            }
            assert forall|va2: u64|
                old(self).l1_entry(va2) is Some && !in_mapped_4k_range(va2, from.0, pages as int)
                    implies #[trigger] self.l1_entry(va2) == old(self).l1_entry(va2) by {
                lemma_not_in_submapped_4k(va2, from.0, pages as int);
                assert(mid_self.l1_entry(va2) == old(self).l1_entry(va2));
                assert(self.l1_entry(va2) == mid_self.l1_entry(va2));
            }
        }
    }

    /// Clear the present bit of `pages` consecutive 4 KiB leaves starting
    /// at `from`; reference counts are untouched and absent paths are left
    /// alone.
    #[verifier::rlimit(100)]
    /// Unmap `pages` pages starting at `from` and return each mapped
    /// page's frame to the allocator's accounting: its refcount drops by
    /// one, and the frame goes back to the freelist when that was its
    /// last reference.  The mapped pages must rest on pairwise distinct
    /// frames, as `alloc_range` leaves them.
    #[verifier::rlimit(100)]
    #[verifier::spinoff_prover]
    pub fn unmap_range(&mut self, alloc: &mut PageAllocator, from: VirtAddr, pages: usize)
        requires
            old(self).wf(),
            old(alloc).wf(),
            crate::units::aligned(from.0 as int, PAGE_SIZE as int),
            from.0 + pages * PAGE_SIZE <= 0x1_0000_0000_0000_0000,
            pages * PAGE_SIZE <= 0x1_0000_0000_0000,
            forall|p: u64|
                from.0 <= p < from.0 + pages * PAGE_SIZE && p % PAGE_SIZE == 0 ==> old(self).leaf_2m(
                    p,
                ) is None && (match #[trigger] old(self).leaf_4k(p) {
                    Some(e) => entry_addr(e) / PAGE_SIZE < old(alloc).num_frames() && old(alloc).refc(
                        entry_addr(e) as int / PAGE_SIZE as int,
                    ) >= 1,
                    None => true,
                }),
            forall|p1: u64, p2: u64|
                from.0 <= p1 < from.0 + pages * PAGE_SIZE && p1 % PAGE_SIZE == 0 && from.0 <= p2
                    < from.0 + pages * PAGE_SIZE && p2 % PAGE_SIZE == 0 && p1 != p2 && (
                #[trigger] old(self).leaf_4k(p1)) is Some && (#[trigger] old(self).leaf_4k(
                    p2,
                )) is Some ==> entry_addr(old(self).leaf_4k(p1)->Some_0) as int / (
                PAGE_SIZE as int) != entry_addr(old(self).leaf_4k(p2)->Some_0) as int / (
                PAGE_SIZE as int),
        ensures
            final(self).wf(),
            final(self).addr == old(self).addr,
            forall|p: u64|
                from.0 <= p < from.0 + pages * PAGE_SIZE && p % PAGE_SIZE == 0 ==> (
                #[trigger] final(self).leaf_4k(p)) is None && final(self).translate(p) is None,
            forall|va2: u64|
                !in_mapped_4k_range(va2, from.0, pages as int) ==> #[trigger] final(self).l1_entry(
                    va2,
                ) == old(self).l1_entry(va2),
            forall|va2: u64| final(self).l2_entry(va2) == old(self).l2_entry(va2),
            final(alloc).wf(),
            final(alloc).num_frames() == old(alloc).num_frames(),
            forall|g: int|
                0 <= g < final(alloc).num_frames() ==> #[trigger] final(alloc).bytes(g) == old(
                    alloc,
                ).bytes(g),
            forall|p: u64|
                from.0 <= p < from.0 + pages * PAGE_SIZE && p % PAGE_SIZE == 0 ==> (match
                #[trigger] old(self).leaf_4k(p) {
                    Some(e) => final(alloc).refc(entry_addr(e) as int / PAGE_SIZE as int) == old(
                        alloc,
                    ).refc(entry_addr(e) as int / PAGE_SIZE as int) - 1 && (final(alloc).is_free(
                        entry_addr(e) as int / PAGE_SIZE as int,
                    ) <==> old(alloc).refc(entry_addr(e) as int / PAGE_SIZE as int) == 1),
                    None => true,
                }),
            untracked_frames_kept(*old(alloc), *final(alloc), *old(self), from.0, pages as int),
        decreases pages,
    {
        if pages == 0 {
            proof {
                assert forall|va2: u64| !(#[trigger] in_mapped_4k_range(va2, from.0, 0)) by {
                    lemma_empty_mapped_4k(va2, from.0);
                }
            }
            return ;
        }
        proof {
            assert((pages - 1) * PAGE_SIZE == pages * PAGE_SIZE - PAGE_SIZE) by (nonlinear_arith);
            crate::units::lemma_round_down_props(from.0 as int, PAGE_SIZE as int);
        }
        let ghost head_leaf = old(self).leaf_4k(from.0);
        let ghost head_frame: int = entry_addr(head_leaf->Some_0) as int / PAGE_SIZE as int;
        self.unmap_page_at_addr(alloc, from);
        let ghost mid_self = *self;
        let ghost mid_alloc = *alloc;
        proof {
            assert((from.0 as int + PAGE_SIZE) % (PAGE_SIZE as int) == 0) by (nonlinear_arith)
                requires from.0 as int % (PAGE_SIZE as int) == 0;
            assert forall|p: u64|
                from.0 + PAGE_SIZE <= p < (from.0 + PAGE_SIZE) + (pages - 1) * PAGE_SIZE && p
                    % PAGE_SIZE == 0 implies !same_4k_slot(p, from.0) && #[trigger] mid_self.leaf_4k(
                p,
            ) == old(self).leaf_4k(p) && mid_self.leaf_2m(p) == old(self).leaf_2m(p) by {
                lemma_distinct_4k_slots(p, from.0);
            }
            assert forall|p: u64|
                from.0 + PAGE_SIZE <= p < (from.0 + PAGE_SIZE) + (pages - 1) * PAGE_SIZE && p
                    % PAGE_SIZE == 0 implies mid_self.leaf_2m(p) is None && (match
            #[trigger] mid_self.leaf_4k(p) {
                Some(e) => entry_addr(e) / PAGE_SIZE < mid_alloc.num_frames() && mid_alloc.refc(
                    entry_addr(e) as int / PAGE_SIZE as int,
                ) >= 1,
                None => true,
            }) by {
                assert(from.0 <= p < from.0 + pages * PAGE_SIZE);
                if mid_self.leaf_4k(p) is Some && head_leaf is Some {
                    assert(entry_addr(old(self).leaf_4k(p)->Some_0) as int / (PAGE_SIZE as int)
                        != head_frame);
                }
            }
        }
        if pages > 1 {
            self.unmap_range(alloc, VirtAddr(from.0 + PAGE_SIZE), pages - 1);
        } else {
            proof {
                assert forall|va2: u64|
                    !(#[trigger] in_mapped_4k_range(va2, (from.0 + PAGE_SIZE) as u64, 0)) by {
                    lemma_empty_mapped_4k(va2, (from.0 + PAGE_SIZE) as u64);
                }
            }
        }
        proof {
            let from1 = (from.0 + PAGE_SIZE) as u64;
            let rest = (pages - 1) as int;
            lemma_head_not_in_submapped_4k(from.0, pages as int);
            assert(!range_maps_frame(mid_self, from1, rest, head_frame) || !(head_leaf
                is Some)) by {
                if head_leaf is Some && range_maps_frame(mid_self, from1, rest, head_frame) {
                    let p = choose|p: u64|
                        from1 <= p < from1 + rest * PAGE_SIZE && p % PAGE_SIZE == 0 && (
                        #[trigger] mid_self.leaf_4k(p)) is Some && entry_addr(
                            mid_self.leaf_4k(p)->Some_0,
                        ) as int / (PAGE_SIZE as int) == head_frame;
                    assert(from.0 <= p < from.0 + pages * PAGE_SIZE && p != from.0);
                    assert(old(self).leaf_4k(p) == mid_self.leaf_4k(p));
                }
            }
            assert forall|p: u64|
                from.0 <= p < from.0 + pages * PAGE_SIZE && p % PAGE_SIZE == 0 implies (
            #[trigger] final(self).leaf_4k(p)) is None && final(self).translate(p) is None by {
                if p == from.0 {
                    assert(self.l1_entry(from.0) == mid_self.l1_entry(from.0));
                    assert(self.l2_entry(from.0) == mid_self.l2_entry(from.0));
                    assert(mid_self.translate(from.0) is None);
                } else {
                    crate::units::lemma_aligned_step(from.0 as int, p as int, PAGE_SIZE as int);
                }
            }
            assert forall|va2: u64|
                !in_mapped_4k_range(va2, from.0, pages as int) implies #[trigger] final(self).l1_entry(
                va2,
            ) == old(self).l1_entry(va2) by {
                lemma_not_in_submapped_4k(va2, from.0, pages as int);
            }
            assert forall|p: u64|
                from.0 <= p < from.0 + pages * PAGE_SIZE && p % PAGE_SIZE == 0 implies (match
            #[trigger] old(self).leaf_4k(p) {
                Some(e) => alloc.refc(entry_addr(e) as int / PAGE_SIZE as int) == old(alloc).refc(
                    entry_addr(e) as int / PAGE_SIZE as int,
                ) - 1 && (alloc.is_free(entry_addr(e) as int / PAGE_SIZE as int) <==> old(
                    alloc,
                ).refc(entry_addr(e) as int / PAGE_SIZE as int) == 1),
                None => true,
            }) by {
                if old(self).leaf_4k(p) is Some {
                    let f = entry_addr(old(self).leaf_4k(p)->Some_0) as int / PAGE_SIZE as int;
                    assert(0 <= f < mid_alloc.num_frames());
                    if p == from.0 {
                        assert(mid_alloc.refc(f) == old(alloc).refc(f) - 1);
                        assert(mid_alloc.is_free(f) <==> old(alloc).refc(f) == 1);
                        assert(!range_maps_frame(mid_self, from1, rest, f));
                        assert(alloc.refc(f) == mid_alloc.refc(f));
                        assert(alloc.is_free(f) <==> mid_alloc.is_free(f));
                    } else {
                        crate::units::lemma_aligned_step(
                            from.0 as int,
                            p as int,
                            PAGE_SIZE as int,
                        );
                        assert(pages > 1);
                        assert(mid_self.leaf_4k(p) == old(self).leaf_4k(p));
                        if head_leaf is Some {
                            assert(f != head_frame);
                        }
                        assert(mid_alloc.refc(f) == old(alloc).refc(f));
                        assert(mid_alloc.is_free(f) <==> old(alloc).is_free(f));
                        assert(from1 <= p < from1 + rest * PAGE_SIZE);
                        assert(mid_self.leaf_4k(p) is Some);
                        assert(alloc.refc(f) == mid_alloc.refc(f) - 1);
                        assert(alloc.is_free(f) <==> mid_alloc.refc(f) == 1);
                        assert(mid_alloc.is_free(f) <==> old(alloc).is_free(f));
                        assert(old(alloc).refc(f) >= 1);
                    }
                }
            }
            assert forall|g: int|
                0 <= g < alloc.num_frames() && !range_maps_frame(
                    *old(self),
                    from.0,
                    pages as int,
                    g,
                ) implies #[trigger] alloc.refc(g) == old(alloc).refc(g) && (alloc.is_free(g)
                <==> old(alloc).is_free(g)) by {
                assert(!range_maps_frame(mid_self, from1, rest, g)) by {
                    if range_maps_frame(mid_self, from1, rest, g) {
                        let p = choose|p: u64|
                            from1 <= p < from1 + rest * PAGE_SIZE && p % PAGE_SIZE == 0 && (
                            #[trigger] mid_self.leaf_4k(p)) is Some && entry_addr(
                                mid_self.leaf_4k(p)->Some_0,
                            ) as int / (PAGE_SIZE as int) == g;
                        assert(old(self).leaf_4k(p) == mid_self.leaf_4k(p));
                        assert(range_maps_frame(*old(self), from.0, pages as int, g));
                    }
                }
                if head_leaf is Some {
                    assert(g != head_frame) by {
                        if g == head_frame {
                            assert(from.0 <= from.0 < from.0 + pages * PAGE_SIZE && from.0
                                % PAGE_SIZE == 0);
                            assert(old(self).leaf_4k(from.0) is Some && entry_addr(
                                old(self).leaf_4k(from.0)->Some_0,
                            ) as int / (PAGE_SIZE as int) == g);
                            assert(range_maps_frame(*old(self), from.0, pages as int, g));
                        }
                    }
                    assert(mid_alloc.refc(g) == old(alloc).refc(g));
                    assert(mid_alloc.is_free(g) <==> old(alloc).is_free(g));
                } else {
                    assert(mid_alloc == *old(alloc));
                }
                assert(alloc.refc(g) == mid_alloc.refc(g));
                assert(alloc.is_free(g) <==> mid_alloc.is_free(g));
            }
            assert(forall|p: u64|
                from.0 <= p < from.0 + pages * PAGE_SIZE && p % PAGE_SIZE == 0 ==> (match
                #[trigger] old(self).leaf_4k(p) {
                    Some(e) => alloc.refc(entry_addr(e) as int / PAGE_SIZE as int) == old(
                        alloc,
                    ).refc(entry_addr(e) as int / PAGE_SIZE as int) - 1 && (alloc.is_free(
                        entry_addr(e) as int / PAGE_SIZE as int,
                    ) <==> old(alloc).refc(entry_addr(e) as int / PAGE_SIZE as int) == 1),
                    None => true,
                }));
            assert(untracked_frames_kept(*old(alloc), *alloc, *old(self), from.0, pages as int));
        }
    }

    pub fn unmap_region(&mut self, from: VirtAddr, pages: usize)
        requires
            old(self).wf(),
            crate::units::aligned(from.0 as int, PAGE_SIZE as int),
            from.0 + pages * PAGE_SIZE <= 0x1_0000_0000_0000_0000,
            pages * PAGE_SIZE <= 0x1_0000_0000_0000,
        ensures
            final(self).wf(),
            final(self).addr == old(self).addr,
            forall|p: u64|
                from.0 <= p < from.0 + pages * PAGE_SIZE && p % PAGE_SIZE == 0 ==> (
                #[trigger] final(self).leaf_4k(p)) is None,
            forall|va2: u64|
                !in_mapped_4k_range(va2, from.0, pages as int) ==> #[trigger] final(self).l1_entry(
                    va2,
                ) == old(self).l1_entry(va2),
            forall|va2: u64| final(self).l2_entry(va2) == old(self).l2_entry(va2),
        decreases pages,
    {
        if pages == 0 {
            proof {
                assert forall|va2: u64| !(#[trigger] in_mapped_4k_range(va2, from.0, 0)) by {
                    lemma_empty_mapped_4k(va2, from.0);
                }
            }
            return ;
        }
        proof {
            assert((pages - 1) * PAGE_SIZE == pages * PAGE_SIZE - PAGE_SIZE) by (nonlinear_arith);
            crate::units::lemma_round_down_props(from.0 as int, PAGE_SIZE as int);
            lemma_zero_entry();
        }
        let leaf_opt = self.get_l1(from);
        match leaf_opt {
            None => {},
            Some(e) => {
                self.set_l1(from, 0);
            },
        }
        let ghost mid_self = *self;
        proof {
            assert((from.0 as int + PAGE_SIZE) % (PAGE_SIZE as int) == 0) by (nonlinear_arith)
                requires from.0 as int % (PAGE_SIZE as int) == 0;
        }
        if pages > 1 {
            self.unmap_region(VirtAddr(from.0 + PAGE_SIZE), pages - 1);
        }
        proof {
            let from1 = (from.0 + PAGE_SIZE) as u64;
            let rest = (pages - 1) as int;
            lemma_head_not_in_submapped_4k(from.0, pages as int);
            assert forall|p: u64|
                from.0 <= p < from.0 + pages * PAGE_SIZE && p % PAGE_SIZE == 0 implies (
            #[trigger] self.leaf_4k(p)) is None by {
                if p == from.0 {
                    assert(mid_self.leaf_4k(from.0) is None);
                    assert(self.l1_entry(from.0) == mid_self.l1_entry(from.0));
                } else {
                    assert(p >= from.0 + PAGE_SIZE) by {
                        crate::units::lemma_aligned_step(
                            from.0 as int,
                            p as int,
                            PAGE_SIZE as int,
                        );
                    }
                }
            }
            assert forall|va2: u64|
                !in_mapped_4k_range(va2, from.0, pages as int) implies #[trigger] self.l1_entry(
                va2,
            ) == old(self).l1_entry(va2) by {
                lemma_not_in_submapped_4k(va2, from.0, pages as int);
                assert(mid_self.l1_entry(va2) == old(self).l1_entry(va2));
            }
        }
    }

    /// Map `lpages` consecutive 2 MiB pages starting at `from` onto the
    /// physical range starting at `to`.  Existing contents of the touched
    /// level-2 slots, including whole level-1 tables, are discarded; the
    /// frames such tables occupied keep their references (the acknowledged
    /// leak of this design).
    #[verifier::rlimit(100)]
    pub fn map_region_large(
        &mut self,
        alloc: &mut PageAllocator,
        from: VirtAddr,
        to: PhysAddr,
        lpages: usize,
        perms: u64,
    )
        requires
            old(self).wf(),
            old(alloc).wf(),
            crate::units::aligned(from.0 as int, PAGE_SIZE_LARGE as int),
            crate::units::aligned(to.0 as int, PAGE_SIZE_LARGE as int),
            old(alloc).free_count() >= 2 * lpages,
            old(alloc).num_frames() * PAGE_SIZE <= 0x10_0000_0000_0000,
            from.0 + lpages * PAGE_SIZE_LARGE <= 0x1_0000_0000_0000_0000,
            lpages * PAGE_SIZE_LARGE <= 0x1_0000_0000_0000,
            to.0 + lpages * PAGE_SIZE_LARGE <= 0x10_0000_0000_0000,
        ensures
            final(self).wf(),
            final(self).addr == old(self).addr,
            forall|p: u64|
                from.0 <= p < from.0 + lpages * PAGE_SIZE_LARGE && p % PAGE_SIZE_LARGE == 0
                    ==> #[trigger] final(self).l2_entry(p) == Some(
                    ((((to.0 + (p - from.0)) as u64) | perms) | LARGE) as u64,
                ),
            forall|va2: u64|
                in_mapped_2m_range(va2, from.0, lpages as int) ==> (#[trigger] final(self).l1_entry(
                    va2,
                )) is None,
            forall|va2: u64|
                !in_mapped_2m_range(va2, from.0, lpages as int) ==> #[trigger] final(self).l1_entry(
                    va2,
                ) == old(self).l1_entry(va2),
            forall|va2: u64|
                !in_mapped_2m_range(va2, from.0, lpages as int) ==> #[trigger] final(self).leaf_2m(
                    va2,
                ) == old(self).leaf_2m(va2),
            forall|va2: u64|
                old(self).l2_entry(va2) is Some && !in_mapped_2m_range(va2, from.0, lpages as int)
                    ==> #[trigger] final(self).l2_entry(va2) == old(self).l2_entry(va2),
            alloc_evolved(*old(alloc), *final(alloc), 2 * lpages),
        decreases lpages,
    {
        if lpages == 0 {
            proof {
                crate::pg_alloc::lemma_alloc_evolved_refl(*alloc, 0);
                assert forall|va2: u64| !(#[trigger] in_mapped_2m_range(va2, from.0, 0)) by {
                    lemma_empty_mapped_2m(va2, from.0);
                }
            }
            return ;
        }
        proof {
            assert((lpages - 1) * PAGE_SIZE_LARGE == lpages * PAGE_SIZE_LARGE - PAGE_SIZE_LARGE && 2
                * (lpages - 1) == 2 * lpages - 2) by (nonlinear_arith);
            crate::units::lemma_round_down_props(from.0 as int, PAGE_SIZE_LARGE as int);
        }
        let ghost pre_alloc = *alloc;
        self.walk_dir_large(alloc, from, true);
        let scalar = (to.0 | perms) | LARGE;
        proof {
            let y = to.0 | perms;
            assert((y | 0x80u64) & 0x80u64 != 0) by (bit_vector);
        }
        self.set_l2_leaf(from, scalar);
        let ghost mid_self = *self;
        let ghost mid_alloc = *alloc;
        proof {
            assert((from.0 as int + PAGE_SIZE_LARGE) % (PAGE_SIZE_LARGE as int) == 0 && (to.0 as int + PAGE_SIZE_LARGE) % (PAGE_SIZE_LARGE as int) == 0) by (nonlinear_arith)
                requires
                    from.0 as int % (PAGE_SIZE_LARGE as int) == 0,
                    to.0 as int % (PAGE_SIZE_LARGE as int) == 0;
        }
        if lpages > 1 {
            self.map_region_large(
                alloc,
                VirtAddr(from.0 + PAGE_SIZE_LARGE),
                PhysAddr(to.0 + PAGE_SIZE_LARGE),
                lpages - 1,
                perms,
            );
        } else {
            proof {
                crate::pg_alloc::lemma_alloc_evolved_refl(*alloc, 0);
            }
        }
        proof {
            crate::pg_alloc::lemma_alloc_evolved_trans(pre_alloc, mid_alloc, *alloc, 2, 2 * (
            lpages - 1));
            let from1 = (from.0 + PAGE_SIZE_LARGE) as u64;
            let rest = (lpages - 1) as int;
            lemma_head_not_in_submapped_2m(from.0, lpages as int);
            assert forall|p: u64|
                from.0 <= p < from.0 + lpages * PAGE_SIZE_LARGE && p % PAGE_SIZE_LARGE == 0
                    implies #[trigger] self.l2_entry(p) == Some(
                ((((to.0 + (p - from.0)) as u64) | perms) | LARGE) as u64,
            ) by {
                if p == from.0 {
                    assert(mid_self.l2_entry(from.0) == Some(scalar));
                    assert(self.l2_entry(from.0) == mid_self.l2_entry(from.0));
                } else {
                    assert(p >= from.0 + PAGE_SIZE_LARGE) by {
                        crate::units::lemma_aligned_step(
                            from.0 as int,
                            p as int,
                            PAGE_SIZE_LARGE as int,
                        );
                    }
                    assert(self.l2_entry(p) == Some(
                        ((((to.0 + PAGE_SIZE_LARGE) as u64) + (p - from1)) as u64 | perms
                            | LARGE) as u64,
                    ));
                }
            }
            assert forall|va2: u64|
                in_mapped_2m_range(va2, from.0, lpages as int) implies (#[trigger] self.l1_entry(
                va2,
            )) is None by {
                reveal(in_mapped_2m_range);
                let p = choose|p: u64|
                    from.0 <= p < from.0 + lpages * PAGE_SIZE_LARGE && p % PAGE_SIZE_LARGE == 0
                        && #[trigger] same_2m_slot(va2, p);
                if p == from.0 {
                    assert(mid_self.l1_entry(va2) is None);
                    if in_mapped_2m_range(va2, from1, rest) {
                        assert(self.l1_entry(va2) is None);
                    } else {
                        assert(self.l1_entry(va2) == mid_self.l1_entry(va2));
                    }
                } else {
                    assert(p >= from.0 + PAGE_SIZE_LARGE) by {
                        crate::units::lemma_aligned_step(
                            from.0 as int,
                            p as int,
                            PAGE_SIZE_LARGE as int,
                        );
                    }
                    lemma_mapped_2m_witness(va2, from1, rest, p);
                }
            }
            assert forall|va2: u64|
                !in_mapped_2m_range(va2, from.0, lpages as int) implies #[trigger] self.l1_entry(
                va2,
            ) == old(self).l1_entry(va2) by {
                lemma_not_in_submapped_2m(va2, from.0, lpages as int);
                assert(mid_self.l1_entry(va2) == old(self).l1_entry(va2));
                assert(self.l1_entry(va2) == mid_self.l1_entry(va2));
            }
            assert forall|va2: u64|
                !in_mapped_2m_range(va2, from.0, lpages as int) implies #[trigger] self.leaf_2m(
                va2,
            ) == old(self).leaf_2m(va2) by {
                lemma_not_in_submapped_2m(va2, from.0, lpages as int);
                assert(mid_self.leaf_2m(va2) == old(self).leaf_2m(va2));
                assert(self.leaf_2m(va2) == mid_self.leaf_2m(va2));
            }
            assert forall|va2: u64|
                old(self).l2_entry(va2) is Some && !in_mapped_2m_range(va2, from.0, lpages as int)
                    implies #[trigger] self.l2_entry(va2) == old(self).l2_entry(va2) by {
                lemma_not_in_submapped_2m(va2, from.0, lpages as int);
                assert(mid_self.l2_entry(va2) == old(self).l2_entry(va2));
                assert(self.l2_entry(va2) == mid_self.l2_entry(va2));
            }
        }
    }

    /// Clear `lpages` consecutive 2 MiB mappings starting at `from`: the
    /// present and large bits of existing level-2 slots are cleared and any
    /// level-1 tables they owned are discarded; absent paths are left
    /// alone.  Reference counts are untouched.
    #[verifier::rlimit(100)]
    #[verifier::spinoff_prover]
    pub fn unmap_region_large(&mut self, from: VirtAddr, lpages: usize)
        requires
            old(self).wf(),
            crate::units::aligned(from.0 as int, PAGE_SIZE_LARGE as int),
            from.0 + lpages * PAGE_SIZE_LARGE <= 0x1_0000_0000_0000_0000,
            lpages * PAGE_SIZE_LARGE <= 0x1_0000_0000_0000,
        ensures
            final(self).wf(),
            final(self).addr == old(self).addr,
            forall|va2: u64|
                in_mapped_2m_range(va2, from.0, lpages as int) ==> (#[trigger] final(self).leaf_2m(
                    va2,
                )) is None,
            forall|va2: u64|
                in_mapped_2m_range(va2, from.0, lpages as int) ==> (#[trigger] final(self).l1_entry(
                    va2,
                )) is None,
            forall|va2: u64|
                !in_mapped_2m_range(va2, from.0, lpages as int) ==> #[trigger] final(self).l1_entry(
                    va2,
                ) == old(self).l1_entry(va2),
            forall|va2: u64|
                !in_mapped_2m_range(va2, from.0, lpages as int) ==> #[trigger] final(self).l2_entry(
                    va2,
                ) == old(self).l2_entry(va2),
        decreases lpages,
    {
        if lpages == 0 {
            proof {
                assert forall|va2: u64| !(#[trigger] in_mapped_2m_range(va2, from.0, 0)) by {
                    lemma_empty_mapped_2m(va2, from.0);
                }
            }
            return ;
        }
        proof {
            assert((lpages - 1) * PAGE_SIZE_LARGE == lpages * PAGE_SIZE_LARGE
                - PAGE_SIZE_LARGE) by (nonlinear_arith);
            crate::units::lemma_round_down_props(from.0 as int, PAGE_SIZE_LARGE as int);
        }
        let e2 = self.get_l2(from);
        match e2 {
            None => {},
            Some(e) => {
                let cleared = e & !(PRESENT | LARGE);
                proof {
                    let e64 = e;
                    assert(((e64 & !(1u64 | 0x80u64)) & 1u64) == 0 && ((e64 & !(1u64 | 0x80u64))
                        & 0x80u64) == 0) by (bit_vector);
                }
                self.set_l2_leaf(from, cleared);
            },
        }
        let ghost mid_self = *self;
        proof {
            assert((from.0 as int + PAGE_SIZE_LARGE) % (PAGE_SIZE_LARGE as int) == 0) by (nonlinear_arith)
                requires from.0 as int % (PAGE_SIZE_LARGE as int) == 0;
        }
        if lpages > 1 {
            self.unmap_region_large(VirtAddr(from.0 + PAGE_SIZE_LARGE), lpages - 1);
        }
        proof {
            let from1 = (from.0 + PAGE_SIZE_LARGE) as u64;
            let rest = (lpages - 1) as int;
            lemma_head_not_in_submapped_2m(from.0, lpages as int);
            assert forall|va2: u64|
                in_mapped_2m_range(va2, from.0, lpages as int) implies (#[trigger] self.leaf_2m(
                va2,
            )) is None by {
                reveal(in_mapped_2m_range);
                let p = choose|p: u64|
                    from.0 <= p < from.0 + lpages * PAGE_SIZE_LARGE && p % PAGE_SIZE_LARGE == 0
                        && #[trigger] same_2m_slot(va2, p);
                if p == from.0 {
                    lemma_entries_same_slot_2m(mid_self, va2, from.0);
                    if mid_self.l2_entry(from.0) is None {
                        lemma_l2_none_l1_none(mid_self, from.0);
                    }
                    assert(mid_self.leaf_2m(va2) is None);
                    if !in_mapped_2m_range(va2, from1, rest) {
                        assert(self.l2_entry(va2) == mid_self.l2_entry(va2));
                    }
                } else {
                    assert(p >= from.0 + PAGE_SIZE_LARGE) by {
                        crate::units::lemma_aligned_step(
                            from.0 as int,
                            p as int,
                            PAGE_SIZE_LARGE as int,
                        );
                    }
                    lemma_mapped_2m_witness(va2, from1, rest, p);
                }
            }
            assert forall|va2: u64|
                in_mapped_2m_range(va2, from.0, lpages as int) implies (#[trigger] self.l1_entry(
                va2,
            )) is None by {
                reveal(in_mapped_2m_range);
                let p = choose|p: u64|
                    from.0 <= p < from.0 + lpages * PAGE_SIZE_LARGE && p % PAGE_SIZE_LARGE == 0
                        && #[trigger] same_2m_slot(va2, p);
                if p == from.0 {
                    lemma_entries_same_slot_2m(mid_self, va2, from.0);
                    if mid_self.l2_entry(from.0) is None {
                        lemma_l2_none_l1_none(mid_self, from.0);
                    }
                    assert(mid_self.l1_entry(va2) is None);
                    if !in_mapped_2m_range(va2, from1, rest) {
                        assert(self.l1_entry(va2) == mid_self.l1_entry(va2));
                    }
                } else {
                    assert(p >= from.0 + PAGE_SIZE_LARGE) by {
                        crate::units::lemma_aligned_step(
                            from.0 as int,
                            p as int,
                            PAGE_SIZE_LARGE as int,
                        );
                    }
                    lemma_mapped_2m_witness(va2, from1, rest, p);
                }
            }
            assert forall|va2: u64|
                !in_mapped_2m_range(va2, from.0, lpages as int) implies #[trigger] self.l1_entry(
                va2,
            ) == old(self).l1_entry(va2) by {
                lemma_not_in_submapped_2m(va2, from.0, lpages as int);
                assert(mid_self.l1_entry(va2) == old(self).l1_entry(va2));
                assert(self.l1_entry(va2) == mid_self.l1_entry(va2));
            }
            assert forall|va2: u64|
                !in_mapped_2m_range(va2, from.0, lpages as int) implies #[trigger] self.l2_entry(
                va2,
            ) == old(self).l2_entry(va2) by {
                lemma_not_in_submapped_2m(va2, from.0, lpages as int);
                assert(mid_self.l2_entry(va2) == old(self).l2_entry(va2));
                assert(self.l2_entry(va2) == mid_self.l2_entry(va2));
            }
        }
    }

    /// Rewrite the permission bits of every present 4 KiB leaf in
    /// `[from, from + size)`: each such leaf keeps its frame address and the
    /// present bit and takes exactly the given permission bits.  Leaves
    /// that are absent or not present are left alone, as are reference
    /// counts.
    #[verifier::rlimit(100)]
    pub fn change_range_perms(&mut self, from: VirtAddr, size: u64, perms: u64)
        requires
            old(self).wf(),
            crate::units::aligned(from.0 as int, PAGE_SIZE as int),
            from.0 + size <= 0x1_0000_0000_0000_0000,
            size <= 0x1_0000_0000_0000,
            perms & ADDR_MASK == 0,
        ensures
            final(self).wf(),
            final(self).addr == old(self).addr,
            forall|p: u64|
                from.0 <= p < from.0 + size && p % PAGE_SIZE == 0 ==> #[trigger] final(self).l1_entry(p) == (match old(self).leaf_4k(p) {
                    Some(e) => Some(((entry_addr(e) | perms) | PRESENT) as u64),
                    None => old(self).l1_entry(p),
                }),
            forall|va2: u64|
                !in_mapped_4k_range(va2, from.0, ((size + PAGE_SIZE - 1) / (
                PAGE_SIZE as int)) as int) ==> #[trigger] final(self).l1_entry(va2) == old(self).l1_entry(va2),
            forall|va2: u64| final(self).l2_entry(va2) == old(self).l2_entry(va2),
        decreases size,
    {
        let ghost npages = ((size + PAGE_SIZE - 1) / (PAGE_SIZE as int)) as int;
        if size == 0 {
            proof {
                assert forall|va2: u64| !(#[trigger] in_mapped_4k_range(va2, from.0, 0)) by {
                    lemma_empty_mapped_4k(va2, from.0);
                }
            }
            return ;
        }
        proof {
            assert(npages >= 1);
            assert(npages * PAGE_SIZE >= size && npages * PAGE_SIZE < size + PAGE_SIZE)
                by (nonlinear_arith)
                requires npages == (size + PAGE_SIZE - 1) / (PAGE_SIZE as int) && size >= 1;
            lemma_zero_entry();
        }
        let leaf_opt = self.get_l1(from);
        match leaf_opt {
            None => {},
            Some(e) => {
                if entry_present(e) {
                    let updated = (entry_address(e) | perms) | PRESENT;
                    self.set_l1(from, updated);
                }
            },
        }
        let ghost mid_self = *self;
        let next_size = if size > PAGE_SIZE {
            size - PAGE_SIZE
        } else {
            0
        };
        proof {
            assert((from.0 as int + PAGE_SIZE) % (PAGE_SIZE as int) == 0) by (nonlinear_arith)
                requires from.0 as int % (PAGE_SIZE as int) == 0;
        }
        if next_size > 0 {
            self.change_range_perms(VirtAddr(from.0 + PAGE_SIZE), next_size, perms);
        }
        proof {
            let from1 = (from.0 + PAGE_SIZE) as u64;
            let ghost npages1 = ((next_size + PAGE_SIZE - 1) / (PAGE_SIZE as int)) as int;
            assert(npages1 == npages - 1) by (nonlinear_arith)
                requires
                    npages == (size + PAGE_SIZE - 1) / (PAGE_SIZE as int),
                    npages1 == (next_size + PAGE_SIZE - 1) / (PAGE_SIZE as int),
                    size >= 1,
                    next_size == (if size > PAGE_SIZE { (size - PAGE_SIZE) as u64 } else { 0u64 });
            lemma_head_not_in_submapped_4k(from.0, npages);
            assert forall|p: u64|
                from.0 <= p < from.0 + size && p % PAGE_SIZE == 0 implies #[trigger] self.l1_entry(
                p,
            ) == (match old(self).leaf_4k(p) {
                Some(e) => Some(((entry_addr(e) | perms) | PRESENT) as u64),
                None => old(self).l1_entry(p),
            }) by {
                if p == from.0 {
                    assert(self.l1_entry(p) == mid_self.l1_entry(p));
                } else {
                    assert(p >= from.0 + PAGE_SIZE) by {
                        crate::units::lemma_aligned_step(
                            from.0 as int,
                            p as int,
                            PAGE_SIZE as int,
                        );
                    }
                    assert(next_size > 0);
                    lemma_distinct_4k_slots(p, from.0);
                    assert(mid_self.l1_entry(p) == old(self).l1_entry(p));
                    assert(mid_self.leaf_4k(p) == old(self).leaf_4k(p));
                }
            }
            assert forall|va2: u64|
                !in_mapped_4k_range(va2, from.0, npages) implies #[trigger] self.l1_entry(va2)
                == old(self).l1_entry(va2) by {
                lemma_not_in_submapped_4k(va2, from.0, npages);
                assert(mid_self.l1_entry(va2) == old(self).l1_entry(va2));
                assert(self.l1_entry(va2) == mid_self.l1_entry(va2));
            }
        }
    }

    /// Back `[addr, addr + size)` with freshly allocated, zeroed anonymous
    /// frames, one per page of the page-rounded range, mapped with the
    /// given permission bits (plus the present bit).
    #[verifier::rlimit(100)]
    pub fn alloc_range_aligned(
        &mut self,
        alloc: &mut PageAllocator,
        addr: VirtAddr,
        size: u64,
        perms: u64,
    )
        requires
            old(self).wf(),
            old(alloc).wf(),
            crate::units::aligned(addr.0 as int, PAGE_SIZE as int),
            crate::units::aligned(size as int, PAGE_SIZE as int),
            old(alloc).free_count() >= 4 * (size as int / PAGE_SIZE as int),
            old(alloc).num_frames() * PAGE_SIZE <= 0x10_0000_0000_0000,
            addr.0 + size <= 0x1_0000_0000_0000_0000,
            size <= 0x1_0000_0000_0000,
            perms & ADDR_MASK == 0,
            forall|p: u64|
                addr.0 <= p < addr.0 + size && p % PAGE_SIZE == 0 ==> (#[trigger] old(self).leaf_4k(
                    p,
                )) is None && old(self).leaf_2m(p) is None,
        ensures
            final(self).wf(),
            final(self).addr == old(self).addr,
            forall|p: u64|
                addr.0 <= p < addr.0 + size && p % PAGE_SIZE == 0 ==> (#[trigger] final(self).leaf_4k(p)) is Some,
            forall|p: u64|
                addr.0 <= p < addr.0 + size && p % PAGE_SIZE == 0 ==> (match #[trigger] final(self).leaf_4k(
                    p,
                ) {
                    Some(e) => {
                        &&& e == ((entry_addr(e) | perms) | PRESENT) as u64
                        &&& entry_addr(e) / PAGE_SIZE < final(alloc).num_frames()
                        &&& final(alloc).refc(entry_addr(e) as int / PAGE_SIZE as int) == 1
                        &&& final(alloc).bytes(entry_addr(e) as int / PAGE_SIZE as int)
                            == Seq::new(PAGE_SIZE as nat, |j: int| 0u8)
                        &&& old(alloc).is_free(entry_addr(e) as int / PAGE_SIZE as int)
                    },
                    None => false,
                }),
            forall|p1: u64, p2: u64|
                addr.0 <= p1 < addr.0 + size && p1 % PAGE_SIZE == 0 && addr.0 <= p2 < addr.0
                    + size && p2 % PAGE_SIZE == 0 && p1 != p2 ==> entry_addr(
                    (#[trigger] final(self).leaf_4k(p1))->Some_0,
                ) as int / PAGE_SIZE as int != entry_addr(
                    (#[trigger] final(self).leaf_4k(p2))->Some_0,
                ) as int / PAGE_SIZE as int,
            forall|va2: u64|
                !in_mapped_4k_range(va2, addr.0, (size as int / PAGE_SIZE as int))
                    ==> #[trigger] final(self).leaf_4k(va2) == old(self).leaf_4k(va2),
            forall|va2: u64| final(self).leaf_2m(va2) == old(self).leaf_2m(va2),
            alloc_evolved(*old(alloc), *final(alloc), 4 * (size as int / PAGE_SIZE as int)),
        decreases size,
    {
        let ghost npages = (size as int / PAGE_SIZE as int);
        if size == 0 {
            proof {
                crate::pg_alloc::lemma_alloc_evolved_refl(*alloc, 0);
                assert forall|va2: u64| !(#[trigger] in_mapped_4k_range(va2, addr.0, 0)) by {
                    lemma_empty_mapped_4k(va2, addr.0);
                }
            }
            return ;
        }
        proof {
            assert(npages >= 1 && npages * PAGE_SIZE == size && (npages - 1) * PAGE_SIZE == size
                - PAGE_SIZE && ((size - PAGE_SIZE) as u64) / PAGE_SIZE == npages - 1 && 4 * (npages
                - 1) == 4 * npages - 4) by (nonlinear_arith)
                requires
                    npages == size as int / (PAGE_SIZE as int),
                    size as int % (PAGE_SIZE as int) == 0,
                    size >= 1;
        }
        let ghost pre_alloc = *alloc;
        let page = alloc.alloc_page();
        let ghost post_pop = *alloc;
        proof {
            lemma_frame_bound(page as int, alloc.num_frames(), 0x10_0000_0000_0000);
        }
        self.map_page_at_addr(alloc, page, addr, perms);
        let ghost mid_self = *self;
        let ghost mid_alloc = *alloc;
        proof {
            assert(alloc_evolved(pre_alloc, mid_alloc, 4));
            assert forall|p: u64|
                addr.0 + PAGE_SIZE <= p < (addr.0 + PAGE_SIZE) + (size - PAGE_SIZE) && p
                    % PAGE_SIZE == 0 implies (#[trigger] mid_self.leaf_4k(p)) is None
                && mid_self.leaf_2m(p) is None by {
                lemma_distinct_4k_slots(p, addr.0);
                assert(old(self).leaf_4k(p) is None && old(self).leaf_2m(p) is None);
            }
            crate::units::lemma_round_down_props(addr.0 as int, PAGE_SIZE as int);
        }
        proof {
            assert((addr.0 as int + PAGE_SIZE) % (PAGE_SIZE as int) == 0 && (size as int
                - PAGE_SIZE) % (PAGE_SIZE as int) == 0 || size <= PAGE_SIZE) by (nonlinear_arith)
                requires
                    addr.0 as int % (PAGE_SIZE as int) == 0,
                    size as int % (PAGE_SIZE as int) == 0;
        }
        if size > PAGE_SIZE {
            self.alloc_range_aligned(alloc, VirtAddr(addr.0 + PAGE_SIZE), size - PAGE_SIZE, perms);
        } else {
            proof {
                crate::pg_alloc::lemma_alloc_evolved_refl(*alloc, 0);
            }
        }
        proof {
            crate::pg_alloc::lemma_alloc_evolved_trans(pre_alloc, mid_alloc, *alloc, 4, 4 * (
            npages - 1));
            let addr1 = (addr.0 + PAGE_SIZE) as u64;
            let rest = npages - 1;
            lemma_head_not_in_submapped_4k(addr.0, npages);
            let ghost head_leaf = mid_self.l1_entry(addr.0)->Some_0;
            assert(head_leaf == ((page * PAGE_SIZE) as u64 | perms | PRESENT) as u64);
            lemma_leaf_scalar((page * PAGE_SIZE) as u64, perms);
            assert(entry_addr(head_leaf) == page * PAGE_SIZE && present(head_leaf));
            assert(entry_addr(head_leaf) as int / PAGE_SIZE as int == page) by (nonlinear_arith)
                requires entry_addr(head_leaf) == page * PAGE_SIZE && PAGE_SIZE > 0;
            assert(old(self).leaf_4k(addr.0) is None);
            assert(mid_alloc.refc(page as int) == 1);
            assert forall|g: int|
                0 <= g < mid_alloc.num_frames() && #[trigger] mid_alloc.is_free(g) implies pre_alloc.is_free(
                g,
            ) by {
                if g == page as int {
                    crate::pg_alloc::lemma_free_refc_zero(mid_alloc, g);
                } else {
                    assert(post_pop.is_free(g));
                }
            }
            assert forall|p: u64|
                addr.0 <= p < addr.0 + size && p % PAGE_SIZE == 0 implies (#[trigger] self.leaf_4k(
                p,
            )) is Some && (match self.leaf_4k(p) {
                Some(e) => {
                    &&& e == ((entry_addr(e) | perms) | PRESENT) as u64
                    &&& entry_addr(e) / PAGE_SIZE < alloc.num_frames()
                    &&& alloc.refc(entry_addr(e) as int / PAGE_SIZE as int) == 1
                    &&& alloc.bytes(entry_addr(e) as int / PAGE_SIZE as int) == Seq::new(
                        PAGE_SIZE as nat,
                        |j: int| 0u8,
                    )
                    &&& pre_alloc.is_free(entry_addr(e) as int / PAGE_SIZE as int)
                },
                None => false,
            }) by {
                if p == addr.0 {
                    assert(self.l1_entry(p) == mid_self.l1_entry(p));
                    assert(self.leaf_4k(p) == Some(head_leaf));
                    assert(mid_alloc.refc(page as int) == 1);
                    assert(mid_alloc.bytes(page as int) == Seq::new(PAGE_SIZE as nat, |j: int| 0u8));
                    assert(!mid_alloc.is_free(page as int));
                    assert(pre_alloc.is_free(page as int));
                    assert(alloc.refc(page as int) == 1 && alloc.bytes(page as int) == Seq::new(
                        PAGE_SIZE as nat,
                        |j: int| 0u8,
                    ));
                } else {
                    assert(p >= addr.0 + PAGE_SIZE) by {
                        crate::units::lemma_aligned_step(
                            addr.0 as int,
                            p as int,
                            PAGE_SIZE as int,
                        );
                    }
                    assert(size > PAGE_SIZE);
                }
            }
            assert forall|va2: u64|
                !in_mapped_4k_range(va2, addr.0, npages) implies #[trigger] self.leaf_4k(va2)
                == old(self).leaf_4k(va2) by {
                lemma_not_in_submapped_4k(va2, addr.0, npages);
                assert(mid_self.leaf_4k(va2) == old(self).leaf_4k(va2));
                assert(self.leaf_4k(va2) == mid_self.leaf_4k(va2));
            }
            assert forall|p1: u64, p2: u64|
                addr.0 <= p1 < addr.0 + size && p1 % PAGE_SIZE == 0 && addr.0 <= p2 < addr.0
                    + size && p2 % PAGE_SIZE == 0 && p1 != p2 implies entry_addr(
                (#[trigger] self.leaf_4k(p1))->Some_0,
            ) as int / PAGE_SIZE as int != entry_addr(
                (#[trigger] self.leaf_4k(p2))->Some_0,
            ) as int / PAGE_SIZE as int by {
                if p1 == addr.0 {
                    crate::units::lemma_aligned_step(addr.0 as int, p2 as int, PAGE_SIZE as int);
                    assert(mid_alloc.is_free(
                        entry_addr(self.leaf_4k(p2)->Some_0) as int / PAGE_SIZE as int,
                    ));
                    assert(!mid_alloc.is_free(page as int));
                    assert(self.leaf_4k(p1) == Some(head_leaf));
                } else if p2 == addr.0 {
                    crate::units::lemma_aligned_step(addr.0 as int, p1 as int, PAGE_SIZE as int);
                    assert(mid_alloc.is_free(
                        entry_addr(self.leaf_4k(p1)->Some_0) as int / PAGE_SIZE as int,
                    ));
                    assert(!mid_alloc.is_free(page as int));
                    assert(self.leaf_4k(p2) == Some(head_leaf));
                } else {
                    crate::units::lemma_aligned_step(addr.0 as int, p1 as int, PAGE_SIZE as int);
                    crate::units::lemma_aligned_step(addr.0 as int, p2 as int, PAGE_SIZE as int);
                }
            }
        }
    }

    /// Back every page touching `[addr.0, addr.0 + size)` with a fresh
    /// zeroed frame mapped with `perms`; the given bounds are rounded to
    /// whole pages here.
    pub fn alloc_range(&mut self, alloc: &mut PageAllocator, addr: VirtAddr, size: u64, perms: u64)
        requires
            old(self).wf(),
            old(alloc).wf(),
            old(alloc).free_count() >= 4 * (span_size(addr.0, size) / PAGE_SIZE as int),
            old(alloc).num_frames() * PAGE_SIZE <= 0x10_0000_0000_0000,
            addr.0 + size <= 0xffff_ffff_ffff_f000,
            size <= 0xfff_ffff_e000,
            perms & ADDR_MASK == 0,
            forall|p: u64|
                span_base(addr.0) <= p < span_base(addr.0) + span_size(addr.0, size) && p
                    % PAGE_SIZE == 0 ==> (#[trigger] old(self).leaf_4k(p)) is None && old(
                    self,
                ).leaf_2m(p) is None,
        ensures
            final(self).wf(),
            final(self).addr == old(self).addr,
            forall|p: u64|
                span_base(addr.0) <= p < span_base(addr.0) + span_size(addr.0, size) && p
                    % PAGE_SIZE == 0 ==> (match #[trigger] final(self).leaf_4k(p) {
                    Some(e) => {
                        &&& e == ((entry_addr(e) | perms) | PRESENT) as u64
                        &&& entry_addr(e) / PAGE_SIZE < final(alloc).num_frames()
                        &&& final(alloc).refc(entry_addr(e) as int / PAGE_SIZE as int) == 1
                        &&& final(alloc).bytes(entry_addr(e) as int / PAGE_SIZE as int)
                            == Seq::new(PAGE_SIZE as nat, |j: int| 0u8)
                        &&& old(alloc).is_free(entry_addr(e) as int / PAGE_SIZE as int)
                    },
                    None => false,
                }),
            forall|va2: u64|
                !in_mapped_4k_range(
                    va2,
                    (span_base(addr.0)) as u64,
                    span_size(addr.0, size) / PAGE_SIZE as int,
                ) ==> #[trigger] final(self).leaf_4k(va2) == old(self).leaf_4k(va2),
            forall|va2: u64| final(self).leaf_2m(va2) == old(self).leaf_2m(va2),
            alloc_evolved(
                *old(alloc),
                *final(alloc),
                4 * (span_size(addr.0, size) / PAGE_SIZE as int),
            ),
    {
        proof {
            crate::units::lemma_pow2_4096();
            crate::units::lemma_round_down_props(addr.0 as int, PAGE_SIZE as int);
            crate::units::lemma_round_up_props(addr.0 as int + size, PAGE_SIZE as int);
            crate::units::lemma_round_down_lb(
                addr.0 as int + size,
                crate::units::round_down(addr.0 as int, PAGE_SIZE as int),
                PAGE_SIZE as int,
            );
        }
        let beg = crate::units::po2_round_down(addr.0, PAGE_SIZE);
        let end = crate::units::po2_round_up(addr.0 + size, PAGE_SIZE);
        proof {
            assert((end - beg) as int % (PAGE_SIZE as int) == 0) by (nonlinear_arith)
                requires
                    beg as int % (PAGE_SIZE as int) == 0,
                    end as int % (PAGE_SIZE as int) == 0,
                    beg <= end,
                    PAGE_SIZE == 4096;
            assert(beg == span_base(addr.0) && end - beg == span_size(addr.0, size));
        }
        self.alloc_range_aligned(alloc, VirtAddr(beg), end - beg, perms);
    }

    /// True exactly when every address in `[from, to)` is reachable through
    /// a present, user-accessible mapping (4 KiB leaf or 2 MiB leaf).
    #[verifier::rlimit(100)]
    pub fn is_region_user_accessible(&self, from: VirtAddr, to: VirtAddr) -> (r: bool)
        requires
            self.wf(),
            to.0 <= 0xffff_ffff_ffff_f000,
        ensures
            r == self.region_user_accessible(from.0, to.0),
        decreases to.0 - from.0,
    {
        if from.0 >= to.0 {
            return true;
        }
        let ok = match self.get_l2(from) {
            Some(e2) => {
                if entry_present(e2) && entry_large(e2) {
                    e2 & USER_ACCESSIBLE != 0
                } else {
                    match self.get_l1(from) {
                        Some(e1) => entry_present(e1) && e1 & USER_ACCESSIBLE != 0,
                        None => false,
                    }
                }
            },
            None => false,
        };
        if !ok {
            proof {
                assert(!self.page_user_accessible(from.0));
            }
            return false;
        }
        proof {
            crate::units::lemma_pow2_4096();
        }
        let base = crate::units::po2_round_down(from.0, PAGE_SIZE);
        let next = base + PAGE_SIZE;
        proof {
            crate::units::lemma_round_down_props(from.0 as int, PAGE_SIZE as int);
        }
        if next >= to.0 {
            proof {
                assert forall|a: u64| from.0 <= a < to.0 implies self.page_user_accessible(a) by {
                    lemma_same_slot_in_page(base, a);
                    lemma_same_slot_in_page(base, from.0);
                    lemma_entries_same_slot(*self, a, from.0);
                }
            }
            return true;
        }
        let rec = self.is_region_user_accessible(VirtAddr(next), to);
        proof {
            if rec {
                assert forall|a: u64| from.0 <= a < to.0 implies self.page_user_accessible(a) by {
                    if a < next {
                        lemma_same_slot_in_page(base, a);
                        lemma_same_slot_in_page(base, from.0);
                        lemma_entries_same_slot(*self, a, from.0);
                    }
                }
            } else {
                let w = choose|a: u64| next <= a < to.0 && !(#[trigger] self.page_user_accessible(a));
            }
        }
        rec
    }

    /// Remove the 4 KiB mapping of `addr`: its leaf descriptor is cleared
    /// back to the zero value a fresh slot holds, and the mapped frame
    /// loses one reference.  An absent path is left alone.
    pub fn unmap_page_at_addr(&mut self, alloc: &mut PageAllocator, addr: VirtAddr)
        requires
            old(self).wf(),
            old(alloc).wf(),
            old(self).leaf_2m(addr.0) is None,
            (match old(self).leaf_4k(addr.0) {
                Some(e) => entry_addr(e) / PAGE_SIZE < old(alloc).num_frames() && old(alloc).refc(
                    entry_addr(e) as int / PAGE_SIZE as int,
                ) >= 1,
                None => true,
            }),
        ensures
            final(self).wf(),
            final(self).addr == old(self).addr,
            final(self).leaf_4k(addr.0) is None,
            final(self).translate(addr.0) is None,
            (match old(self).l1_entry(addr.0) {
                Some(e) => final(self).l1_entry(addr.0) == Some(0u64),
                None => final(self).l1_entry(addr.0) is None,
            }),
            forall|va2: u64|
                !same_4k_slot(va2, addr.0) ==> final(self).l1_entry(va2) == old(self).l1_entry(
                    va2,
                ),
            forall|va2: u64| final(self).l2_entry(va2) == old(self).l2_entry(va2),
            final(alloc).wf(),
            final(alloc).num_frames() == old(alloc).num_frames(),
            (match old(self).leaf_4k(addr.0) {
                Some(e) => final(alloc).refc(entry_addr(e) as int / PAGE_SIZE as int) == old(alloc).refc(entry_addr(e) as int / PAGE_SIZE as int) - 1 && (final(alloc).is_free(
                    entry_addr(e) as int / PAGE_SIZE as int,
                ) <==> old(alloc).refc(entry_addr(e) as int / PAGE_SIZE as int) == 1),
                None => *final(alloc) == *old(alloc),
            }),
            forall|g: int|
                0 <= g < final(alloc).num_frames() && (match old(self).leaf_4k(addr.0) {
                    Some(e) => g != entry_addr(e) as int / PAGE_SIZE as int,
                    None => true,
                }) ==> #[trigger] final(alloc).refc(g) == old(alloc).refc(g) && (final(alloc).is_free(g) <==> old(alloc).is_free(g)),
            forall|g: int|
                0 <= g < final(alloc).num_frames() ==> #[trigger] final(alloc).bytes(g) == old(alloc).bytes(g),
    {
        let leaf_opt = self.get_l1(addr);
        match leaf_opt {
            None => {},
            Some(e) => {
                if entry_present(e) {
                    alloc.dec_page_refc(PhysAddr(entry_address(e)));
                }
                proof {
                    lemma_zero_entry();
                }
                self.set_l1(addr, 0);
            },
        }
    }

    /// Descend to the level-2 slot of `addr`, allocating any missing
    /// level-3 table; each new table frame keeps one reference.
    fn ensure_path_2m(&mut self, alloc: &mut PageAllocator, addr: VirtAddr)
        requires
            old(self).wf(),
            old(alloc).wf(),
            old(alloc).free_count() >= 2,
            old(alloc).num_frames() * PAGE_SIZE <= 0x10_0000_0000_0000,
        ensures
            final(self).wf(),
            final(self).addr == old(self).addr,
            final(self).l2_entry(addr.0) == (match old(self).l2_entry(addr.0) {
                Some(e) => Some(e),
                None => Some(0u64),
            }),
            forall|va2: u64| final(self).l1_entry(va2) == old(self).l1_entry(va2),
            forall|va2: u64| final(self).leaf_2m(va2) == old(self).leaf_2m(va2),
            forall|va2: u64|
                old(self).l2_entry(va2) is Some && !same_2m_slot(va2, addr.0) ==> final(self).l2_entry(
                    va2,
                ) == old(self).l2_entry(va2),
            alloc_evolved(*old(alloc), *final(alloc), 2),
    {
        let frames = to_2m_page_frames(addr);
        proof {
            lemma_index_bits(addr.0);
            reveal(PageMapLevel4::l1_entry);
            reveal(PageMapLevel4::l2_entry);
        }
        let ghost alloc0 = *alloc;
        let e4 = &mut self.entries[frames.pml4_offs];
        if e4.pdpt.is_none() {
            let f = alloc.alloc_page();
            alloc.inc_refc(f);
            proof {
                lemma_frame_bound(f as int, alloc.num_frames(), 0x10_0000_0000_0000);
            }
            e4.scalar = table_frame_scalar(f);
            e4.pdpt = Some(new_page_dir_pointer());
        }
        proof {
            assert(alloc_evolved(alloc0, *alloc, 1));
        }
        let ghost alloc1 = *alloc;
        if let Some(pdpt) = &mut e4.pdpt {
            let e3 = &mut pdpt.entries[frames.pdpt_offs];
            if e3.dir.is_none() {
                let f = alloc.alloc_page();
                alloc.inc_refc(f);
                proof {
                    lemma_frame_bound(f as int, alloc.num_frames(), 0x10_0000_0000_0000);
                }
                e3.scalar = table_frame_scalar(f);
                e3.dir = Some(new_page_directory());
            }
            proof {
                assert(alloc_evolved(alloc1, *alloc, 1));
            }
        }
        proof {
            crate::pg_alloc::lemma_alloc_evolved_trans(alloc0, alloc1, *alloc, 1, 1);
            assert forall|i: int| 0 <= i < 512 implies (#[trigger] self.entries@[i]).wf() by {
                if i != l4_index(addr.0) {
                    assert(self.entries@[i] == old(self).entries@[i]);
                }
            }
            assert forall|va2: u64| self.l1_entry(va2) == old(self).l1_entry(va2) by {
                lemma_index_bits(va2);
            }
            assert forall|va2: u64| self.leaf_2m(va2) == old(self).leaf_2m(va2) by {
                lemma_index_bits(va2);
                lemma_zero_entry();
            }
            assert forall|va2: u64|
                old(self).l2_entry(va2) is Some && !same_2m_slot(va2, addr.0) implies self.l2_entry(
                va2,
            ) == old(self).l2_entry(va2) by {
                lemma_index_bits(va2);
            }
        }
    }

    /// Overwrite the level-2 slot of `addr` with a leaf or cleared
    /// descriptor, dropping any level-1 table the slot owned.
    fn set_l2_leaf(&mut self, addr: VirtAddr, scalar: u64)
        requires
            old(self).wf(),
            old(self).l2_entry(addr.0) is Some,
            present(scalar) ==> is_large(scalar),
        ensures
            final(self).wf(),
            final(self).addr == old(self).addr,
            final(self).l2_entry(addr.0) == Some(scalar),
            forall|va2: u64|
                same_2m_slot(va2, addr.0) ==> final(self).l1_entry(va2) is None,
            forall|va2: u64|
                !same_2m_slot(va2, addr.0) ==> #[trigger] final(self).l2_entry(va2) == old(self).l2_entry(va2),
            forall|va2: u64|
                !same_2m_slot(va2, addr.0) ==> #[trigger] final(self).l1_entry(va2) == old(self).l1_entry(va2),
    {
        let frames = to_2m_page_frames(addr);
        proof {
            lemma_index_bits(addr.0);
            reveal(PageMapLevel4::l1_entry);
            reveal(PageMapLevel4::l2_entry);
        }
        let e4 = &mut self.entries[frames.pml4_offs];
        if let Some(pdpt) = &mut e4.pdpt {
            let e3 = &mut pdpt.entries[frames.pdpt_offs];
            if let Some(dir) = &mut e3.dir {
                let e2 = &mut dir.entries[frames.pd_offset];
                e2.scalar = scalar;
                e2.table = None;
            }
        }
        proof {
            assert forall|i: int| 0 <= i < 512 implies (#[trigger] self.entries@[i]).wf() by {
                if i != l4_index(addr.0) {
                    assert(self.entries@[i] == old(self).entries@[i]);
                }
            }
            assert forall|va2: u64|
                same_2m_slot(va2, addr.0) implies self.l1_entry(va2) is None by {
                lemma_index_bits(va2);
            }
            assert forall|va2: u64|
                !same_2m_slot(va2, addr.0) implies self.l2_entry(va2) == old(self).l2_entry(va2)
                by {
                lemma_index_bits(va2);
            }
            assert forall|va2: u64|
                !same_2m_slot(va2, addr.0) implies self.l1_entry(va2) == old(self).l1_entry(va2)
                by {
                lemma_index_bits(va2);
            }
        }
    }

    /// Walk to the level-2 descriptor of `addr`, creating missing tables
    /// when `create` is set; the descriptor (if any) is returned by value.
    pub fn walk_dir_large(&mut self, alloc: &mut PageAllocator, addr: VirtAddr, create: bool) -> (r:
        Option<PageDirectoryEntry>)
        requires
            old(self).wf(),
            old(alloc).wf(),
            create ==> old(alloc).free_count() >= 2,
            old(alloc).num_frames() * PAGE_SIZE <= 0x10_0000_0000_0000,
        ensures
            final(self).wf(),
            final(self).addr == old(self).addr,
            !create ==> *final(self) == *old(self) && *final(alloc) == *old(alloc),
            (match r {
                Some(e) => final(self).l2_entry(addr.0) == Some(e.scalar),
                None => final(self).l2_entry(addr.0) is None,
            }),
            !create ==> (r is Some <==> old(self).l2_entry(addr.0) is Some),
            create ==> r is Some,
            create ==> final(self).l2_entry(addr.0) == (match old(self).l2_entry(addr.0) {
                Some(e) => Some(e),
                None => Some(0u64),
            }),
            create ==> forall|va2: u64| final(self).l1_entry(va2) == old(self).l1_entry(va2),
            create ==> forall|va2: u64| final(self).leaf_2m(va2) == old(self).leaf_2m(va2),
            create ==> forall|va2: u64|
                old(self).l2_entry(va2) is Some && !same_2m_slot(va2, addr.0) ==> final(self).l2_entry(
                    va2,
                ) == old(self).l2_entry(va2),
            create ==> alloc_evolved(*old(alloc), *final(alloc), 2),
    {
        if create {
            self.ensure_path_2m(alloc, addr);
        }
        match self.get_l2(addr) {
            Some(e) => Some(PageDirectoryEntry { scalar: e, table: None }),
            None => None,
        }
    }

    /// Overwrite the level-1 descriptor on `addr`'s path, which must exist.
    pub fn set_l1(&mut self, addr: VirtAddr, scalar: u64)
        requires
            old(self).wf(),
            old(self).l1_entry(addr.0) is Some,
        ensures
            final(self).wf(),
            final(self).addr == old(self).addr,
            final(self).l1_entry(addr.0) == Some(scalar),
            forall|va2: u64|
                !same_4k_slot(va2, addr.0) ==> final(self).l1_entry(va2) == old(self).l1_entry(
                    va2,
                ),
            forall|va2: u64| final(self).l2_entry(va2) == old(self).l2_entry(va2),
    {
        let frames = to_4k_page_frames(addr);
        proof {
            lemma_index_bits(addr.0);
            reveal(PageMapLevel4::l1_entry);
            reveal(PageMapLevel4::l2_entry);
        }
        let e4 = &mut self.entries[frames.pml4_offs];
        if let Some(pdpt) = &mut e4.pdpt {
            let e3 = &mut pdpt.entries[frames.pdpt_offs];
            if let Some(dir) = &mut e3.dir {
                let e2 = &mut dir.entries[frames.pd_offset];
                if let Some(t) = &mut e2.table {
                    let leaf = &mut t.entries[frames.pt_offset];
                    leaf.scalar = scalar;
                }
            }
        }
        proof {
            assert forall|i: int| 0 <= i < 512 implies (#[trigger] self.entries@[i]).wf() by {
                if i != l4_index(addr.0) {
                    assert(self.entries@[i] == old(self).entries@[i]);
                }
            }
            assert forall|va2: u64|
                !same_4k_slot(va2, addr.0) implies self.l1_entry(va2) == old(self).l1_entry(
                va2,
            ) by {
                lemma_index_bits(va2);
            }
            assert forall|va2: u64| self.l2_entry(va2) == old(self).l2_entry(va2) by {
                lemma_index_bits(va2);
            }
        }
    }
}

/// A frame index below the frame count stays below the same bound after
/// scaling to bytes.
proof fn lemma_frame_bound(f: int, n: int, c: int)
    requires
        0 <= f < n,
        n * 4096 <= c,
    ensures
        f * 4096 < c,
{
    assert(f * 4096 < n * 4096) by (nonlinear_arith)
        requires 0 <= f < n;
}

/// The zero descriptor is neither present nor large.
proof fn lemma_zero_entry()
    ensures
        !present(0),
        !is_large(0),
{
    assert(0u64 & 1u64 == 0 && 0u64 & 0x80u64 == 0) by (bit_vector);
}

/// Frames outside the range's backing keep their refcount and their
/// freelist membership.
pub open spec fn untracked_frames_kept(
    pre: PageAllocator,
    post: PageAllocator,
    d: PageMapLevel4,
    from: u64,
    pages: int,
) -> bool {
    forall|g: int|
        0 <= g < post.num_frames() && !range_maps_frame(d, from, pages, g)
            ==> #[trigger] post.refc(g) == pre.refc(g) && (post.is_free(g) <==> pre.is_free(g))
}

/// Frame `g` backs one of the `pages` pages starting at `from` in `dir`.
pub open spec fn range_maps_frame(dir: PageMapLevel4, from: u64, pages: int, g: int) -> bool {
    exists|p: u64|
        from <= p < from + pages * PAGE_SIZE && p % PAGE_SIZE == 0 && (#[trigger] dir.leaf_4k(
            p,
        )) is Some && entry_addr(dir.leaf_4k(p)->Some_0) as int / (PAGE_SIZE as int) == g
}

/// First page of the page-rounded span `[addr, addr + size)`.
pub open spec fn span_base(addr: u64) -> int {
    crate::units::round_down(addr as int, PAGE_SIZE as int)
}

/// Bytes covered by the page-rounded span of `[addr, addr + size)`.
pub open spec fn span_size(addr: u64, size: u64) -> int {
    crate::units::round_up(addr as int + size, PAGE_SIZE as int) - span_base(addr)
}

/// `va2` selects the same level-1 slot as one of `pages` consecutive
/// 4 KiB pages starting at `from`.
#[verifier::opaque]
pub open spec fn in_mapped_4k_range(va2: u64, from: u64, pages: int) -> bool {
    exists|p: u64|
        from <= p < from + pages * PAGE_SIZE && p % PAGE_SIZE == 0 && #[trigger] same_4k_slot(
            va2,
            p,
        )
}

/// `va2` selects the same level-2 slot as one of `lpages` consecutive
/// 2 MiB pages starting at `from`.
#[verifier::opaque]
pub open spec fn in_mapped_2m_range(va2: u64, from: u64, lpages: int) -> bool {
    exists|p: u64|
        from <= p < from + lpages * PAGE_SIZE_LARGE && p % PAGE_SIZE_LARGE == 0
            && #[trigger] same_2m_slot(va2, p)
}

/// Distinct non-negative values closer than `m` apart cannot agree modulo
/// `m`.
proof fn lemma_same_mod_close(a: int, b: int, m: int)
    requires
        m > 0,
        a >= 0,
        b >= 0,
        a % m == b % m,
        a - b < m,
        b - a < m,
    ensures
        a == b,
{
    let qa = a / m;
    let qb = b / m;
    assert(a == m * qa + a % m) by (nonlinear_arith)
        requires m > 0 && qa == a / m && a >= 0;
    assert(b == m * qb + b % m) by (nonlinear_arith)
        requires m > 0 && qb == b / m && b >= 0;
    if qa > qb {
        assert(m * qa - m * qb >= m) by (nonlinear_arith)
            requires qa > qb && m > 0;
    }
    if qb > qa {
        assert(m * qb - m * qa >= m) by (nonlinear_arith)
            requires qb > qa && m > 0;
    }
}

/// Two page-aligned addresses in the same level-1 slot agree modulo the
/// 48 bits the walk consumes.
proof fn lemma_same_4k_slot_mod(a: u64, b: u64)
    requires
        a % 4096 == 0,
        b % 4096 == 0,
        same_4k_slot(a, b),
    ensures
        a as int % 0x1_0000_0000_0000 == b as int % 0x1_0000_0000_0000,
{
    lemma_index_bits(a);
    lemma_index_bits(b);
    assert(((((a >> 39) & 0x1ff) == ((b >> 39) & 0x1ff)) && (((a >> 30) & 0x1ff) == ((b >> 30)
        & 0x1ff)) && (((a >> 21) & 0x1ff) == ((b >> 21) & 0x1ff)) && (((a >> 12) & 0x1ff) == ((b
        >> 12) & 0x1ff)) && a % 4096 == 0 && b % 4096 == 0) ==> a % 0x1_0000_0000_0000u64 == b
        % 0x1_0000_0000_0000u64) by (bit_vector);
}

/// Distinct page-aligned addresses less than 2^48 apart select distinct
/// level-1 slots.
pub proof fn lemma_distinct_4k_slots(a: u64, b: u64)
    requires
        a % 4096 == 0,
        b % 4096 == 0,
        a != b,
        a - b < 0x1_0000_0000_0000,
        b - a < 0x1_0000_0000_0000,
    ensures
        !same_4k_slot(a, b),
{
    if same_4k_slot(a, b) {
        lemma_same_4k_slot_mod(a, b);
        lemma_same_mod_close(a as int, b as int, 0x1_0000_0000_0000);
    }
}

/// Two 2 MiB-aligned addresses in the same level-2 slot agree modulo the
/// 48 bits the walk consumes.
proof fn lemma_same_2m_slot_mod(a: u64, b: u64)
    requires
        a % 0x20_0000 == 0,
        b % 0x20_0000 == 0,
        same_2m_slot(a, b),
    ensures
        a as int % 0x1_0000_0000_0000 == b as int % 0x1_0000_0000_0000,
{
    lemma_index_bits(a);
    lemma_index_bits(b);
    assert(((((a >> 39) & 0x1ff) == ((b >> 39) & 0x1ff)) && (((a >> 30) & 0x1ff) == ((b >> 30)
        & 0x1ff)) && (((a >> 21) & 0x1ff) == ((b >> 21) & 0x1ff)) && a % 0x20_0000 == 0 && b
        % 0x20_0000 == 0) ==> a % 0x1_0000_0000_0000u64 == b % 0x1_0000_0000_0000u64) by (bit_vector);
}

/// Distinct 2 MiB-aligned addresses less than 2^48 apart select distinct
/// level-2 slots.
pub proof fn lemma_distinct_2m_slots(a: u64, b: u64)
    requires
        a % 0x20_0000 == 0,
        b % 0x20_0000 == 0,
        a != b,
        a - b < 0x1_0000_0000_0000,
        b - a < 0x1_0000_0000_0000,
    ensures
        !same_2m_slot(a, b),
{
    if same_2m_slot(a, b) {
        lemma_same_2m_slot_mod(a, b);
        lemma_same_mod_close(a as int, b as int, 0x1_0000_0000_0000);
    }
}

/// Every address of a 4 KiB page selects the same slot as the page base.
pub proof fn lemma_same_slot_in_page(v: u64, x: u64)
    requires
        v % 4096 == 0,
        v <= x < v + 4096,
    ensures
        same_4k_slot(x, v),
{
    assert(x as int / 0x1000 == v as int / 0x1000) by (nonlinear_arith)
        requires v % 4096 == 0 && v <= x < v + 4096;
    lemma_index_div_chain(x);
    lemma_index_div_chain(v);
}

/// All four level indices are functions of the 4 KiB page number.
proof fn lemma_index_div_chain(x: u64)
    ensures
        l1_index(x) == (x as int / 0x1000) % 512,
        l2_index(x) == ((x as int / 0x1000) / 0x200) % 512,
        l3_index(x) == ((x as int / 0x1000) / 0x4_0000) % 512,
        l4_index(x) == ((x as int / 0x1000) / 0x800_0000) % 512,
{
    let q = x as int / 0x1000;
    assert(x as int / 0x20_0000 == q / 0x200) by (nonlinear_arith)
        requires q == x as int / 0x1000 && x >= 0;
    assert(x as int / 0x4000_0000 == q / 0x4_0000) by (nonlinear_arith)
        requires q == x as int / 0x1000 && x >= 0;
    assert(x as int / 0x80_0000_0000 == q / 0x800_0000) by (nonlinear_arith)
        requires q == x as int / 0x1000 && x >= 0;
}

/// Whether a descriptor has the present bit set.
pub fn entry_present(e: u64) -> (r: bool)
    ensures
        r == present(e),
{
    e & PRESENT != 0
}

/// Whether a descriptor maps a large page.
pub fn entry_large(e: u64) -> (r: bool)
    ensures
        r == is_large(e),
{
    e & LARGE != 0
}

/// The physical address bits of a descriptor.
pub fn entry_address(e: u64) -> (r: u64)
    ensures
        r == entry_addr(e),
{
    e & ADDR_MASK
}

/// A fresh zeroed level-1 table.
fn new_page_table() -> (r: PageTable)
    ensures
        r.wf(),
        forall|i: int| 0 <= i < 512 ==> (#[trigger] r.entries@[i]).scalar == 0,
{
    let mut entries: Vec<PageTableEntry> = Vec::new();
    let mut i: usize = 0;
    while i < ENTRIES
        invariant
            i <= 512,
            entries@.len() == i,
            forall|j: int| 0 <= j < i ==> (#[trigger] entries@[j]).scalar == 0,
        decreases 512 - i,
    {
        entries.push(PageTableEntry { scalar: 0 });
        i += 1;
    }
    PageTable { entries }
}

/// A fresh zeroed level-2 directory.
fn new_page_directory() -> (r: PageDirectory)
    ensures
        r.wf(),
        forall|i: int|
            0 <= i < 512 ==> (#[trigger] r.entries@[i]).scalar == 0 && r.entries@[i].table
                is None,
{
    let mut entries: Vec<PageDirectoryEntry> = Vec::new();
    let mut i: usize = 0;
    while i < ENTRIES
        invariant
            i <= 512,
            entries@.len() == i,
            forall|j: int|
                0 <= j < i ==> (#[trigger] entries@[j]).scalar == 0 && entries@[j].table is None,
        decreases 512 - i,
    {
        entries.push(PageDirectoryEntry { scalar: 0, table: None });
        i += 1;
    }
    proof {
        lemma_zero_entry();
    }
    PageDirectory { entries }
}

/// A fresh zeroed level-3 directory pointer table.
fn new_page_dir_pointer() -> (r: PageDirPointer)
    ensures
        r.wf(),
        forall|i: int|
            0 <= i < 512 ==> (#[trigger] r.entries@[i]).scalar == 0 && r.entries@[i].dir is None,
{
    let mut entries: Vec<PageDirPointerEntry> = Vec::new();
    let mut i: usize = 0;
    while i < ENTRIES
        invariant
            i <= 512,
            entries@.len() == i,
            forall|j: int|
                0 <= j < i ==> (#[trigger] entries@[j]).scalar == 0 && entries@[j].dir is None,
        decreases 512 - i,
    {
        entries.push(PageDirPointerEntry { scalar: 0, dir: None });
        i += 1;
    }
    proof {
        lemma_zero_entry();
    }
    PageDirPointer { entries }
}

/// The descriptor installed in a non-leaf slot for a freshly allocated
/// table frame: present, writable, and user-visible (user access is gated
/// at the leaves).
fn table_frame_scalar(f: usize) -> (r: u64)
    requires
        f * PAGE_SIZE < 0x10_0000_0000_0000,
    ensures
        entry_addr(r) == f * PAGE_SIZE,
        present(r),
        !is_large(r),
        r & WRITABLE != 0,
        r & USER_ACCESSIBLE != 0,
{
    let fa: u64 = (f as u64) * PAGE_SIZE;
    proof {
        assert(fa % 4096 == 0) by (nonlinear_arith)
            requires fa == (f as int) * 4096;
        let fa64 = fa;
        assert(((fa64 | 7u64) & 0xf_ffff_ffff_f000u64) == fa64 && ((fa64 | 7u64) & 1u64) != 0 && ((
        fa64 | 7u64) & 0x80u64) == 0 && ((fa64 | 7u64) & 2u64) != 0 && ((fa64 | 7u64) & 4u64)
            != 0) by (bit_vector)
            requires fa64 % 4096 == 0 && fa64 < 0x10_0000_0000_0000u64;
        assert((1u64 | 2u64) | 4u64 == 7u64) by (bit_vector);
        assert(ADDR_MASK == 0xf_ffff_ffff_f000u64);
    }
    fa | (PRESENT | WRITABLE | USER_ACCESSIBLE)
}

impl PageMapLevel4 {
    /// Read the physical address `addr` maps to, if any.
    pub fn translate_addr(&self, addr: VirtAddr) -> (r: Option<u64>)
        requires
            self.wf(),
        ensures
            (match self.translate(addr.0) {
                Some(pa) => r == Some(pa as u64) && pa <= u64::MAX,
                None => r is None,
            }),
    {
        proof {
            lemma_index_bits(addr.0);
        }
        match self.get_l2(addr) {
            None => None,
            Some(e2) => {
                if entry_present(e2) && entry_large(e2) {
                    let off = (addr.0 & 0x1f_ffff) as u64;
                    proof {
                        let e64 = e2;
                        assert((e64 & 0xf_ffff_ffff_f000u64) <= 0xf_ffff_ffff_f000u64)
                            by (bit_vector);
                    }
                    Some(entry_address(e2) + off)
                } else {
                    match self.get_l1(addr) {
                        None => None,
                        Some(e1) => {
                            if entry_present(e1) {
                                let off = (addr.0 & 0xfff) as u64;
                                proof {
                                    let e64 = e1;
                                    assert((e64 & 0xf_ffff_ffff_f000u64) <= 0xf_ffff_ffff_f000u64)
                                        by (bit_vector);
                                }
                                Some(entry_address(e1) + off)
                            } else {
                                None
                            }
                        },
                    }
                }
            },
        }
    }

    /// Law: installing a page mapping in an empty slot and immediately
    /// removing it returns the address's leaf descriptor to the zero value
    /// an empty slot holds, the translation to "unmapped", and the frame's
    /// reference count to its original value; every other 4 KiB mapping
    /// and every other frame is left as it was.  A slot whose level-1
    /// table did not yet exist comes back as an existing slot holding the
    /// same zero descriptor it is created with.
    pub fn map_unmap_round_trip(
        &mut self,
        alloc: &mut PageAllocator,
        page: usize,
        addr: VirtAddr,
        perms: u64,
    )
        requires
            old(self).wf(),
            old(alloc).wf(),
            old(alloc).free_count() >= 3,
            old(alloc).num_frames() * PAGE_SIZE <= 0x10_0000_0000_0000,
            page < old(alloc).num_frames(),
            !old(alloc).is_free(page as int),
            old(alloc).refc(page as int) < 0xffff,
            old(self).leaf_2m(addr.0) is None,
            old(self).l1_entry(addr.0) is None || old(self).l1_entry(addr.0) == Some(0u64),
            perms & ADDR_MASK == 0,
        ensures
            final(self).wf(),
            final(self).translate(addr.0) is None,
            final(self).leaf_4k(addr.0) is None,
            final(self).l1_entry(addr.0) == Some(0u64),
            final(alloc).refc(page as int) == old(alloc).refc(page as int),
            forall|va2: u64|
                !same_4k_slot(va2, addr.0) ==> #[trigger] final(self).leaf_4k(va2) == old(self).leaf_4k(va2),
            forall|va2: u64| final(self).leaf_2m(va2) == old(self).leaf_2m(va2),
            forall|g: int|
                0 <= g < final(alloc).num_frames() && !old(alloc).is_free(g) && g != page
                    ==> #[trigger] final(alloc).refc(g) == old(alloc).refc(g),
    {
        proof {
            lemma_frame_bound(page as int, old(alloc).num_frames(), 0x10_0000_0000_0000);
            assert(((page * PAGE_SIZE) as u64) % 4096 == 0) by (nonlinear_arith)
                requires page * PAGE_SIZE < 0x10_0000_0000_0000 && PAGE_SIZE == 4096;
            lemma_zero_entry();
        }
        self.map_page_at_addr(alloc, page, addr, perms);
        proof {
            let e = self.l1_entry(addr.0)->Some_0;
            let perms64 = perms;
            let fa = (page * PAGE_SIZE) as u64;
            assert(((fa | perms64) | 1u64) & 0xf_ffff_ffff_f000u64 == fa && (((fa | perms64)
                | 1u64) & 1u64) != 0) by (bit_vector)
                requires
                    fa % 4096 == 0 && fa < 0x10_0000_0000_0000u64 && perms64
                        & 0xf_ffff_ffff_f000u64 == 0;
            assert(entry_addr(e) == page * PAGE_SIZE && present(e));
            assert(entry_addr(e) as int / PAGE_SIZE as int == page) by (nonlinear_arith)
                requires entry_addr(e) == page * PAGE_SIZE && PAGE_SIZE == 4096;
        }
        self.unmap_page_at_addr(alloc, addr);
    }

    /// Law: backing a page-aligned range with writable user pages and then
    /// restricting the range to user-only leaves every page of the range
    /// mapped by a leaf that is present and user-accessible but not
    /// writable.
    pub fn alloc_range_then_restrict(
        &mut self,
        alloc: &mut PageAllocator,
        addr: VirtAddr,
        size: u64,
    )
        requires
            old(self).wf(),
            old(alloc).wf(),
            crate::units::aligned(addr.0 as int, PAGE_SIZE as int),
            crate::units::aligned(size as int, PAGE_SIZE as int),
            old(alloc).free_count() >= 4 * (size as int / PAGE_SIZE as int),
            old(alloc).num_frames() * PAGE_SIZE <= 0x10_0000_0000_0000,
            addr.0 + size <= 0x1_0000_0000_0000_0000,
            size <= 0x1_0000_0000_0000,
            forall|p: u64|
                addr.0 <= p < addr.0 + size && p % PAGE_SIZE == 0 ==> (#[trigger] old(self).leaf_4k(
                    p,
                )) is None && old(self).leaf_2m(p) is None,
        ensures
            final(self).wf(),
            forall|p: u64|
                addr.0 <= p < addr.0 + size && p % PAGE_SIZE == 0 ==> (match #[trigger] final(self).leaf_4k(p) {
                    Some(e) => present(e) && e & USER_ACCESSIBLE != 0 && e & WRITABLE == 0,
                    None => false,
                }),
    {
        proof {
            let w: u64 = WRITABLE | USER_ACCESSIBLE;
            assert((2u64 | 4u64) & 0xf_ffff_ffff_f000u64 == 0 && 4u64 & 0xf_ffff_ffff_f000u64
                == 0) by (bit_vector);
        }
        self.alloc_range_aligned(alloc, addr, size, WRITABLE | USER_ACCESSIBLE);
        let ghost mid_self = *self;
        self.change_range_perms(addr, size, USER_ACCESSIBLE);
        proof {
            assert forall|p: u64|
                addr.0 <= p < addr.0 + size && p % PAGE_SIZE == 0 implies (match #[trigger] self.leaf_4k(
                p,
            ) {
                Some(e) => present(e) && e & USER_ACCESSIBLE != 0 && e & WRITABLE == 0,
                None => false,
            }) by {
                let m = mid_self.leaf_4k(p)->Some_0;
                let ea = entry_addr(m);
                let e2 = ((ea | USER_ACCESSIBLE) | PRESENT) as u64;
                assert(self.l1_entry(p) == Some(e2));
                assert(ea % 4096 == 0 && ea <= 0xf_ffff_ffff_f000) by {
                    let m64 = m;
                    assert((m64 & 0xf_ffff_ffff_f000u64) % 4096 == 0 && (m64
                        & 0xf_ffff_ffff_f000u64) <= 0xf_ffff_ffff_f000u64) by (bit_vector);
                }
                let ea64 = ea;
                assert((((ea64 | 4u64) | 1u64) & 1u64) != 0 && (((ea64 | 4u64) | 1u64) & 4u64) != 0
                    && (((ea64 | 4u64) | 1u64) & 2u64) == 0) by (bit_vector)
                    requires ea64 % 4096 == 0;
            }
        }
    }
}

/// Low-half addresses share no level-2 slot with the kernel's higher-half
/// window: the window's level-4 index is 511, a low-half address's is
/// below 256.
pub proof fn lemma_kernel_window_slots(a: u64)
    requires
        a < 0x8000_0000_0000,
    ensures
        !in_mapped_2m_range(a, 0xffff_ff80_0000_0000, 64),
{
    reveal(in_mapped_2m_range);
    if in_mapped_2m_range(a, 0xffff_ff80_0000_0000, 64) {
        let p = choose|p: u64|
            0xffff_ff80_0000_0000 <= p < 0xffff_ff80_0000_0000 + 64 * PAGE_SIZE_LARGE && p
                % PAGE_SIZE_LARGE == 0 && #[trigger] same_2m_slot(a, p);
        assert(l4_index(a) < 256) by (nonlinear_arith)
            requires a < 0x8000_0000_0000 && l4_index(a) == (a as int / 0x80_0000_0000) % 512;
        assert(l4_index(p) == 511) by (nonlinear_arith)
            requires
                0xffff_ff80_0000_0000 <= p < 0xffff_ff80_0000_0000 + 64 * 0x20_0000,
                l4_index(p) == (p as int / 0x80_0000_0000) % 512;
    }
}

/// Every address of a 2 MiB page selects the same slot as the page base.
pub proof fn lemma_same_slot_in_lpage(v: u64, x: u64)
    requires
        v % PAGE_SIZE_LARGE == 0,
        v <= x < v + PAGE_SIZE_LARGE,
    ensures
        same_2m_slot(x, v),
{
    assert(x as int / 0x20_0000 == v as int / 0x20_0000) by (nonlinear_arith)
        requires v % 0x20_0000 == 0 && v <= x < v + 0x20_0000;
    lemma_index_div_chain_2m(x);
    lemma_index_div_chain_2m(v);
}

/// The upper level indices are functions of the 2 MiB page number.
proof fn lemma_index_div_chain_2m(x: u64)
    ensures
        l2_index(x) == (x as int / 0x20_0000) % 512,
        l3_index(x) == ((x as int / 0x20_0000) / 0x200) % 512,
        l4_index(x) == ((x as int / 0x20_0000) / 0x4_0000) % 512,
{
    let q = x as int / 0x20_0000;
    assert(x as int / 0x4000_0000 == q / 0x200) by (nonlinear_arith)
        requires q == x as int / 0x20_0000 && x >= 0;
    assert(x as int / 0x80_0000_0000 == q / 0x4_0000) by (nonlinear_arith)
        requires q == x as int / 0x20_0000 && x >= 0;
}

/// In a directory whose level-2 slots across a large-page window all hold
/// present large leaves without the user bit, no address of the window is
/// user-accessible.
pub proof fn lemma_window_address_user_bit(dir: PageMapLevel4, a: u64, base: u64, lpages: int)
    requires
        base % PAGE_SIZE_LARGE == 0,
        base <= a < base + lpages * PAGE_SIZE_LARGE,
        base + lpages * PAGE_SIZE_LARGE <= 0x1_0000_0000_0000_0000,
        forall|p: u64|
            base <= p < base + lpages * PAGE_SIZE_LARGE && p % PAGE_SIZE_LARGE == 0 ==> (match
                #[trigger] dir.leaf_2m(p) {
                Some(e) => e & USER_ACCESSIBLE == 0,
                None => false,
            }),
    ensures
        !dir.page_user_accessible(a),
{
    let q = (a as int - base) / (PAGE_SIZE_LARGE as int);
    let p0 = (base + q * PAGE_SIZE_LARGE) as u64;
    assert(base <= p0 <= a && a < p0 + PAGE_SIZE_LARGE && p0 % PAGE_SIZE_LARGE == 0 && p0 < base
        + lpages * PAGE_SIZE_LARGE) by (nonlinear_arith)
        requires
            q == (a as int - base) / (PAGE_SIZE_LARGE as int),
            base % PAGE_SIZE_LARGE == 0,
            base <= a < base + lpages * PAGE_SIZE_LARGE,
            p0 == base + q * PAGE_SIZE_LARGE,
            PAGE_SIZE_LARGE == 0x20_0000;
    lemma_same_slot_in_lpage(p0, a);
    lemma_entries_same_slot_2m(dir, a, p0);
    assert(dir.leaf_2m(p0) is Some);
    assert(dir.l2_entry(a) == dir.l2_entry(p0));
}

impl PageMapLevel4 {
    /// True exactly when no page of the page-aligned range carries any
    /// 4 KiB or 2 MiB mapping state at all.
    #[verifier::rlimit(100)]
    pub fn range_unmapped(&self, from: VirtAddr, size: u64) -> (r: bool)
        requires
            self.wf(),
            crate::units::aligned(from.0 as int, PAGE_SIZE as int),
            crate::units::aligned(size as int, PAGE_SIZE as int),
            from.0 + size <= 0x1_0000_0000_0000_0000,
        ensures
            r == (forall|p: u64|
                from.0 <= p < from.0 + size && p % PAGE_SIZE == 0 ==> (#[trigger] self.leaf_4k(p))
                    is None && self.leaf_2m(p) is None),
        decreases size,
    {
        if size == 0 {
            return true;
        }
        let ok_2m = match self.get_l2(from) {
            Some(e2) => !(entry_present(e2) && entry_large(e2)),
            None => true,
        };
        let ok_4k = match self.get_l1(from) {
            Some(e1) => !entry_present(e1),
            None => true,
        };
        if !(ok_2m && ok_4k) {
            proof {
                crate::units::lemma_aligned_step(0, size as int, PAGE_SIZE as int);
                assert(!((self.leaf_4k(from.0)) is None && self.leaf_2m(from.0) is None));
            }
            return false;
        }
        if size == PAGE_SIZE {
            proof {
                assert forall|p: u64|
                    from.0 <= p < from.0 + size && #[trigger] (p % PAGE_SIZE) == 0 implies p
                    == from.0 by {
                    if p != from.0 {
                        crate::units::lemma_aligned_step(from.0 as int, p as int, PAGE_SIZE as int);
                    }
                }
            }
            return true;
        }
        proof {
            crate::units::lemma_aligned_step(0, size as int, PAGE_SIZE as int);
            crate::units::lemma_aligned_step(
                PAGE_SIZE as int,
                size as int,
                PAGE_SIZE as int,
            );
            assert((from.0 as int + PAGE_SIZE) % (PAGE_SIZE as int) == 0 && (size as int
                - PAGE_SIZE) % (PAGE_SIZE as int) == 0) by (nonlinear_arith)
                requires
                    from.0 as int % (PAGE_SIZE as int) == 0,
                    size as int % (PAGE_SIZE as int) == 0,
                    size >= PAGE_SIZE,
                    PAGE_SIZE == 4096;
        }
        let r = self.range_unmapped(VirtAddr(from.0 + PAGE_SIZE), size - PAGE_SIZE);
        proof {
            if r {
                assert forall|p: u64|
                    from.0 <= p < from.0 + size && p % PAGE_SIZE == 0 implies (
                #[trigger] self.leaf_4k(p)) is None && self.leaf_2m(p) is None by {
                    if p != from.0 {
                        crate::units::lemma_aligned_step(from.0 as int, p as int, PAGE_SIZE as int);
                    }
                }
            } else {
                let w = choose|p: u64|
                    from.0 + PAGE_SIZE <= p < from.0 + size && p % PAGE_SIZE == 0 && !((
                    #[trigger] self.leaf_4k(p)) is None && self.leaf_2m(p) is None);
            }
        }
        r
    }
}

/// A page of a 2 MiB region lies in that one-large-page run.
pub proof fn lemma_mapped_2m_one(va2: u64, base: u64)
    requires
        base % PAGE_SIZE_LARGE == 0,
        base + PAGE_SIZE_LARGE <= 0x1_0000_0000_0000_0000,
        same_2m_slot(va2, base),
    ensures
        in_mapped_2m_range(va2, base, 1),
{
    reveal(in_mapped_2m_range);
}

/// The translation of an address is determined by its two leaf views.
pub proof fn lemma_translate_by_leaves(d1: PageMapLevel4, d2: PageMapLevel4, va: u64)
    requires
        d1.leaf_4k(va) == d2.leaf_4k(va),
        d1.leaf_2m(va) == d2.leaf_2m(va),
    ensures
        d1.translate(va) == d2.translate(va),
{
    if d1.l2_entry(va) is None {
        lemma_l2_none_l1_none(d1, va);
    }
    if d2.l2_entry(va) is None {
        lemma_l2_none_l1_none(d2, va);
    }
}

/// An address sharing a 4 KiB slot with some page of one 2 MiB region
/// shares that region's 2 MiB slot.
pub proof fn lemma_4k_range_within_2m(va2: u64, base: u64)
    requires
        base % PAGE_SIZE_LARGE == 0,
        base + PAGE_SIZE_LARGE <= 0x1_0000_0000_0000_0000,
        in_mapped_4k_range(va2, base, 512),
    ensures
        same_2m_slot(va2, base),
{
    reveal(in_mapped_4k_range);
    let p = choose|p: u64|
        base <= p < base + 512 * PAGE_SIZE && p % PAGE_SIZE == 0 && #[trigger] same_4k_slot(
            va2,
            p,
        );
    lemma_same_slot_in_lpage(base, p);
}

/// Membership in a one-large-page run is exactly sharing its slot.
pub proof fn lemma_in_2m_one_same_slot(va2: u64, base: u64)
    requires
        in_mapped_2m_range(va2, base, 1),
        base % PAGE_SIZE_LARGE == 0,
    ensures
        same_2m_slot(va2, base),
{
    reveal(in_mapped_2m_range);
    let p = choose|p: u64|
        base <= p < base + 1 * PAGE_SIZE_LARGE && p % PAGE_SIZE_LARGE == 0 && #[trigger] same_2m_slot(
            va2,
            p,
        );
    if p != base {
        crate::units::lemma_aligned_step(base as int, p as int, PAGE_SIZE_LARGE as int);
    }
}

/// Membership in a one-page run is exactly sharing its slot.
pub proof fn lemma_in_4k_one_same_slot(va2: u64, base: u64)
    requires
        in_mapped_4k_range(va2, base, 1),
        base % PAGE_SIZE == 0,
    ensures
        same_4k_slot(va2, base),
{
    reveal(in_mapped_4k_range);
    let p = choose|p: u64|
        base <= p < base + 1 * PAGE_SIZE && p % PAGE_SIZE == 0 && #[trigger] same_4k_slot(va2, p);
    if p != base {
        crate::units::lemma_aligned_step(base as int, p as int, PAGE_SIZE as int);
    }
}

} // verus!
