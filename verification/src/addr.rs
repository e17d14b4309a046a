//! Physical and virtual address newtypes.
//!
//! A `PhysAddr` names a location in physical memory; a `VirtAddr` names a
//! location in some address space.  The two never convert implicitly.  The
//! kernel keeps an identity mapping of all physical memory in the higher
//! half, so `PhysAddr -> VirtAddr` is a pure offset by `KERNEL_BASE`.

use vstd::prelude::*;
use crate::units::{aligned, round_down, round_up, is_po2_aligned, po2_round_down, po2_round_up,
    lemma_pow2_4096, lemma_pow2_2m, PAGE_SIZE, PAGE_SIZE_LARGE};

verus! {

/// First virtual address of the higher-half kernel region.
pub const KERNEL_BASE: u64 = 0xffff_ff80_0000_0000;

/// Number of physical-address bytes the higher-half window can cover.
pub const KERNEL_WINDOW: u64 = 0x80_0000_0000;

#[derive(Clone, Copy, PartialEq, Eq, Structural, Debug)]
pub struct PhysAddr(pub u64);

#[derive(Clone, Copy, PartialEq, Eq, Structural, Debug)]
pub struct VirtAddr(pub u64);

impl PhysAddr {
    /// The higher-half virtual alias of this physical address.
    pub fn into_vaddr(self) -> (r: VirtAddr)
        requires
            self.0 < KERNEL_WINDOW,
        ensures
            r.0 == self.0 + KERNEL_BASE,
    {
        VirtAddr(self.0 + KERNEL_BASE)
    }

    pub fn from_u64(raw: u64) -> (r: Self)
        ensures
            r.0 == raw,
    {
        PhysAddr(raw)
    }
}

impl VirtAddr {
    pub fn from_u64(raw: u64) -> (r: Self)
        ensures
            r.0 == raw,
    {
        VirtAddr(raw)
    }

    /// The physical address aliased by a higher-half virtual address.
    pub fn into_paddr(self) -> (r: PhysAddr)
        requires
            self.0 >= KERNEL_BASE,
        ensures
            r.0 == self.0 - KERNEL_BASE,
    {
        PhysAddr(self.0 - KERNEL_BASE)
    }
}

/// Page-granularity alignment helpers, available on both address flavours
/// and on raw quantities.
pub trait PowerOfTwoOps: Sized {
    spec fn raw(self) -> u64;

    fn is_page_aligned(self) -> (r: bool)
        ensures
            r == aligned(self.raw() as int, PAGE_SIZE as int),
    ;

    fn page_round_down(self) -> (r: Self)
        ensures
            r.raw() == round_down(self.raw() as int, PAGE_SIZE as int),
    ;

    fn page_round_up(self) -> (r: Self)
        requires
            self.raw() + PAGE_SIZE - 1 <= u64::MAX,
        ensures
            r.raw() == round_up(self.raw() as int, PAGE_SIZE as int),
    ;

    fn is_lpage_aligned(self) -> (r: bool)
        ensures
            r == aligned(self.raw() as int, PAGE_SIZE_LARGE as int),
    ;

    fn lpage_round_down(self) -> (r: Self)
        ensures
            r.raw() == round_down(self.raw() as int, PAGE_SIZE_LARGE as int),
    ;

    fn lpage_round_up(self) -> (r: Self)
        requires
            self.raw() + PAGE_SIZE_LARGE - 1 <= u64::MAX,
        ensures
            r.raw() == round_up(self.raw() as int, PAGE_SIZE_LARGE as int),
    ;
}

impl PowerOfTwoOps for u64 {
    open spec fn raw(self) -> u64 {
        self
    }

    fn is_page_aligned(self) -> (r: bool) {
        proof { lemma_pow2_4096(); }
        is_po2_aligned(self, PAGE_SIZE)
    }

    fn page_round_down(self) -> (r: Self) {
        proof { lemma_pow2_4096(); }
        po2_round_down(self, PAGE_SIZE)
    }

    fn page_round_up(self) -> (r: Self) {
        proof { lemma_pow2_4096(); }
        po2_round_up(self, PAGE_SIZE)
    }

    fn is_lpage_aligned(self) -> (r: bool) {
        proof { lemma_pow2_2m(); }
        is_po2_aligned(self, PAGE_SIZE_LARGE)
    }

    fn lpage_round_down(self) -> (r: Self) {
        proof { lemma_pow2_2m(); }
        po2_round_down(self, PAGE_SIZE_LARGE)
    }

    fn lpage_round_up(self) -> (r: Self) {
        proof { lemma_pow2_2m(); }
        po2_round_up(self, PAGE_SIZE_LARGE)
    }
}

impl PowerOfTwoOps for PhysAddr {
    open spec fn raw(self) -> u64 {
        self.0
    }

    fn is_page_aligned(self) -> (r: bool) {
        self.0.is_page_aligned()
    }

    fn page_round_down(self) -> (r: Self) {
        PhysAddr(self.0.page_round_down())
    }

    fn page_round_up(self) -> (r: Self) {
        PhysAddr(self.0.page_round_up())
    }

    fn is_lpage_aligned(self) -> (r: bool) {
        self.0.is_lpage_aligned()
    }

    fn lpage_round_down(self) -> (r: Self) {
        PhysAddr(self.0.lpage_round_down())
    }

    fn lpage_round_up(self) -> (r: Self) {
        PhysAddr(self.0.lpage_round_up())
    }
}

impl PowerOfTwoOps for VirtAddr {
    open spec fn raw(self) -> u64 {
        self.0
    }

    fn is_page_aligned(self) -> (r: bool) {
        self.0.is_page_aligned()
    }

    fn page_round_down(self) -> (r: Self) {
        VirtAddr(self.0.page_round_down())
    }

    fn page_round_up(self) -> (r: Self) {
        VirtAddr(self.0.page_round_up())
    }

    fn is_lpage_aligned(self) -> (r: bool) {
        self.0.is_lpage_aligned()
    }

    fn lpage_round_down(self) -> (r: Self) {
        VirtAddr(self.0.lpage_round_down())
    }

    fn lpage_round_up(self) -> (r: Self) {
        VirtAddr(self.0.lpage_round_up())
    }
}

} // verus!
