//! The kernel's own address space: the higher-half identity window over
//! all physical memory, built from 2 MiB pages, with the four stack-guard
//! pages carved out and unmapped so that a stack overflow faults instead of
//! corrupting memory.

use vstd::prelude::*;
use crate::addr::{PhysAddr, VirtAddr};
use crate::arch::{CpuState, KERNEL_BASE};
use crate::interrupts::GuardPages;
use crate::mmu::{PageMapLevel4, PRESENT, WRITABLE};
use crate::pg_alloc::PageAllocator;
use crate::units::{PAGE_SIZE, PAGE_SIZE_LARGE};

verus! {

/// The higher-half window maps `a` to physical `a` for every address the
/// window covers.
pub open spec fn identity_mapped(dir: PageMapLevel4, bytes: int) -> bool {
    forall|a: u64|
        a < bytes ==> #[trigger] dir.translate((KERNEL_BASE + a) as u64) == Some(a as int)
}

/// Build the identity window: `lpages` large pages at `KERNEL_BASE` onto
/// physical zero, writable, kernel-only.  Law: afterwards every address
/// under the window translates back to itself.
pub fn map_identity_window(dir: &mut PageMapLevel4, alloc: &mut PageAllocator, lpages: usize)
    requires
        old(dir).wf(),
        old(alloc).wf(),
        old(alloc).free_count() >= 2 * lpages,
        old(alloc).num_frames() * PAGE_SIZE <= 0x10_0000_0000_0000,
        lpages * PAGE_SIZE_LARGE <= 0x80_0000_0000,
    ensures
        final(dir).wf(),
        final(alloc).wf(),
        final(alloc).num_frames() == old(alloc).num_frames(),
        crate::pg_alloc::alloc_evolved(*old(alloc), *final(alloc), 2 * lpages),
        identity_mapped(*final(dir), lpages * PAGE_SIZE_LARGE),
        forall|p: u64|
            KERNEL_BASE <= p < KERNEL_BASE + lpages * PAGE_SIZE_LARGE && p % PAGE_SIZE_LARGE == 0
                ==> #[trigger] final(dir).l2_entry(p) == Some(
                ((((0 + (p - KERNEL_BASE)) as u64) | (PRESENT | WRITABLE))
                    | crate::mmu::LARGE) as u64,
            ),
{
    proof {
        assert(KERNEL_BASE as int % (PAGE_SIZE_LARGE as int) == 0);
    }
    dir.map_region_large(alloc, VirtAddr(KERNEL_BASE), PhysAddr(0), lpages, PRESENT | WRITABLE);
    proof {
        assert forall|a: u64|
            a < lpages * PAGE_SIZE_LARGE implies #[trigger] dir.translate((KERNEL_BASE + a) as u64)
            == Some(a as int) by {
            lemma_window_translate(*dir, a, lpages as int);
        }
    }
}

/// Under the freshly mapped window, `KERNEL_BASE + a` translates to `a`.
proof fn lemma_window_translate(dir: PageMapLevel4, a: u64, lpages: int)
    requires
        0 <= a < lpages * PAGE_SIZE_LARGE,
        lpages * PAGE_SIZE_LARGE <= 0x80_0000_0000,
        forall|p: u64|
            KERNEL_BASE <= p < KERNEL_BASE + lpages * PAGE_SIZE_LARGE && p % PAGE_SIZE_LARGE == 0
                ==> #[trigger] dir.l2_entry(p) == Some(
                ((((0 + (p - KERNEL_BASE)) as u64) | (PRESENT | WRITABLE))
                    | crate::mmu::LARGE) as u64,
            ),
    ensures
        dir.translate((KERNEL_BASE + a) as u64) == Some(a as int),
{
    let va = (KERNEL_BASE + a) as u64;
    let q = a as int / (PAGE_SIZE_LARGE as int);
    assert(0 <= q && q * PAGE_SIZE_LARGE <= a && a - q * PAGE_SIZE_LARGE < PAGE_SIZE_LARGE)
        by (nonlinear_arith)
        requires q == a as int / 0x20_0000 && 0 <= a && PAGE_SIZE_LARGE == 0x20_0000;
    let p0 = (KERNEL_BASE + q * PAGE_SIZE_LARGE) as u64;
    assert(KERNEL_BASE <= p0 <= va && va < p0 + PAGE_SIZE_LARGE && p0 as int % (
    PAGE_SIZE_LARGE as int) == 0 && p0 < KERNEL_BASE + lpages * PAGE_SIZE_LARGE && p0
        - KERNEL_BASE == q * PAGE_SIZE_LARGE) by (nonlinear_arith)
        requires
            0 <= q,
            q * PAGE_SIZE_LARGE <= a,
            a - q * PAGE_SIZE_LARGE < PAGE_SIZE_LARGE,
            0 <= a < lpages * PAGE_SIZE_LARGE,
            lpages * PAGE_SIZE_LARGE <= 0x80_0000_0000,
            va == KERNEL_BASE + a,
            p0 == KERNEL_BASE + q * PAGE_SIZE_LARGE,
            KERNEL_BASE == 0xffff_ff80_0000_0000,
            PAGE_SIZE_LARGE == 0x20_0000;
    crate::mmu::lemma_same_slot_in_lpage(p0, va);
    crate::mmu::lemma_entries_same_slot_2m(dir, va, p0);
    let x = (p0 - KERNEL_BASE) as u64;
    let e2 = (((x | (PRESENT | WRITABLE)) | crate::mmu::LARGE)) as u64;
    assert(dir.l2_entry(p0) == Some(e2));
    assert(x % 0x20_0000 == 0 && x < 0x80_0000_0000) by (nonlinear_arith)
        requires
            x == q * 0x20_0000 && 0 <= q && x <= a && a < 0x80_0000_0000;
    assert((((x | (1u64 | 2u64)) | 0x80u64) & 1u64) != 0 && (((x | (1u64 | 2u64)) | 0x80u64)
        & 0x80u64) != 0 && (((x | (1u64 | 2u64)) | 0x80u64) & 0xf_ffff_ffff_f000u64)
        == x) by (bit_vector)
        requires x % 0x20_0000 == 0 && x < 0x80_0000_0000u64;
    assert(crate::mmu::entry_addr(e2) == x && crate::mmu::present(e2) && crate::mmu::is_large(e2));
    assert(va as int % 0x20_0000 == a as int % 0x20_0000 && x + a as int % 0x20_0000
        == a) by (nonlinear_arith)
        requires
            va == KERNEL_BASE + a,
            KERNEL_BASE as int % 0x20_0000 == 0,
            KERNEL_BASE == 0xffff_ff80_0000_0000,
            x == q * 0x20_0000,
            q == a as int / 0x20_0000,
            0 <= a,
            va < 0x1_0000_0000_0000_0000;
}

/// Build the kernel's root directory: the identity window over `maxpages`
/// frames of physical memory, then each stack-guard page carved out of its
/// 2 MiB mapping and unmapped, so that touching a guard page faults.
///
/// Law: afterwards no guard page translates at all, and every window
/// address outside the four carved 2 MiB regions still translates to
/// itself.
#[verifier::rlimit(100)]
pub fn create_kern_root_dir(
    alloc: &mut PageAllocator,
    maxpages: u64,
    guards: &GuardPages,
) -> (dir: PageMapLevel4)
    requires
        old(alloc).wf(),
        old(alloc).num_frames() * PAGE_SIZE <= 0x10_0000_0000_0000,
        old(alloc).free_count() >= 2 * ((maxpages * PAGE_SIZE + PAGE_SIZE_LARGE - 1) / (
        PAGE_SIZE_LARGE as int)) + 4 * (3 * 512 + 3) + 1,
        maxpages * PAGE_SIZE <= 0x80_0000_0000,
        guard_wf(*guards, maxpages),
    ensures
        dir.wf(),
        final(alloc).wf(),
        dir.translate((KERNEL_BASE + guards.stack_guard_top) as u64) is None,
        dir.translate((KERNEL_BASE + guards.stack_guard_bot) as u64) is None,
        dir.translate((KERNEL_BASE + guards.int_stack_guard_bot) as u64) is None,
        dir.translate((KERNEL_BASE + guards.priv_stack_guard_bot) as u64) is None,
        forall|a: u64|
            a < maxpages * PAGE_SIZE && crate::units::round_down(a as int, PAGE_SIZE as int)
                != guards.stack_guard_top && crate::units::round_down(a as int, PAGE_SIZE as int)
                != guards.stack_guard_bot && crate::units::round_down(a as int, PAGE_SIZE as int)
                != guards.int_stack_guard_bot && crate::units::round_down(
                a as int,
                PAGE_SIZE as int,
            ) != guards.priv_stack_guard_bot ==> #[trigger] dir.translate(
                (KERNEL_BASE + a) as u64,
            ) == Some(a as int),
{
    let lpages_u64 = (maxpages * PAGE_SIZE + (PAGE_SIZE_LARGE - 1)) / PAGE_SIZE_LARGE;
    let lpages = lpages_u64 as usize;
    let mut dir = PageMapLevel4::new(alloc);
    proof {
        assert(lpages * PAGE_SIZE_LARGE <= 0x80_0000_0000 && lpages == lpages_u64 && maxpages
            * PAGE_SIZE <= lpages * PAGE_SIZE_LARGE) by (nonlinear_arith)
            requires
                lpages_u64 == (maxpages * PAGE_SIZE + (PAGE_SIZE_LARGE - 1)) as u64 as int
                    / (PAGE_SIZE_LARGE as int),
                lpages == lpages_u64,
                maxpages * PAGE_SIZE <= 0x80_0000_0000,
                PAGE_SIZE == 4096,
                PAGE_SIZE_LARGE == 0x20_0000;
    }
    map_identity_window(&mut dir, alloc, lpages);
    let ghost s0 = dir;
    unmap_guard_page(&mut dir, alloc, guards.stack_guard_top);
    let ghost d1 = dir;
    unmap_guard_page(&mut dir, alloc, guards.stack_guard_bot);
    let ghost d2 = dir;
    unmap_guard_page(&mut dir, alloc, guards.int_stack_guard_bot);
    let ghost d3 = dir;
    unmap_guard_page(&mut dir, alloc, guards.priv_stack_guard_bot);
    proof {
        let va0 = (KERNEL_BASE + guards.stack_guard_top) as u64;
        let va1 = (KERNEL_BASE + guards.stack_guard_bot) as u64;
        let va2g = (KERNEL_BASE + guards.int_stack_guard_bot) as u64;
        lemma_guard_pair_distinct(guards.stack_guard_top, guards.stack_guard_bot, maxpages);
        lemma_guard_pair_distinct(guards.stack_guard_top, guards.int_stack_guard_bot, maxpages);
        lemma_guard_pair_distinct(guards.stack_guard_top, guards.priv_stack_guard_bot, maxpages);
        lemma_guard_pair_distinct(guards.stack_guard_bot, guards.int_stack_guard_bot, maxpages);
        lemma_guard_pair_distinct(guards.stack_guard_bot, guards.priv_stack_guard_bot, maxpages);
        lemma_guard_pair_distinct(guards.int_stack_guard_bot, guards.priv_stack_guard_bot, maxpages);
        lemma_lregion_is_round_down(guards.stack_guard_top);
        lemma_lregion_is_round_down(guards.stack_guard_bot);
        lemma_lregion_is_round_down(guards.int_stack_guard_bot);
        lemma_lregion_is_round_down(guards.priv_stack_guard_bot);
        assert(dir.translate(va0) == d1.translate(va0));
        assert(dir.translate(va1) == d2.translate(va1));
        assert(dir.translate(va2g) == d3.translate(va2g));
        let g0 = guards.stack_guard_top;
        let g1 = guards.stack_guard_bot;
        let g2 = guards.int_stack_guard_bot;
        let g3 = guards.priv_stack_guard_bot;
        assert forall|a: u64|
            a < maxpages * PAGE_SIZE && crate::units::round_down(a as int, PAGE_SIZE as int) != g0
                && crate::units::round_down(a as int, PAGE_SIZE as int) != g1
                && crate::units::round_down(a as int, PAGE_SIZE as int) != g2
                && crate::units::round_down(a as int, PAGE_SIZE as int) != g3 implies
            #[trigger] dir.translate((KERNEL_BASE + a) as u64) == Some(a as int) by {
            lemma_window_identity_survives(
                s0, d1, d2, d3, dir, *guards, maxpages, lpages as int, a,
            );
        }
    }
    dir
}

/// The guard symbols are page-aligned physical offsets into the identity
/// window, each in its own 2 MiB region.
pub open spec fn guard_wf(guards: GuardPages, maxpages: u64) -> bool {
    &&& guards.stack_guard_top % PAGE_SIZE == 0
    &&& guards.stack_guard_bot % PAGE_SIZE == 0
    &&& guards.int_stack_guard_bot % PAGE_SIZE == 0
    &&& guards.priv_stack_guard_bot % PAGE_SIZE == 0
    &&& guards.stack_guard_top + PAGE_SIZE <= maxpages * PAGE_SIZE
    &&& guards.stack_guard_bot + PAGE_SIZE <= maxpages * PAGE_SIZE
    &&& guards.int_stack_guard_bot + PAGE_SIZE <= maxpages * PAGE_SIZE
    &&& guards.priv_stack_guard_bot + PAGE_SIZE <= maxpages * PAGE_SIZE
    &&& distinct_lregions(guards)
}

/// The four guards lie in pairwise distinct 2 MiB regions.
pub open spec fn distinct_lregions(guards: GuardPages) -> bool {
    let r0 = guards.stack_guard_top / PAGE_SIZE_LARGE;
    let r1 = guards.stack_guard_bot / PAGE_SIZE_LARGE;
    let r2 = guards.int_stack_guard_bot / PAGE_SIZE_LARGE;
    let r3 = guards.priv_stack_guard_bot / PAGE_SIZE_LARGE;
    r0 != r1 && r0 != r2 && r0 != r3 && r1 != r2 && r1 != r3 && r2 != r3
}

/// One carving step, seen abstractly: what `unmap_guard_page` promised
/// about the directory before and after carving guard `g`.
pub open spec fn carve_step(pre: PageMapLevel4, post: PageMapLevel4, g: u64) -> bool {
    &&& post.translate((KERNEL_BASE + g) as u64) is None
    &&& forall|va2: u64|
        ({
            let lrg = (crate::units::round_down(
                (KERNEL_BASE + g) as int,
                PAGE_SIZE_LARGE as int,
            )) as u64;
            lrg <= va2 < lrg + PAGE_SIZE_LARGE && crate::units::round_down(
                va2 as int,
                PAGE_SIZE as int,
            ) != KERNEL_BASE + g
        }) ==> #[trigger] post.translate(va2) == Some((va2 - KERNEL_BASE) as int)
    &&& forall|va2: u64|
        !crate::mmu::same_2m_slot(
            va2,
            (crate::units::round_down(
                (KERNEL_BASE + g) as int,
                PAGE_SIZE_LARGE as int,
            )) as u64,
        ) ==> #[trigger] post.translate(va2) == pre.translate(va2)
}

/// The identity window survives the four carvings at every address whose
/// page is not one of the guards.
#[verifier::rlimit(100)]
#[verifier::spinoff_prover]
proof fn lemma_window_identity_survives(
    s0: PageMapLevel4,
    d1: PageMapLevel4,
    d2: PageMapLevel4,
    d3: PageMapLevel4,
    d4: PageMapLevel4,
    guards: GuardPages,
    maxpages: u64,
    lpages: int,
    a: u64,
)
    requires
        guard_wf(guards, maxpages),
        maxpages * PAGE_SIZE <= 0x80_0000_0000,
        maxpages * PAGE_SIZE <= lpages * PAGE_SIZE_LARGE,
        lpages * PAGE_SIZE_LARGE <= 0x80_0000_0000,
        identity_mapped(s0, lpages * PAGE_SIZE_LARGE),
        carve_step(s0, d1, guards.stack_guard_top),
        carve_step(d1, d2, guards.stack_guard_bot),
        carve_step(d2, d3, guards.int_stack_guard_bot),
        carve_step(d3, d4, guards.priv_stack_guard_bot),
        a < maxpages * PAGE_SIZE,
        crate::units::round_down(a as int, PAGE_SIZE as int) != guards.stack_guard_top,
        crate::units::round_down(a as int, PAGE_SIZE as int) != guards.stack_guard_bot,
        crate::units::round_down(a as int, PAGE_SIZE as int) != guards.int_stack_guard_bot,
        crate::units::round_down(a as int, PAGE_SIZE as int) != guards.priv_stack_guard_bot,
    ensures
        d4.translate((KERNEL_BASE + a) as u64) == Some(a as int),
{
    let va = (KERNEL_BASE + a) as u64;
    let g0 = guards.stack_guard_top;
    let g1 = guards.stack_guard_bot;
    let g2 = guards.int_stack_guard_bot;
    let g3 = guards.priv_stack_guard_bot;
    lemma_lregion_is_round_down(g0);
    lemma_lregion_is_round_down(g1);
    lemma_lregion_is_round_down(g2);
    lemma_lregion_is_round_down(g3);
    let rva = (crate::units::round_down(va as int, PAGE_SIZE_LARGE as int)) as u64;
    crate::units::lemma_round_down_props(va as int, PAGE_SIZE_LARGE as int);
    crate::units::lemma_round_down_lb(va as int, KERNEL_BASE as int, PAGE_SIZE_LARGE as int);
    crate::mmu::lemma_same_slot_in_lpage(rva, va);
    assert(crate::units::round_down(va as int, PAGE_SIZE as int) == KERNEL_BASE
        + crate::units::round_down(a as int, PAGE_SIZE as int)) by (nonlinear_arith)
        requires
            va == KERNEL_BASE + a,
            KERNEL_BASE as int % 4096 == 0,
            0 <= a,
            PAGE_SIZE == 4096,
            crate::units::round_down(va as int, 4096) == va - va as int % 4096,
            crate::units::round_down(a as int, 4096) == a - a as int % 4096;
    if rva == guard_lregion(g0) {
        lemma_carved_identity_here(s0, d1, g0, va, a);
        lemma_not_my_region(d1, d2, guards, maxpages, g1, g0, va, rva);
        lemma_not_my_region(d2, d3, guards, maxpages, g2, g0, va, rva);
        lemma_not_my_region(d3, d4, guards, maxpages, g3, g0, va, rva);
    } else if rva == guard_lregion(g1) {
        lemma_not_other_region(s0, d1, guards, maxpages, g0, va, rva, lpages, a);
        lemma_carved_identity_here(d1, d2, g1, va, a);
        lemma_not_my_region(d2, d3, guards, maxpages, g2, g1, va, rva);
        lemma_not_my_region(d3, d4, guards, maxpages, g3, g1, va, rva);
    } else if rva == guard_lregion(g2) {
        lemma_not_other_region(s0, d1, guards, maxpages, g0, va, rva, lpages, a);
        lemma_not_other_region(d1, d2, guards, maxpages, g1, va, rva, lpages, a);
        lemma_carved_identity_here(d2, d3, g2, va, a);
        lemma_not_my_region(d3, d4, guards, maxpages, g3, g2, va, rva);
    } else if rva == guard_lregion(g3) {
        lemma_not_other_region(s0, d1, guards, maxpages, g0, va, rva, lpages, a);
        lemma_not_other_region(d1, d2, guards, maxpages, g1, va, rva, lpages, a);
        lemma_not_other_region(d2, d3, guards, maxpages, g2, va, rva, lpages, a);
        lemma_carved_identity_here(d3, d4, g3, va, a);
    } else {
        lemma_not_other_region(s0, d1, guards, maxpages, g0, va, rva, lpages, a);
        lemma_not_other_region(d1, d2, guards, maxpages, g1, va, rva, lpages, a);
        lemma_not_other_region(d2, d3, guards, maxpages, g2, va, rva, lpages, a);
        lemma_not_other_region(d3, d4, guards, maxpages, g3, va, rva, lpages, a);
    }
}

/// The carving of `g` itself leaves `va` (in `g`'s region, not `g`'s
/// page) identity-mapped.
proof fn lemma_carved_identity_here(pre: PageMapLevel4, post: PageMapLevel4, g: u64, va: u64, a: u64)
    requires
        carve_step(pre, post, g),
        g + PAGE_SIZE <= 0x80_0000_0000,
        va == KERNEL_BASE + a,
        a < 0x80_0000_0000,
        (crate::units::round_down(va as int, PAGE_SIZE_LARGE as int)) as u64 == guard_lregion(g),
        crate::units::round_down(va as int, PAGE_SIZE as int) != KERNEL_BASE + g,
    ensures
        post.translate(va) == Some(a as int),
{
    lemma_lregion_is_round_down(g);
    crate::units::lemma_round_down_props(va as int, PAGE_SIZE_LARGE as int);
    assert(post.translate(va) == Some((va - KERNEL_BASE) as int));
}

/// Carving guard `g` does not touch `va`, which lies in the distinct
/// region of guard `mine`.
proof fn lemma_not_my_region(
    pre: PageMapLevel4,
    post: PageMapLevel4,
    guards: GuardPages,
    maxpages: u64,
    g: u64,
    mine: u64,
    va: u64,
    rva: u64,
)
    requires
        carve_step(pre, post, g),
        guard_of(guards, g),
        guard_of(guards, mine),
        guard_wf(guards, maxpages),
        maxpages * PAGE_SIZE <= 0x80_0000_0000,
        g / PAGE_SIZE_LARGE != mine / PAGE_SIZE_LARGE,
        rva == guard_lregion(mine),
        crate::mmu::same_2m_slot(va, rva),
    ensures
        post.translate(va) == pre.translate(va),
{
    lemma_guard_pair_distinct(mine, g, maxpages);
    lemma_lregion_is_round_down(g);
    assert(!crate::mmu::same_2m_slot(va, guard_lregion(g))) by {
        if crate::mmu::same_2m_slot(va, guard_lregion(g)) {
            lemma_lregion_is_round_down(mine);
            crate::units::lemma_round_down_props((KERNEL_BASE + mine) as int, PAGE_SIZE_LARGE as int);
            crate::mmu::lemma_same_slot_in_lpage(rva, (KERNEL_BASE + mine) as u64);
            assert(crate::mmu::same_2m_slot((KERNEL_BASE + mine) as u64, guard_lregion(g)));
        }
    }
}

/// Carving guard `g` does not touch `va`, whose own 2 MiB region is not
/// `g`'s region.
proof fn lemma_not_other_region(
    pre: PageMapLevel4,
    post: PageMapLevel4,
    guards: GuardPages,
    maxpages: u64,
    g: u64,
    va: u64,
    rva: u64,
    lpages: int,
    a: u64,
)
    requires
        carve_step(pre, post, g),
        guard_of(guards, g),
        guard_wf(guards, maxpages),
        maxpages * PAGE_SIZE <= 0x80_0000_0000,
        lpages * PAGE_SIZE_LARGE <= 0x80_0000_0000,
        va == KERNEL_BASE + a,
        a < maxpages * PAGE_SIZE,
        rva == (crate::units::round_down(va as int, PAGE_SIZE_LARGE as int)) as u64,
        rva != guard_lregion(g),
        crate::mmu::same_2m_slot(va, rva),
    ensures
        post.translate(va) == pre.translate(va),
{
    lemma_lregion_is_round_down(g);
    crate::units::lemma_round_down_props(va as int, PAGE_SIZE_LARGE as int);
    crate::units::lemma_round_down_lb(va as int, KERNEL_BASE as int, PAGE_SIZE_LARGE as int);
    assert(!crate::mmu::same_2m_slot(va, guard_lregion(g))) by {
        if crate::mmu::same_2m_slot(va, guard_lregion(g)) {
            assert(rva as int % 0x20_0000 == 0 && guard_lregion(g) as int % 0x20_0000 == 0 && rva
                - guard_lregion(g) < 0x1_0000_0000_0000 && guard_lregion(g) - rva
                < 0x1_0000_0000_0000) by (nonlinear_arith)
                requires
                    rva == va - va as int % 0x20_0000,
                    va as int % 0x20_0000 == va - rva,
                    rva >= KERNEL_BASE,
                    va == KERNEL_BASE + a,
                    a < 0x80_0000_0000,
                    guard_lregion(g) == ((KERNEL_BASE + (g as int / 0x20_0000)
                        * 0x20_0000) as u64),
                    0 <= g as int / 0x20_0000 <= 0x80_0000_0000,
                    g < 0x80_0000_0000,
                    KERNEL_BASE == 0xffff_ff80_0000_0000,
                    rva as int % 0x20_0000 == 0;
            crate::mmu::lemma_distinct_2m_slots(rva, guard_lregion(g));
        }
    }
}

/// Two guards in distinct 2 MiB regions: the first guard's virtual
/// address is outside the second's region slot.
proof fn lemma_guard_pair_distinct(g1: u64, g2: u64, maxpages: u64)
    requires
        g1 / PAGE_SIZE_LARGE != g2 / PAGE_SIZE_LARGE,
        g1 + PAGE_SIZE <= maxpages * PAGE_SIZE,
        g2 + PAGE_SIZE <= maxpages * PAGE_SIZE,
        maxpages * PAGE_SIZE <= 0x80_0000_0000,
    ensures
        !crate::mmu::same_2m_slot((KERNEL_BASE + g1) as u64, guard_lregion(g2)),
{
    let va1 = (KERNEL_BASE + g1) as u64;
    let l1 = guard_lregion(g1);
    let l2 = guard_lregion(g2);
    assert(l1 as int % 0x20_0000 == 0 && l2 as int % 0x20_0000 == 0 && l1 != l2 && l1 - l2
        < 0x1_0000_0000_0000 && l2 - l1 < 0x1_0000_0000_0000 && l1 <= va1 < l1
        + 0x20_0000) by (nonlinear_arith)
        requires
            l1 == ((KERNEL_BASE + (g1 as int / 0x20_0000) * 0x20_0000) as u64),
            l2 == ((KERNEL_BASE + (g2 as int / 0x20_0000) * 0x20_0000) as u64),
            va1 == KERNEL_BASE + g1,
            g1 as int / 0x20_0000 != g2 as int / 0x20_0000,
            g1 + PAGE_SIZE <= maxpages * PAGE_SIZE,
            g2 + PAGE_SIZE <= maxpages * PAGE_SIZE,
            maxpages * PAGE_SIZE <= 0x80_0000_0000,
            KERNEL_BASE == 0xffff_ff80_0000_0000,
            PAGE_SIZE == 4096,
            PAGE_SIZE_LARGE == 0x20_0000;
    crate::mmu::lemma_same_slot_in_lpage(l1, va1);
    crate::mmu::lemma_distinct_2m_slots(l1, l2);
}

/// The region base of a guard is the 2 MiB round-down of its virtual
/// alias.
proof fn lemma_lregion_is_round_down(g: u64)
    requires
        g + PAGE_SIZE <= 0x80_0000_0000,
    ensures
        guard_lregion(g) == (crate::units::round_down(
            (KERNEL_BASE + g) as int,
            PAGE_SIZE_LARGE as int,
        )) as u64,
{
    assert((KERNEL_BASE + g) - (KERNEL_BASE + g) % 0x20_0000 == KERNEL_BASE + (g as int
        / 0x20_0000) * 0x20_0000) by (nonlinear_arith)
        requires
            KERNEL_BASE == 0xffff_ff80_0000_0000,
            0 <= g < 0x80_0000_0000,
            KERNEL_BASE as int % 0x20_0000 == 0;
}

/// `g` is one of the four guards.
pub open spec fn guard_of(guards: GuardPages, g: u64) -> bool {
    g == guards.stack_guard_top || g == guards.stack_guard_bot || g == guards.int_stack_guard_bot
        || g == guards.priv_stack_guard_bot
}

/// The base of the 2 MiB region the guard's virtual alias lies in.
pub open spec fn guard_lregion(g: u64) -> u64 {
    ((KERNEL_BASE + (g as int / (PAGE_SIZE_LARGE as int)) * (PAGE_SIZE_LARGE as int)) as u64)
}

/// Carve one guard page out of the identity window: unmap its 2 MiB
/// region, rebuild the region from 4 KiB identity pages, then unmap just
/// the guard page.  Law: afterwards the guard's virtual address does not
/// translate.
#[verifier::rlimit(100)]
#[verifier::spinoff_prover]
pub fn unmap_guard_page(dir: &mut PageMapLevel4, alloc: &mut PageAllocator, guard_phys: u64)
    requires
        old(dir).wf(),
        old(alloc).wf(),
        old(alloc).num_frames() * PAGE_SIZE <= 0x10_0000_0000_0000,
        old(alloc).free_count() >= 3 * 512 + 3,
        guard_phys % PAGE_SIZE == 0,
        guard_phys + PAGE_SIZE <= 0x80_0000_0000,
    ensures
        final(dir).wf(),
        final(alloc).wf(),
        final(alloc).num_frames() == old(alloc).num_frames(),
        final(dir).translate((KERNEL_BASE + guard_phys) as u64) is None,
        final(dir).addr == old(dir).addr,
        crate::pg_alloc::alloc_evolved(*old(alloc), *final(alloc), 1536),
        forall|va2: u64|
            ({
                let lrg = (crate::units::round_down(
                    (KERNEL_BASE + guard_phys) as int,
                    PAGE_SIZE_LARGE as int,
                )) as u64;
                lrg <= va2 < lrg + PAGE_SIZE_LARGE && crate::units::round_down(
                    va2 as int,
                    PAGE_SIZE as int,
                ) != KERNEL_BASE + guard_phys
            }) ==> #[trigger] final(dir).translate(va2) == Some((va2 - KERNEL_BASE) as int),
        forall|va2: u64|
            !crate::mmu::same_2m_slot(
                va2,
                (crate::units::round_down(
                    (KERNEL_BASE + guard_phys) as int,
                    PAGE_SIZE_LARGE as int,
                )) as u64,
            ) ==> #[trigger] final(dir).translate(va2) == old(dir).translate(va2),
{
    proof {
        crate::units::lemma_pow2_2m();
        crate::units::lemma_pow2_4096();
    }
    let vaddr = KERNEL_BASE + guard_phys;
    let large = crate::units::po2_round_down(vaddr, PAGE_SIZE_LARGE);
    proof {
        crate::units::lemma_round_down_props(vaddr as int, PAGE_SIZE_LARGE as int);
        crate::units::lemma_round_down_lb(vaddr as int, KERNEL_BASE as int, PAGE_SIZE_LARGE as int);
    }
    dir.unmap_region_large(VirtAddr(large), 1);
    let ghost s1 = *dir;
    proof {
        assert forall|p: u64|
            large <= p < large + 512 * PAGE_SIZE && p % PAGE_SIZE == 0 implies (
        #[trigger] dir.leaf_2m(p)) is None by {
            crate::mmu::lemma_same_slot_in_lpage(large, p);
            crate::mmu::lemma_mapped_2m_one(p, large);
        }
        assert((large - KERNEL_BASE) as int % (PAGE_SIZE as int) == 0) by (nonlinear_arith)
            requires
                large as int % 0x20_0000 == 0,
                KERNEL_BASE as int % 0x20_0000 == 0,
                large >= KERNEL_BASE,
                PAGE_SIZE == 4096;
    }
    dir.map_region(
        alloc,
        VirtAddr(large),
        PhysAddr(large - KERNEL_BASE),
        512,
        PRESENT | WRITABLE,
    );
    let ghost s2 = *dir;
    dir.unmap_region(VirtAddr(vaddr), 1);
    proof {
        let va = vaddr as u64;
        assert(dir.leaf_4k(va) is None) by {
            assert(va % PAGE_SIZE == 0) by (nonlinear_arith)
                requires
                    va == KERNEL_BASE + guard_phys,
                    guard_phys as int % 4096 == 0,
                    KERNEL_BASE as int % 4096 == 0,
                    PAGE_SIZE == 4096;
        }
        assert(dir.leaf_2m(va) is None) by {
            crate::mmu::lemma_same_slot_in_lpage(large, va);
            crate::mmu::lemma_mapped_2m_one(va, large);
            assert(s1.leaf_2m(va) is None);
            assert(s2.leaf_2m(va) == s1.leaf_2m(va));
            assert(dir.l2_entry(va) == s2.l2_entry(va));
        }
        assert forall|va2: u64|
            large <= va2 < large + PAGE_SIZE_LARGE && crate::units::round_down(
                va2 as int,
                PAGE_SIZE as int,
            ) != KERNEL_BASE + guard_phys implies #[trigger] dir.translate(va2) == Some((va2
            - KERNEL_BASE) as int) by {
            let p2 = (crate::units::round_down(va2 as int, PAGE_SIZE as int)) as u64;
            crate::units::lemma_round_down_props(va2 as int, PAGE_SIZE as int);
            crate::units::lemma_round_down_lb(va2 as int, large as int, PAGE_SIZE as int);
            assert(p2 as int % 4096 == 0 && large <= p2 <= va2 && va2 < p2 + PAGE_SIZE);
            assert(p2 < large + PAGE_SIZE_LARGE);
            assert(s2.l1_entry(p2) == Some(
                ((((large - KERNEL_BASE) as u64) + (p2 - large)) as u64 | (PRESENT
                    | WRITABLE)) as u64,
            ));
            assert(!crate::mmu::in_mapped_4k_range(p2, vaddr, 1)) by {
                if crate::mmu::in_mapped_4k_range(p2, vaddr, 1) {
                    crate::mmu::lemma_in_4k_one_same_slot(p2, vaddr);
                    crate::mmu::lemma_distinct_4k_slots(p2, vaddr);
                }
            }
            assert(dir.l1_entry(p2) == s2.l1_entry(p2));
            crate::mmu::lemma_same_slot_in_page(p2, va2);
            crate::mmu::lemma_entries_same_slot(*dir, va2, p2);
            let x = ((large - KERNEL_BASE) as u64 + (p2 - large)) as u64;
            assert(x == p2 - KERNEL_BASE && x % 4096 == 0 && x < 0x80_0000_0000)
                by (nonlinear_arith)
                requires
                    x == (large - KERNEL_BASE) + (p2 - large),
                    KERNEL_BASE <= large <= p2,
                    p2 as int % 4096 == 0,
                    KERNEL_BASE as int % 4096 == 0,
                    p2 < KERNEL_BASE + 0x80_0000_0000,
                    KERNEL_BASE == 0xffff_ff80_0000_0000;
            let x64 = x;
            assert(((x64 | (1u64 | 2u64)) & 0xf_ffff_ffff_f000u64) == x64 && ((x64 | (1u64
                | 2u64)) & 1u64) != 0) by (bit_vector)
                requires x64 % 4096 == 0 && x64 < 0x80_0000_0000u64;
            assert(crate::mmu::in_mapped_2m_range(va2, large, 1)) by {
                crate::mmu::lemma_same_slot_in_lpage(large, va2);
                crate::mmu::lemma_mapped_2m_one(va2, large);
            }
            assert(s1.leaf_2m(va2) is None);
            assert(s2.leaf_2m(va2) == s1.leaf_2m(va2));
            assert(dir.l2_entry(va2) == s2.l2_entry(va2));
            crate::mmu::lemma_l1_some_l2_some(*dir, va2);
            assert(va2 as int - p2 as int == va2 as int % 4096 && x + (va2 as int % 4096) == va2
                - KERNEL_BASE) by (nonlinear_arith)
                requires
                    p2 == va2 as int - va2 as int % 4096,
                    x == p2 - KERNEL_BASE,
                    KERNEL_BASE as int % 4096 == 0,
                    KERNEL_BASE <= p2 <= va2,
                    va2 < p2 + 4096;
        }
        assert forall|va2: u64|
            !crate::mmu::same_2m_slot(va2, large as u64) implies #[trigger] dir.translate(va2)
            == old(dir).translate(va2) by {
            assert(!crate::mmu::in_mapped_2m_range(va2, large, 1)) by {
                if crate::mmu::in_mapped_2m_range(va2, large, 1) {
                    crate::mmu::lemma_in_2m_one_same_slot(va2, large);
                }
            }
            assert(!crate::mmu::in_mapped_4k_range(va2, large, 512)) by {
                if crate::mmu::in_mapped_4k_range(va2, large, 512) {
                    crate::mmu::lemma_4k_range_within_2m(va2, large);
                }
            }
            assert(!crate::mmu::in_mapped_4k_range(va2, vaddr, 1)) by {
                if crate::mmu::in_mapped_4k_range(va2, vaddr, 1) {
                    crate::mmu::lemma_in_4k_one_same_slot(va2, vaddr);
                    crate::mmu::lemma_same_slot_in_lpage(large, vaddr);
                }
            }
            assert(s1.l1_entry(va2) == old(dir).l1_entry(va2) && s1.l2_entry(va2) == old(
                dir,
            ).l2_entry(va2));
            assert(s2.leaf_4k(va2) == s1.leaf_4k(va2) && s2.leaf_2m(va2) == s1.leaf_2m(va2));
            assert(dir.l1_entry(va2) == s2.l1_entry(va2) && dir.l2_entry(va2) == s2.l2_entry(
                va2,
            ));
            crate::mmu::lemma_translate_by_leaves(*dir, *old(dir), va2);
        }
    }
}

/// Load the kernel root directory into CR3.
pub fn switch_to_kernel_root_dir(dir: &PageMapLevel4, cpu: &mut CpuState)
    ensures
        final(cpu).cr3 == dir.addr.0,
        final(cpu).interrupts_enabled == old(cpu).interrupts_enabled,
{
    dir.switch_to_this(cpu);
}

} // verus!
