// The page-frame allocator, the memory map, and the mapper.

use kote::addr::{PhysAddr, VirtAddr};
use kote::bootinfo::{MemoryMap, Region};
use kote::mmu::{PageMapLevel4, PRESENT, WRITABLE, USER_ACCESSIBLE, LARGE};
use kote::pg_alloc;
use kote::units;

fn small_allocator(frames: u64) -> pg_alloc::PageAllocator {
    let mmap = MemoryMap { entries: vec![Region { start: 0, end: frames * 4096 }] };
    pg_alloc::init(frames as usize, &mmap)
}

#[test]
fn po2_helpers() {
    assert!(units::is_po2_aligned(0x2000, 4096));
    assert!(!units::is_po2_aligned(0x2001, 4096));
    assert_eq!(units::po2_round_down(0x2fff, 4096), 0x2000);
    assert_eq!(units::po2_round_up(0x2001, 4096), 0x3000);
    assert_eq!(units::po2_round_up(0x2000, 4096), 0x2000);
}

#[test]
fn freelist_covers_free_regions() {
    // Frames 0..4 free, 4..8 excluded.
    let mmap = MemoryMap { entries: vec![Region { start: 0, end: 4 * 4096 }] };
    let a = pg_alloc::init(8, &mmap);
    assert_eq!(a.frame_count(), 8);
    assert_eq!(a.free_list_len(), 4);
    for f in 0..8 {
        assert_eq!(a.refcount(f), 0);
    }
}

#[test]
fn alloc_zeroes_and_refcounts() {
    let mut a = small_allocator(4);
    let f = a.alloc_page();
    assert_eq!(a.refcount(f), 0);
    assert_eq!(a.free_list_len(), 3);
    a.inc_refc(f);
    assert_eq!(a.refcount(f), 1);
    for off in [0usize, 1, 4095] {
        assert_eq!(a.read_byte(f, off), 0);
    }
    a.write_byte(f, 7, 0xaa);
    assert_eq!(a.read_byte(f, 7), 0xaa);
    a.dec_refc(f);
    // Back on the freelist with refcount zero.
    assert_eq!(a.refcount(f), 0);
    assert_eq!(a.free_list_len(), 4);
}

#[test]
fn dec_page_refc_by_address() {
    let mut a = small_allocator(4);
    let f = a.alloc_page();
    a.inc_refc(f);
    a.dec_page_refc(PhysAddr((f as u64) * 4096));
    assert_eq!(a.refcount(f), 0);
    assert_eq!(a.free_list_len(), 4);
}

#[test]
fn remove_reserved_carves_and_sorts() {
    let mut mmap = MemoryMap {
        entries: vec![Region { start: 0x0, end: 0x10000 }],
    };
    let reserved = vec![
        Region { start: 0x0, end: 0x1000 },
        Region { start: 0x4000, end: 0x5000 },
    ];
    mmap.remove_reserved(&reserved);
    // Coverage: [0x1000, 0x4000) and [0x5000, 0x10000), sorted, non-empty.
    assert_eq!(mmap.entries.len(), 2);
    assert_eq!(mmap.entries[0], Region { start: 0x1000, end: 0x4000 });
    assert_eq!(mmap.entries[1], Region { start: 0x5000, end: 0x10000 });
}

#[test]
fn overlap_pieces() {
    let (l, r) = kote::bootinfo::resolve_overlaps(
        Region { start: 10, end: 20 },
        Region { start: 12, end: 15 },
    );
    assert_eq!(l, Region { start: 10, end: 12 });
    assert_eq!(r, Region { start: 15, end: 20 });
}

// Mapping a page and unmapping it restores the translation and the
// refcount; the intermediate tables stay allocated (the documented leak).
#[test]
fn map_unmap_round_trip() {
    let mut a = small_allocator(64);
    let mut dir = PageMapLevel4::new(&mut a);
    let free_before = a.free_list_len();
    let page = a.alloc_page();
    dir.map_page_at_addr(&mut a, page, VirtAddr(0x1000_0000), WRITABLE | USER_ACCESSIBLE);
    assert_eq!(a.refcount(page), 1);
    assert_eq!(
        dir.translate_addr(VirtAddr(0x1000_0000)),
        Some((page as u64) * 4096)
    );
    assert_eq!(
        dir.translate_addr(VirtAddr(0x1000_0123)),
        Some((page as u64) * 4096 + 0x123)
    );
    dir.unmap_page_at_addr(&mut a, VirtAddr(0x1000_0000));
    assert_eq!(dir.translate_addr(VirtAddr(0x1000_0000)), None);
    // The data frame went back to the freelist...
    assert_eq!(a.refcount(page), 0);
    // ...but the three intermediate tables are still live.
    assert_eq!(a.free_list_len(), free_before - 3);
}

// Unmapping writes the empty descriptor back: the slot reads as zero,
// the same byte value it held before the mapping.
#[test]
fn unmap_writes_empty_descriptor() {
    let mut a = small_allocator(64);
    let mut dir = PageMapLevel4::new(&mut a);
    let page = a.alloc_page();
    dir.map_page_at_addr(&mut a, page, VirtAddr(0x1000_0000), WRITABLE | USER_ACCESSIBLE);
    assert!(dir.get_l1(VirtAddr(0x1000_0000)).unwrap() != 0);
    dir.unmap_page_at_addr(&mut a, VirtAddr(0x1000_0000));
    assert_eq!(dir.get_l1(VirtAddr(0x1000_0000)), Some(0));
}

// The public alloc_range rounds ragged bounds out to whole pages.
#[test]
fn alloc_range_rounds_bounds() {
    let mut a = small_allocator(64);
    let mut dir = PageMapLevel4::new(&mut a);
    dir.alloc_range(&mut a, VirtAddr(0x2000_0100), 4096, WRITABLE | USER_ACCESSIBLE);
    assert!(dir.translate_addr(VirtAddr(0x2000_0000)).is_some());
    assert!(dir.translate_addr(VirtAddr(0x2000_1fff)).is_some());
    assert_eq!(dir.translate_addr(VirtAddr(0x2000_2000)), None);
}

// unmap_range gives the backing frames back: the refcount of each
// frame drops to zero and the frames return to the freelist.
#[test]
fn unmap_range_returns_frames() {
    let mut a = small_allocator(64);
    let mut dir = PageMapLevel4::new(&mut a);
    dir.alloc_range(&mut a, VirtAddr(0x2000_0000), 2 * 4096, WRITABLE | USER_ACCESSIBLE);
    let f0 = (dir.translate_addr(VirtAddr(0x2000_0000)).unwrap() / 4096) as usize;
    let free_before = a.free_list_len();
    dir.unmap_range(&mut a, VirtAddr(0x2000_0000), 2);
    assert_eq!(dir.translate_addr(VirtAddr(0x2000_0000)), None);
    assert_eq!(a.refcount(f0), 0);
    assert_eq!(a.free_list_len(), free_before + 2);
}

// alloc_range + change_range_perms leaves every page present and
// user-accessible but not writable.
#[test]
fn alloc_range_then_restrict_perms() {
    let mut a = small_allocator(64);
    let mut dir = PageMapLevel4::new(&mut a);
    dir.alloc_range(&mut a, VirtAddr(0x2000_0000), 3 * 4096, WRITABLE | USER_ACCESSIBLE);
    dir.change_range_perms(VirtAddr(0x2000_0000), 3 * 4096, USER_ACCESSIBLE);
    for i in 0..3u64 {
        let leaf = dir.get_l1(VirtAddr(0x2000_0000 + i * 4096)).unwrap();
        assert!(leaf & PRESENT != 0);
        assert!(leaf & USER_ACCESSIBLE != 0);
        assert!(leaf & WRITABLE == 0);
    }
}

// is_region_user_accessible is true exactly when every page is mapped
// present and user-accessible.
#[test]
fn region_user_accessibility() {
    let mut a = small_allocator(64);
    let mut dir = PageMapLevel4::new(&mut a);
    dir.alloc_range(&mut a, VirtAddr(0x3000_0000), 2 * 4096, WRITABLE | USER_ACCESSIBLE);
    assert!(dir.is_region_user_accessible(VirtAddr(0x3000_0000), VirtAddr(0x3000_2000)));
    assert!(dir.is_region_user_accessible(VirtAddr(0x3000_0100), VirtAddr(0x3000_1100)));
    // One page past the mapped range: no longer accessible.
    assert!(!dir.is_region_user_accessible(VirtAddr(0x3000_0000), VirtAddr(0x3000_2001)));
    // Kernel-only mapping is not user-accessible.
    let mut dir2 = PageMapLevel4::new(&mut a);
    dir2.alloc_range(&mut a, VirtAddr(0x3000_0000), 4096, WRITABLE);
    assert!(!dir2.is_region_user_accessible(VirtAddr(0x3000_0000), VirtAddr(0x3000_1000)));
}

#[test]
fn large_mapping_translates() {
    let mut a = small_allocator(16);
    let mut dir = PageMapLevel4::new(&mut a);
    dir.map_region_large(
        &mut a,
        VirtAddr(0xffff_ff80_0000_0000),
        PhysAddr(0),
        2,
        PRESENT | WRITABLE,
    );
    let e2 = dir.get_l2(VirtAddr(0xffff_ff80_0000_0000)).unwrap();
    assert!(e2 & LARGE != 0);
    assert_eq!(
        dir.translate_addr(VirtAddr(0xffff_ff80_0000_0000 + 0x12_3456)),
        Some(0x12_3456)
    );
    assert_eq!(
        dir.translate_addr(VirtAddr(0xffff_ff80_0020_0000 + 5)),
        Some(0x20_0005)
    );
}
