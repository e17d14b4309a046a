//! The record the bootloader hands to the kernel: the map of free physical
//! memory, the framebuffer description and the kernel's section headers.
//!
//! The memory map is kept as a list of `[start, end)` byte regions.  Its one
//! non-trivial operation is `remove_reserved`, which carves a set of reserved
//! ranges out of the free map: afterwards an address is covered exactly when
//! it was covered before and lies in no reserved range, and the entries are
//! non-empty and sorted by start.

use vstd::prelude::*;
use crate::elf::Elf64Shdr;
use crate::addr::KERNEL_BASE;

verus! {

/// A `[start, end)` range of physical bytes.
#[derive(Clone, Copy, PartialEq, Eq, Structural, Debug)]
pub struct Region {
    pub start: u64,
    pub end: u64,
}

/// The free physical memory map.
pub struct MemoryMap {
    pub entries: Vec<Region>,
}

/// What the bootloader reports about the linear framebuffer.
#[derive(Clone, Copy, PartialEq, Eq, Structural, Debug)]
pub struct FramebufferInfo {
    pub addr: u64,
    pub width: u32,
    pub height: u32,
    pub pitch: u32,
    pub bpp: u8,
    pub red_pos: u8,
    pub red_mask_sz: u8,
    pub green_pos: u8,
    pub green_mask_sz: u8,
    pub blue_pos: u8,
    pub blue_mask_sz: u8,
}

/// The kernel image's section headers, together with the section-name
/// string table, both copied out of the boot blob into plain values.
pub struct SectionInfo {
    pub shdrs: Vec<Elf64Shdr>,
    pub shstrtab: Vec<u8>,
}

/// Everything the kernel consumes from the bootloader.
pub struct BootloaderInfo {
    pub free_areas: MemoryMap,
    pub framebuffer: FramebufferInfo,
    pub section_headers: Option<SectionInfo>,
}

/// Address `a` lies in region `r`.
pub open spec fn in_region(r: Region, a: int) -> bool {
    r.start <= a < r.end
}

/// Address `a` lies in some region of `regions`.
pub open spec fn covers(regions: Seq<Region>, a: int) -> bool {
    exists|i: int| 0 <= i < regions.len() && in_region(regions[i], a)
}

/// The regions are ordered by their start addresses.
pub open spec fn sorted_by_start(regions: Seq<Region>) -> bool {
    forall|i: int, j: int|
        0 <= i <= j < regions.len() ==> #[trigger] regions[i].start <= #[trigger] regions[j].start
}

/// The part of `e` left of the reserved range `r`.
pub open spec fn clip_left(e: Region, r: Region) -> Region {
    Region {
        start: e.start,
        end: if r.start < e.end {
            r.start
        } else {
            e.end
        },
    }
}

/// The part of `e` right of the reserved range `r`.
pub open spec fn clip_right(e: Region, r: Region) -> Region {
    Region {
        start: if r.end > e.start {
            r.end
        } else {
            e.start
        },
        end: e.end,
    }
}

/// Every entry of `s` clipped against `r`, two pieces per entry.
pub open spec fn subtract_list(s: Seq<Region>, r: Region) -> Seq<Region>
    decreases s.len(),
{
    if s.len() == 0 {
        Seq::empty()
    } else {
        subtract_list(s.drop_last(), r).push(clip_left(s.last(), r)).push(
            clip_right(s.last(), r),
        )
    }
}

/// `s` with every range of `rs` carved out, in order.
pub open spec fn subtract_all(s: Seq<Region>, rs: Seq<Region>) -> Seq<Region>
    decreases rs.len(),
{
    if rs.len() == 0 {
        s
    } else {
        subtract_list(subtract_all(s, rs.drop_last()), rs.last())
    }
}

/// `s` without its empty regions.
pub open spec fn filter_nonempty(s: Seq<Region>) -> Seq<Region>
    decreases s.len(),
{
    if s.len() == 0 {
        Seq::empty()
    } else if s.last().start < s.last().end {
        filter_nonempty(s.drop_last()).push(s.last())
    } else {
        filter_nonempty(s.drop_last())
    }
}

/// The two clipped pieces of `e` cover exactly the bytes of `e` outside
/// `r`.
proof fn lemma_clip_covers(e: Region, r: Region, a: int)
    ensures
        (in_region(clip_left(e, r), a) || in_region(clip_right(e, r), a)) <==> (in_region(e, a)
            && !in_region(r, a)),
{
}

/// Dropping the last entry removes exactly its coverage.
proof fn lemma_covers_drop_last(s: Seq<Region>, a: int)
    requires
        s.len() > 0,
    ensures
        covers(s, a) <==> (covers(s.drop_last(), a) || in_region(s.last(), a)),
{
    if covers(s.drop_last(), a) {
        let w = choose|w: int|
            0 <= w < s.drop_last().len() && #[trigger] in_region(s.drop_last()[w], a);
        assert(in_region(s[w], a));
    }
    if in_region(s.last(), a) {
        assert(in_region(s[s.len() - 1], a));
    }
    if covers(s, a) {
        let w = choose|w: int| 0 <= w < s.len() && #[trigger] in_region(s[w], a);
        if w < s.len() - 1 {
            assert(in_region(s.drop_last()[w], a));
        }
    }
}

/// Appending one region adds exactly its coverage.
proof fn lemma_covers_push(s: Seq<Region>, x: Region, a: int)
    ensures
        covers(s.push(x), a) <==> (covers(s, a) || in_region(x, a)),
{
    assert(s.push(x).drop_last() =~= s);
    assert(s.push(x).last() == x);
    lemma_covers_drop_last(s.push(x), a);
}

/// Clipping a list against `r` removes exactly the coverage of `r`.
proof fn lemma_subtract_list_covers(s: Seq<Region>, r: Region, a: int)
    ensures
        covers(subtract_list(s, r), a) <==> (covers(s, a) && !in_region(r, a)),
    decreases s.len(),
{
    if s.len() == 0 {
        assert(!covers(subtract_list(s, r), a));
        assert(!covers(s, a));
    } else {
        lemma_subtract_list_covers(s.drop_last(), r, a);
        lemma_covers_drop_last(s, a);
        lemma_clip_covers(s.last(), r, a);
        lemma_covers_push(subtract_list(s.drop_last(), r), clip_left(s.last(), r), a);
        lemma_covers_push(
            subtract_list(s.drop_last(), r).push(clip_left(s.last(), r)),
            clip_right(s.last(), r),
            a,
        );
    }
}

/// Carving out a set of ranges removes exactly their combined coverage.
proof fn lemma_subtract_all_covers(s: Seq<Region>, rs: Seq<Region>, a: int)
    ensures
        covers(subtract_all(s, rs), a) <==> (covers(s, a) && !covers(rs, a)),
    decreases rs.len(),
{
    if rs.len() == 0 {
        assert(!covers(rs, a));
    } else {
        lemma_subtract_all_covers(s, rs.drop_last(), a);
        lemma_subtract_list_covers(subtract_all(s, rs.drop_last()), rs.last(), a);
        lemma_covers_drop_last(rs, a);
    }
}

/// Filtering empty regions keeps coverage, and what stays is non-empty and
/// drawn from the original.
proof fn lemma_filter_nonempty(s: Seq<Region>, a: int)
    ensures
        covers(filter_nonempty(s), a) <==> covers(s, a),
        forall|j: int|
            0 <= j < filter_nonempty(s).len() ==> #[trigger] filter_nonempty(s)[j].start
                < filter_nonempty(s)[j].end,
    decreases s.len(),
{
    if s.len() > 0 {
        lemma_filter_nonempty(s.drop_last(), a);
        lemma_covers_drop_last(s, a);
        if s.last().start < s.last().end {
            lemma_covers_push(filter_nonempty(s.drop_last()), s.last(), a);
            assert forall|j: int|
                0 <= j < filter_nonempty(s).len() implies #[trigger] filter_nonempty(s)[j].start
                < filter_nonempty(s)[j].end by {
                if j < filter_nonempty(s).len() - 1 {
                    assert(filter_nonempty(s)[j] == filter_nonempty(s.drop_last())[j]);
                }
            }
        } else {
            assert(!in_region(s.last(), a));
        }
    }
}

/// Counting multiplicities: exchanging two entries keeps the multiset.
proof fn lemma_swap_to_multiset(s1: Seq<Region>, s2: Seq<Region>, p: int, q: int)
    requires
        0 <= p < q < s1.len(),
        s2 =~= s1.update(p, s1[q]).update(q, s1[p]),
    ensures
        s2.to_multiset() == s1.to_multiset(),
{
    broadcast use vstd::seq_lib::group_seq_properties;

    let mid = s1.update(p, s1[q]);
    lemma_update_to_multiset(s1, p, s1[q]);
    lemma_update_to_multiset(mid, q, s1[p]);
    assert(mid[q] == s1[q]);
    let m1 = s1.to_multiset();
    s1.to_multiset_ensures();
    assert(s1.contains(s1[p]));
    assert(m1.count(s1[p]) > 0);
    assert(mid.to_multiset() == m1.remove(s1[p]).insert(s1[q]));
    assert(s2.to_multiset() == mid.to_multiset().remove(mid[q]).insert(s1[p]));
    assert(s2.to_multiset() =~= m1);
}

/// Updating one slot swaps the old element out of the multiset for the new
/// one.
proof fn lemma_update_to_multiset(s: Seq<Region>, i: int, v: Region)
    requires
        0 <= i < s.len(),
    ensures
        s.update(i, v).to_multiset() == s.to_multiset().remove(s[i]).insert(v),
{
    broadcast use vstd::multiset::group_multiset_axioms;

    let u = s.update(i, v);
    s.to_multiset_ensures();
    u.to_multiset_ensures();
    assert(u.remove(i) =~= s.remove(i));
    assert(u.remove(i).to_multiset() == u.to_multiset().remove(u[i]));
    assert(s.remove(i).to_multiset() == s.to_multiset().remove(s[i]));
    assert(u[i] == v);
    assert(u.contains(v));
    assert(u.to_multiset().count(v) > 0);
    assert(u.to_multiset() =~= s.to_multiset().remove(s[i]).insert(v));
}

/// Sequences with equal multisets cover the same addresses.
proof fn lemma_multiset_covers(s1: Seq<Region>, s2: Seq<Region>, a: int)
    requires
        s1.to_multiset() == s2.to_multiset(),
    ensures
        covers(s1, a) <==> covers(s2, a),
{
    s1.to_multiset_ensures();
    s2.to_multiset_ensures();
    if covers(s1, a) {
        let w = choose|w: int| 0 <= w < s1.len() && #[trigger] in_region(s1[w], a);
        assert(s1.contains(s1[w]));
        assert(s2.to_multiset().count(s1[w]) > 0);
        assert(s2.contains(s1[w]));
        let v = choose|v: int| 0 <= v < s2.len() && s2[v] == s1[w];
        assert(in_region(s2[v], a));
    }
    if covers(s2, a) {
        let w = choose|w: int| 0 <= w < s2.len() && #[trigger] in_region(s2[w], a);
        assert(s2.contains(s2[w]));
        assert(s1.to_multiset().count(s2[w]) > 0);
        assert(s1.contains(s2[w]));
        let v = choose|v: int| 0 <= v < s1.len() && s1[v] == s2[w];
        assert(in_region(s1[v], a));
    }
}

/// Equal multisets: every element of one list appears in the other, so
/// non-emptiness of all entries carries over.
proof fn lemma_multiset_nonempty(s1: Seq<Region>, s2: Seq<Region>)
    requires
        s1.to_multiset() == s2.to_multiset(),
        forall|j: int| 0 <= j < s1.len() ==> #[trigger] s1[j].start < s1[j].end,
    ensures
        forall|j: int| 0 <= j < s2.len() ==> #[trigger] s2[j].start < s2[j].end,
{
    s1.to_multiset_ensures();
    s2.to_multiset_ensures();
    assert forall|j: int| 0 <= j < s2.len() implies #[trigger] s2[j].start < s2[j].end by {
        assert(s2.contains(s2[j]));
        assert(s1.to_multiset().count(s2[j]) > 0);
        assert(s1.contains(s2[j]));
        let v = choose|v: int| 0 <= v < s1.len() && s1[v] == s2[j];
    }
}

impl MemoryMap {
    pub open spec fn view(self) -> Seq<Region> {
        self.entries@
    }

    /// Remove every reserved range from the free map, drop entries that
    /// became empty, and sort what is left by start address.
    pub fn remove_reserved(&mut self, reserved: &Vec<Region>)
        ensures
            forall|a: int|
                covers(final(self)@, a) <==> (covers(old(self)@, a) && !covers(reserved@, a)),
            sorted_by_start(final(self)@),
            forall|i: int|
                0 <= i < final(self)@.len() ==> #[trigger] final(self)@[i].start < final(self)@[i].end,
    {
        let ghost orig = self@;
        let mut k: usize = 0;
        while k < reserved.len()
            invariant
                k <= reserved.len(),
                self@ == subtract_all(orig, reserved@.take(k as int)),
            decreases reserved.len() - k,
        {
            let r = reserved[k];
            let ghost prev = self@;
            let mut out: Vec<Region> = Vec::new();
            let mut i: usize = 0;
            while i < self.entries.len()
                invariant
                    i <= self.entries.len(),
                    self@ == prev,
                    out@ == subtract_list(prev.take(i as int), r),
                decreases self.entries.len() - i,
            {
                let e = self.entries[i];
                let (left, right) = resolve_overlaps(e, r);
                out.push(left);
                out.push(right);
                proof {
                    let t = prev.take(i + 1);
                    assert(t.drop_last() =~= prev.take(i as int));
                    assert(t.last() == prev[i as int]);
                    assert(subtract_list(t, r) == subtract_list(prev.take(i as int), r).push(
                        clip_left(e, r),
                    ).push(clip_right(e, r)));
                }
                i += 1;
            }
            proof {
                assert(prev.take(prev.len() as int) =~= prev);
                let tk = reserved@.take(k + 1);
                assert(tk.drop_last() =~= reserved@.take(k as int));
                assert(tk.last() == reserved@[k as int]);
            }
            self.entries = out;
            k += 1;
        }
        proof {
            assert(reserved@.take(reserved@.len() as int) =~= reserved@);
        }
        let ghost subtracted = self@;
        self.cleanup_empty_ranges();
        let ghost cleaned = self@;
        self.sort_ranges();
        proof {
            assert forall|a: int|
                covers(self@, a) <==> (covers(orig, a) && !covers(reserved@, a)) by {
                lemma_multiset_covers(cleaned, self@, a);
                lemma_filter_nonempty(subtracted, a);
                lemma_subtract_all_covers(orig, reserved@, a);
            }
            lemma_filter_nonempty(subtracted, 0);
            lemma_multiset_nonempty(cleaned, self@);
        }
    }

    /// Drop regions that contain no byte.
    fn cleanup_empty_ranges(&mut self)
        ensures
            final(self)@ == filter_nonempty(old(self)@),
    {
        let ghost prev = self@;
        let mut out: Vec<Region> = Vec::new();
        let mut i: usize = 0;
        while i < self.entries.len()
            invariant
                i <= self.entries.len(),
                self@ == prev,
                out@ == filter_nonempty(prev.take(i as int)),
            decreases self.entries.len() - i,
        {
            let e = self.entries[i];
            if e.start < e.end {
                out.push(e);
            }
            proof {
                let t = prev.take(i + 1);
                assert(t.drop_last() =~= prev.take(i as int));
                assert(t.last() == prev[i as int]);
            }
            i += 1;
        }
        proof {
            assert(prev.take(prev.len() as int) =~= prev);
        }
        self.entries = out;
    }

    /// Insertion sort by region start; the entries are permuted in place.
    fn sort_ranges(&mut self)
        ensures
            sorted_by_start(final(self)@),
            final(self)@.to_multiset() == old(self)@.to_multiset(),
            final(self)@.len() == old(self)@.len(),
    {
        let ghost orig = self@;
        let n = self.entries.len();
        if n == 0 {
            return ;
        }
        proof {
            orig.to_multiset_ensures();
            self@.to_multiset_ensures();
        }
        let mut i: usize = 1;
        while i < n
            invariant
                n == self@.len() == orig.len(),
                1 <= i <= n,
                self@.to_multiset() == orig.to_multiset(),
                sorted_by_start(self@.take(i as int)),
            decreases n - i,
        {
            let mut j: usize = i;
            proof {
                assert forall|p: int, q: int|
                    0 <= p <= q <= i && p != i && q != i implies #[trigger] self@[p].start
                    <= #[trigger] self@[q].start by {
                    assert(self@.take(i as int)[p] == self@[p]);
                    assert(self@.take(i as int)[q] == self@[q]);
                }
            }
            while j > 0 && self.entries[j - 1].start > self.entries[j].start
                invariant
                    n == self@.len() == orig.len(),
                    j <= i < n,
                    self@.to_multiset() == orig.to_multiset(),
                    forall|p: int, q: int|
                        0 <= p <= q <= i && p != j && q != j ==> #[trigger] self@[p].start
                            <= #[trigger] self@[q].start,
                    forall|q: int| j < q <= i ==> #[trigger] self@[q].start >= self@[j as int].start,
                decreases j,
            {
                let lo = self.entries[j - 1];
                let hi = self.entries[j];
                let ghost before = self@;
                self.entries[j - 1] = hi;
                self.entries[j] = lo;
                proof {
                    assert(self@ =~= before.update(j - 1, hi).update(j as int, lo));
                    lemma_swap_to_multiset(before, self@, j - 1, j as int);
                    assert forall|p: int, q: int|
                        0 <= p <= q <= i && p != j - 1 && q != j - 1 implies #[trigger] self@[
                            p
                        ].start <= #[trigger] self@[q].start by {
                        if p != j && q != j {
                            assert(before[p] == self@[p]);
                            assert(before[q] == self@[q]);
                        } else if q == j {
                            assert(self@[q] == before[j - 1]);
                            if p != j {
                                assert(before[p] == self@[p]);
                            }
                        } else {
                            assert(self@[p] == before[j - 1]);
                            assert(before[q] == self@[q]);
                        }
                    }
                    assert(self@[j - 1] == before[j as int]);
                    assert forall|q: int| j - 1 < q <= i implies #[trigger] self@[q].start
                        >= self@[j - 1].start by {
                        if q == j {
                            assert(self@[j as int] == before[j - 1]);
                        } else {
                            assert(self@[q] == before[q]);
                        }
                    }
                }
                j -= 1;
            }
            proof {
                assert forall|p: int, q: int| 0 <= p <= q <= i implies #[trigger] self@[p].start
                    <= #[trigger] self@[q].start by {
                    if p == q {
                    } else if q == j {
                        assert(p < j);
                        assert(self@[j - 1].start <= self@[j as int].start);
                        if p != j - 1 {
                            assert(self@[p].start <= self@[j - 1].start);
                        }
                    } else if p == j {
                        assert(self@[q].start >= self@[j as int].start);
                    }
                }
                assert forall|p: int, q: int|
                    0 <= p <= q < i + 1 implies #[trigger] self@.take(i + 1)[p].start
                    <= #[trigger] self@.take(i + 1)[q].start by {
                    assert(self@.take(i + 1)[p] == self@[p]);
                    assert(self@.take(i + 1)[q] == self@[q]);
                }
            }
            i += 1;
        }
        proof {
            assert(self@.take(n as int) =~= self@);
        }
    }
}

/// Clip `e` against the reserved range `r`: the two returned regions cover
/// exactly the bytes of `e` outside `r`.
pub fn resolve_overlaps(e: Region, r: Region) -> (pieces: (Region, Region))
    ensures
        pieces.0 == clip_left(e, r),
        pieces.1 == clip_right(e, r),
        forall|a: int| #![auto]
            (in_region(pieces.0, a) || in_region(pieces.1, a)) <==> (in_region(e, a)
                && !in_region(r, a)),
{
    let left_end = if r.start < e.end {
        r.start
    } else {
        e.end
    };
    let right_start = if r.end > e.start {
        r.end
    } else {
        e.start
    };
    (Region { start: e.start, end: left_end }, Region { start: right_start, end: e.end })
}

/// The reserved physical ranges that must never be handed out as free
/// memory: the first page, the legacy I/O hole, the framebuffer, and every
/// loaded kernel section.
pub fn reserved_ranges(fb: &FramebufferInfo, sections: &SectionInfo) -> (r: Vec<Region>)
    requires
        fb.addr + fb.height as u64 * fb.pitch as u64 <= u64::MAX,
    ensures
        r@.len() == 3 + sections.shdrs@.len(),
        r@[0] == (Region { start: 0, end: 0x1000 }),
        r@[1] == (Region { start: 0xa0000, end: 0x100000 }),
        r@[2] == (Region {
            start: fb.addr,
            end: (fb.addr + fb.height as u64 * fb.pitch as u64) as u64,
        }),
        forall|i: int|
            0 <= i < sections.shdrs@.len() ==> r@[3 + i] == section_range(sections.shdrs@[i]),
{
    let mut out: Vec<Region> = Vec::new();
    out.push(Region { start: 0, end: 0x1000 });
    out.push(Region { start: 0xa0000, end: 0x100000 });
    let fb_size = fb.height as u64 * fb.pitch as u64;
    out.push(Region { start: fb.addr, end: fb.addr + fb_size });
    let mut i: usize = 0;
    while i < sections.shdrs.len()
        invariant
            i <= sections.shdrs@.len(),
            out@.len() == 3 + i,
            out@[0] == (Region { start: 0, end: 0x1000 }),
            out@[1] == (Region { start: 0xa0000, end: 0x100000 }),
            out@[2] == (Region {
                start: fb.addr,
                end: (fb.addr + fb.height as u64 * fb.pitch as u64) as u64,
            }),
            forall|j: int| 0 <= j < i ==> out@[3 + j] == section_range(sections.shdrs@[j]),
        decreases sections.shdrs@.len() - i,
    {
        let shdr = sections.shdrs[i];
        let start = if shdr.sh_addr > KERNEL_BASE {
            shdr.sh_addr - KERNEL_BASE
        } else {
            shdr.sh_addr
        };
        let end = if shdr.sh_size <= u64::MAX - start {
            start + shdr.sh_size
        } else {
            u64::MAX
        };
        out.push(Region { start, end });
        i += 1;
    }
    out
}

/// The physical byte range occupied by a kernel section: its address with
/// the higher-half base stripped, saturating at the top of the address space.
pub open spec fn section_range(shdr: Elf64Shdr) -> Region {
    let start = if shdr.sh_addr > KERNEL_BASE {
        (shdr.sh_addr - KERNEL_BASE) as u64
    } else {
        shdr.sh_addr
    };
    let end = if shdr.sh_size <= u64::MAX - start {
        (start + shdr.sh_size) as u64
    } else {
        u64::MAX
    };
    Region { start, end }
}

/// Remove from the free map every range the kernel must keep: see
/// `reserved_ranges`.
pub fn remove_reserved_areas(info: &mut BootloaderInfo)
    requires
        old(info).section_headers.is_some(),
        old(info).framebuffer.addr + old(info).framebuffer.height as u64
            * old(info).framebuffer.pitch as u64 <= u64::MAX,
    ensures
        final(info).framebuffer == old(info).framebuffer,
        sorted_by_start(final(info).free_areas@),
        forall|i: int|
            0 <= i < final(info).free_areas@.len() ==> #[trigger] final(info).free_areas@[i].start < final(info).free_areas@[i].end,
{
    let fb = info.framebuffer;
    let reserved = match &info.section_headers {
        Some(sections) => reserved_ranges(&fb, sections),
        None => Vec::new(),
    };
    info.free_areas.remove_reserved(&reserved);
}

} // verus!
