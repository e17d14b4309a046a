//! The page-frame allocator: one metadata record per physical 4 KiB frame,
//! a freelist threaded through those records, and the byte contents of every
//! frame.
//!
//! The central invariant (`wf` together with `complete`) is the one the rest
//! of the kernel relies on: a frame's reference count is zero exactly when
//! the frame is reachable from the freelist head.  `lemma_refcount_zero_iff_reachable`
//! states it over the actual `next`-link walk.

use vstd::prelude::*;
use crate::addr::PhysAddr;
use crate::units::{PAGE_SIZE, PAGE_SIZE_LARGE, round_down, round_up};
use crate::bootinfo::{MemoryMap, Region, BootloaderInfo};
use crate::elf::Elf64Shdr;
use crate::addr::KERNEL_BASE;

verus! {

/// Bytes each frame's metadata record occupies in the flat info array.
pub const PAGE_INFO_SIZE: u64 = 16;

/// Per-frame metadata: the freelist link and the reference count.
/// `next` is meaningful only while the frame is free.
#[derive(Clone, Copy, PartialEq, Eq, Structural, Debug)]
pub struct PageInfo {
    pub next: Option<usize>,
    pub refc: u16,
}

/// The allocator: frame metadata, the freelist head, and the frames' bytes.
pub struct PageAllocator {
    pub infos: Vec<PageInfo>,
    pub free_head: Option<usize>,
    pub free_len: usize,
    pub contents: Vec<Vec<u8>>,
    /// The freelist in head-to-tail order, kept as ghost state so that the
    /// link structure can be spoken about without walking it.
    pub free_order: Ghost<Seq<int>>,
}

/// The frames reachable from `head` by following `next` links, front first.
/// `fuel` bounds the walk; a well-formed freelist is acyclic and needs at
/// most one step per frame.
pub open spec fn chain(infos: Seq<PageInfo>, head: Option<usize>, fuel: nat) -> Seq<int>
    decreases fuel,
{
    match head {
        None => Seq::empty(),
        Some(h) => if fuel == 0 || h >= infos.len() {
            Seq::empty()
        } else {
            seq![h as int] + chain(infos, infos[h as int].next, (fuel - 1) as nat)
        },
    }
}

impl PageAllocator {
    pub open spec fn num_frames(self) -> int {
        self.infos@.len() as int
    }

    pub open spec fn refc(self, f: int) -> u16 {
        self.infos@[f].refc
    }

    pub open spec fn is_free(self, f: int) -> bool {
        self.free_order@.contains(f)
    }

    pub open spec fn free_count(self) -> int {
        self.free_order@.len() as int
    }

    pub open spec fn bytes(self, f: int) -> Seq<u8> {
        self.contents@[f]@
    }

    /// The freelist as the actual link walk from the head.
    pub open spec fn reachable_free_frames(self) -> Seq<int> {
        chain(self.infos@, self.free_head, self.infos@.len())
    }

    /// Structural well-formedness: the ghost order matches the links, free
    /// frames have refcount zero, and every frame has a full page of bytes.
    pub open spec fn wf(self) -> bool {
        &&& self.contents@.len() == self.infos@.len()
        &&& self.free_len == self.free_order@.len()
        &&& forall|f: int|
            0 <= f < self.num_frames() ==> (#[trigger] self.bytes(f)).len() == PAGE_SIZE
        &&& self.free_order@.no_duplicates()
        &&& forall|j: int|
            0 <= j < self.free_order@.len() ==> 0 <= #[trigger] self.free_order@[j]
                < self.num_frames()
        &&& (match self.free_head {
            None => self.free_order@.len() == 0,
            Some(h) => self.free_order@.len() > 0 && h == self.free_order@[0],
        })
        &&& forall|j: int|
            0 <= j < self.free_order@.len() ==> (#[trigger] self.infos@[self.free_order@[j]]).next
                == (if j + 1 < self.free_order@.len() {
                Some(self.free_order@[j + 1] as usize)
            } else {
                None
            })
        &&& forall|j: int|
            0 <= j < self.free_order@.len() ==> (#[trigger] self.infos@[self.free_order@[j]]).refc
                == 0
    }

    /// Every frame with refcount zero is on the freelist.  Together with
    /// `wf` this is the refcount invariant; it holds at rest and is
    /// reestablished by every allocator round trip.
    pub open spec fn complete(self) -> bool {
        forall|f: int|
            0 <= f < self.num_frames() && (#[trigger] self.refc(f)) == 0 ==> self.is_free(f)
    }

    /// `complete`, except that frame `hole` may be allocated but not yet
    /// referenced (the state between popping a frame and installing its
    /// first reference).
    pub open spec fn complete_except(self, hole: int) -> bool {
        forall|f: int|
            0 <= f < self.num_frames() && f != hole && (#[trigger] self.refc(f)) == 0
                ==> self.is_free(f)
    }

    /// The physical address of frame `f`.
    pub fn to_physaddr(&self, f: usize) -> (r: PhysAddr)
        requires
            f < self.num_frames(),
            f * PAGE_SIZE <= u64::MAX,
        ensures
            r.0 == f * PAGE_SIZE,
    {
        PhysAddr((f as u64) * PAGE_SIZE)
    }

    /// How many frames are currently on the freelist.
    pub fn free_list_len(&self) -> (r: usize)
        requires
            self.wf(),
        ensures
            r == self.free_count(),
    {
        self.free_len
    }

    pub fn frame_count(&self) -> (r: usize)
        ensures
            r == self.num_frames(),
    {
        self.infos.len()
    }

    pub fn refcount(&self, f: usize) -> (r: u16)
        requires
            f < self.num_frames(),
        ensures
            r == self.refc(f as int),
    {
        self.infos[f].refc
    }

    pub fn read_byte(&self, f: usize, off: usize) -> (r: u8)
        requires
            self.wf(),
            f < self.num_frames(),
            off < PAGE_SIZE,
        ensures
            r == self.bytes(f as int)[off as int],
    {
        proof {
            assert(self.bytes(f as int).len() == PAGE_SIZE);
        }
        self.contents[f][off]
    }

    pub fn write_byte(&mut self, f: usize, off: usize, val: u8)
        requires
            old(self).wf(),
            f < old(self).num_frames(),
            off < PAGE_SIZE,
        ensures
            final(self).wf(),
            final(self).num_frames() == old(self).num_frames(),
            final(self).free_head == old(self).free_head,
            final(self).free_order == old(self).free_order,
            final(self).infos@ == old(self).infos@,
            final(self).bytes(f as int) == old(self).bytes(f as int).update(off as int, val),
            forall|g: int|
                0 <= g < final(self).num_frames() && g != f ==> #[trigger] final(self).bytes(g) == old(self).bytes(g),
    {
        proof {
            assert(old(self).bytes(f as int).len() == PAGE_SIZE);
        }
        let page = &mut self.contents[f];
        page[off] = val;
        proof {
            assert(self.contents@ =~= old(self).contents@.update(
                f as int,
                self.contents@[f as int],
            ));
            assert forall|g: int|
                0 <= g < self.num_frames() implies (#[trigger] self.bytes(g)).len()
                == PAGE_SIZE by {
                assert(old(self).bytes(g).len() == PAGE_SIZE);
            }
        }
    }

    /// Pop the freelist head.  The returned frame keeps refcount zero until
    /// the caller installs its first reference; its bytes are zeroed.
    pub fn alloc_page(&mut self) -> (r: usize)
        requires
            old(self).wf(),
            old(self).free_count() > 0,
        ensures
            final(self).wf(),
            final(self).num_frames() == old(self).num_frames(),
            r < final(self).num_frames(),
            old(self).is_free(r as int),
            !final(self).is_free(r as int),
            final(self).refc(r as int) == 0,
            final(self).infos@[r as int].next is None,
            final(self).free_order@ == old(self).free_order@.drop_first(),
            final(self).free_count() == old(self).free_count() - 1,
            final(self).bytes(r as int) == Seq::new(PAGE_SIZE as nat, |j: int| 0u8),
            forall|f: int|
                0 <= f < final(self).num_frames() && f != r ==> #[trigger] final(self).refc(f) == old(self).refc(
                    f,
                ),
            forall|f: int|
                0 <= f < final(self).num_frames() && f != r ==> (#[trigger] final(self).is_free(f) == old(self).is_free(f)),
            forall|f: int|
                0 <= f < final(self).num_frames() && f != r ==> #[trigger] final(self).bytes(f) == old(self).bytes(f),
    {
        let h = match self.free_head {
            Some(h) => h,
            None => {
                proof {
                    assert(false);
                }
                0
            },
        };
        proof {
            assert(self.free_order@[0] == h);
            assert(self.free_order@.contains(h as int));
        }
        let next = self.infos[h].next;
        self.free_head = next;
        self.free_len = self.free_len - 1;
        let info = &mut self.infos[h];
        info.next = None;
        let mut zeroed: Vec<u8> = Vec::new();
        let mut j: usize = 0;
        while j < PAGE_SIZE as usize
            invariant
                j <= PAGE_SIZE,
                zeroed@ =~= Seq::new(j as nat, |m: int| 0u8),
            decreases PAGE_SIZE - j,
        {
            zeroed.push(0u8);
            proof {
                assert(zeroed@ =~= Seq::new((j + 1) as nat, |m: int| 0u8));
            }
            j += 1;
        }
        self.contents[h] = zeroed;
        proof {
            let prev = old(self).free_order@;
            let oldinfos = old(self).infos@;
            assert(old(self).infos.len() == oldinfos.len());
            self.free_order@ = prev.drop_first();
            let rest = self.free_order@;
            assert(self.infos@ =~= oldinfos.update(h as int, self.infos@[h as int]));
            assert(self.infos@[h as int].refc == oldinfos[h as int].refc);
            assert(prev[0] == h);
            assert forall|w: int| 0 <= w < rest.len() implies #[trigger] rest[w] == prev[w + 1] by {}
            assert forall|f: int| #[trigger] rest.contains(f) implies prev.contains(f) && f != h by {
                let w = choose|w: int| 0 <= w < rest.len() && rest[w] == f;
                assert(prev[w + 1] == f);
                if f == h {
                    assert(prev[w + 1] == prev[0]);
                }
            }
            assert forall|f: int|
                0 <= f < self.num_frames() && f != h implies (self.is_free(f) == old(self).is_free(f)) by {
                if old(self).is_free(f) {
                    let w = choose|w: int| 0 <= w < prev.len() && prev[w] == f;
                    assert(prev[w] == f && w != 0);
                    assert(rest[w - 1] == f);
                }
            }
            assert(rest.no_duplicates()) by {
                assert forall|i: int, j: int|
                    0 <= i < rest.len() && 0 <= j < rest.len() && i != j implies rest[i]
                    != rest[j] by {
                    assert(rest[i] == prev[i + 1]);
                    assert(rest[j] == prev[j + 1]);
                }
            }
            assert(oldinfos[h as int].next == (if 1 < prev.len() {
                Some(prev[1] as usize)
            } else {
                None
            }));
            assert(self.wf()) by {
                assert(match self.free_head {
                    None => rest.len() == 0,
                    Some(h2) => rest.len() > 0 && h2 == rest[0],
                });
                assert forall|j: int| 0 <= j < rest.len() implies self.infos@[#[trigger] rest[j]].next
                    == (if j + 1 < rest.len() {
                    Some(rest[j + 1] as usize)
                } else {
                    None
                }) by {
                    assert(rest[j] == prev[j + 1]);
                    assert(rest.contains(rest[j]));
                    assert(rest[j] != h);
                    assert(self.infos@[rest[j]] == oldinfos[rest[j]]);
                    assert(oldinfos[prev[j + 1]].next == (if j + 2 < prev.len() {
                        Some(prev[j + 2] as usize)
                    } else {
                        None
                    }));
                    if j + 1 < rest.len() {
                        assert(rest[j + 1] == prev[j + 2]);
                    }
                }
                assert forall|j: int| 0 <= j < rest.len() implies self.infos@[#[trigger] rest[j]].refc
                    == 0 by {
                    assert(rest[j] == prev[j + 1]);
                    assert(rest[j] != h);
                    assert(self.infos@[rest[j]] == oldinfos[rest[j]]);
                }
                assert forall|f: int|
                    0 <= f < self.num_frames() implies (#[trigger] self.bytes(f)).len()
                    == PAGE_SIZE by {
                    if f != h {
                        assert(self.bytes(f) == old(self).bytes(f));
                        assert(old(self).bytes(f).len() == PAGE_SIZE);
                    }
                }
            }
            assert(self.bytes(h as int) =~= Seq::new(PAGE_SIZE as nat, |m: int| 0u8));
        }
        h
    }

    /// Push a frame whose refcount reached zero back on the freelist.
    fn free_page(&mut self, f: usize)
        requires
            old(self).wf(),
            f < old(self).num_frames(),
            old(self).refc(f as int) == 0,
            !old(self).is_free(f as int),
        ensures
            final(self).wf(),
            final(self).num_frames() == old(self).num_frames(),
            final(self).is_free(f as int),
            final(self).free_order@ == seq![f as int] + old(self).free_order@,
            final(self).free_count() == old(self).free_count() + 1,
            final(self).refc(f as int) == 0,
            forall|g: int|
                0 <= g < final(self).num_frames() && g != f ==> #[trigger] final(self).refc(g) == old(self).refc(
                    g,
                ),
            forall|g: int|
                0 <= g < final(self).num_frames() && g != f ==> (#[trigger] final(self).is_free(g) == old(self).is_free(g)),
            forall|g: int|
                0 <= g < final(self).num_frames() ==> #[trigger] final(self).bytes(g) == old(self).bytes(g),
    {
        let head = self.free_head;
        let info = &mut self.infos[f];
        info.next = head;
        self.free_head = Some(f);
        proof {
            assert(self.infos.len() == self.infos@.len());
            let pushed = self.free_order@.push(f as int);
            assert(pushed.no_duplicates()) by {
                assert forall|i: int, j: int|
                    0 <= i < pushed.len() && 0 <= j < pushed.len() && i != j implies pushed[i]
                    != pushed[j] by {
                    if i < pushed.len() - 1 && j < pushed.len() - 1 {
                    } else if i == pushed.len() - 1 {
                        if pushed[j] == f {
                            assert(self.free_order@.contains(f as int));
                        }
                    } else {
                        if pushed[i] == f {
                            assert(self.free_order@.contains(f as int));
                        }
                    }
                }
            }
            assert forall|j: int| 0 <= j < pushed.len() implies 0 <= #[trigger] pushed[j]
                < self.num_frames() by {}
            lemma_distinct_bounded_len(pushed, self.num_frames());
        }
        self.free_len = self.free_len + 1;
        proof {
            let prev = old(self).free_order@;
            let oldinfos = old(self).infos@;
            assert(old(self).infos.len() == oldinfos.len());
            self.free_order@ = seq![f as int] + prev;
            let cur = self.free_order@;
            assert(self.infos@ =~= oldinfos.update(f as int, self.infos@[f as int]));
            assert(self.infos@[f as int].refc == oldinfos[f as int].refc);
            assert(cur[0] == f);
            assert forall|w: int| 0 <= w < prev.len() implies #[trigger] cur[w + 1] == prev[w] by {}
            assert forall|g: int| #[trigger] cur.contains(g) implies g == f || prev.contains(g) by {
                let w = choose|w: int| 0 <= w < cur.len() && cur[w] == g;
                if w > 0 {
                    assert(prev[w - 1] == g);
                }
            }
            assert forall|g: int| prev.contains(g) implies #[trigger] cur.contains(g) by {
                let w = choose|w: int| 0 <= w < prev.len() && prev[w] == g;
                assert(cur[w + 1] == g);
            }
            assert(cur.contains(f as int));
            assert forall|j: int| 0 <= j < prev.len() implies #[trigger] prev[j] != f by {
                if prev[j] == f {
                    assert(prev.contains(f as int));
                }
            }
            assert(cur.no_duplicates()) by {
                assert forall|i: int, j: int|
                    0 <= i < cur.len() && 0 <= j < cur.len() && i != j implies cur[i] != cur[j] by {
                    if i > 0 && j > 0 {
                        assert(cur[i] == prev[i - 1]);
                        assert(cur[j] == prev[j - 1]);
                    } else if i == 0 {
                        assert(cur[j] == prev[j - 1]);
                    } else {
                        assert(cur[i] == prev[i - 1]);
                    }
                }
            }
            assert(self.wf()) by {
                assert forall|j: int| 0 <= j < cur.len() implies self.infos@[#[trigger] cur[j]].next
                    == (if j + 1 < cur.len() {
                    Some(cur[j + 1] as usize)
                } else {
                    None
                }) by {
                    if j == 0 {
                        assert(self.infos@[f as int].next == head);
                        if prev.len() > 0 {
                            assert(cur[1] == prev[0]);
                        }
                    } else {
                        assert(cur[j] == prev[j - 1]);
                        assert(prev[j - 1] != f);
                        assert(self.infos@[cur[j]] == oldinfos[cur[j]]);
                        assert(oldinfos[prev[j - 1]].next == (if j < prev.len() {
                            Some(prev[j] as usize)
                        } else {
                            None
                        }));
                        if j + 1 < cur.len() {
                            assert(cur[j + 1] == prev[j]);
                        }
                    }
                }
                assert forall|j: int| 0 <= j < cur.len() implies self.infos@[#[trigger] cur[j]].refc
                    == 0 by {
                    if j == 0 {
                        assert(self.infos@[f as int].refc == oldinfos[f as int].refc);
                    } else {
                        assert(cur[j] == prev[j - 1]);
                        assert(prev[j - 1] != f);
                        assert(self.infos@[cur[j]] == oldinfos[cur[j]]);
                    }
                }
                assert forall|g: int|
                    0 <= g < self.num_frames() implies (#[trigger] self.bytes(g)).len()
                    == PAGE_SIZE by {
                    assert(old(self).bytes(g).len() == PAGE_SIZE);
                }
            }
        }
    }

    /// Count one more reference to an allocated frame.
    pub fn inc_refc(&mut self, f: usize)
        requires
            old(self).wf(),
            f < old(self).num_frames(),
            !old(self).is_free(f as int),
            old(self).refc(f as int) < 0xffff,
        ensures
            final(self).wf(),
            final(self).num_frames() == old(self).num_frames(),
            final(self).refc(f as int) == old(self).refc(f as int) + 1,
            final(self).free_order == old(self).free_order,
            final(self).free_head == old(self).free_head,
            forall|g: int|
                0 <= g < final(self).num_frames() && g != f ==> #[trigger] final(self).refc(g) == old(self).refc(
                    g,
                ),
            forall|g: int|
                0 <= g < final(self).num_frames() ==> (#[trigger] final(self).is_free(g) == old(self).is_free(
                    g,
                )),
            forall|g: int|
                0 <= g < final(self).num_frames() ==> #[trigger] final(self).bytes(g) == old(self).bytes(g),
    {
        let info = &mut self.infos[f];
        info.refc = info.refc + 1;
        proof {
            lemma_untouched_freelist(*old(self), *self, f as int);
        }
    }

    /// Drop one reference; the frame is freed when the last one goes.
    pub fn dec_refc(&mut self, f: usize)
        requires
            old(self).wf(),
            f < old(self).num_frames(),
            old(self).refc(f as int) >= 1,
        ensures
            final(self).wf(),
            final(self).num_frames() == old(self).num_frames(),
            final(self).refc(f as int) == old(self).refc(f as int) - 1,
            final(self).is_free(f as int) <==> old(self).refc(f as int) == 1,
            old(self).refc(f as int) == 1 ==> final(self).free_order@ == seq![f as int] + old(self).free_order@,
            old(self).refc(f as int) > 1 ==> final(self).free_order == old(self).free_order,
            forall|g: int|
                0 <= g < final(self).num_frames() && g != f ==> #[trigger] final(self).refc(g) == old(self).refc(
                    g,
                ),
            forall|g: int|
                0 <= g < final(self).num_frames() && g != f ==> (#[trigger] final(self).is_free(g) == old(self).is_free(g)),
            forall|g: int|
                0 <= g < final(self).num_frames() ==> #[trigger] final(self).bytes(g) == old(self).bytes(g),
    {
        proof {
            if old(self).is_free(f as int) {
                let w = choose|w: int|
                    0 <= w < old(self).free_order@.len() && old(self).free_order@[w] == f;
                assert(old(self).infos@[old(self).free_order@[w]].refc == 0);
            }
        }
        let info = &mut self.infos[f];
        info.refc = info.refc - 1;
        let now_zero = info.refc == 0;
        proof {
            lemma_untouched_freelist(*old(self), *self, f as int);
        }
        if now_zero {
            self.free_page(f);
        }
    }

    /// Drop one reference to the frame holding physical address `addr`.
    pub fn dec_page_refc(&mut self, addr: PhysAddr)
        requires
            old(self).wf(),
            addr.0 / PAGE_SIZE < old(self).num_frames(),
            old(self).refc((addr.0 / PAGE_SIZE) as int) >= 1,
        ensures
            final(self).wf(),
            final(self).num_frames() == old(self).num_frames(),
            final(self).refc((addr.0 / PAGE_SIZE) as int) == old(self).refc(
                (addr.0 / PAGE_SIZE) as int,
            ) - 1,
            final(self).is_free((addr.0 / PAGE_SIZE) as int) <==> old(self).refc(
                (addr.0 / PAGE_SIZE) as int,
            ) == 1,
            forall|g: int|
                0 <= g < final(self).num_frames() && g != addr.0 / PAGE_SIZE ==> #[trigger] final(self).refc(g)
                    == old(self).refc(g),
            forall|g: int|
                0 <= g < final(self).num_frames() && g != addr.0 / PAGE_SIZE ==> (#[trigger] final(self).is_free(
                    g,
                ) == old(self).is_free(g)),
            forall|g: int|
                0 <= g < final(self).num_frames() ==> #[trigger] final(self).bytes(g) == old(self).bytes(g),
    {
        proof {
            assert(self.infos.len() == self.infos@.len());
        }
        let idx = (addr.0 / PAGE_SIZE) as usize;
        self.dec_refc(idx);
    }
}

/// How an allocator may change across an operation that pops at most `d`
/// frames and gives each popped frame its first reference: frames that were
/// allocated stay untouched, nothing is freed, and every newly popped frame
/// ends with refcount one.
pub open spec fn alloc_evolved(pre: PageAllocator, post: PageAllocator, d: int) -> bool {
    &&& post.wf()
    &&& post.num_frames() == pre.num_frames()
    &&& post.free_count() >= pre.free_count() - d
    &&& forall|f: int|
        0 <= f < pre.num_frames() && !pre.is_free(f) ==> #[trigger] post.refc(f) == pre.refc(f)
            && !post.is_free(f)
    &&& forall|f: int|
        0 <= f < pre.num_frames() && !pre.is_free(f) ==> #[trigger] post.bytes(f) == pre.bytes(f)
    &&& forall|f: int|
        0 <= f < pre.num_frames() && pre.is_free(f) && !(#[trigger] post.is_free(f))
            ==> post.refc(f) == 1 && post.bytes(f) == Seq::new(PAGE_SIZE as nat, |j: int| 0u8)
    &&& forall|f: int| 0 <= f < pre.num_frames() && #[trigger] post.is_free(f) ==> pre.is_free(f)
}

/// A frame on the freelist has refcount zero.
pub proof fn lemma_free_refc_zero(a: PageAllocator, f: int)
    requires
        a.wf(),
        a.is_free(f),
    ensures
        a.refc(f) == 0,
{
    let j = choose|j: int| 0 <= j < a.free_order@.len() && a.free_order@[j] == f;
    assert(a.infos@[a.free_order@[j]].refc == 0);
}

/// `alloc_evolved` steps compose.
pub proof fn lemma_alloc_evolved_trans(
    a: PageAllocator,
    b: PageAllocator,
    c: PageAllocator,
    d1: int,
    d2: int,
)
    requires
        alloc_evolved(a, b, d1),
        alloc_evolved(b, c, d2),
    ensures
        alloc_evolved(a, c, d1 + d2),
{
}

/// An unchanged allocator trivially evolved.
pub proof fn lemma_alloc_evolved_refl(a: PageAllocator, d: int)
    requires
        a.wf(),
        d >= 0,
    ensures
        alloc_evolved(a, a, d),
{
}

/// Evolution preserves the refcount invariant.
pub proof fn lemma_alloc_evolved_complete(pre: PageAllocator, post: PageAllocator, d: int)
    requires
        alloc_evolved(pre, post, d),
        pre.complete(),
    ensures
        post.complete(),
{
    assert forall|f: int|
        0 <= f < post.num_frames() && (#[trigger] post.refc(f)) == 0 implies post.is_free(f) by {
        if !pre.is_free(f) {
            assert(post.refc(f) == pre.refc(f));
        }
    }
}

/// A change to the metadata of a frame that is not on the freelist leaves
/// the allocator well-formed, provided nothing else moved.
proof fn lemma_untouched_freelist(pre: PageAllocator, post: PageAllocator, f: int)
    requires
        pre.wf(),
        0 <= f < pre.num_frames(),
        !pre.is_free(f),
        post.free_order == pre.free_order,
        post.free_head == pre.free_head,
        post.contents == pre.contents,
        post.infos@ == pre.infos@.update(f, post.infos@[f]),
        post.infos@.len() == pre.infos@.len(),
        post.free_len == pre.free_len,
    ensures
        post.wf(),
{
    let order = pre.free_order@;
    assert forall|j: int| 0 <= j < order.len() implies #[trigger] order[j] != f by {
        if order[j] == f {
            assert(order.contains(f));
        }
    }
    assert forall|j: int| 0 <= j < order.len() implies post.infos@[#[trigger] order[j]]
        == pre.infos@[order[j]] by {
        assert(order[j] != f);
    }
    assert forall|g: int|
        0 <= g < post.num_frames() implies (#[trigger] post.bytes(g)).len() == PAGE_SIZE by {
        assert(pre.bytes(g).len() == PAGE_SIZE);
    }
}

/// Frame `f` lies wholly inside the page-aligned interior of some region.
pub open spec fn frame_in_free_interior(regions: Seq<Region>, f: int) -> bool {
    exists|i: int|
        0 <= i < regions.len() && round_up(regions[i].start as int, PAGE_SIZE as int) <= f
            * PAGE_SIZE && (f + 1) * PAGE_SIZE <= round_down(
            regions[i].end as int,
            PAGE_SIZE as int,
        )
}

/// Build the allocator that covers `maxpages` frames of physical memory:
/// all records start with refcount zero, and exactly the frames lying in
/// the page-aligned interior of a free region are threaded on the freelist.
#[verifier::rlimit(100)]
pub fn init(maxpages: usize, mmap: &MemoryMap) -> (r: PageAllocator)
    requires
        maxpages * PAGE_SIZE <= u64::MAX,
        forall|i: int|
            0 <= i < mmap@.len() ==> (#[trigger] mmap@[i]).end <= maxpages * PAGE_SIZE,
        forall|i: int| 0 <= i < mmap@.len() ==> (#[trigger] mmap@[i]).start + PAGE_SIZE <= u64::MAX,
    ensures
        r.wf(),
        r.num_frames() == maxpages,
        forall|f: int| 0 <= f < maxpages ==> #[trigger] r.refc(f) == 0,
        forall|f: int|
            0 <= f < maxpages ==> (#[trigger] r.is_free(f) <==> frame_in_free_interior(mmap@, f)),
{
    let mut infos: Vec<PageInfo> = Vec::new();
    let mut contents: Vec<Vec<u8>> = Vec::new();
    let mut threaded: Vec<bool> = Vec::new();
    let mut i: usize = 0;
    while i < maxpages
        invariant
            i <= maxpages,
            infos@.len() == i,
            contents@.len() == i,
            threaded@.len() == i,
            forall|f: int|
                0 <= f < i ==> #[trigger] infos@[f] == (PageInfo { next: None, refc: 0u16 }),
            forall|f: int| 0 <= f < i ==> !(#[trigger] threaded@[f]),
            forall|f: int| 0 <= f < i ==> (#[trigger] contents@[f])@.len() == PAGE_SIZE,
        decreases maxpages - i,
    {
        infos.push(PageInfo { next: None, refc: 0 });
        let mut page: Vec<u8> = Vec::new();
        let mut j: usize = 0;
        while j < PAGE_SIZE as usize
            invariant
                j <= PAGE_SIZE,
                page@.len() == j,
            decreases PAGE_SIZE - j,
        {
            page.push(0u8);
            j += 1;
        }
        contents.push(page);
        threaded.push(false);
        i += 1;
    }
    let mut a = PageAllocator {
        infos,
        contents,
        free_head: None,
        free_len: 0,
        free_order: Ghost(Seq::empty()),
    };
    let mut eidx: usize = 0;
    while eidx < mmap.entries.len()
        invariant
            a.wf(),
            a.num_frames() == maxpages,
            threaded@.len() == maxpages,
            forall|f: int| 0 <= f < maxpages ==> #[trigger] a.refc(f) == 0,
            forall|f: int| 0 <= f < maxpages ==> (#[trigger] threaded@[f] <==> a.is_free(f)),
            forall|f: int|
                0 <= f < maxpages ==> (#[trigger] a.is_free(f) <==> frame_in_free_interior(
                    mmap@.take(eidx as int),
                    f,
                )),
            eidx <= mmap@.len(),
            forall|i2: int|
                0 <= i2 < mmap@.len() ==> (#[trigger] mmap@[i2]).end <= maxpages * PAGE_SIZE,
            forall|i2: int|
                0 <= i2 < mmap@.len() ==> (#[trigger] mmap@[i2]).start + PAGE_SIZE <= u64::MAX,
        decreases mmap@.len() - eidx,
    {
        let region = mmap.entries[eidx];
        proof {
            crate::units::lemma_pow2_4096();
        }
        let pg_start = crate::units::po2_round_up(region.start, PAGE_SIZE);
        let pg_end = crate::units::po2_round_down(region.end, PAGE_SIZE);
        proof {
            crate::units::lemma_round_up_props(region.start as int, PAGE_SIZE as int);
            crate::units::lemma_round_down_props(region.end as int, PAGE_SIZE as int);
        }
        let mut pg: u64 = pg_start;
        while pg < pg_end
            invariant
                a.wf(),
                a.num_frames() == maxpages,
                threaded@.len() == maxpages,
                forall|f: int| 0 <= f < maxpages ==> #[trigger] a.refc(f) == 0,
                forall|f: int| 0 <= f < maxpages ==> (#[trigger] threaded@[f] <==> a.is_free(f)),
                pg_start == round_up(region.start as int, PAGE_SIZE as int),
                pg_end == round_down(region.end as int, PAGE_SIZE as int),
                pg % PAGE_SIZE == 0,
                pg_end % PAGE_SIZE == 0,
                pg_start <= pg,
                pg <= pg_end || pg == pg_start,
                pg_end <= maxpages * PAGE_SIZE,
                region == mmap@[eidx as int],
                eidx < mmap@.len(),
                forall|f: int|
                    0 <= f < maxpages ==> (#[trigger] a.is_free(f) <==> (frame_in_free_interior(
                        mmap@.take(eidx as int),
                        f,
                    ) || (pg_start <= f * PAGE_SIZE && (f + 1) * PAGE_SIZE <= pg))),
            decreases pg_end - pg,
        {
            let index = (pg / PAGE_SIZE) as usize;
            proof {
                crate::units::lemma_aligned_step(pg as int, pg_end as int, PAGE_SIZE as int);
                assert(pg + PAGE_SIZE <= pg_end);
                assert(index * PAGE_SIZE == pg) by (nonlinear_arith)
                    requires pg % PAGE_SIZE == 0 && index == pg / PAGE_SIZE && PAGE_SIZE > 0;
                assert(index < maxpages) by (nonlinear_arith)
                    requires
                        index * PAGE_SIZE == pg,
                        pg + PAGE_SIZE <= maxpages * PAGE_SIZE,
                        PAGE_SIZE > 0;
            }
            if !threaded[index] {
                a.free_page(index);
                threaded[index] = true;
            }
            proof {
                assert forall|f: int|
                    0 <= f < maxpages implies (a.is_free(f) <==> (frame_in_free_interior(
                    mmap@.take(eidx as int),
                    f,
                ) || (pg_start <= f * PAGE_SIZE && (f + 1) * PAGE_SIZE <= pg + PAGE_SIZE))) by {
                    if f == index {
                        assert(pg_start <= f * PAGE_SIZE && (f + 1) * PAGE_SIZE <= pg + PAGE_SIZE);
                    } else {
                        assert(f * PAGE_SIZE != pg) by (nonlinear_arith)
                            requires f != index && index * PAGE_SIZE == pg && PAGE_SIZE > 0 && f >= 0;
                        assert((pg_start <= f * PAGE_SIZE && (f + 1) * PAGE_SIZE <= pg + PAGE_SIZE)
                            == (pg_start <= f * PAGE_SIZE && (f + 1) * PAGE_SIZE <= pg));
                    }
                }
            }
            pg = pg + PAGE_SIZE;
        }
        proof {
            assert forall|f: int|
                0 <= f < maxpages implies (a.is_free(f) <==> frame_in_free_interior(
                mmap@.take(eidx + 1),
                f,
            )) by {
                let taken = mmap@.take(eidx + 1);
                assert(taken =~= mmap@.take(eidx as int) + seq![region]);
                if frame_in_free_interior(mmap@.take(eidx as int), f) {
                    let w = choose|w: int|
                        0 <= w < mmap@.take(eidx as int).len() && round_up(
                            mmap@.take(eidx as int)[w].start as int,
                            PAGE_SIZE as int,
                        ) <= f * PAGE_SIZE && (f + 1) * PAGE_SIZE <= round_down(
                            mmap@.take(eidx as int)[w].end as int,
                            PAGE_SIZE as int,
                        );
                    assert(taken[w] == mmap@.take(eidx as int)[w]);
                    assert(frame_in_free_interior(taken, f));
                }
                if pg_start <= f * PAGE_SIZE && (f + 1) * PAGE_SIZE <= pg {
                    assert(taken[eidx as int] == region);
                    assert(frame_in_free_interior(taken, f));
                }
                if frame_in_free_interior(taken, f) {
                    let w = choose|w: int|
                        0 <= w < taken.len() && round_up(taken[w].start as int, PAGE_SIZE as int)
                            <= f * PAGE_SIZE && (f + 1) * PAGE_SIZE <= round_down(
                            taken[w].end as int,
                            PAGE_SIZE as int,
                        );
                    if w < eidx {
                        assert(mmap@.take(eidx as int)[w] == taken[w]);
                        assert(frame_in_free_interior(mmap@.take(eidx as int), f));
                    }
                }
            }
        }
        eidx += 1;
    }
    proof {
        assert(mmap@.take(mmap@.len() as int) =~= mmap@);
    }
    a
}

/// Highest physical byte used by any loaded kernel section, taking the
/// higher-half link base off the addresses.
pub open spec fn spec_kernel_end(shdrs: Seq<Elf64Shdr>, n: int) -> int
    decreases n,
{
    if n <= 0 {
        0
    } else {
        let prev = spec_kernel_end(shdrs, n - 1);
        let cur = section_end(shdrs[n - 1]);
        if cur > prev {
            cur
        } else {
            prev
        }
    }
}

/// The physical end address of one section; zero for unloaded sections.
pub open spec fn section_end(s: Elf64Shdr) -> int {
    if s.sh_addr != 0 {
        let e = s.sh_addr + s.sh_size;
        if e > KERNEL_BASE {
            e - KERNEL_BASE
        } else {
            e
        }
    } else {
        0
    }
}

/// Scan the kernel's section headers for the end of the kernel image.
pub fn get_kernel_end(info: &BootloaderInfo) -> (r: u64)
    requires
        info.section_headers.is_some(),
        forall|i: int|
            0 <= i < info.section_headers->Some_0.shdrs@.len() ==> (
            #[trigger] info.section_headers->Some_0.shdrs@[i]).sh_addr
                + info.section_headers->Some_0.shdrs@[i].sh_size <= u64::MAX,
    ensures
        r == spec_kernel_end(
            info.section_headers->Some_0.shdrs@,
            info.section_headers->Some_0.shdrs@.len() as int,
        ),
{
    let mut kernel_end: u64 = 0;
    let sections = match &info.section_headers {
        Some(s) => s,
        None => {
            proof {
                assert(false);
            }
            return 0;
        },
    };
    let mut i: usize = 0;
    while i < sections.shdrs.len()
        invariant
            i <= sections.shdrs@.len(),
            kernel_end == spec_kernel_end(sections.shdrs@, i as int),
            info.section_headers == Some(*sections),
            forall|j: int|
                0 <= j < sections.shdrs@.len() ==> (#[trigger] sections.shdrs@[j]).sh_addr
                    + sections.shdrs@[j].sh_size <= u64::MAX,
        decreases sections.shdrs@.len() - i,
    {
        let shdr = sections.shdrs[i];
        if shdr.sh_addr != 0 {
            let mut end = shdr.sh_addr + shdr.sh_size;
            if end > KERNEL_BASE {
                end = end - KERNEL_BASE;
            }
            if end > kernel_end {
                kernel_end = end;
            }
        }
        i += 1;
    }
    kernel_end
}

/// Where the frame-info array will live and how much it needs: the number
/// of frames to cover, the first large-page-aligned address past the kernel
/// image, and the array's size rounded up to whole large pages.
pub fn get_pg_alloc_region(info: &BootloaderInfo) -> (r: (u64, PhysAddr, u64))
    requires
        info.section_headers.is_some(),
        forall|i: int|
            0 <= i < info.section_headers->Some_0.shdrs@.len() ==> (
            #[trigger] info.section_headers->Some_0.shdrs@[i]).sh_addr
                + info.section_headers->Some_0.shdrs@[i].sh_size <= u64::MAX,
        spec_kernel_end(
            info.section_headers->Some_0.shdrs@,
            info.section_headers->Some_0.shdrs@.len() as int,
        ) + PAGE_SIZE_LARGE <= u64::MAX,
        info.free_areas@.len() > 0,
        info.free_areas@.last().end + PAGE_SIZE <= u64::MAX,
        (info.free_areas@.last().end + PAGE_SIZE - 1) / (PAGE_SIZE as int) * PAGE_INFO_SIZE
            + PAGE_SIZE_LARGE <= u64::MAX,
    ensures
        ({
            let max_addr = info.free_areas@.last().end;
            let maxpages = (max_addr + PAGE_SIZE - 1) / (PAGE_SIZE as int);
            &&& r.0 == maxpages
            &&& r.1.0 == round_up(
                spec_kernel_end(
                    info.section_headers->Some_0.shdrs@,
                    info.section_headers->Some_0.shdrs@.len() as int,
                ),
                PAGE_SIZE_LARGE as int,
            )
            &&& r.2 == round_up(maxpages * PAGE_INFO_SIZE as int, PAGE_SIZE_LARGE as int)
        }),
{
    proof {
        crate::units::lemma_pow2_2m();
    }
    let kernel_end = get_kernel_end(info);
    let alloc_start = crate::units::po2_round_up(kernel_end, PAGE_SIZE_LARGE);
    let max_addr = info.free_areas.entries[info.free_areas.entries.len() - 1].end;
    let maxpages = (max_addr + (PAGE_SIZE - 1)) / PAGE_SIZE;
    let size_bytes = maxpages * PAGE_INFO_SIZE;
    let size_rounded = crate::units::po2_round_up(size_bytes, PAGE_SIZE_LARGE);
    (maxpages, PhysAddr(alloc_start), size_rounded)
}

/// `wf` and `complete` say of every frame that refcount zero coincides with
/// freelist membership; this law restates membership as reachability by the
/// actual `next`-link walk from the freelist head.
#[verifier::rlimit(100)]
#[verifier::spinoff_prover]
pub proof fn lemma_refcount_zero_iff_reachable(a: PageAllocator)
    requires
        a.wf(),
        a.complete(),
    ensures
        forall|f: int|
            0 <= f < a.num_frames() ==> ((#[trigger] a.refc(f)) == 0
                <==> a.reachable_free_frames().contains(f)),
{
    assert(a.infos.len() == a.infos@.len());
    lemma_distinct_bounded_len(a.free_order@, a.num_frames());
    lemma_chain_matches(a.infos@, a.free_order@, a.free_head, a.infos@.len() as nat);
    let order = a.free_order@;
    assert(a.reachable_free_frames() == order);
    assert forall|f: int|
        0 <= f < a.num_frames() implies ((a.refc(f)) == 0 <==> order.contains(f)) by {
        if a.refc(f) == 0 {
            assert(a.is_free(f));
        }
        if order.contains(f) {
            let w = choose|w: int| 0 <= w < order.len() && order[w] == f;
            assert(a.infos@[order[w]].refc == 0);
        }
    }
}

/// A duplicate-free sequence of integers drawn from `[0, n)` has at most
/// `n` elements.
proof fn lemma_distinct_bounded_len(order: Seq<int>, n: int)
    requires
        n >= 0,
        order.no_duplicates(),
        forall|j: int| 0 <= j < order.len() ==> 0 <= #[trigger] order[j] < n,
    ensures
        order.len() <= n,
{
    let s = order.to_set();
    order.unique_seq_to_set();
    assert(s.subset_of(vstd::set_lib::set_int_range(0, n))) by {
        assert forall|x: int| s.contains(x) implies vstd::set_lib::set_int_range(0, n).contains(
            x,
        ) by {
            let w = choose|w: int| 0 <= w < order.len() && order[w] == x;
        }
    }
    vstd::set_lib::lemma_int_range(0, n);
    vstd::set_lib::lemma_len_subset(s, vstd::set_lib::set_int_range(0, n));
}

/// The ghost freelist order is exactly what the link walk produces.
proof fn lemma_chain_matches(infos: Seq<PageInfo>, order: Seq<int>, head: Option<usize>, fuel: nat)
    requires
        infos.len() <= usize::MAX,
        fuel >= order.len(),
        forall|j: int| 0 <= j < order.len() ==> 0 <= #[trigger] order[j] < infos.len(),
        (match head {
            None => order.len() == 0,
            Some(h) => order.len() > 0 && h == order[0],
        }),
        forall|j: int|
            0 <= j < order.len() ==> infos[#[trigger] order[j]].next == (if j + 1 < order.len() {
                Some(order[j + 1] as usize)
            } else {
                None
            }),
    ensures
        chain(infos, head, fuel) == order,
    decreases order.len(),
{
    match head {
        None => {
            assert(chain(infos, head, fuel) =~= order);
        },
        Some(h) => {
            let rest = order.drop_first();
            let next = infos[h as int].next;
            assert(infos[order[0]].next == (if 1 < order.len() {
                Some(order[1] as usize)
            } else {
                None
            }));
            assert(order[0] == h as int);
            if order.len() == 1 {
                assert(next is None);
                assert(rest.len() == 0);
            } else {
                assert(0 <= order[1] < infos.len());
                assert(next == Some(order[1] as usize));
                assert(rest[0] == order[1]);
            }
            assert forall|j: int|
                0 <= j < rest.len() implies infos[#[trigger] rest[j]].next == (if j + 1
                < rest.len() {
                Some(rest[j + 1] as usize)
            } else {
                None
            }) by {
                assert(rest[j] == order[j + 1]);
                if j + 1 < rest.len() {
                    assert(rest[j + 1] == order[j + 2]);
                }
            }
            lemma_chain_matches(infos, rest, next, (fuel - 1) as nat);
            assert(chain(infos, head, fuel) =~= seq![h as int] + rest);
            assert(seq![h as int] + rest =~= order);
        },
    }
}

} // verus!
