//! A fixed-capacity vector with a round-robin cursor: the scheduler's ring
//! of processes.  The capacity is chosen at construction (the kernel sizes
//! it to one page of process records) and `push_back` refuses to grow past
//! it.

use vstd::prelude::*;

verus! {

pub struct SmallVec<T> {
    items: Vec<T>,
    cap: usize,
    view_idx: usize,
}

impl<T> SmallVec<T> {
    /// The stored elements, oldest first.
    pub closed spec fn view(self) -> Seq<T> {
        self.items@
    }

    /// The round-robin cursor.
    pub closed spec fn cursor(self) -> int {
        self.view_idx as int
    }

    pub open spec fn capacity(self) -> int {
        self.spec_cap()
    }

    pub closed spec fn spec_cap(self) -> int {
        self.cap as int
    }

    pub open spec fn wf(self) -> bool {
        self@.len() <= self.capacity() && (self.cursor() == 0 || self.cursor() < self@.len())
    }

    /// An empty ring that can hold `cap` elements.
    pub fn new(cap: usize) -> (r: Self)
        ensures
            r.wf(),
            r@ =~= Seq::<T>::empty(),
            r.cursor() == 0,
            r.capacity() == cap,
    {
        SmallVec { items: Vec::new(), cap, view_idx: 0 }
    }

    pub fn len(&self) -> (r: usize)
        ensures
            r == self@.len(),
    {
        self.items.len()
    }

    /// Append an element; the ring must not be full.
    pub fn push_back(&mut self, item: T)
        requires
            old(self).wf(),
            old(self)@.len() < old(self).capacity(),
        ensures
            final(self).wf(),
            final(self)@ == old(self)@.push(item),
            final(self).cursor() == old(self).cursor(),
            final(self).capacity() == old(self).capacity(),
    {
        self.items.push(item);
    }

    /// Remove and return the oldest element; the cursor slides back so it
    /// keeps pointing at the same element where possible.
    pub fn pop_front(&mut self) -> (r: Option<T>)
        requires
            old(self).wf(),
        ensures
            final(self).wf(),
            final(self).capacity() == old(self).capacity(),
            (match r {
                None => old(self)@.len() == 0 && final(self)@ == old(self)@,
                Some(_) => old(self)@.len() > 0 && final(self)@ == old(self)@.drop_first()
                    && r == Some(old(self)@[0]),
            }),
            final(self).cursor() == (if old(self).cursor() > 0 {
                old(self).cursor() - 1
            } else {
                0int
            }),
    {
        if self.items.len() == 0 {
            return None;
        }
        let e = self.items.remove(0);
        if self.view_idx > 0 {
            self.view_idx = self.view_idx - 1;
        }
        proof {
            assert(self.items@ =~= old(self).items@.drop_first());
        }
        Some(e)
    }

    /// The element under the cursor, if the ring is non-empty.
    pub fn current(&self) -> (r: Option<&T>)
        requires
            self.wf(),
        ensures
            (match r {
                None => self@.len() == 0,
                Some(e) => self@.len() > 0 && 0 <= self.cursor() < self@.len() && *e
                    == self@[self.cursor()],
            }),
    {
        if self.items.len() == 0 {
            None
        } else if self.view_idx < self.items.len() {
            Some(&self.items[self.view_idx])
        } else {
            Some(&self.items[0])
        }
    }

    /// Move the cursor.
    pub fn set_current(&mut self, new_view: usize)
        requires
            old(self).wf(),
            new_view < old(self)@.len(),
        ensures
            final(self).wf(),
            final(self)@ == old(self)@,
            final(self).capacity() == old(self).capacity(),
            final(self).cursor() == new_view,
    {
        self.view_idx = new_view;
    }

    /// The cursor as an index.
    pub fn cursor_index(&self) -> (r: usize)
        ensures
            r == self.cursor(),
    {
        self.view_idx
    }

    /// Borrow one element for update.
    pub fn get_mut(&mut self, i: usize) -> (r: &mut T)
        requires
            old(self).wf(),
            i < old(self)@.len(),
        ensures
            *r == old(self)@[i as int],
            final(self)@ == old(self)@.update(i as int, *final(r)),
            final(self).cursor() == old(self).cursor(),
            final(self).capacity() == old(self).capacity(),
            final(self).wf(),
    {
        &mut self.items[i]
    }

    /// Walk all elements once, starting at the cursor and wrapping.
    pub fn iter_round_robin(&self) -> (r: RoundRobinIterator<'_, T>)
        requires
            self.wf(),
        ensures
            r.vec == self,
            r.idx == self.cursor(),
            r.remaining == self@.len(),
    {
        RoundRobinIterator { idx: self.view_idx, remaining: self.items.len(), vec: self }
    }
}

/// Yields `(index, element)` pairs starting at the ring's cursor,
/// wrapping at the end, one full lap.
pub struct RoundRobinIterator<'a, T> {
    pub idx: usize,
    pub remaining: usize,
    pub vec: &'a SmallVec<T>,
}

impl<'a, T> RoundRobinIterator<'a, T> {
    pub open spec fn wf(self) -> bool {
        self.vec.wf() && self.remaining <= self.vec@.len() && (self.idx < self.vec@.len()
            || (self.idx == 0 && self.vec@.len() == 0))
    }

    /// The next `(index, element)` pair of the lap, or `None` when the lap
    /// is over.
    pub fn next(&mut self) -> (r: Option<(usize, &'a T)>)
        requires
            old(self).wf(),
        ensures
            final(self).wf(),
            final(self).vec == old(self).vec,
            (match r {
                None => old(self).remaining == 0 && *final(self) == *old(self),
                Some(p) => {
                    &&& old(self).remaining > 0
                    &&& p.0 == old(self).idx
                    &&& *p.1 == old(self).vec@[old(self).idx as int]
                    &&& final(self).remaining == old(self).remaining - 1
                    &&& final(self).idx == (if old(self).idx + 1 < old(self).vec@.len() {
                        old(self).idx + 1
                    } else {
                        0int
                    })
                },
            }),
    {
        if self.remaining == 0 {
            None
        } else {
            let idx = self.idx;
            let elem = &self.vec.items[idx];
            self.remaining = self.remaining - 1;
            if self.idx + 1 < self.vec.items.len() {
                self.idx = self.idx + 1;
            } else {
                self.idx = 0;
            }
            Some((idx, elem))
        }
    }
}

} // verus!
