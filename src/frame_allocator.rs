//! Physical frames and the allocator that hands them out.

use vstd::prelude::*;

use crate::config::PAGE_SIZE;

verus! {

/// Ownership of one physical frame: its page number and its bytes.
pub struct FrameTracker {
    pub ppn: usize,
    pub bytes: Vec<u8>,
}

impl FrameTracker {
    /// A frame over physical page `ppn`, filled with zeros.
    pub fn new(ppn: usize) -> (r: FrameTracker)
        ensures
            r.ppn == ppn,
            r.bytes@ == Seq::new(PAGE_SIZE as nat, |i: int| 0u8),
    {
        let bytes = vec![0u8; PAGE_SIZE];
        assert(bytes@ =~= Seq::new(PAGE_SIZE as nat, |i: int| 0u8));
        FrameTracker { ppn, bytes }
    }
}

/// Hands out the physical pages `[start, end)`: fresh ones in increasing
/// order, and the released ones again, the latest released first.
pub struct FrameAllocator {
    current: usize,
    end: usize,
    recycled: Vec<usize>,
}

impl FrameAllocator {
    /// The allocator's own invariant.
    pub closed spec fn wf(&self) -> bool {
        &&& self.current <= self.end
        &&& forall|i: int| 0 <= i < self.recycled@.len() ==> #[trigger] self.recycled@[i] < self.current
        &&& self.recycled@.no_duplicates()
    }

    /// The pages that can be handed out.
    pub closed spec fn free_set(&self) -> Set<usize> {
        Set::new(|p: usize| (self.current <= p && p < self.end) || self.recycled@.contains(p))
    }

    /// The pages that were handed out and not released since.
    pub closed spec fn is_allocated(&self, p: usize) -> bool {
        p < self.current && !self.recycled@.contains(p)
    }

    /// How many pages can still be handed out.
    pub closed spec fn free_count_spec(&self) -> nat {
        (self.end - self.current) as nat + self.recycled@.len()
    }

    /// A page that is handed out is not free.
    pub proof fn lemma_allocated_not_free(&self, p: usize)
        requires
            self.wf(),
            self.is_allocated(p),
        ensures
            !self.free_set().contains(p),
    {
    }

    /// An allocator over the physical pages `[start, end)`.
    pub fn new(start: usize, end: usize) -> (r: FrameAllocator)
        requires
            start <= end,
        ensures
            r.wf(),
            r.free_count_spec() == end - start,
            forall|p: usize| #[trigger] r.free_set().contains(p) <==> start <= p < end,
            forall|p: usize| #[trigger] r.is_allocated(p) <==> p < start,
    {
        FrameAllocator { current: start, end, recycled: Vec::new() }
    }

    /// Whether at least `n` pages can still be handed out.
    pub fn has_free(&self, n: usize) -> (r: bool)
        requires
            self.wf(),
        ensures
            r == (self.free_count_spec() >= n),
    {
        let fresh = self.end - self.current;
        if fresh >= n {
            true
        } else {
            self.recycled.len() >= n - fresh
        }
    }

    /// Takes one free page, zero-filled, or `None` when none is left.
    pub fn alloc_frame(&mut self) -> (r: Option<FrameTracker>)
        requires
            old(self).wf(),
        ensures
            final(self).wf(),
            match r {
                Some(f) => {
                    &&& old(self).free_set().contains(f.ppn)
                    &&& final(self).free_set() == old(self).free_set().remove(f.ppn)
                    &&& final(self).free_count_spec() + 1 == old(self).free_count_spec()
                    &&& final(self).is_allocated(f.ppn)
                    &&& f.bytes@ == Seq::new(PAGE_SIZE as nat, |i: int| 0u8)
                },
                None => {
                    &&& old(self).free_count_spec() == 0
                    &&& final(self).free_count_spec() == 0
                    &&& final(self).free_set() == old(self).free_set()
                },
            },
            forall|p: usize| old(self).is_allocated(p) ==> #[trigger] final(self).is_allocated(p),
    {
        if let Some(ppn) = self.recycled.pop() {
            proof {
                let s = old(self).recycled@;
                assert(s == self.recycled@.push(ppn));
                assert(s[s.len() - 1] == ppn);
                assert forall|q: usize| self.recycled@.contains(q) implies s.contains(q) && q != ppn by {
                    let k = choose|k: int| 0 <= k < self.recycled@.len() && self.recycled@[k] == q;
                    assert(s[k] == q);
                };
                assert forall|q: usize| s.contains(q) && q != ppn implies self.recycled@.contains(q) by {
                    let k = choose|k: int| 0 <= k < s.len() && s[k] == q;
                    if k == s.len() - 1 {
                    } else {
                        assert(self.recycled@[k] == q);
                    }
                };
                assert(self.free_set() =~= old(self).free_set().remove(ppn));
                assert(ppn < self.current);
                assert(!self.recycled@.contains(ppn));
                assert(s.contains(ppn));
                assert forall|i: int, j: int|
                    0 <= i < self.recycled@.len() && 0 <= j < self.recycled@.len() && i != j
                        implies self.recycled@[i] != self.recycled@[j] by {
                    assert(s[i] == self.recycled@[i] && s[j] == self.recycled@[j]);
                };
                assert forall|i: int| 0 <= i < self.recycled@.len() implies #[trigger] self.recycled@[i]
                    < self.current by {
                    assert(s[i] == self.recycled@[i]);
                };
            }
            Some(FrameTracker::new(ppn))
        } else if self.current == self.end {
            assert(self.recycled@ =~= old(self).recycled@);
            assert(self.free_set() =~= old(self).free_set());
            None
        } else {
            let ppn = self.current;
            self.current = self.current + 1;
            assert(self.free_set() =~= old(self).free_set().remove(ppn));
            Some(FrameTracker::new(ppn))
        }
    }

    /// Gives a page back, so that a later `alloc_frame` can hand it out again.
    pub fn dealloc_frame(&mut self, frame: FrameTracker)
        requires
            old(self).wf(),
            old(self).is_allocated(frame.ppn),
        ensures
            final(self).wf(),
            final(self).free_set() == old(self).free_set().insert(frame.ppn),
            final(self).free_count_spec() == old(self).free_count_spec() + 1,
            !final(self).is_allocated(frame.ppn),
            forall|p: usize|
                p != frame.ppn ==> (#[trigger] final(self).is_allocated(p) == old(self).is_allocated(p)),
    {
        let ppn = frame.ppn;
        self.recycled.push(ppn);
        proof {
            let s = old(self).recycled@;
            assert(self.recycled@ == s.push(ppn));
            assert(self.recycled@[s.len() as int] == ppn);
            assert forall|q: usize| self.recycled@.contains(q) <==> (s.contains(q) || q == ppn) by {
                if self.recycled@.contains(q) {
                    let k = choose|k: int| 0 <= k < self.recycled@.len() && self.recycled@[k] == q;
                    if k < s.len() {
                        assert(s[k] == q);
                    }
                }
                if s.contains(q) {
                    let k = choose|k: int| 0 <= k < s.len() && s[k] == q;
                    assert(self.recycled@[k] == q);
                }
            };
            assert(self.free_set() =~= old(self).free_set().insert(ppn));
        }
    }
}

} // verus!
