//! Address spaces: a page table plus the regions of virtual pages mapped in it.

use vstd::prelude::*;

use crate::config::{
    ceil, ceil_spec, floor, floor_spec, lemma_floor_le_ceil, KERNEL_STACK_SIZE, PAGE_SIZE, TRAMPOLINE,
};
use crate::frame_allocator::{FrameAllocator, FrameTracker};
use crate::map_area::{
    areas_disjoint, is_piece, lemma_grown_disjoint, lemma_other_installed, lemma_piece_installed,
    MapArea, MapPermission, MapType, MmError,
};
use crate::page_table::{mapped_entry, PageTable, PageTableEntry};

verus! {

/// An address space: a page table and the regions mapped in it.
pub struct MemorySet {
    pub page_table: PageTable,
    pub areas: Vec<MapArea>,
}

/// What inserting `area` into `ms` gives, when `fa` hands out the frames.
/// Any mapped page of the range refuses it: a page backed by a frame, and
/// also a page mapped without one (of an identical region, or the
/// trampoline), which the page table cannot map twice; see
/// `lemma_mapped_page_kinds`. A region that maps no page, such as an empty
/// one, never refuses an insertion.
pub open spec fn push_outcome(ms: &MemorySet, fa: &FrameAllocator, area: &MapArea) -> Result<
    (),
    MmError,
> {
    if !ms.range_unmapped(area.vpn_start as int, area.vpn_end as int) {
        Err(MmError::OverlapRejected)
    } else if area.map_type == MapType::Framed && fa.free_count_spec() < area.vpn_end
        - area.vpn_start {
        Err(MmError::FrameExhausted)
    } else {
        Ok(())
    }
}

/// Region `a` is framed and covers the pages `[s, e)`.
pub open spec fn covers(a: &MapArea, s: usize, e: usize) -> bool {
    a.vpn_start <= s && e <= a.vpn_end && a.map_type == MapType::Framed
}

/// Region `i` of `ms` is the first that covers `[s, e)`.
pub open spec fn is_first_cover(ms: &MemorySet, i: int, s: usize, e: usize) -> bool {
    &&& 0 <= i < ms.areas@.len()
    &&& covers(&ms.areas@[i], s, e)
    &&& forall|j: int| 0 <= j < i ==> !covers(#[trigger] &ms.areas@[j], s, e)
}

/// The first region of `ms` that covers `[s, e)`.
pub open spec fn first_cover(ms: &MemorySet, s: usize, e: usize) -> int {
    choose|i: int| is_first_cover(ms, i, s, e)
}

/// Some region of `ms` covers `[s, e)`.
pub open spec fn has_cover(ms: &MemorySet, s: usize, e: usize) -> bool {
    exists|i: int| 0 <= i < ms.areas@.len() && covers(#[trigger] &ms.areas@[i], s, e)
}

/// The permission that `mmap` gives for the access bits `prot`: R, W and X
/// as bits 0, 1 and 2 ask, and always U.
pub open spec fn prot_permission(prot: usize) -> MapPermission {
    MapPermission { r: prot % 2 == 1, w: (prot / 2) % 2 == 1, x: (prot / 4) % 2 == 1, u: true }
}

/// What `insert_framed_area(start_va, end_va, ...)` does to an address
/// space: `old_ms` and `old_fa` before, `new_ms` and `new_fa` after, `r` its
/// result.
pub open spec fn insert_framed_result(
    old_ms: &MemorySet,
    new_ms: &MemorySet,
    old_fa: &FrameAllocator,
    new_fa: &FrameAllocator,
    start_va: usize,
    end_va: usize,
    perm: MapPermission,
    r: Result<(), MmError>,
) -> bool {
    let s = floor_spec(start_va);
    let e = ceil_spec(end_va);
    &&& r == (if !old_ms.range_unmapped(s as int, e as int) {
        Err(MmError::OverlapRejected)
    } else if old_fa.free_count_spec() < e - s {
        Err(MmError::FrameExhausted)
    } else {
        Ok(())
    })
    &&& r is Err ==> {
        &&& new_ms.areas@ == old_ms.areas@
        &&& new_ms.page_table@ == old_ms.page_table@
        &&& new_fa.free_count_spec() == old_fa.free_count_spec()
    }
    &&& r is Ok ==> {
        let n = old_ms.areas@.len();
        let a = new_ms.areas@[n as int];
        &&& new_ms.areas@.len() == n + 1
        &&& new_ms.areas@.subrange(0, n as int) == old_ms.areas@
        &&& a.vpn_start == s
        &&& a.vpn_end == e
        &&& a.map_type == MapType::Framed
        &&& a.map_perm == perm
        &&& forall|v: usize|
            #[trigger] new_ms.page_table@.contains_key(v) == (old_ms.page_table@.contains_key(v) || (
            s <= v < e))
        &&& forall|v: usize|
            #[trigger] old_ms.page_table@.contains_key(v) ==> new_ms.page_table@[v]
                == old_ms.page_table@[v]
        &&& new_fa.free_count_spec() + (e - s) == old_fa.free_count_spec()
    }
}

/// What `mmap(start, len, prot)` does to an address space.
pub open spec fn mmap_result(
    old_ms: &MemorySet,
    new_ms: &MemorySet,
    old_fa: &FrameAllocator,
    new_fa: &FrameAllocator,
    start: usize,
    len: usize,
    prot: usize,
    r: Result<(), MmError>,
) -> bool {
    if start % PAGE_SIZE != 0 {
        r == Err::<(), MmError>(MmError::AlignmentError) && new_ms.areas@ == old_ms.areas@
            && new_ms.page_table@ == old_ms.page_table@
    } else if prot == 0 || prot > 7 {
        r == Err::<(), MmError>(MmError::PermissionError) && new_ms.areas@ == old_ms.areas@
            && new_ms.page_table@ == old_ms.page_table@
    } else {
        insert_framed_result(
            old_ms,
            new_ms,
            old_fa,
            new_fa,
            start,
            (start + len) as usize,
            prot_permission(prot),
            r,
        )
    }
}

/// What `remove_framed_area(start_va, end_va)` does to an address space.
pub open spec fn remove_framed_result(
    old_ms: &MemorySet,
    new_ms: &MemorySet,
    old_fa: &FrameAllocator,
    new_fa: &FrameAllocator,
    start_va: usize,
    end_va: usize,
    r: Result<(), MmError>,
) -> bool {
    let s = floor_spec(start_va);
    let e = ceil_spec(end_va);
    &&& (r is Ok <==> has_cover(old_ms, s, e))
    &&& (r is Err ==> {
        &&& r == Err::<(), MmError>(MmError::RegionNotFound)
        &&& new_ms.areas@ == old_ms.areas@
        &&& new_ms.page_table@ == old_ms.page_table@
        &&& new_fa.free_count_spec() == old_fa.free_count_spec()
    })
    &&& (r is Ok ==> {
        let i = first_cover(old_ms, s, e);
        let orig = old_ms.areas@[i];
        let rest = old_ms.areas@.remove(i);
        let n = rest.len();
        let has_front = orig.vpn_start < s;
        let has_back = e < orig.vpn_end;
        &&& is_first_cover(old_ms, i, s, e)
        &&& new_ms.areas@.subrange(0, n as int) == rest
        &&& new_ms.areas@.len() == n + (if has_front {
            1int
        } else {
            0
        }) + (if has_back {
            1int
        } else {
            0
        })
        &&& (has_front ==> is_piece(&new_ms.areas@[n as int], &orig, orig.vpn_start, s))
        &&& (has_back ==> is_piece(
            &new_ms.areas@[n + (if has_front {
                1int
            } else {
                0
            })],
            &orig,
            e,
            orig.vpn_end,
        ))
        &&& forall|v: usize|
            #[trigger] new_ms.page_table@.contains_key(v) == (old_ms.page_table@.contains_key(v)
                && !(s <= v < e))
        &&& forall|v: usize|
            #[trigger] new_ms.page_table@.contains_key(v) ==> new_ms.page_table@[v]
                == old_ms.page_table@[v]
        &&& new_fa.free_count_spec() == old_fa.free_count_spec() + (e - s)
    })
}

/// What `munmap(start, len)` does to an address space.
pub open spec fn munmap_result(
    old_ms: &MemorySet,
    new_ms: &MemorySet,
    old_fa: &FrameAllocator,
    new_fa: &FrameAllocator,
    start: usize,
    len: usize,
    r: Result<(), MmError>,
) -> bool {
    if start % PAGE_SIZE != 0 {
        r == Err::<(), MmError>(MmError::AlignmentError) && new_ms.areas@ == old_ms.areas@
            && new_ms.page_table@ == old_ms.page_table@
    } else {
        remove_framed_result(old_ms, new_ms, old_fa, new_fa, start, (start + len) as usize, r)
    }
}

impl MemorySet {
    /// No page of `[from, to)` is mapped.
    pub open spec fn range_unmapped(&self, from: int, to: int) -> bool {
        forall|v: usize| from <= v < to ==> !#[trigger] self.page_table@.contains_key(v)
    }

    /// The pages that are mapped.
    pub open spec fn mapped_pages(&self) -> Set<usize> {
        self.page_table@.dom()
    }

    /// Every region is installed in the page table, no two regions share a
    /// page, and no two pages of the regions, nor a page and the page-table
    /// root, share a frame.
    pub open spec fn wf(&self) -> bool {
        &&& forall|i: int|
            0 <= i < self.areas@.len() ==> #[trigger] self.areas@[i].installed(self.page_table@)
        &&& forall|i: int|
            0 <= i < self.areas@.len() ==> #[trigger] self.areas@[i].frames_distinct()
        &&& forall|i: int, j: int|
            0 <= i < self.areas@.len() && 0 <= j < self.areas@.len() && i != j ==> areas_disjoint(
                #[trigger] &self.areas@[i],
                #[trigger] &self.areas@[j],
            )
        &&& forall|i: int, j: int, a: usize, b: usize|
            0 <= i < self.areas@.len() && 0 <= j < self.areas@.len() && i != j
                && self.areas@[i].data_frames@.contains_key(a)
                && self.areas@[j].data_frames@.contains_key(b)
                ==> #[trigger] self.areas@[i].data_frames@[a].ppn
                != #[trigger] self.areas@[j].data_frames@[b].ppn
        &&& forall|i: int, v: usize|
            0 <= i < self.areas@.len() && self.areas@[i].data_frames@.contains_key(v)
                ==> #[trigger] self.areas@[i].data_frames@[v].ppn != self.page_table.root_ppn()
    }

    /// Every frame of the regions, and the frame of the page-table root, is
    /// handed out by `fa`.
    pub open spec fn frames_from(&self, fa: &FrameAllocator) -> bool {
        &&& forall|i: int| 0 <= i < self.areas@.len() ==> #[trigger] self.areas@[i].frames_allocated(fa)
        &&& fa.is_allocated(self.page_table.root_ppn())
    }

    /// An empty address space; its page-table root takes one frame of `fa`.
    pub fn new_bare(fa: &mut FrameAllocator) -> (r: MemorySet)
        requires
            old(fa).wf(),
            old(fa).free_count_spec() > 0,
        ensures
            r.wf(),
            r.frames_from(final(fa)),
            r.areas@.len() == 0,
            r.page_table@ == Map::<usize, PageTableEntry>::empty(),
            final(fa).wf(),
            final(fa).free_count_spec() + 1 == old(fa).free_count_spec(),
            forall|p: usize| old(fa).is_allocated(p) ==> #[trigger] final(fa).is_allocated(p),
    {
        let root = match fa.alloc_frame() {
            Some(f) => f,
            None => {
                proof {
                    assert(false);
                }
                FrameTracker::new(0)
            },
        };
        MemorySet { page_table: PageTable::new(root), areas: Vec::new() }
    }

    /// The value that the MMU's address-translation register is loaded with
    /// to switch to this address space.
    pub fn token(&self) -> (r: usize)
        ensures
            r == self.page_table.token_spec(),
    {
        self.page_table.token()
    }

    /// The page-table entry of `vpn`, if it is mapped.
    pub fn translate(&self, vpn: usize) -> (r: Option<PageTableEntry>)
        ensures
            r == (if self.page_table@.contains_key(vpn) {
                Some(self.page_table@[vpn])
            } else {
                None::<PageTableEntry>
            }),
    {
        self.page_table.translate(vpn)
    }

    /// The index of the first region that covers `[s, e)`.
    fn find_cover(&self, s: usize, e: usize) -> (r: Option<usize>)
        ensures
            match r {
                Some(i) => is_first_cover(self, i as int, s, e),
                None => !has_cover(self, s, e),
            },
    {
        let mut i: usize = 0;
        while i < self.areas.len()
            invariant
                i <= self.areas@.len(),
                forall|j: int| 0 <= j < i ==> !covers(#[trigger] &self.areas@[j], s, e),
            decreases self.areas@.len() - i,
        {
            let a = &self.areas[i];
            if a.vpn_start <= s && a.vpn_end >= e && a.map_type == MapType::Framed {
                return Some(i);
            }
            i = i + 1;
        }
        None
    }

    /// Unmaps the pages that cover `[start_va, end_va)` from the first framed
    /// region that holds them all, and hands their frames back to `fa`. The
    /// region is replaced by what is left of it below and above the range,
    /// each part keeping its frames. Fails with `RegionNotFound`, changing
    /// nothing, when no framed region holds the whole range.
    pub fn remove_framed_area(&mut self, fa: &mut FrameAllocator, start_va: usize, end_va: usize) -> (r:
        Result<(), MmError>)
        requires
            old(self).wf(),
            old(fa).wf(),
            old(self).frames_from(old(fa)),
            start_va <= end_va,
        ensures
            final(self).wf(),
            final(fa).wf(),
            final(self).frames_from(final(fa)),
            remove_framed_result(old(self), final(self), old(fa), final(fa), start_va, end_va, r),
    {
        let s = floor(start_va);
        let e = ceil(end_va);
        proof {
            lemma_floor_le_ceil(start_va, end_va);
        }
        let found = self.find_cover(s, e);
        let i = match found {
            None => {
                return Err(MmError::RegionNotFound);
            },
            Some(i) => i,
        };
        proof {
            assert(has_cover(old(self), s, e)) by {
                assert(covers(&old(self).areas@[i as int], s, e));
            };
            let c = first_cover(old(self), s, e);
            assert(is_first_cover(old(self), c, s, e));
            if c < i {
                assert(!covers(&old(self).areas@[c], s, e));
            }
            if i < c {
                assert(!covers(&old(self).areas@[i as int], s, e));
            }
            assert(c == i);
        }
        let ghost orig = self.areas@[i as int];
        let ghost pt0 = self.page_table@;
        let ghost fa0 = *fa;
        let ghost n0 = old(self).areas@.len();
        let mut area = self.areas.remove(i);
        let ghost rest = self.areas@;
        proof {
            assert(rest == old(self).areas@.remove(i as int));
            assert(orig.installed(pt0));
            assert(orig.frames_distinct());
            assert forall|pg: usize| s <= pg < e implies #[trigger] orig.page_installed(pt0, pg) by {};
            assert forall|v: usize| s <= v < e implies fa0.is_allocated(
                #[trigger] orig.data_frames@[v].ppn,
            ) by {
                assert(orig.page_installed(pt0, v));
                assert(old(self).areas@[i as int].frames_allocated(&fa0));
            };
        }
        area.unmap_range(&mut self.page_table, fa, s, e);
        let ghost after_unmap = area;
        if area.vpn_start < s {
            let front = area.split_front(s);
            self.areas.push(front);
        }
        area.vpn_start = e;
        if e < area.vpn_end {
            self.areas.push(area);
        }

        proof {
            let n = rest.len();
            let hf: int = if orig.vpn_start < s { 1 } else { 0 };
            let hb: int = if e < orig.vpn_end { 1 } else { 0 };
            let pt1 = self.page_table@;
            let fin = self.areas@;
            assert(fin.len() == n + hf + hb);
            assert(fin.subrange(0, n as int) =~= rest);
            assert(orig.installed(pt0));
            if hf == 1 {
                assert(is_piece(&fin[n as int], &orig, orig.vpn_start, s)) by {
                    assert forall|v: usize| #[trigger] fin[n as int].data_frames@.contains_key(v)
                        == (orig.data_frames@.contains_key(v) && orig.vpn_start <= v < s) by {
                        if orig.data_frames@.contains_key(v) {
                            assert(orig.vpn_start <= v < orig.vpn_end);
                        }
                    };
                };
            }
            if hb == 1 {
                assert(is_piece(&fin[n + hf], &orig, e, orig.vpn_end)) by {
                    assert forall|v: usize| #[trigger] fin[n + hf].data_frames@.contains_key(v)
                        == (orig.data_frames@.contains_key(v) && e <= v < orig.vpn_end) by {
                        if orig.data_frames@.contains_key(v) {
                            assert(orig.vpn_start <= v < orig.vpn_end);
                        }
                    };
                };
            }
            // where each final region comes from
            assert forall|k: int| 0 <= k < n implies #[trigger] fin[k] == old(self).areas@[if k < i { k } else { k + 1 }] by {
                assert(fin[k] == rest[k]);
            };
            assert forall|k: int| 0 <= k < fin.len() implies #[trigger] fin[k].installed(pt1) by {
                if k < n {
                    let k0 = if k < i { k } else { k + 1 };
                    assert(fin[k] == old(self).areas@[k0]);
                    assert(old(self).areas@[k0].installed(pt0));
                    assert(areas_disjoint(&old(self).areas@[k0], &old(self).areas@[i as int]));
                    lemma_other_installed(&old(self).areas@[k0], &orig, pt0, pt1, s, e);
                } else if k == n && hf == 1 {
                    lemma_piece_installed(&fin[k], &orig, orig.vpn_start, s, pt0, pt1, s, e);
                } else {
                    lemma_piece_installed(&fin[k], &orig, e, orig.vpn_end, pt0, pt1, s, e);
                }
            };
            assert forall|k: int| 0 <= k < fin.len() implies #[trigger] fin[k].frames_distinct() by {
                if k < n {
                    let k0 = if k < i { k } else { k + 1 };
                    assert(fin[k] == old(self).areas@[k0]);
                } else {
                    assert(orig.frames_distinct());
                    assert forall|x: usize, y: usize|
                        fin[k].data_frames@.contains_key(x) && fin[k].data_frames@.contains_key(y) && x != y
                            implies #[trigger] fin[k].data_frames@[x].ppn != #[trigger] fin[k].data_frames@[y].ppn by {
                        assert(orig.data_frames@.contains_key(x) && orig.data_frames@.contains_key(y));
                    };
                }
            };
            assert forall|k: int, l: int|
                0 <= k < fin.len() && 0 <= l < fin.len() && k != l implies areas_disjoint(
                #[trigger] &fin[k],
                #[trigger] &fin[l],
            ) by {
                let k0 = if k < i { k } else { k + 1 };
                let l0 = if l < i { l } else { l + 1 };
                if k < n && l < n {
                    assert(fin[k] == old(self).areas@[k0]);
                    assert(fin[l] == old(self).areas@[l0]);
                } else if k < n {
                    assert(fin[k] == old(self).areas@[k0]);
                    assert(areas_disjoint(&old(self).areas@[k0], &old(self).areas@[i as int]));
                } else if l < n {
                    assert(fin[l] == old(self).areas@[l0]);
                    assert(areas_disjoint(&old(self).areas@[l0], &old(self).areas@[i as int]));
                } else {
                }
            };
            assert forall|k: int, l: int, x: usize, y: usize|
                0 <= k < fin.len() && 0 <= l < fin.len() && k != l
                    && fin[k].data_frames@.contains_key(x) && fin[l].data_frames@.contains_key(y)
                    implies #[trigger] fin[k].data_frames@[x].ppn != #[trigger] fin[l].data_frames@[y].ppn by {
                let k0 = if k < n { if k < i { k } else { k + 1 } } else { i as int };
                let l0 = if l < n { if l < i { l } else { l + 1 } } else { i as int };
                assert(fin[k].data_frames@[x] == old(self).areas@[k0].data_frames@[x]);
                assert(fin[l].data_frames@[y] == old(self).areas@[l0].data_frames@[y]);
                assert(old(self).areas@[k0].data_frames@.contains_key(x));
                assert(old(self).areas@[l0].data_frames@.contains_key(y));
                if k0 == l0 {
                    assert(x < s || x >= e);
                    assert(x != y);
                    assert(old(self).areas@[k0].frames_distinct());
                }
            };
            assert forall|k: int| 0 <= k < fin.len() implies #[trigger] fin[k].frames_allocated(fa) by {
                let k0 = if k < n { if k < i { k } else { k + 1 } } else { i as int };
                assert forall|x: usize| #[trigger] fin[k].data_frames@.contains_key(x) implies fa.is_allocated(
                    fin[k].data_frames@[x].ppn) by {
                    let q = fin[k].data_frames@[x].ppn;
                    assert(fin[k].data_frames@[x] == old(self).areas@[k0].data_frames@[x]);
                    assert(old(self).areas@[k0].data_frames@.contains_key(x));
                    assert(old(self).areas@[k0].frames_allocated(&fa0));
                    assert(fa0.is_allocated(q));
                    if orig.backs_in(q, s as int, e as int) {
                        let w = choose|w: usize| s <= w < e && #[trigger] orig.data_frames@.contains_key(w)
                            && orig.data_frames@[w].ppn == q;
                        if k0 != i {
                            assert(old(self).areas@[i as int].data_frames@[w].ppn
                                == old(self).areas@[k0].data_frames@[x].ppn);
                        } else {
                            assert(x < s || x >= e);
                            assert(orig.frames_distinct());
                        }
                    }
                };
            };
            assert forall|v: usize| #[trigger] pt1.contains_key(v) == (pt0.contains_key(v) && !(s <= v < e)) by {};
        }
        Ok(())
    }

    /// Inserts a framed region over the pages that cover `[start_va, end_va)`
    /// with permission `perm`, backed by fresh frames of `fa`.
    pub fn insert_framed_area(
        &mut self,
        fa: &mut FrameAllocator,
        start_va: usize,
        end_va: usize,
        perm: MapPermission,
    ) -> (r: Result<(), MmError>)
        requires
            old(self).wf(),
            old(fa).wf(),
            old(self).frames_from(old(fa)),
            start_va <= end_va,
        ensures
            final(self).wf(),
            final(fa).wf(),
            final(self).frames_from(final(fa)),
            insert_framed_result(old(self), final(self), old(fa), final(fa), start_va, end_va, perm, r),
    {
        let area = MapArea::new(start_va, end_va, MapType::Framed, perm);
        self.push(fa, area, None)
    }

    /// Maps `len` bytes from the page-aligned address `start` with the
    /// access bits `prot` (R, W, X in bits 0 to 2), user-accessible, backed by
    /// fresh frames.
    pub fn mmap(&mut self, fa: &mut FrameAllocator, start: usize, len: usize, prot: usize) -> (r:
        Result<(), MmError>)
        requires
            old(self).wf(),
            old(fa).wf(),
            old(self).frames_from(old(fa)),
            start + len <= usize::MAX,
        ensures
            final(self).wf(),
            final(fa).wf(),
            final(self).frames_from(final(fa)),
            mmap_result(old(self), final(self), old(fa), final(fa), start, len, prot, r),
            r == mmap_outcome(old(self), old(fa), start, len, prot),
    {
        if start % PAGE_SIZE != 0 {
            return Err(MmError::AlignmentError);
        }
        assert((prot & !7usize != 0 || prot & 7 == 0) == (prot == 0 || prot > 7)) by (bit_vector);
        assert((prot & 1 != 0) == (prot % 2 == 1)) by (bit_vector);
        assert((prot & 2 != 0) == ((prot / 2) % 2 == 1)) by (bit_vector);
        assert((prot & 4 != 0) == ((prot / 4) % 2 == 1)) by (bit_vector);
        if prot & !7usize != 0 || prot & 7 == 0 {
            return Err(MmError::PermissionError);
        }
        let perm = MapPermission { r: prot & 1 != 0, w: prot & 2 != 0, x: prot & 4 != 0, u: true };
        self.insert_framed_area(fa, start, start + len, perm)
    }

    /// Unmaps `len` bytes from the page-aligned address `start`, all of
    /// which must lie in one framed region.
    pub fn munmap(&mut self, fa: &mut FrameAllocator, start: usize, len: usize) -> (r: Result<(), MmError>)
        requires
            old(self).wf(),
            old(fa).wf(),
            old(self).frames_from(old(fa)),
            start + len <= usize::MAX,
        ensures
            final(self).wf(),
            final(fa).wf(),
            final(self).frames_from(final(fa)),
            munmap_result(old(self), final(self), old(fa), final(fa), start, len, r),
            r == munmap_outcome(old(self), start, len),
    {
        if start % PAGE_SIZE != 0 {
            return Err(MmError::AlignmentError);
        }
        let r = self.remove_framed_area(fa, start, start + len);
        match r {
            Ok(()) => Ok(()),
            Err(e) => Err(e),
        }
    }

    /// Whether no page of `[from, to)` is mapped.
    fn check_unmapped(&self, from: usize, to: usize) -> (r: bool)
        ensures
            r == self.range_unmapped(from as int, to as int),
    {
        let mut v = from;
        while v < to
            invariant
                from <= v,
                forall|u: usize| from <= u < v ==> !#[trigger] self.page_table@.contains_key(u),
            decreases to - v,
        {
            if self.page_table.translate(v).is_some() {
                return false;
            }
            v = v + 1;
        }
        true
    }

    /// Inserts `map_area`, mapping all of its pages, and copies `data` into
    /// its frames. Refused, with nothing changed, when a page of the region
    /// is mapped already or a framed region would need more frames than `fa`
    /// has free.
    pub fn push(&mut self, fa: &mut FrameAllocator, map_area: MapArea, data: Option<&[u8]>) -> (r:
        Result<(), MmError>)
        requires
            old(self).wf(),
            old(fa).wf(),
            old(self).frames_from(old(fa)),
            map_area.vpn_start <= map_area.vpn_end,
            map_area.data_frames@.is_empty(),
            data matches Some(d) ==> map_area.map_type == MapType::Framed && d@.len() <= (
            map_area.vpn_end - map_area.vpn_start) * PAGE_SIZE,
        ensures
            final(self).wf(),
            final(fa).wf(),
            final(self).frames_from(final(fa)),
            r == push_outcome(old(self), old(fa), &map_area),
            r is Err ==> {
                &&& final(self).areas@ == old(self).areas@
                &&& final(self).page_table@ == old(self).page_table@
                &&& final(fa).free_count_spec() == old(fa).free_count_spec()
            },
            r is Ok ==> {
                let n = old(self).areas@.len();
                let a = final(self).areas@[n as int];
                &&& final(self).areas@.len() == n + 1
                &&& final(self).areas@.subrange(0, n as int) == old(self).areas@
                &&& a.vpn_start == map_area.vpn_start
                &&& a.vpn_end == map_area.vpn_end
                &&& a.map_type == map_area.map_type
                &&& a.map_perm == map_area.map_perm
                &&& forall|v: usize|
                    #[trigger] final(self).page_table@.contains_key(v) == (old(
                        self).page_table@.contains_key(v) || (a.vpn_start <= v < a.vpn_end))
                &&& forall|v: usize|
                    #[trigger] old(self).page_table@.contains_key(v) ==> final(
                        self).page_table@[v] == old(self).page_table@[v]
                &&& (map_area.map_type == MapType::Framed ==> final(fa).free_count_spec() + (
                a.vpn_end - a.vpn_start) == old(fa).free_count_spec())
                &&& (map_area.map_type == MapType::Identical ==> final(fa).free_count_spec()
                    == old(fa).free_count_spec())
                &&& (data matches Some(d) ==> a.holds_data(d@))
            },
            forall|p: usize| old(fa).is_allocated(p) ==> #[trigger] final(fa).is_allocated(p),
    {
        let mut map_area = map_area;
        let start = map_area.vpn_start;
        let end = map_area.vpn_end;
        if !self.check_unmapped(start, end) {
            return Err(MmError::OverlapRejected);
        }
        if map_area.map_type == MapType::Framed && !fa.has_free(end - start) {
            return Err(MmError::FrameExhausted);
        }
        let ghost fa0 = *fa;
        let ghost pt0 = self.page_table@;
        let ghost m0 = map_area;
        map_area.map_range(&mut self.page_table, fa, start, end);
        let ghost m1 = map_area;
        proof {
            assert forall|v: usize| #[trigger] m1.data_frames@.contains_key(v) implies m1.data_frames@[
                v].bytes@.len() == PAGE_SIZE && start <= v < end by {
                assert(!m0.data_frames@.dom().contains(v));
                assert(fa.is_allocated(m1.data_frames@[v].ppn));
            };
            if map_area.map_type == MapType::Framed {
                assert forall|v: usize| start <= v < end implies #[trigger] m1.data_frames@.contains_key(
                    v) by {};
            }
        }
        match data {
            Some(d) => {
                map_area.copy_data(d);
            },
            None => {},
        }
        let ghost a = map_area;
        proof {
            assert forall|v: usize| #[trigger] a.data_frames@.contains_key(v) implies m1.data_frames@.contains_key(v)
                && a.data_frames@[v].ppn == m1.data_frames@[v].ppn && a.data_frames@[v].bytes@.len() == PAGE_SIZE by {};
            assert forall|v: usize| #[trigger] m1.data_frames@.contains_key(v) implies a.data_frames@.contains_key(v) by {};
            assert forall|v: usize| start <= v < end implies #[trigger] a.page_installed(self.page_table@, v) by {
                assert(m1.page_installed(self.page_table@, v));
                assert(a.entry_for(v) == m1.entry_for(v));
            };
            assert forall|v: usize| #[trigger] pt0.contains_key(v) implies self.page_table@[v] == pt0[v] by {
                assert(!(start <= v < end));
                assert(self.page_table@.contains_key(v));
            };
            assert forall|v: usize| #[trigger] self.page_table@.contains_key(v) == (pt0.contains_key(v) || (start <= v < end)) by {
                if start <= v < end {
                    assert(a.page_installed(self.page_table@, v));
                }
            };
        }
        self.areas.push(map_area);
        proof {
            let n = old(self).areas@.len();
            assert(self.areas@[n as int] == a);
            assert(self.areas@.subrange(0, n as int) =~= old(self).areas@);
            assert forall|i: int| 0 <= i < n implies #[trigger] self.areas@[i].installed(
                self.page_table@,
            ) by {
                let ai = self.areas@[i];
                assert(ai == old(self).areas@[i]);
                assert(old(self).areas@[i].installed(pt0));
                assert forall|pg: usize|
                    ai.vpn_start <= pg < ai.vpn_end implies #[trigger] ai.page_installed(
                    self.page_table@,
                    pg,
                ) by {
                    assert(ai.page_installed(pt0, pg));
                    assert(pt0.contains_key(pg));
                    assert(!(start <= pg < end));
                    assert(self.page_table@.contains_key(pg));
                };
            };
            assert(a.installed(self.page_table@)) by {
                assert forall|v: usize| #[trigger] a.data_frames@.contains_key(v) implies start <= v
                    < end by {};
                assert forall|v: usize| #[trigger] a.data_frames@.contains_key(v) implies a.data_frames@[
                    v].bytes@.len() == PAGE_SIZE by {};
            };
            assert forall|i: int| 0 <= i < n + 1 implies #[trigger] self.areas@[i].frames_distinct() by {
                if i < n {
                    assert(self.areas@[i] == old(self).areas@[i]);
                } else {
                    assert forall|x: usize, y: usize|
                        a.data_frames@.contains_key(x) && a.data_frames@.contains_key(y) && x != y
                            implies #[trigger] a.data_frames@[x].ppn != #[trigger] a.data_frames@[y].ppn by {
                        assert(m1.data_frames@.contains_key(x) && m1.data_frames@.contains_key(y));
                        assert(start <= x < end && start <= y < end);
                    };
                }
            };
            assert forall|i: int, j: int|
                0 <= i < n + 1 && 0 <= j < n + 1 && i != j implies areas_disjoint(
                #[trigger] &self.areas@[i],
                #[trigger] &self.areas@[j],
            ) by {
                if i < n && j < n {
                    assert(self.areas@[i] == old(self).areas@[i]);
                    assert(self.areas@[j] == old(self).areas@[j]);
                } else {
                    let k = if i < n { i } else { j };
                    let b = old(self).areas@[k];
                    assert(self.areas@[k] == b);
                    if !areas_disjoint(&a, &b) {
                        let pg: usize = if start <= b.vpn_start { b.vpn_start } else { start };
                        assert(b.installed(pt0));
                        assert(b.page_installed(pt0, pg));
                        assert(false);
                    }
                }
            };
            assert forall|i: int, j: int, x: usize, y: usize|
                0 <= i < n + 1 && 0 <= j < n + 1 && i != j
                    && self.areas@[i].data_frames@.contains_key(x)
                    && self.areas@[j].data_frames@.contains_key(y)
                    implies #[trigger] self.areas@[i].data_frames@[x].ppn
                    != #[trigger] self.areas@[j].data_frames@[y].ppn by {
                if i < n && j < n {
                    assert(self.areas@[i] == old(self).areas@[i]);
                    assert(self.areas@[j] == old(self).areas@[j]);
                } else {
                    let k = if i < n { i } else { j };
                    let z = if i < n { x } else { y };
                    let w = if i < n { y } else { x };
                    let b = old(self).areas@[k];
                    assert(self.areas@[k] == b);
                    assert(old(self).areas@[k].frames_allocated(&fa0));
                    assert(fa0.is_allocated(b.data_frames@[z].ppn));
                    fa0.lemma_allocated_not_free(b.data_frames@[z].ppn);
                    assert(a.data_frames@.contains_key(w));
                    assert(m1.data_frames@.contains_key(w));
                    assert(start <= w < end);
                    assert(fa0.free_set().contains(m1.data_frames@[w].ppn));
                }
            };
            assert forall|i: int| 0 <= i < n + 1 implies #[trigger] self.areas@[i].frames_allocated(fa) by {
                if i < n {
                    let b = old(self).areas@[i];
                    assert(self.areas@[i] == b);
                    assert(b.frames_allocated(&fa0));
                    assert forall|v: usize| #[trigger] b.data_frames@.contains_key(v) implies fa.is_allocated(
                        b.data_frames@[v].ppn) by {
                        assert(fa0.is_allocated(b.data_frames@[v].ppn));
                    };
                } else {
                    assert forall|v: usize| #[trigger] a.data_frames@.contains_key(v) implies fa.is_allocated(
                        a.data_frames@[v].ppn) by {
                        assert(m1.data_frames@.contains_key(v));
                        assert(start <= v < end);
                    };
                }
            };
            assert forall|i: int, v: usize|
                0 <= i < n + 1 && self.areas@[i].data_frames@.contains_key(v)
                    implies #[trigger] self.areas@[i].data_frames@[v].ppn != self.page_table.root_ppn() by {
                if i < n {
                    assert(self.areas@[i] == old(self).areas@[i]);
                } else {
                    assert(m1.data_frames@.contains_key(v));
                    assert(start <= v < end);
                    fa0.lemma_allocated_not_free(old(self).page_table.root_ppn());
                }
            };
        }
        Ok(())
    }
}

} // verus!

verus! {

/// In a well-formed address space every page of a framed region is backed
/// by a frame, no two backed pages share a physical page, and a page is
/// backed by at most one region.
pub proof fn lemma_frames_unique(ms: &MemorySet)
    requires
        ms.wf(),
    ensures
        forall|i: int, v: usize|
            0 <= i < ms.areas@.len() && ms.areas@[i].map_type == MapType::Framed
                && ms.areas@[i].vpn_start <= v < ms.areas@[i].vpn_end
                ==> #[trigger] ms.areas@[i].data_frames@.contains_key(v),
        forall|i: int, j: int, a: usize, b: usize|
            0 <= i < ms.areas@.len() && 0 <= j < ms.areas@.len()
                && ms.areas@[i].data_frames@.contains_key(a)
                && ms.areas@[j].data_frames@.contains_key(b) && (i != j || a != b)
                ==> #[trigger] ms.areas@[i].data_frames@[a].ppn
                != #[trigger] ms.areas@[j].data_frames@[b].ppn,
        forall|i: int, j: int, v: usize|
            0 <= i < ms.areas@.len() && 0 <= j < ms.areas@.len()
                && #[trigger] ms.areas@[i].data_frames@.contains_key(v)
                && #[trigger] ms.areas@[j].data_frames@.contains_key(v) ==> i == j,
{
    assert forall|i: int, v: usize|
        0 <= i < ms.areas@.len() && ms.areas@[i].map_type == MapType::Framed
            && ms.areas@[i].vpn_start <= v < ms.areas@[i].vpn_end
            implies #[trigger] ms.areas@[i].data_frames@.contains_key(v) by {
        assert(ms.areas@[i].installed(ms.page_table@));
        assert(ms.areas@[i].page_installed(ms.page_table@, v));
    };
    assert forall|i: int, j: int, a: usize, b: usize|
        0 <= i < ms.areas@.len() && 0 <= j < ms.areas@.len()
            && ms.areas@[i].data_frames@.contains_key(a)
            && ms.areas@[j].data_frames@.contains_key(b) && (i != j || a != b)
            implies #[trigger] ms.areas@[i].data_frames@[a].ppn
            != #[trigger] ms.areas@[j].data_frames@[b].ppn by {
        if i == j {
            assert(ms.areas@[i].frames_distinct());
        }
    };
    assert forall|i: int, j: int, v: usize|
        0 <= i < ms.areas@.len() && 0 <= j < ms.areas@.len()
            && #[trigger] ms.areas@[i].data_frames@.contains_key(v)
            && #[trigger] ms.areas@[j].data_frames@.contains_key(v) implies i == j by {
        if i != j {
            assert(ms.areas@[i].installed(ms.page_table@));
            assert(ms.areas@[j].installed(ms.page_table@));
            assert(areas_disjoint(&ms.areas@[i], &ms.areas@[j]));
        }
    };
}

/// `mmap` followed by `munmap` of the same range succeeds and leaves the
/// mapped pages, and the number of free frames, as they were before the
/// `mmap`.
pub proof fn lemma_mmap_then_munmap(
    ms0: &MemorySet,
    ms1: &MemorySet,
    ms2: &MemorySet,
    fa0: &FrameAllocator,
    fa1: &FrameAllocator,
    fa2: &FrameAllocator,
    start: usize,
    len: usize,
    prot: usize,
    r1: Result<(), MmError>,
    r2: Result<(), MmError>,
)
    requires
        ms0.wf(),
        start + len <= usize::MAX,
        mmap_result(ms0, ms1, fa0, fa1, start, len, prot, r1),
        r1 is Ok,
        munmap_result(ms1, ms2, fa1, fa2, start, len, r2),
    ensures
        r2 is Ok,
        ms2.mapped_pages() == ms0.mapped_pages(),
        fa2.free_count_spec() == fa0.free_count_spec(),
{
    let s = floor_spec(start);
    let e = ceil_spec((start + len) as usize);
    let n = ms0.areas@.len();
    assert(covers(&ms1.areas@[n as int], s, e));
    assert(has_cover(ms1, s, e));
    assert(ms2.mapped_pages() =~= ms0.mapped_pages()) by {
        assert forall|v: usize| ms2.page_table@.contains_key(v) == ms0.page_table@.contains_key(v) by {
            assert(ms1.page_table@.contains_key(v) == (ms0.page_table@.contains_key(v) || (s <= v
                < e)));
            assert(ms2.page_table@.contains_key(v) == (ms1.page_table@.contains_key(v) && !(s <= v
                < e)));
            if s <= v < e {
                assert(!ms0.page_table@.contains_key(v));
            }
        };
    };
}

/// `munmap` of a range inside a framed region succeeds, unmaps the pages of
/// the range, and leaves every other page of the region mapped to the same
/// frame with the same permission.
pub proof fn lemma_munmap_inside(
    ms1: &MemorySet,
    ms2: &MemorySet,
    fa1: &FrameAllocator,
    fa2: &FrameAllocator,
    start: usize,
    len: usize,
    i: int,
    r: Result<(), MmError>,
)
    requires
        ms1.wf(),
        start % PAGE_SIZE == 0,
        start + len <= usize::MAX,
        0 <= i < ms1.areas@.len(),
        covers(&ms1.areas@[i], floor_spec(start), ceil_spec((start + len) as usize)),
        munmap_result(ms1, ms2, fa1, fa2, start, len, r),
    ensures
        r is Ok,
        forall|v: usize|
            floor_spec(start) <= v < ceil_spec((start + len) as usize)
                ==> !#[trigger] ms2.page_table@.contains_key(v),
        forall|v: usize|
            ms1.areas@[i].vpn_start <= v < ms1.areas@[i].vpn_end && !(floor_spec(start) <= v
                < ceil_spec((start + len) as usize)) ==> {
                &&& #[trigger] ms2.page_table@.contains_key(v)
                &&& ms2.page_table@[v] == ms1.page_table@[v]
                &&& ms2.page_table@[v] == ms1.areas@[i].entry_for(v)
                &&& ms2.page_table@[v].flags == mapped_entry(
                    0,
                    ms1.areas@[i].map_perm.pte_flags_spec(),
                ).flags
            },
{
    let s = floor_spec(start);
    let e = ceil_spec((start + len) as usize);
    assert(has_cover(ms1, s, e));
    assert forall|v: usize|
        ms1.areas@[i].vpn_start <= v < ms1.areas@[i].vpn_end && !(s <= v < e) implies {
        &&& #[trigger] ms2.page_table@.contains_key(v)
        &&& ms2.page_table@[v] == ms1.page_table@[v]
        &&& ms2.page_table@[v] == ms1.areas@[i].entry_for(v)
        &&& ms2.page_table@[v].flags == mapped_entry(0, ms1.areas@[i].map_perm.pte_flags_spec()).flags
    } by {
        assert(ms1.areas@[i].installed(ms1.page_table@));
        assert(ms1.areas@[i].page_installed(ms1.page_table@, v));
    };
}

} // verus!

verus! {

/// Whether `shrink_to(start_va, new_end_va)` succeeds on `ms`: a region
/// starts at the page of `start_va` and the new end lies within the first
/// such region.
pub open spec fn shrink_ok(ms: &MemorySet, start_va: usize, new_end_va: usize) -> bool {
    let vs = floor_spec(start_va);
    let ne = ceil_spec(new_end_va);
    let orig = ms.areas@[first_start(ms, vs)];
    has_start(ms, vs) && orig.vpn_start <= ne <= orig.vpn_end
}

/// Whether `append_to(start_va, new_end_va)` succeeds on `ms` with frames
/// from `fa`: a region starts at the page of `start_va`, the new end is not
/// below the first such region's end, the pages in between are unmapped, and
/// a framed region finds enough free frames.
pub open spec fn append_ok(ms: &MemorySet, fa: &FrameAllocator, start_va: usize, new_end_va: usize) -> bool {
    let vs = floor_spec(start_va);
    let ne = ceil_spec(new_end_va);
    let orig = ms.areas@[first_start(ms, vs)];
    &&& has_start(ms, vs)
    &&& orig.vpn_end <= ne
    &&& ms.range_unmapped(orig.vpn_end as int, ne as int)
    &&& (orig.map_type == MapType::Framed ==> fa.free_count_spec() >= ne - orig.vpn_end)
}

/// What `mmap(start, len, prot)` returns on `ms` with frames from `fa`.
pub open spec fn mmap_outcome(ms: &MemorySet, fa: &FrameAllocator, start: usize, len: usize, prot: usize) -> Result<(), MmError> {
    let s = floor_spec(start);
    let e = ceil_spec((start + len) as usize);
    if start % PAGE_SIZE != 0 {
        Err(MmError::AlignmentError)
    } else if prot == 0 || prot > 7 {
        Err(MmError::PermissionError)
    } else if !ms.range_unmapped(s as int, e as int) {
        Err(MmError::OverlapRejected)
    } else if fa.free_count_spec() < e - s {
        Err(MmError::FrameExhausted)
    } else {
        Ok(())
    }
}

/// What `munmap(start, len)` returns on `ms`.
pub open spec fn munmap_outcome(ms: &MemorySet, start: usize, len: usize) -> Result<(), MmError> {
    if start % PAGE_SIZE != 0 {
        Err(MmError::AlignmentError)
    } else if has_cover(ms, floor_spec(start), ceil_spec((start + len) as usize)) {
        Ok(())
    } else {
        Err(MmError::RegionNotFound)
    }
}

/// The frames that region `a` holds when all its pages are mapped.
pub open spec fn area_frames(a: MapArea) -> nat {
    if a.map_type == MapType::Framed {
        (a.vpn_end - a.vpn_start) as nat
    } else {
        0
    }
}

/// The frames that the regions `areas` hold when all their pages are mapped.
pub open spec fn held_frames(areas: Seq<MapArea>) -> nat
    decreases areas.len(),
{
    if areas.len() == 0 {
        0
    } else {
        held_frames(areas.drop_last()) + area_frames(areas.last())
    }
}

/// Region `i` of `ms` is the first that starts at page `vs`.
pub open spec fn is_first_start(ms: &MemorySet, i: int, vs: usize) -> bool {
    &&& 0 <= i < ms.areas@.len()
    &&& ms.areas@[i].vpn_start == vs
    &&& forall|j: int| 0 <= j < i ==> (#[trigger] ms.areas@[j]).vpn_start != vs
}

/// The first region of `ms` that starts at page `vs`.
pub open spec fn first_start(ms: &MemorySet, vs: usize) -> int {
    choose|i: int| is_first_start(ms, i, vs)
}

/// Some region of `ms` starts at page `vs`.
pub open spec fn has_start(ms: &MemorySet, vs: usize) -> bool {
    exists|i: int| 0 <= i < ms.areas@.len() && (#[trigger] ms.areas@[i]).vpn_start == vs
}

/// `ms1` is `ms0` with region `i` replaced by `a`.
pub open spec fn replaced(ms0: &MemorySet, ms1: &MemorySet, i: int, a: &MapArea) -> bool {
    &&& ms1.areas@.len() == ms0.areas@.len()
    &&& ms1.areas@[i] == *a
    &&& forall|k: int| 0 <= k < ms0.areas@.len() && k != i ==> #[trigger] ms1.areas@[k] == ms0.areas@[k]
}

impl MemorySet {
    /// The index of the first region that starts at page `vs`.
    fn find_start(&self, vs: usize) -> (r: Option<usize>)
        ensures
            match r {
                Some(i) => is_first_start(self, i as int, vs),
                None => !has_start(self, vs),
            },
    {
        let mut i: usize = 0;
        while i < self.areas.len()
            invariant
                i <= self.areas@.len(),
                forall|j: int| 0 <= j < i ==> (#[trigger] self.areas@[j]).vpn_start != vs,
            decreases self.areas@.len() - i,
        {
            if self.areas[i].vpn_start == vs {
                return Some(i);
            }
            i = i + 1;
        }
        None
    }

    /// Shrinks the first region that starts at the page of `start_va` so that
    /// it ends at the page boundary at or above `new_end_va`, unmapping the
    /// pages past it. Returns false, changing nothing, when no region starts
    /// there or the new end lies outside the region.
    pub fn shrink_to(&mut self, fa: &mut FrameAllocator, start_va: usize, new_end_va: usize) -> (r:
        bool)
        requires
            old(self).wf(),
            old(fa).wf(),
            old(self).frames_from(old(fa)),
        ensures
            final(self).wf(),
            final(fa).wf(),
            final(self).frames_from(final(fa)),
            ({
                let vs = floor_spec(start_va);
                let ne = ceil_spec(new_end_va);
                let i = first_start(old(self), vs);
                let orig = old(self).areas@[i];
                &&& r == shrink_ok(old(self), start_va, new_end_va)
                &&& !r ==> final(self).areas@ == old(self).areas@ && final(self).page_table@ == old(
                    self).page_table@ && final(fa).free_count_spec() == old(fa).free_count_spec()
                &&& r ==> final(fa).free_count_spec() == old(fa).free_count_spec() + (
                if orig.map_type == MapType::Framed {
                    orig.vpn_end - ne
                } else {
                    0
                })
                &&& r ==> {
                    &&& is_first_start(old(self), i, vs)
                    &&& replaced(old(self), final(self), i, &final(self).areas@[i])
                    &&& is_piece(&final(self).areas@[i], &orig, orig.vpn_start, ne)
                    &&& forall|v: usize|
                        #[trigger] final(self).page_table@.contains_key(v) == (old(
                            self).page_table@.contains_key(v) && !(ne <= v < orig.vpn_end))
                    &&& forall|v: usize|
                        #[trigger] final(self).page_table@.contains_key(v) ==> final(
                            self).page_table@[v] == old(self).page_table@[v]
                }
            }),
    {
        let vs = floor(start_va);
        let ne = ceil(new_end_va);
        let i = match self.find_start(vs) {
            Some(i) => i,
            None => {
                return false;
            },
        };
        proof {
            assert(has_start(old(self), vs)) by {
                assert(old(self).areas@[i as int].vpn_start == vs);
            };
            let c = first_start(old(self), vs);
            assert(is_first_start(old(self), c, vs));
            if c < i {
                assert(old(self).areas@[c].vpn_start != vs);
            }
            if i < c {
                assert(old(self).areas@[i as int].vpn_start != vs);
            }
        }
        if ne < self.areas[i].vpn_start || ne > self.areas[i].vpn_end {
            return false;
        }
        let ghost orig = self.areas@[i as int];
        let ghost pt0 = self.page_table@;
        let ghost fa0 = *fa;
        let mut area = self.areas.remove(i);
        let old_end = area.vpn_end;
        proof {
            assert(orig.installed(pt0));
            assert(orig.frames_distinct());
            assert forall|pg: usize| ne <= pg < old_end implies #[trigger] orig.page_installed(pt0, pg) by {};
            assert forall|v: usize| ne <= v < old_end && orig.map_type == MapType::Framed implies fa0.is_allocated(
                #[trigger] orig.data_frames@[v].ppn,
            ) by {
                assert(orig.page_installed(pt0, v));
                assert(old(self).areas@[i as int].frames_allocated(&fa0));
            };
        }
        area.unmap_range(&mut self.page_table, fa, ne, old_end);
        area.vpn_end = ne;
        self.areas.insert(i, area);
        proof {
            let pt1 = self.page_table@;
            let fin = self.areas@;
            let p = fin[i as int];
            assert(is_piece(&p, &orig, orig.vpn_start, ne)) by {
                assert forall|v: usize| #[trigger] p.data_frames@.contains_key(v) == (orig.data_frames@.contains_key(v)
                    && orig.vpn_start <= v < ne) by {
                    if orig.data_frames@.contains_key(v) {
                        assert(orig.vpn_start <= v < orig.vpn_end);
                    }
                };
            };
            assert forall|k: int| 0 <= k < fin.len() && k != i implies #[trigger] fin[k] == old(self).areas@[k] by {};
            assert forall|v: usize| #[trigger] pt1.contains_key(v) == (pt0.contains_key(v) && !(ne <= v < old_end)) by {};
            assert forall|k: int| 0 <= k < fin.len() implies #[trigger] fin[k].installed(pt1) by {
                if k == i {
                    lemma_piece_installed(&fin[k], &orig, orig.vpn_start, ne, pt0, pt1, ne, old_end);
                } else {
                    assert(fin[k] == old(self).areas@[k]);
                    assert(old(self).areas@[k].installed(pt0));
                    assert(areas_disjoint(&old(self).areas@[k], &old(self).areas@[i as int]));
                    lemma_other_installed(&old(self).areas@[k], &orig, pt0, pt1, ne, old_end);
                }
            };
            assert forall|k: int| 0 <= k < fin.len() implies #[trigger] fin[k].frames_distinct() by {
                if k == i {
                    assert forall|x: usize, y: usize|
                        p.data_frames@.contains_key(x) && p.data_frames@.contains_key(y) && x != y
                            implies #[trigger] p.data_frames@[x].ppn != #[trigger] p.data_frames@[y].ppn by {
                        assert(orig.data_frames@.contains_key(x) && orig.data_frames@.contains_key(y));
                    };
                } else {
                    assert(fin[k] == old(self).areas@[k]);
                }
            };
            assert forall|k: int, l: int|
                0 <= k < fin.len() && 0 <= l < fin.len() && k != l implies areas_disjoint(
                #[trigger] &fin[k],
                #[trigger] &fin[l],
            ) by {
                assert(areas_disjoint(&old(self).areas@[k], &old(self).areas@[l]));
            };
            assert forall|k: int, l: int, x: usize, y: usize|
                0 <= k < fin.len() && 0 <= l < fin.len() && k != l
                    && fin[k].data_frames@.contains_key(x) && fin[l].data_frames@.contains_key(y)
                    implies #[trigger] fin[k].data_frames@[x].ppn != #[trigger] fin[l].data_frames@[y].ppn by {
                assert(fin[k].data_frames@[x] == old(self).areas@[k].data_frames@[x]);
                assert(fin[l].data_frames@[y] == old(self).areas@[l].data_frames@[y]);
                assert(old(self).areas@[k].data_frames@.contains_key(x));
                assert(old(self).areas@[l].data_frames@.contains_key(y));
            };
            assert forall|k: int| 0 <= k < fin.len() implies #[trigger] fin[k].frames_allocated(fa) by {
                assert forall|x: usize| #[trigger] fin[k].data_frames@.contains_key(x) implies fa.is_allocated(
                    fin[k].data_frames@[x].ppn) by {
                    let q = fin[k].data_frames@[x].ppn;
                    assert(fin[k].data_frames@[x] == old(self).areas@[k].data_frames@[x]);
                    assert(old(self).areas@[k].data_frames@.contains_key(x));
                    assert(old(self).areas@[k].frames_allocated(&fa0));
                    assert(fa0.is_allocated(q));
                    if orig.backs_in(q, ne as int, old_end as int) {
                        let w = choose|w: usize| ne <= w < old_end && #[trigger] orig.data_frames@.contains_key(w)
                            && orig.data_frames@[w].ppn == q;
                        if k != i {
                            assert(old(self).areas@[i as int].data_frames@[w].ppn
                                == old(self).areas@[k].data_frames@[x].ppn);
                        } else {
                            assert(orig.frames_distinct());
                        }
                    }
                };
            };
        }
        true
    }

    /// Grows the first region that starts at the page of `start_va` so that
    /// it ends at the page boundary at or above `new_end_va`, mapping the new
    /// pages. Returns false, changing nothing, when no region starts there,
    /// the new end lies below the region's end, one of the new pages is
    /// mapped already, or a framed region would need more frames than `fa`
    /// has free.
    pub fn append_to(&mut self, fa: &mut FrameAllocator, start_va: usize, new_end_va: usize) -> (r:
        bool)
        requires
            old(self).wf(),
            old(fa).wf(),
            old(self).frames_from(old(fa)),
        ensures
            final(self).wf(),
            final(fa).wf(),
            final(self).frames_from(final(fa)),
            ({
                let vs = floor_spec(start_va);
                let ne = ceil_spec(new_end_va);
                let i = first_start(old(self), vs);
                let orig = old(self).areas@[i];
                &&& r == append_ok(old(self), old(fa), start_va, new_end_va)
                &&& !r ==> final(self).areas@ == old(self).areas@ && final(self).page_table@ == old(
                    self).page_table@ && final(fa).free_count_spec() == old(fa).free_count_spec()
                &&& r ==> final(fa).free_count_spec() + (if orig.map_type == MapType::Framed {
                    ne - orig.vpn_end
                } else {
                    0
                }) == old(fa).free_count_spec()
                &&& r ==> {
                    let a = final(self).areas@[i];
                    &&& is_first_start(old(self), i, vs)
                    &&& replaced(old(self), final(self), i, &a)
                    &&& a.vpn_start == orig.vpn_start
                    &&& a.vpn_end == ne
                    &&& a.map_type == orig.map_type
                    &&& a.map_perm == orig.map_perm
                    &&& forall|v: usize|
                        #[trigger] final(self).page_table@.contains_key(v) == (old(
                            self).page_table@.contains_key(v) || (orig.vpn_end <= v < ne))
                    &&& forall|v: usize|
                        #[trigger] old(self).page_table@.contains_key(v) ==> final(
                            self).page_table@[v] == old(self).page_table@[v]
                }
            }),
    {
        let vs = floor(start_va);
        let ne = ceil(new_end_va);
        let i = match self.find_start(vs) {
            Some(i) => i,
            None => {
                return false;
            },
        };
        proof {
            assert(has_start(old(self), vs)) by {
                assert(old(self).areas@[i as int].vpn_start == vs);
            };
            let c = first_start(old(self), vs);
            assert(is_first_start(old(self), c, vs));
            if c < i {
                assert(old(self).areas@[c].vpn_start != vs);
            }
            if i < c {
                assert(old(self).areas@[i as int].vpn_start != vs);
            }
        }
        let end = self.areas[i].vpn_end;
        if ne < end {
            return false;
        }
        if !self.check_unmapped(end, ne) {
            return false;
        }
        if self.areas[i].map_type == MapType::Framed && !fa.has_free(ne - end) {
            return false;
        }
        let ghost orig = self.areas@[i as int];
        let ghost pt0 = self.page_table@;
        let ghost fa0 = *fa;
        let mut area = self.areas.remove(i);
        proof {
            assert(orig.installed(pt0));
            assert forall|v: usize| end <= v < ne implies !orig.data_frames@.contains_key(v) by {
                if orig.data_frames@.contains_key(v) {
                    assert(orig.vpn_start <= v < orig.vpn_end);
                }
            };
        }
        area.map_range(&mut self.page_table, fa, end, ne);
        let ghost m = area;
        area.vpn_end = ne;
        self.areas.insert(i, area);
        proof {
            let pt1 = self.page_table@;
            let fin = self.areas@;
            let a = fin[i as int];
            assert forall|k: int| 0 <= k < fin.len() && k != i implies #[trigger] fin[k] == old(self).areas@[k] by {};
            assert forall|v: usize| #[trigger] pt0.contains_key(v) implies pt1.contains_key(v) && pt1[v] == pt0[v] by {
                assert(!(end <= v < ne));
            };
            assert forall|k: int| 0 <= k < fin.len() implies #[trigger] fin[k].installed(pt1) by {
                if k == i {
                    assert forall|pg: usize| a.vpn_start <= pg < a.vpn_end implies #[trigger] a.page_installed(pt1, pg) by {
                        if pg < end {
                            assert(orig.page_installed(pt0, pg));
                            assert(a.entry_for(pg) == orig.entry_for(pg));
                        } else {
                            assert(m.page_installed(pt1, pg));
                            assert(a.entry_for(pg) == m.entry_for(pg));
                        }
                    };
                    assert forall|v: usize| #[trigger] a.data_frames@.contains_key(v) implies a.vpn_start <= v < a.vpn_end
                        && a.data_frames@[v].bytes@.len() == PAGE_SIZE by {
                        if orig.data_frames@.contains_key(v) {
                            assert(orig.vpn_start <= v < orig.vpn_end);
                        } else {
                            assert(fa.is_allocated(a.data_frames@[v].ppn));
                        }
                    };
                    if a.map_type == MapType::Identical {
                        assert(a.data_frames@.dom() =~= Set::empty()) by {
                            assert forall|v: usize| !a.data_frames@.dom().contains(v) by {
                                assert(!orig.data_frames@.dom().contains(v));
                            };
                        };
                    }
                } else {
                    let b = old(self).areas@[k];
                    assert(fin[k] == b);
                    assert(b.installed(pt0));
                    assert forall|pg: usize| b.vpn_start <= pg < b.vpn_end implies #[trigger] b.page_installed(pt1, pg) by {
                        assert(b.page_installed(pt0, pg));
                    };
                }
            };
            assert forall|k: int, l: int|
                0 <= k < fin.len() && 0 <= l < fin.len() && k != l implies areas_disjoint(
                #[trigger] &fin[k],
                #[trigger] &fin[l],
            ) by {
                if k != i && l != i {
                    assert(areas_disjoint(&old(self).areas@[k], &old(self).areas@[l]));
                } else {
                    let o = if k == i { l } else { k };
                    let b = old(self).areas@[o];
                    assert(fin[o] == b);
                    assert(areas_disjoint(&b, &orig));
                    assert(b.installed(pt0));
                    lemma_grown_disjoint(&a, &b, &orig, pt0, ne);
                }
            };
            assert forall|k: int| 0 <= k < fin.len() implies #[trigger] fin[k].frames_distinct() by {
                if k == i {
                    assert forall|x: usize, y: usize|
                        a.data_frames@.contains_key(x) && a.data_frames@.contains_key(y) && x != y
                            implies #[trigger] a.data_frames@[x].ppn != #[trigger] a.data_frames@[y].ppn by {
                        assert(orig.frames_distinct());
                        assert(old(self).areas@[i as int].frames_allocated(&fa0));
                        if orig.data_frames@.contains_key(x) && !orig.data_frames@.contains_key(y) {
                            fa0.lemma_allocated_not_free(orig.data_frames@[x].ppn);
                        }
                        if !orig.data_frames@.contains_key(x) && orig.data_frames@.contains_key(y) {
                            fa0.lemma_allocated_not_free(orig.data_frames@[y].ppn);
                        }
                    };
                } else {
                    assert(fin[k] == old(self).areas@[k]);
                }
            };
            assert forall|k: int, l: int, x: usize, y: usize|
                0 <= k < fin.len() && 0 <= l < fin.len() && k != l
                    && fin[k].data_frames@.contains_key(x) && fin[l].data_frames@.contains_key(y)
                    implies #[trigger] fin[k].data_frames@[x].ppn != #[trigger] fin[l].data_frames@[y].ppn by {
                if k != i && l != i {
                    assert(fin[k] == old(self).areas@[k]);
                    assert(fin[l] == old(self).areas@[l]);
                } else {
                    let o = if k == i { l } else { k };
                    let z = if k == i { y } else { x };
                    let w = if k == i { x } else { y };
                    let b = old(self).areas@[o];
                    assert(fin[o] == b);
                    assert(b.frames_allocated(&fa0));
                    assert(b.data_frames@.contains_key(z));
                    if orig.data_frames@.contains_key(w) {
                        assert(a.data_frames@[w] == orig.data_frames@[w]);
                    } else {
                        fa0.lemma_allocated_not_free(b.data_frames@[z].ppn);
                    }
                }
            };
            assert forall|k: int| 0 <= k < fin.len() implies #[trigger] fin[k].frames_allocated(fa) by {
                if k == i {
                    assert forall|x: usize| #[trigger] a.data_frames@.contains_key(x) implies fa.is_allocated(
                        a.data_frames@[x].ppn) by {
                        if orig.data_frames@.contains_key(x) {
                            assert(old(self).areas@[i as int].frames_allocated(&fa0));
                            assert(fa0.is_allocated(orig.data_frames@[x].ppn));
                        }
                    };
                } else {
                    let b = old(self).areas@[k];
                    assert(fin[k] == b);
                    assert(b.frames_allocated(&fa0));
                    assert forall|x: usize| #[trigger] b.data_frames@.contains_key(x) implies fa.is_allocated(
                        b.data_frames@[x].ppn) by {
                        assert(fa0.is_allocated(b.data_frames@[x].ppn));
                    };
                }
            };
            assert forall|v: usize| #[trigger] pt1.contains_key(v) == (pt0.contains_key(v) || (end <= v < ne)) by {
                if end <= v < ne {
                    assert(m.page_installed(pt1, v));
                }
            };
            assert forall|k: int, x: usize|
                0 <= k < fin.len() && fin[k].data_frames@.contains_key(x)
                    implies #[trigger] fin[k].data_frames@[x].ppn != self.page_table.root_ppn() by {
                if k != i {
                    assert(fin[k] == old(self).areas@[k]);
                } else if orig.data_frames@.contains_key(x) {
                    assert(a.data_frames@[x] == orig.data_frames@[x]);
                } else {
                    fa0.lemma_allocated_not_free(old(self).page_table.root_ppn());
                }
            };
        }
        true
    }
}

} // verus!

verus! {

/// The bottom and top of the kernel stack of application `app_id`: stacks
/// lie below the trampoline, each followed by an unmapped guard page.
pub fn kernel_stack_position(app_id: usize) -> (r: (usize, usize))
    requires
        app_id * (KERNEL_STACK_SIZE + PAGE_SIZE) + KERNEL_STACK_SIZE <= TRAMPOLINE,
    ensures
        r.1 == TRAMPOLINE - app_id * (KERNEL_STACK_SIZE + PAGE_SIZE),
        r.0 == r.1 - KERNEL_STACK_SIZE,
{
    let top = TRAMPOLINE - app_id * (KERNEL_STACK_SIZE + PAGE_SIZE);
    let bottom = top - KERNEL_STACK_SIZE;
    (bottom, top)
}

} // verus!

verus! {

impl MemorySet {
    /// Unmaps every region, last first, handing all of their frames back to
    /// `fa`, and leaves the address space without regions.
    pub fn recycle_data_pages(&mut self, fa: &mut FrameAllocator)
        requires
            old(self).wf(),
            old(fa).wf(),
            old(self).frames_from(old(fa)),
        ensures
            final(self).wf(),
            final(fa).wf(),
            final(self).frames_from(final(fa)),
            final(self).areas@.len() == 0,
            final(fa).free_count_spec() == old(fa).free_count_spec() + held_frames(old(self).areas@),
            final(self).page_table.root_ppn() == old(self).page_table.root_ppn(),
            forall|v: usize|
                #[trigger] final(self).page_table@.contains_key(v) ==> old(self).page_table@.contains_key(v),
            forall|i: int, v: usize|
                #![trigger old(self).areas@[i], final(self).page_table@.contains_key(v)]
                0 <= i < old(self).areas@.len() && old(self).areas@[i].vpn_start <= v
                    < old(self).areas@[i].vpn_end ==> !final(self).page_table@.contains_key(v),
    {
        while self.areas.len() > 0
            invariant
                self.wf(),
                fa.wf(),
                self.frames_from(fa),
                fa.free_count_spec() + held_frames(self.areas@) == old(fa).free_count_spec()
                    + held_frames(old(self).areas@),
                self.page_table.root_ppn() == old(self).page_table.root_ppn(),
                self.areas@.len() <= old(self).areas@.len(),
                self.areas@ == old(self).areas@.subrange(0, self.areas@.len() as int),
                forall|v: usize|
                    #[trigger] self.page_table@.contains_key(v) ==> old(self).page_table@.contains_key(v),
                forall|i: int, v: usize|
                    #![trigger old(self).areas@[i], self.page_table@.contains_key(v)]
                    self.areas@.len() <= i < old(self).areas@.len() && old(self).areas@[i].vpn_start
                        <= v < old(self).areas@[i].vpn_end ==> !self.page_table@.contains_key(v),
            decreases self.areas@.len(),
        {
            let ghost before = *self;
            let ghost fa0 = *fa;
            let ghost n = self.areas@.len() - 1;
            let mut area = match self.areas.pop() {
                Some(a) => a,
                None => {
                    return;
                },
            };
            let ghost orig = area;
            let ghost pt0 = self.page_table@;
            let s = area.vpn_start;
            let e = area.vpn_end;
            proof {
                assert(orig == before.areas@[n]);
                assert(orig.installed(pt0));
                assert(orig.frames_distinct());
                assert forall|v: usize| s <= v < e && orig.map_type == MapType::Framed implies fa0.is_allocated(
                    #[trigger] orig.data_frames@[v].ppn,
                ) by {
                    assert(orig.page_installed(pt0, v));
                    assert(before.areas@[n].frames_allocated(&fa0));
                };
                assert forall|k: int| 0 <= k < n implies #[trigger] self.areas@[k] == before.areas@[k] by {};
            }
            area.unmap_range(&mut self.page_table, fa, s, e);
            proof {
                let pt1 = self.page_table@;
                let fin = self.areas@;
                assert(fin == before.areas@.drop_last());
                assert(held_frames(before.areas@) == held_frames(fin) + area_frames(orig));
                assert(fin =~= old(self).areas@.subrange(0, fin.len() as int));
                assert forall|v: usize| #[trigger] pt1.contains_key(v) == (pt0.contains_key(v) && !(s <= v < e)) by {};
                assert forall|k: int| 0 <= k < fin.len() implies #[trigger] fin[k].installed(pt1) by {
                    assert(fin[k] == before.areas@[k]);
                    assert(before.areas@[k].installed(pt0));
                    assert(areas_disjoint(&before.areas@[k], &before.areas@[n]));
                    lemma_other_installed(&before.areas@[k], &orig, pt0, pt1, s, e);
                };
                assert forall|k: int| 0 <= k < fin.len() implies #[trigger] fin[k].frames_distinct() by {
                    assert(fin[k] == before.areas@[k]);
                };
                assert forall|k: int, l: int|
                    0 <= k < fin.len() && 0 <= l < fin.len() && k != l implies areas_disjoint(
                    #[trigger] &fin[k],
                    #[trigger] &fin[l],
                ) by {
                    assert(fin[k] == before.areas@[k] && fin[l] == before.areas@[l]);
                };
                assert forall|k: int, l: int, x: usize, y: usize|
                    0 <= k < fin.len() && 0 <= l < fin.len() && k != l
                        && fin[k].data_frames@.contains_key(x) && fin[l].data_frames@.contains_key(y)
                        implies #[trigger] fin[k].data_frames@[x].ppn != #[trigger] fin[l].data_frames@[y].ppn by {
                    assert(fin[k] == before.areas@[k] && fin[l] == before.areas@[l]);
                };
                assert forall|k: int| 0 <= k < fin.len() implies #[trigger] fin[k].frames_allocated(fa) by {
                    let b = before.areas@[k];
                    assert(fin[k] == b);
                    assert(b.frames_allocated(&fa0));
                    assert forall|x: usize| #[trigger] b.data_frames@.contains_key(x) implies fa.is_allocated(
                        b.data_frames@[x].ppn) by {
                        let q = b.data_frames@[x].ppn;
                        assert(fa0.is_allocated(q));
                        if orig.backs_in(q, s as int, e as int) {
                            let w = choose|w: usize| s <= w < e && #[trigger] orig.data_frames@.contains_key(w)
                                && orig.data_frames@[w].ppn == q;
                            assert(before.areas@[n].data_frames@[w].ppn == before.areas@[k].data_frames@[x].ppn);
                        }
                    };
                };
            }
        }
    }

    /// Destroys the address space: unmaps every region and hands all of its
    /// frames, the page-table root's included, back to `fa`.
    pub fn release(self, fa: &mut FrameAllocator)
        requires
            self.wf(),
            old(fa).wf(),
            self.frames_from(old(fa)),
        ensures
            final(fa).wf(),
            final(fa).free_count_spec() == old(fa).free_count_spec() + held_frames(self.areas@) + 1,
    {
        let mut ms = self;
        ms.recycle_data_pages(fa);
        let root = ms.page_table.into_root();
        fa.dealloc_frame(root);
    }
}

} // verus!

verus! {

/// Some region of `ms` backs page `v` with a frame.
pub open spec fn frame_populated(ms: &MemorySet, v: usize) -> bool {
    exists|i: int| 0 <= i < ms.areas@.len() && (#[trigger] ms.areas@[i]).data_frames@.contains_key(v)
}

/// A page backed by a frame is mapped; a mapped page that no frame backs
/// lies in no framed region: it belongs to an identical region or to no
/// region at all, as the trampoline page does. So the insertion check,
/// which refuses any mapped page, refuses every page backed by a frame, and
/// beyond those only pages that are mapped without a frame, where mapping
/// again would clash in the page table.
pub proof fn lemma_mapped_page_kinds(ms: &MemorySet, v: usize)
    requires
        ms.wf(),
    ensures
        frame_populated(ms, v) ==> ms.page_table@.contains_key(v),
        ms.page_table@.contains_key(v) && !frame_populated(ms, v) ==> forall|i: int|
            0 <= i < ms.areas@.len() && (#[trigger] ms.areas@[i]).map_type == MapType::Framed
                ==> !(ms.areas@[i].vpn_start <= v < ms.areas@[i].vpn_end),
{
    if frame_populated(ms, v) {
        let i = choose|i: int| 0 <= i < ms.areas@.len() && (#[trigger] ms.areas@[i]).data_frames@.contains_key(v);
        assert(ms.areas@[i].installed(ms.page_table@));
        assert(ms.areas@[i].page_installed(ms.page_table@, v));
    }
    assert forall|i: int|
        0 <= i < ms.areas@.len() && (#[trigger] ms.areas@[i]).map_type == MapType::Framed
            && ms.areas@[i].vpn_start <= v < ms.areas@[i].vpn_end implies frame_populated(ms, v) by {
        assert(ms.areas@[i].installed(ms.page_table@));
        assert(ms.areas@[i].page_installed(ms.page_table@, v));
    };
}

} // verus!
