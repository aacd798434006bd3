//! Regions: contiguous ranges of virtual pages with one mapping policy and
//! one permission set, and how they map and unmap their pages.

use std::collections::BTreeMap;
use vstd::prelude::*;

use crate::config::{ceil, ceil_spec, floor, floor_spec, lemma_floor_le_ceil, PAGE_SIZE};
use crate::frame_allocator::{FrameAllocator, FrameTracker};
use crate::page_table::{mapped_entry, PTEFlags, PageTable, PageTableEntry};

verus! {

/// How the pages of a region find their physical pages.
#[derive(Clone, Copy, Debug, PartialEq, Eq, Structural)]
pub enum MapType {
    /// Each virtual page maps to the physical page of the same number.
    Identical,
    /// Each virtual page maps to a frame that the region owns.
    Framed,
}

/// The access rights of a region.
#[derive(Clone, Copy, Debug, PartialEq, Eq, Structural)]
pub struct MapPermission {
    pub r: bool,
    pub w: bool,
    pub x: bool,
    pub u: bool,
}

impl MapPermission {
    /// The page-table flags that stand for these rights.
    pub open spec fn pte_flags_spec(&self) -> PTEFlags {
        PTEFlags { v: false, r: self.r, w: self.w, x: self.x, u: self.u }
    }

    /// The page-table flags that stand for these rights.
    pub fn pte_flags(&self) -> (r: PTEFlags)
        ensures
            r == self.pte_flags_spec(),
    {
        PTEFlags { v: false, r: self.r, w: self.w, x: self.x, u: self.u }
    }
}

/// Why an operation on an address space failed.
#[derive(Clone, Copy, Debug, PartialEq, Eq, Structural)]
pub enum MmError {
    /// An address is not page-aligned.
    AlignmentError,
    /// The requested access bits are zero or hold bits other than R, W and X.
    PermissionError,
    /// A page of the new region is mapped already.
    OverlapRejected,
    /// No single region covers the target range.
    RegionNotFound,
    /// The frame allocator has too few free frames.
    FrameExhausted,
    /// The executable image cannot be loaded.
    InvalidImage,
}

/// A contiguous range of virtual pages `[vpn_start, vpn_end)` with one
/// mapping policy and one permission set. A framed region owns the frames
/// that back its pages.
pub struct MapArea {
    pub vpn_start: usize,
    pub vpn_end: usize,
    pub data_frames: BTreeMap<usize, FrameTracker>,
    pub map_type: MapType,
    pub map_perm: MapPermission,
}

/// Whether two regions share no page.
pub open spec fn areas_disjoint(a: &MapArea, b: &MapArea) -> bool {
    a.vpn_end <= b.vpn_start || b.vpn_end <= a.vpn_start || a.vpn_start == a.vpn_end || b.vpn_start
        == b.vpn_end
}

impl MapArea {
    /// The physical page that `vpn` maps to in this region.
    pub open spec fn ppn_for(&self, vpn: usize) -> usize {
        match self.map_type {
            MapType::Identical => vpn,
            MapType::Framed => self.data_frames@[vpn].ppn,
        }
    }

    /// The page-table entry that this region installs for `vpn`.
    pub open spec fn entry_for(&self, vpn: usize) -> PageTableEntry {
        mapped_entry(self.ppn_for(vpn), self.map_perm.pte_flags_spec())
    }

    /// Every page of `[from, to)` is mapped in `pt` as this region maps it
    /// and, in a framed region, backed by a frame of the region.
    pub open spec fn pages_installed(&self, pt: Map<usize, PageTableEntry>, from: int, to: int) -> bool {
        forall|pg: usize| from <= pg < to ==> #[trigger] self.page_installed(pt, pg)
    }

    /// Page `pg` is mapped in `pt` as this region maps it and, in a framed
    /// region, backed by a frame of the region.
    pub open spec fn page_installed(&self, pt: Map<usize, PageTableEntry>, pg: usize) -> bool {
        &&& pt.contains_key(pg)
        &&& pt[pg] == self.entry_for(pg)
        &&& (self.map_type == MapType::Framed ==> self.data_frames@.contains_key(pg))
    }

    /// The region holds frames only for pages of `[from, to)`.
    pub open spec fn frames_within(&self, from: int, to: int) -> bool {
        forall|v: usize| #[trigger] self.data_frames@.contains_key(v) ==> from <= v < to
    }

    /// Every frame of the region is one page long.
    pub open spec fn frames_sized(&self) -> bool {
        forall|v: usize|
            #[trigger] self.data_frames@.contains_key(v) ==> self.data_frames@[v].bytes@.len()
                == PAGE_SIZE
    }

    /// No two pages of the region share a frame.
    pub open spec fn frames_distinct(&self) -> bool {
        forall|a: usize, b: usize|
            self.data_frames@.contains_key(a) && self.data_frames@.contains_key(b) && a != b
                ==> #[trigger] self.data_frames@[a].ppn != #[trigger] self.data_frames@[b].ppn
    }

    /// Every frame of the region is handed out by `fa`.
    pub open spec fn frames_allocated(&self, fa: &FrameAllocator) -> bool {
        forall|v: usize|
            #[trigger] self.data_frames@.contains_key(v) ==> fa.is_allocated(
                self.data_frames@[v].ppn,
            )
    }

    /// Some page of `[from, to)` is backed by frame `p`.
    pub open spec fn backs_in(&self, p: usize, from: int, to: int) -> bool {
        exists|v: usize|
            from <= v < to && #[trigger] self.data_frames@.contains_key(v)
                && self.data_frames@[v].ppn == p
    }

    /// The region is well formed and all its pages are mapped in `pt`.
    pub open spec fn installed(&self, pt: Map<usize, PageTableEntry>) -> bool {
        &&& self.vpn_start <= self.vpn_end
        &&& (self.map_type == MapType::Identical ==> self.data_frames@.is_empty())
        &&& self.frames_within(self.vpn_start as int, self.vpn_end as int)
        &&& self.pages_installed(pt, self.vpn_start as int, self.vpn_end as int)
        &&& self.frames_sized()
    }

    /// The bytes `d` lie in the region's frames from its first page on.
    pub open spec fn holds_data(&self, d: Seq<u8>) -> bool {
        forall|p: int, off: int|
            0 <= p && 0 <= off < PAGE_SIZE && p * PAGE_SIZE + off < d.len() ==> {
                &&& self.data_frames@.contains_key((self.vpn_start + p) as usize)
                &&& #[trigger] self.data_frames@[(self.vpn_start + p) as usize].bytes@[off] == d[p
                    * PAGE_SIZE + off]
            }
    }

    /// The page-table flags that the region maps its pages with.
    pub fn pte_flags(&self) -> (r: PTEFlags)
        ensures
            r == self.map_perm.pte_flags_spec(),
    {
        self.map_perm.pte_flags()
    }

    /// A region over the pages that cover the addresses `[start_va, end_va)`,
    /// with no page mapped yet.
    pub fn new(start_va: usize, end_va: usize, map_type: MapType, map_perm: MapPermission) -> (r:
        MapArea)
        requires
            start_va <= end_va,
        ensures
            r.vpn_start == floor_spec(start_va),
            r.vpn_end == ceil_spec(end_va),
            r.vpn_start <= r.vpn_end,
            r.data_frames@.is_empty(),
            r.map_type == map_type,
            r.map_perm == map_perm,
    {
        let vpn_start = floor(start_va);
        let vpn_end = ceil(end_va);
        proof {
            lemma_floor_le_ceil(start_va, end_va);
        }
        let r = MapArea {
            vpn_start,
            vpn_end,
            data_frames: BTreeMap::new(),
            map_type,
            map_perm,
        };
        assert(r.data_frames@ =~= Map::empty());
        r
    }

    /// Maps page `vpn`: in an identical region to the physical page of the
    /// same number, in a framed region to a fresh frame from `fa`. Returns
    /// false, and changes nothing, when a framed region finds no free frame.
    pub fn map_one(&mut self, page_table: &mut PageTable, fa: &mut FrameAllocator, vpn: usize) -> (r:
        bool)
        requires
            old(fa).wf(),
            !old(page_table)@.contains_key(vpn),
            !old(self).data_frames@.contains_key(vpn),
        ensures
            final(page_table).root_ppn() == old(page_table).root_ppn(),
            final(fa).wf(),
            final(self).vpn_start == old(self).vpn_start,
            final(self).vpn_end == old(self).vpn_end,
            final(self).map_type == old(self).map_type,
            final(self).map_perm == old(self).map_perm,
            r == (old(self).map_type == MapType::Identical || old(fa).free_count_spec() > 0),
            forall|p: usize| old(fa).is_allocated(p) ==> #[trigger] final(fa).is_allocated(p),
            forall|p: usize| #[trigger] final(fa).free_set().contains(p) ==> old(fa).free_set().contains(p),
            r ==> final(page_table)@ == old(page_table)@.insert(vpn, final(self).entry_for(vpn)),
            !r ==> final(page_table)@ == old(page_table)@,
            old(self).map_type == MapType::Identical ==> {
                &&& final(self).data_frames@ == old(self).data_frames@
                &&& final(fa).free_count_spec() == old(fa).free_count_spec()
            },
            old(self).map_type == MapType::Framed ==> if r {
                let f = final(self).data_frames@[vpn];
                &&& final(self).data_frames@ == old(self).data_frames@.insert(vpn, f)
                &&& old(fa).free_set().contains(f.ppn)
                &&& final(fa).is_allocated(f.ppn)
                &&& final(fa).free_count_spec() + 1 == old(fa).free_count_spec()
                &&& f.bytes@ == Seq::new(PAGE_SIZE as nat, |i: int| 0u8)
            } else {
                &&& final(self).data_frames@ == old(self).data_frames@
                &&& final(fa).free_count_spec() == old(fa).free_count_spec()
            },
    {
        let ppn: usize;
        match self.map_type {
            MapType::Identical => {
                ppn = vpn;
            },
            MapType::Framed => {
                let frame = fa.alloc_frame();
                match frame {
                    None => {
                        return false;
                    },
                    Some(f) => {
                        ppn = f.ppn;
                        self.data_frames.insert(vpn, f);
                    },
                }
            },
        }
        let flags = self.pte_flags();
        page_table.map(vpn, ppn, flags);
        true
    }

    /// Maps every page of `[from, to)`, in increasing order. The pages must
    /// be unmapped; a framed region needs `to - from` free frames, which the
    /// caller checks first, so the whole range is mapped.
    pub fn map_range(
        &mut self,
        page_table: &mut PageTable,
        fa: &mut FrameAllocator,
        from: usize,
        to: usize,
    )
        requires
            old(fa).wf(),
            from <= to,
            forall|v: usize| from <= v < to ==> !old(page_table)@.contains_key(v),
            forall|v: usize| from <= v < to ==> !old(self).data_frames@.contains_key(v),
            old(self).map_type == MapType::Framed ==> old(fa).free_count_spec() >= to - from,
        ensures
            final(page_table).root_ppn() == old(page_table).root_ppn(),
            final(fa).wf(),
            final(self).vpn_start == old(self).vpn_start,
            final(self).vpn_end == old(self).vpn_end,
            final(self).map_type == old(self).map_type,
            final(self).map_perm == old(self).map_perm,
            final(self).pages_installed(final(page_table)@, from as int, to as int),
            forall|v: usize|
                !(from <= v < to) ==> (#[trigger] final(page_table)@.contains_key(v)
                    == old(page_table)@.contains_key(v) && final(page_table)@[v] == old(page_table)@[v]),
            forall|v: usize|
                #[trigger] final(self).data_frames@.contains_key(v) <==> (old(self).data_frames@.contains_key(v) || (old(self).map_type == MapType::Framed && from
                    <= v < to)),
            forall|v: usize|
                #[trigger] old(self).data_frames@.contains_key(v) ==> final(self).data_frames@[v]
                    == old(self).data_frames@[v],
            forall|v: usize|
                from <= v < to && old(self).map_type == MapType::Framed ==> {
                    &&& old(fa).free_set().contains(
                        #[trigger] final(self).data_frames@[v].ppn,
                    )
                    &&& final(fa).is_allocated(final(self).data_frames@[v].ppn)
                    &&& final(self).data_frames@[v].bytes@.len() == PAGE_SIZE
                },
            forall|a: usize, b: usize|
                from <= a < to && from <= b < to && a != b && old(self).map_type == MapType::Framed
                    ==> #[trigger] final(self).data_frames@[a].ppn
                    != #[trigger] final(self).data_frames@[b].ppn,
            forall|p: usize| old(fa).is_allocated(p) ==> #[trigger] final(fa).is_allocated(p),
            old(self).map_type == MapType::Framed ==> final(fa).free_count_spec() + (to - from)
                == old(fa).free_count_spec(),
            old(self).map_type == MapType::Identical ==> final(fa).free_count_spec()
                == old(fa).free_count_spec(),
    {
        let mut v = from;
        while v < to
            invariant
                from <= v <= to,
                fa.wf(),
                page_table.root_ppn() == old(page_table).root_ppn(),
                forall|u: usize| from <= u < to ==> !old(page_table)@.contains_key(u),
                forall|u: usize| from <= u < to ==> !old(self).data_frames@.contains_key(u),
                old(self).map_type == MapType::Framed ==> old(fa).free_count_spec() >= to - from,
                self.vpn_start == old(self).vpn_start,
                self.vpn_end == old(self).vpn_end,
                self.map_type == old(self).map_type,
                self.map_perm == old(self).map_perm,
                self.pages_installed(page_table@, from as int, v as int),
                forall|u: usize|
                    !(from <= u < v) ==> (#[trigger] page_table@.contains_key(u)
                        == old(page_table)@.contains_key(u) && page_table@[u] == old(page_table)@[u]),
                forall|u: usize|
                    #[trigger] self.data_frames@.contains_key(u) <==> (old(self).data_frames@.contains_key(u) || (old(self).map_type == MapType::Framed
                        && from <= u < v)),
                forall|u: usize|
                    #[trigger] old(self).data_frames@.contains_key(u) ==> self.data_frames@[u]
                        == old(self).data_frames@[u],
                forall|u: usize|
                    from <= u < v && old(self).map_type == MapType::Framed ==> {
                        &&& old(fa).free_set().contains(#[trigger] self.data_frames@[u].ppn)
                        &&& fa.is_allocated(self.data_frames@[u].ppn)
                        &&& self.data_frames@[u].bytes@.len() == PAGE_SIZE
                    },
                forall|a: usize, b: usize|
                    from <= a < v && from <= b < v && a != b && old(self).map_type
                        == MapType::Framed ==> #[trigger] self.data_frames@[a].ppn
                        != #[trigger] self.data_frames@[b].ppn,
                forall|p: usize| old(fa).is_allocated(p) ==> #[trigger] fa.is_allocated(p),
                forall|p: usize| #[trigger] fa.free_set().contains(p) ==> old(fa).free_set().contains(p),
                old(self).map_type == MapType::Framed ==> fa.free_count_spec() + (v - from)
                    == old(fa).free_count_spec(),
                old(self).map_type == MapType::Identical ==> fa.free_count_spec()
                    == old(fa).free_count_spec(),
            decreases to - v,
        {
            let ghost fa_before = *fa;
            let ghost frames_before = self.data_frames@;
            let ghost pt_before = page_table@;
            let ghost self_before = *self;
            assert(!page_table@.contains_key(v));
            let ok = self.map_one(page_table, fa, v);
            assert(ok);
            proof {
                if self.map_type == MapType::Framed {
                    let f = self.data_frames@[v];
                    assert forall|u: usize| from <= u < v implies #[trigger] self.data_frames@[u].ppn
                        != f.ppn by {
                        fa_before.lemma_allocated_not_free(frames_before[u].ppn);
                    };
                    assert forall|u: usize|
                        from <= u < v + 1 && old(self).map_type == MapType::Framed implies {
                        &&& old(fa).free_set().contains(#[trigger] self.data_frames@[u].ppn)
                        &&& fa.is_allocated(self.data_frames@[u].ppn)
                        &&& self.data_frames@[u].bytes@.len() == PAGE_SIZE
                    } by {
                        if u == v {
                            assert(fa_before.free_set().contains(f.ppn));
                        }
                    };
                }
                assert forall|u: usize| from <= u < v + 1 implies #[trigger] self.page_installed(
                    page_table@,
                    u,
                ) by {
                    if u < v {
                        assert(self_before.page_installed(pt_before, u));
                        assert(self_before.entry_for(u) == self.entry_for(u));
                    } else {
                        assert(u == v);
                        assert(page_table@[u] == self.entry_for(u));
                    }
                };
                assert forall|u: usize| !(from <= u < v + 1) implies (#[trigger] page_table@.contains_key(u)
                    == old(page_table)@.contains_key(u) && page_table@[u] == old(page_table)@[u]) by {
                    assert(pt_before.contains_key(u) == old(page_table)@.contains_key(u));
                };
            }
            v = v + 1;
        }
    }

    /// Unmaps every page of `[from, to)`, in increasing order, and hands the
    /// frames of a framed region back to `fa`.
    pub fn unmap_range(
        &mut self,
        page_table: &mut PageTable,
        fa: &mut FrameAllocator,
        from: usize,
        to: usize,
    )
        requires
            old(fa).wf(),
            from <= to,
            old(self).pages_installed(old(page_table)@, from as int, to as int),
            old(self).frames_distinct(),
            old(self).map_type == MapType::Identical ==> old(self).data_frames@.is_empty(),
            old(self).map_type == MapType::Framed ==> forall|v: usize|
                from <= v < to ==> old(fa).is_allocated(
                    #[trigger] old(self).data_frames@[v].ppn,
                ),
        ensures
            final(page_table).root_ppn() == old(page_table).root_ppn(),
            final(fa).wf(),
            final(self).vpn_start == old(self).vpn_start,
            final(self).vpn_end == old(self).vpn_end,
            final(self).map_type == old(self).map_type,
            final(self).map_perm == old(self).map_perm,
            forall|v: usize|
                #[trigger] final(page_table)@.contains_key(v) == (old(page_table)@.contains_key(v)
                    && !(from <= v < to)),
            forall|v: usize|
                #[trigger] final(page_table)@.contains_key(v) ==> final(page_table)@[v] == old(page_table)@[v],
            forall|v: usize|
                #[trigger] final(self).data_frames@.contains_key(v) == (old(self).data_frames@.contains_key(v) && !(from <= v < to)),
            forall|v: usize|
                #[trigger] final(self).data_frames@.contains_key(v) ==> final(self).data_frames@[v]
                    == old(self).data_frames@[v],
            old(self).map_type == MapType::Framed ==> final(fa).free_count_spec() == old(fa).free_count_spec() + (to - from),
            old(self).map_type == MapType::Identical ==> final(fa).free_count_spec() == old(fa).free_count_spec(),
            forall|p: usize|
                old(fa).is_allocated(p) && !old(self).backs_in(p, from as int, to as int)
                    ==> #[trigger] final(fa).is_allocated(p),
    {
        let mut v = from;
        while v < to
            invariant
                from <= v <= to,
                fa.wf(),
                page_table.root_ppn() == old(page_table).root_ppn(),
                old(self).pages_installed(old(page_table)@, from as int, to as int),
                old(self).frames_distinct(),
                old(self).map_type == MapType::Identical ==> old(self).data_frames@.is_empty(),
                old(self).map_type == MapType::Framed ==> forall|u: usize|
                    v <= u < to ==> fa.is_allocated(#[trigger] old(self).data_frames@[u].ppn),
                self.vpn_start == old(self).vpn_start,
                self.vpn_end == old(self).vpn_end,
                self.map_type == old(self).map_type,
                self.map_perm == old(self).map_perm,
                forall|u: usize|
                    #[trigger] page_table@.contains_key(u) == (old(page_table)@.contains_key(u)
                        && !(from <= u < v)),
                forall|u: usize|
                    #[trigger] page_table@.contains_key(u) ==> page_table@[u] == old(page_table)@[u],
                forall|u: usize|
                    #[trigger] self.data_frames@.contains_key(u) == (old(self).data_frames@.contains_key(u) && !(from <= u < v)),
                forall|u: usize|
                    #[trigger] self.data_frames@.contains_key(u) ==> self.data_frames@[u] == old(self).data_frames@[u],
                old(self).map_type == MapType::Framed ==> fa.free_count_spec() == old(fa).free_count_spec() + (v - from),
                old(self).map_type == MapType::Identical ==> fa.free_count_spec() == old(fa).free_count_spec(),
                forall|p: usize|
                    old(fa).is_allocated(p) && !old(self).backs_in(p, from as int, v as int)
                        ==> #[trigger] fa.is_allocated(p),
            decreases to - v,
        {
            let ghost fa_before = *fa;
            proof {
                assert(old(self).page_installed(old(page_table)@, v));
                assert(page_table@.contains_key(v));
                if old(self).map_type == MapType::Framed {
                    assert(self.data_frames@.contains_key(v));
                }
                if old(self).map_type == MapType::Identical {
                    assert(!old(self).data_frames@.contains_key(v));
                }
            }
            self.unmap_one(page_table, fa, v);
            proof {
                let pv = old(self).data_frames@[v].ppn;
                if old(self).map_type == MapType::Framed {
                    assert forall|u: usize| v + 1 <= u < to implies fa.is_allocated(
                        #[trigger] old(self).data_frames@[u].ppn,
                    ) by {
                        assert(old(self).page_installed(old(page_table)@, u));
                        assert(fa_before.is_allocated(old(self).data_frames@[u].ppn));
                        assert(old(self).data_frames@[u].ppn != pv);
                    };
                }
                assert forall|p: usize|
                    old(fa).is_allocated(p) && !old(self).backs_in(p, from as int, v + 1)
                        implies #[trigger] fa.is_allocated(p) by {
                    if old(self).backs_in(p, from as int, v as int) {
                        let w = choose|w: usize|
                            from <= w < v && #[trigger] old(self).data_frames@.contains_key(w)
                                && old(self).data_frames@[w].ppn == p;
                        assert(old(self).backs_in(p, from as int, v + 1));
                    }
                    assert(fa_before.is_allocated(p));
                    if old(self).map_type == MapType::Framed {
                        if p == pv {
                            assert(old(self).data_frames@.contains_key(v));
                            assert(old(self).backs_in(p, from as int, v + 1));
                        }
                    }
                };
            }
            v = v + 1;
        }
    }

    /// Splits off the pages below `at`: the result is the region
    /// `[vpn_start, at)` with their frames, and this region keeps `[at, vpn_end)`
    /// with the rest.
    pub fn split_front(&mut self, at: usize) -> (front: MapArea)
        requires
            old(self).vpn_start <= at <= old(self).vpn_end,
            old(self).frames_within(old(self).vpn_start as int, old(self).vpn_end as int),
        ensures
            front.vpn_start == old(self).vpn_start,
            front.vpn_end == at,
            front.map_type == old(self).map_type,
            front.map_perm == old(self).map_perm,
            final(self).vpn_start == at,
            final(self).vpn_end == old(self).vpn_end,
            final(self).map_type == old(self).map_type,
            final(self).map_perm == old(self).map_perm,
            forall|v: usize|
                #[trigger] front.data_frames@.contains_key(v) == (old(self).data_frames@.contains_key(
                    v,
                ) && v < at),
            forall|v: usize|
                #[trigger] front.data_frames@.contains_key(v) ==> front.data_frames@[v] == old(self).data_frames@[v],
            forall|v: usize|
                #[trigger] final(self).data_frames@.contains_key(v) == (old(self).data_frames@.contains_key(v) && at <= v),
            forall|v: usize|
                #[trigger] final(self).data_frames@.contains_key(v) ==> final(self).data_frames@[v]
                    == old(self).data_frames@[v],
    {
        let mut front = MapArea {
            vpn_start: self.vpn_start,
            vpn_end: at,
            data_frames: BTreeMap::new(),
            map_type: self.map_type,
            map_perm: self.map_perm,
        };
        let mut v = self.vpn_start;
        while v < at
            invariant
                old(self).vpn_start <= v <= at,
                old(self).frames_within(old(self).vpn_start as int, old(self).vpn_end as int),
                front.vpn_start == old(self).vpn_start,
                front.vpn_end == at,
                front.map_type == old(self).map_type,
                front.map_perm == old(self).map_perm,
                self.vpn_start == old(self).vpn_start,
                self.vpn_end == old(self).vpn_end,
                self.map_type == old(self).map_type,
                self.map_perm == old(self).map_perm,
                forall|u: usize|
                    #[trigger] front.data_frames@.contains_key(u) == (old(self).data_frames@.contains_key(u) && u < v),
                forall|u: usize|
                    #[trigger] front.data_frames@.contains_key(u) ==> front.data_frames@[u] == old(self).data_frames@[u],
                forall|u: usize|
                    #[trigger] self.data_frames@.contains_key(u) == (old(self).data_frames@.contains_key(u) && v <= u),
                forall|u: usize|
                    #[trigger] self.data_frames@.contains_key(u) ==> self.data_frames@[u] == old(self).data_frames@[u],
            decreases at - v,
        {
            let moved = self.data_frames.remove(&v);
            match moved {
                Some(f) => {
                    front.data_frames.insert(v, f);
                },
                None => {},
            }
            v = v + 1;
        }
        self.vpn_start = at;
        front
    }

    /// Copies `data` into the region's frames, from the first byte of its
    /// first page on, page by page. The bytes of the last page past `data`
    /// keep what they held.
    pub fn copy_data(&mut self, data: &[u8])
        requires
            old(self).map_type == MapType::Framed,
            old(self).frames_sized(),
            old(self).vpn_start <= old(self).vpn_end,
            forall|v: usize|
                old(self).vpn_start <= v < old(self).vpn_end ==> #[trigger] old(self).data_frames@.contains_key(v),
            data@.len() <= (old(self).vpn_end - old(self).vpn_start) * PAGE_SIZE,
        ensures
            final(self).vpn_start == old(self).vpn_start,
            final(self).vpn_end == old(self).vpn_end,
            final(self).map_type == old(self).map_type,
            final(self).map_perm == old(self).map_perm,
            final(self).frames_sized(),
            forall|v: usize|
                #[trigger] final(self).data_frames@.contains_key(v) == old(self).data_frames@.contains_key(v),
            forall|v: usize|
                #[trigger] final(self).data_frames@.contains_key(v) ==> final(self).data_frames@[v].ppn == old(self).data_frames@[v].ppn,
            final(self).holds_data(data@),
            forall|v: usize, off: int|
                old(self).data_frames@.contains_key(v) && 0 <= off < PAGE_SIZE && (v
                    < old(self).vpn_start || (v - old(self).vpn_start) * PAGE_SIZE + off
                    >= data@.len()) ==> #[trigger] final(self).data_frames@[v].bytes@[off] == old(
                    self).data_frames@[v].bytes@[off],
    {
        let len = data.len();
        let mut start: usize = 0;
        let mut page: usize = 0;
        while start < len
            invariant
                len == data@.len(),
                start <= len,
                start == page * PAGE_SIZE || start == len,
                start <= page * PAGE_SIZE,
                page <= self.vpn_end - self.vpn_start,
                start < len ==> page < self.vpn_end - self.vpn_start,
                len <= (self.vpn_end - self.vpn_start) * PAGE_SIZE,
                self.vpn_start == old(self).vpn_start,
                self.vpn_end == old(self).vpn_end,
                self.map_type == old(self).map_type,
                self.map_perm == old(self).map_perm,
                self.vpn_start <= self.vpn_end,
                self.frames_sized(),
                forall|v: usize|
                    #[trigger] self.data_frames@.contains_key(v) == old(self).data_frames@.contains_key(v),
                forall|v: usize|
                    #[trigger] self.data_frames@.contains_key(v) ==> self.data_frames@[v].ppn
                        == old(self).data_frames@[v].ppn,
                forall|v: usize|
                    old(self).vpn_start <= v < old(self).vpn_end ==> #[trigger] old(self).data_frames@.contains_key(v),
                forall|v: usize, off: int|
                    old(self).data_frames@.contains_key(v) && 0 <= off < PAGE_SIZE && (v
                        < self.vpn_start || v >= self.vpn_start + page || (v - self.vpn_start)
                        * PAGE_SIZE + off >= len) ==> #[trigger] self.data_frames@[v].bytes@[off]
                        == old(self).data_frames@[v].bytes@[off],
                forall|p: int, off: int|
                    0 <= p < page && 0 <= off < PAGE_SIZE && p * PAGE_SIZE + off < len ==> {
                        &&& self.data_frames@.contains_key((self.vpn_start + p) as usize)
                        &&& #[trigger] self.data_frames@[(self.vpn_start + p) as usize].bytes@[off]
                            == data@[p * PAGE_SIZE + off]
                    },
            decreases len - start,
        {
            let vpn = self.vpn_start + page;
            let chunk = if len - start < PAGE_SIZE {
                len - start
            } else {
                PAGE_SIZE
            };
            assert(self.data_frames@.contains_key(vpn));
            let ghost frames_before = self.data_frames@;
            let taken = self.data_frames.remove(&vpn);
            match taken {
                Some(f) => {
                    let mut frame = f;
                    let mut i: usize = 0;
                    while i < chunk
                        invariant
                            0 <= i <= chunk <= PAGE_SIZE,
                            start + chunk <= len,
                            len == data@.len(),
                            frame.ppn == frames_before[vpn].ppn,
                            frame.bytes@.len() == PAGE_SIZE,
                            forall|k: int| 0 <= k < i ==> #[trigger] frame.bytes@[k] == data@[start + k],
                            forall|k: int| i <= k < PAGE_SIZE ==> #[trigger] frame.bytes@[k] == frames_before[vpn].bytes@[k],
                        decreases chunk - i,
                    {
                        frame.bytes.set(i, data[start + i]);
                        i = i + 1;
                    }
                    self.data_frames.insert(vpn, frame);
                },
                None => {},
            }
            proof {
                assert forall|p: int, off: int|
                    0 <= p < page + 1 && 0 <= off < PAGE_SIZE && p * PAGE_SIZE + off < len implies {
                    &&& self.data_frames@.contains_key((self.vpn_start + p) as usize)
                    &&& #[trigger] self.data_frames@[(self.vpn_start + p) as usize].bytes@[off]
                        == data@[p * PAGE_SIZE + off]
                } by {
                    if p < page {
                        assert(frames_before.contains_key((self.vpn_start + p) as usize));
                    } else {
                        assert(p == page);
                        assert(start == page * PAGE_SIZE);
                        assert(off < chunk);
                    }
                };
                assert forall|v: usize, off: int|
                    old(self).data_frames@.contains_key(v) && 0 <= off < PAGE_SIZE && (v
                        < self.vpn_start || v >= self.vpn_start + page + 1 || (v - self.vpn_start)
                        * PAGE_SIZE + off >= len) implies #[trigger] self.data_frames@[v].bytes@[off]
                        == old(self).data_frames@[v].bytes@[off] by {
                    assert(frames_before.contains_key(v));
                    if v == vpn {
                        assert(off >= chunk);
                        assert(frames_before[v].bytes@[off] == old(self).data_frames@[v].bytes@[off]);
                    }
                };
            }
            start = start + chunk;
            page = page + 1;
        }
        assert forall|p: int, off: int|
            0 <= p && 0 <= off < PAGE_SIZE && p * PAGE_SIZE + off < data@.len() implies {
            &&& self.data_frames@.contains_key((self.vpn_start + p) as usize)
            &&& #[trigger] self.data_frames@[(self.vpn_start + p) as usize].bytes@[off] == data@[p
                * PAGE_SIZE + off]
        } by {
            assert(p < page);
        };
    }

    /// Maps every page of the region, in increasing order. Returns false,
    /// mapping nothing, when a framed region would need more frames than
    /// `fa` has free.
    pub fn map(&mut self, page_table: &mut PageTable, fa: &mut FrameAllocator) -> (r: bool)
        requires
            old(fa).wf(),
            old(self).vpn_start <= old(self).vpn_end,
            old(self).data_frames@.is_empty(),
            forall|v: usize|
                old(self).vpn_start <= v < old(self).vpn_end ==> !#[trigger] old(
                    page_table)@.contains_key(v),
        ensures
            final(page_table).root_ppn() == old(page_table).root_ppn(),
            final(fa).wf(),
            r == (old(self).map_type == MapType::Identical || old(fa).free_count_spec() >= old(
                self).vpn_end - old(self).vpn_start),
            r ==> final(self).installed(final(page_table)@),
            r ==> forall|v: usize|
                #[trigger] final(page_table)@.contains_key(v) == (old(page_table)@.contains_key(v)
                    || (old(self).vpn_start <= v < old(self).vpn_end)),
            !r ==> final(page_table)@ == old(page_table)@,
            final(self).vpn_start == old(self).vpn_start,
            final(self).vpn_end == old(self).vpn_end,
    {
        let start = self.vpn_start;
        let end = self.vpn_end;
        if self.map_type == MapType::Framed && !fa.has_free(end - start) {
            return false;
        }
        proof {
            assert forall|v: usize| start <= v < end implies !old(self).data_frames@.contains_key(v) by {
                assert(!old(self).data_frames@.dom().contains(v));
            };
        }
        self.map_range(page_table, fa, start, end);
        proof {
            assert forall|v: usize| #[trigger] self.data_frames@.contains_key(v) implies start <= v < end
                && self.data_frames@[v].bytes@.len() == PAGE_SIZE by {
                assert(!old(self).data_frames@.dom().contains(v));
                assert(fa.is_allocated(self.data_frames@[v].ppn));
            };
            if self.map_type == MapType::Identical {
                assert(self.data_frames@.dom() =~= Set::empty()) by {
                    assert forall|v: usize| !self.data_frames@.dom().contains(v) by {
                        assert(!old(self).data_frames@.dom().contains(v));
                    };
                };
            }
            assert forall|v: usize| #[trigger] page_table@.contains_key(v) == (old(page_table)@.contains_key(v)
                || (start <= v < end)) by {
                if start <= v < end {
                    assert(self.page_installed(page_table@, v));
                }
            };
        }
        true
    }

    /// Unmaps every page of the region, in increasing order, handing the
    /// frames of a framed region back to `fa`.
    pub fn unmap(&mut self, page_table: &mut PageTable, fa: &mut FrameAllocator)
        requires
            old(fa).wf(),
            old(self).installed(old(page_table)@),
            old(self).frames_distinct(),
            old(self).frames_allocated(old(fa)),
        ensures
            final(page_table).root_ppn() == old(page_table).root_ppn(),
            final(fa).wf(),
            final(self).data_frames@.is_empty(),
            final(fa).free_count_spec() == old(fa).free_count_spec() + (if old(self).map_type
                == MapType::Framed {
                old(self).vpn_end - old(self).vpn_start
            } else {
                0
            }),
            forall|v: usize|
                #[trigger] final(page_table)@.contains_key(v) == (old(page_table)@.contains_key(v)
                    && !(old(self).vpn_start <= v < old(self).vpn_end)),
    {
        let start = self.vpn_start;
        let end = self.vpn_end;
        proof {
            assert forall|v: usize| start <= v < end && old(self).map_type == MapType::Framed implies old(fa).is_allocated(
                #[trigger] old(self).data_frames@[v].ppn,
            ) by {
                assert(old(self).page_installed(old(page_table)@, v));
            };
        }
        self.unmap_range(page_table, fa, start, end);
        proof {
            assert(self.data_frames@.dom() =~= Set::empty()) by {
                assert forall|v: usize| !self.data_frames@.dom().contains(v) by {
                    if old(self).data_frames@.contains_key(v) {
                        assert(start <= v < end);
                    }
                };
            };
        }
    }

    /// Unmaps the pages `[new_end, vpn_end)` and ends the region at `new_end`.
    pub fn shrink_to(&mut self, page_table: &mut PageTable, fa: &mut FrameAllocator, new_end: usize)
        requires
            old(fa).wf(),
            old(self).installed(old(page_table)@),
            old(self).frames_distinct(),
            old(self).frames_allocated(old(fa)),
            old(self).vpn_start <= new_end <= old(self).vpn_end,
        ensures
            final(page_table).root_ppn() == old(page_table).root_ppn(),
            final(fa).wf(),
            final(self).installed(final(page_table)@),
            is_piece(final(self), old(self), old(self).vpn_start, new_end),
            final(fa).free_count_spec() == old(fa).free_count_spec() + (if old(self).map_type
                == MapType::Framed {
                old(self).vpn_end - new_end
            } else {
                0
            }),
            forall|v: usize|
                #[trigger] final(page_table)@.contains_key(v) == (old(page_table)@.contains_key(v)
                    && !(new_end <= v < old(self).vpn_end)),
    {
        let ghost orig = *self;
        let ghost pt0 = page_table@;
        let end = self.vpn_end;
        proof {
            assert forall|v: usize| new_end <= v < end && orig.map_type == MapType::Framed implies old(fa).is_allocated(
                #[trigger] orig.data_frames@[v].ppn,
            ) by {
                assert(orig.page_installed(pt0, v));
            };
        }
        self.unmap_range(page_table, fa, new_end, end);
        self.vpn_end = new_end;
        proof {
            assert forall|v: usize| #[trigger] self.data_frames@.contains_key(v) == (orig.data_frames@.contains_key(v)
                && orig.vpn_start <= v < new_end) by {
                if orig.data_frames@.contains_key(v) {
                    assert(orig.vpn_start <= v < orig.vpn_end);
                }
            };
            lemma_piece_installed(self, &orig, orig.vpn_start, new_end, pt0, page_table@, new_end, end);
        }
    }

    /// Maps the pages `[vpn_end, new_end)` and ends the region at `new_end`.
    /// Returns false, changing nothing, when a framed region would need more
    /// frames than `fa` has free.
    pub fn append_to(&mut self, page_table: &mut PageTable, fa: &mut FrameAllocator, new_end: usize) -> (r:
        bool)
        requires
            old(fa).wf(),
            old(self).installed(old(page_table)@),
            old(self).vpn_end <= new_end,
            forall|v: usize|
                old(self).vpn_end <= v < new_end ==> !#[trigger] old(page_table)@.contains_key(v),
        ensures
            final(page_table).root_ppn() == old(page_table).root_ppn(),
            final(fa).wf(),
            r == (old(self).map_type == MapType::Identical || old(fa).free_count_spec() >= new_end
                - old(self).vpn_end),
            final(self).vpn_start == old(self).vpn_start,
            final(self).map_type == old(self).map_type,
            final(self).map_perm == old(self).map_perm,
            forall|v: usize|
                #[trigger] old(self).data_frames@.contains_key(v) ==> final(self).data_frames@.contains_key(v)
                    && final(self).data_frames@[v] == old(self).data_frames@[v],
            forall|v: usize|
                #[trigger] old(page_table)@.contains_key(v) ==> final(page_table)@.contains_key(v)
                    && final(page_table)@[v] == old(page_table)@[v],
            old(self).map_type == MapType::Framed ==> final(fa).free_count_spec() + (if r {
                new_end - old(self).vpn_end
            } else {
                0int
            }) == old(fa).free_count_spec(),
            final(self).vpn_end == (if r {
                new_end
            } else {
                old(self).vpn_end
            }),
            r ==> final(self).pages_installed(final(page_table)@, old(self).vpn_start as int, new_end as int),
            r ==> forall|v: usize|
                #[trigger] final(page_table)@.contains_key(v) == (old(page_table)@.contains_key(v)
                    || (old(self).vpn_end <= v < new_end)),
            !r ==> final(page_table)@ == old(page_table)@,
    {
        let end = self.vpn_end;
        if self.map_type == MapType::Framed && !fa.has_free(new_end - end) {
            return false;
        }
        let ghost orig = *self;
        let ghost pt0 = page_table@;
        proof {
            assert forall|v: usize| end <= v < new_end implies !orig.data_frames@.contains_key(v) by {
                if orig.data_frames@.contains_key(v) {
                    assert(orig.vpn_start <= v < orig.vpn_end);
                }
            };
        }
        self.map_range(page_table, fa, end, new_end);
        let ghost m = *self;
        self.vpn_end = new_end;
        proof {
            assert forall|pg: usize| orig.vpn_start <= pg < new_end implies #[trigger] self.page_installed(
                page_table@,
                pg,
            ) by {
                if pg < end {
                    assert(orig.page_installed(pt0, pg));
                    assert(page_table@.contains_key(pg));
                    if orig.map_type == MapType::Framed {
                        assert(orig.data_frames@.contains_key(pg));
                        assert(self.data_frames@[pg] == orig.data_frames@[pg]);
                    }
                    assert(self.entry_for(pg) == orig.entry_for(pg));
                } else {
                    assert(m.page_installed(page_table@, pg));
                    assert(self.entry_for(pg) == m.entry_for(pg));
                }
            };
            assert forall|v: usize| #[trigger] page_table@.contains_key(v) == (pt0.contains_key(v)
                || (end <= v < new_end)) by {
                if end <= v < new_end {
                    assert(m.page_installed(page_table@, v));
                }
            };
        }
        true
    }

    /// Unmaps page `vpn` and, in a framed region, hands its frame back to `fa`.
    pub fn unmap_one(&mut self, page_table: &mut PageTable, fa: &mut FrameAllocator, vpn: usize)
        requires
            old(fa).wf(),
            old(page_table)@.contains_key(vpn),
            old(self).map_type == MapType::Framed ==> {
                &&& old(self).data_frames@.contains_key(vpn)
                &&& old(fa).is_allocated(old(self).data_frames@[vpn].ppn)
            },
        ensures
            final(page_table).root_ppn() == old(page_table).root_ppn(),
            final(fa).wf(),
            final(self).vpn_start == old(self).vpn_start,
            final(self).vpn_end == old(self).vpn_end,
            final(self).map_type == old(self).map_type,
            final(self).map_perm == old(self).map_perm,
            final(page_table)@ == old(page_table)@.remove(vpn),
            old(self).map_type == MapType::Identical ==> {
                &&& final(self).data_frames@ == old(self).data_frames@
                &&& final(fa).free_count_spec() == old(fa).free_count_spec()
                &&& forall|p: usize| #[trigger] final(fa).is_allocated(p) == old(fa).is_allocated(p)
            },
            old(self).map_type == MapType::Framed ==> {
                let p = old(self).data_frames@[vpn].ppn;
                &&& final(self).data_frames@ == old(self).data_frames@.remove(vpn)
                &&& final(fa).free_count_spec() == old(fa).free_count_spec() + 1
                &&& forall|q: usize|
                    q != p ==> #[trigger] final(fa).is_allocated(q) == old(fa).is_allocated(q)
            },
    {
        if self.map_type == MapType::Framed {
            let frame = self.data_frames.remove(&vpn);
            match frame {
                Some(f) => {
                    fa.dealloc_frame(f);
                },
                None => {},
            }
        }
        page_table.unmap(vpn);
    }
}

/// Region `piece` is the part `[from, to)` of region `orig`, with its frames.
pub open spec fn is_piece(piece: &MapArea, orig: &MapArea, from: usize, to: usize) -> bool {
    &&& piece.vpn_start == from
    &&& piece.vpn_end == to
    &&& piece.map_type == orig.map_type
    &&& piece.map_perm == orig.map_perm
    &&& forall|v: usize|
        #[trigger] piece.data_frames@.contains_key(v) == (orig.data_frames@.contains_key(v) && from
            <= v < to)
    &&& forall|v: usize|
        #[trigger] piece.data_frames@.contains_key(v) ==> piece.data_frames@[v]
            == orig.data_frames@[v]
}

/// A region that shares no page with `orig` stays installed when the pages
/// `[s, e)` of `orig` leave the page table.
pub(crate) proof fn lemma_other_installed(
    a: &MapArea,
    orig: &MapArea,
    pt0: Map<usize, PageTableEntry>,
    pt1: Map<usize, PageTableEntry>,
    s: usize,
    e: usize,
)
    requires
        a.installed(pt0),
        areas_disjoint(a, orig),
        orig.vpn_start <= s <= e <= orig.vpn_end,
        forall|v: usize| #[trigger] pt1.contains_key(v) == (pt0.contains_key(v) && !(s <= v < e)),
        forall|v: usize| #[trigger] pt1.contains_key(v) ==> pt1[v] == pt0[v],
    ensures
        a.installed(pt1),
{
    assert forall|pg: usize| a.vpn_start <= pg < a.vpn_end implies #[trigger] a.page_installed(pt1, pg) by {
        assert(a.page_installed(pt0, pg));
        assert(pt1.contains_key(pg));
    };
}

/// The part `[from, to)` of `orig`, outside the pages `[s, e)` that left the
/// page table, is installed.
pub(crate) proof fn lemma_piece_installed(
    piece: &MapArea,
    orig: &MapArea,
    from: usize,
    to: usize,
    pt0: Map<usize, PageTableEntry>,
    pt1: Map<usize, PageTableEntry>,
    s: usize,
    e: usize,
)
    requires
        orig.installed(pt0),
        is_piece(piece, orig, from, to),
        orig.vpn_start <= from <= to <= orig.vpn_end,
        to <= s || e <= from,
        forall|v: usize| #[trigger] pt1.contains_key(v) == (pt0.contains_key(v) && !(s <= v < e)),
        forall|v: usize| #[trigger] pt1.contains_key(v) ==> pt1[v] == pt0[v],
    ensures
        piece.installed(pt1),
{
    assert forall|pg: usize| from <= pg < to implies #[trigger] piece.page_installed(pt1, pg) by {
        assert(orig.page_installed(pt0, pg));
        assert(pt1.contains_key(pg));
        if orig.map_type == MapType::Framed {
            assert(piece.data_frames@.contains_key(pg));
        }
        assert(piece.entry_for(pg) == orig.entry_for(pg));
    };
    assert forall|v: usize| #[trigger] piece.data_frames@.contains_key(v) implies piece.data_frames@[
        v].bytes@.len() == PAGE_SIZE by {
        assert(orig.data_frames@.contains_key(v));
    };
    if piece.map_type == MapType::Identical {
        assert(piece.data_frames@.dom() =~= Set::empty()) by {
            assert forall|v: usize| !piece.data_frames@.dom().contains(v) by {
                assert(!orig.data_frames@.dom().contains(v));
            };
        };
    }
}

/// A region grown from `orig` over pages that were unmapped still shares no
/// page with a region `b` that shared none with `orig`.
pub(crate) proof fn lemma_grown_disjoint(a: &MapArea, b: &MapArea, orig: &MapArea, pt0: Map<usize, PageTableEntry>, ne: usize)
    requires
        b.installed(pt0),
        areas_disjoint(b, orig),
        a.vpn_start == orig.vpn_start,
        a.vpn_end == ne,
        orig.vpn_start <= orig.vpn_end <= ne,
        forall|v: usize| orig.vpn_end <= v < ne ==> !#[trigger] pt0.contains_key(v),
    ensures
        areas_disjoint(a, b),
        areas_disjoint(b, a),
{
    if !areas_disjoint(a, b) {
        assert(b.vpn_start < ne && orig.vpn_start < b.vpn_end && b.vpn_start < b.vpn_end);
        let pg: usize = if b.vpn_start < orig.vpn_end { orig.vpn_end } else { b.vpn_start };
        assert(b.page_installed(pt0, pg));
        assert(false);
    }
}

} // verus!
