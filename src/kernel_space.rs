//! The kernel's own address space: its sections mapped to themselves.

use vstd::prelude::*;

use crate::config::{ceil, ceil_spec, floor, floor_spec, lemma_floor_le_ceil, PAGE_SIZE, TRAMPOLINE};
use crate::frame_allocator::FrameAllocator;
use crate::map_area::{MapArea, MapPermission, MapType};
use crate::memory_set::MemorySet;
use crate::page_table::{mapped_entry, PTEFlags, PageTableEntry};

verus! {

/// Where the kernel's sections lie in physical memory, which the kernel
/// address space maps to the same addresses, and where the trampoline code is.
#[derive(Clone, Copy, Debug, PartialEq, Eq, Structural)]
pub struct KernelLayout {
    pub stext: usize,
    pub etext: usize,
    pub srodata: usize,
    pub erodata: usize,
    pub sdata: usize,
    pub edata: usize,
    pub sbss_with_stack: usize,
    pub ebss: usize,
    pub ekernel: usize,
    pub memory_end: usize,
    pub strampoline: usize,
}

impl KernelLayout {
    /// The sections come in this order and share no page, and physical
    /// memory ends below the trampoline page.
    pub open spec fn wf(&self) -> bool {
        &&& self.stext <= self.etext
        &&& ceil_spec(self.etext) <= floor_spec(self.srodata)
        &&& self.srodata <= self.erodata
        &&& ceil_spec(self.erodata) <= floor_spec(self.sdata)
        &&& self.sdata <= self.edata
        &&& ceil_spec(self.edata) <= floor_spec(self.sbss_with_stack)
        &&& self.sbss_with_stack <= self.ebss
        &&& ceil_spec(self.ebss) <= floor_spec(self.ekernel)
        &&& self.ekernel <= self.memory_end
        &&& ceil_spec(self.memory_end) <= floor_spec(TRAMPOLINE)
    }

    /// Whether the layout is well formed.
    pub fn is_valid(&self) -> (r: bool)
        ensures
            r == self.wf(),
    {
        self.stext <= self.etext && ceil(self.etext) <= floor(self.srodata) && self.srodata
            <= self.erodata && ceil(self.erodata) <= floor(self.sdata) && self.sdata <= self.edata
            && ceil(self.edata) <= floor(self.sbss_with_stack) && self.sbss_with_stack <= self.ebss
            && ceil(self.ebss) <= floor(self.ekernel) && self.ekernel <= self.memory_end && ceil(
            self.memory_end,
        ) <= floor(TRAMPOLINE)
    }
}

/// Read and execute: the rights of code.
pub open spec fn perm_rx() -> MapPermission {
    MapPermission { r: true, w: false, x: true, u: false }
}

/// Read only.
pub open spec fn perm_r() -> MapPermission {
    MapPermission { r: true, w: false, x: false, u: false }
}

/// Read and write.
pub open spec fn perm_rw() -> MapPermission {
    MapPermission { r: true, w: true, x: false, u: false }
}

/// Read and write, from user mode too.
pub open spec fn perm_rwu() -> MapPermission {
    MapPermission { r: true, w: true, x: false, u: true }
}

/// Every page that covers `[start_va, end_va)` maps to the physical page of
/// the same number with permission `perm`.
pub open spec fn maps_identically(ms: &MemorySet, start_va: usize, end_va: usize, perm: MapPermission) -> bool {
    forall|v: usize|
        floor_spec(start_va) <= v < ceil_spec(end_va) ==> {
            &&& #[trigger] ms.page_table@.contains_key(v)
            &&& ms.page_table@[v] == mapped_entry(v, perm.pte_flags_spec())
        }
}

/// The trampoline page maps to the page of the trampoline code, readable
/// and executable.
pub open spec fn maps_trampoline(ms: &MemorySet, strampoline: usize) -> bool {
    &&& ms.page_table@.contains_key(floor_spec(TRAMPOLINE))
    &&& ms.page_table@[floor_spec(TRAMPOLINE)] == mapped_entry(
        floor_spec(strampoline),
        perm_rx().pte_flags_spec(),
    )
}

/// `ms` is the kernel address space of `layout`: the trampoline, and each
/// section mapped to itself with the rights of its purpose.
pub open spec fn is_kernel_space(ms: &MemorySet, layout: &KernelLayout) -> bool {
    &&& maps_trampoline(ms, layout.strampoline)
    &&& maps_identically(ms, layout.stext, layout.etext, perm_rx())
    &&& maps_identically(ms, layout.srodata, layout.erodata, perm_r())
    &&& maps_identically(ms, layout.sdata, layout.edata, perm_rw())
    &&& maps_identically(ms, layout.sbss_with_stack, layout.ebss, perm_rw())
    &&& maps_identically(ms, layout.ekernel, layout.memory_end, perm_rw())
}

/// Region `a` maps the pages that cover `[start_va, end_va)` to themselves
/// with permission `perm`, and holds no frame.
pub open spec fn identical_region(a: &MapArea, start_va: usize, end_va: usize, perm: MapPermission) -> bool {
    &&& a.vpn_start == floor_spec(start_va)
    &&& a.vpn_end == ceil_spec(end_va)
    &&& a.map_type == MapType::Identical
    &&& a.map_perm == perm
    &&& a.data_frames@.is_empty()
}

/// The regions of `ms` are the five identical regions of `layout`'s code,
/// read-only data, data, bss and remaining physical memory, and none of them
/// holds the trampoline page.
pub open spec fn kernel_regions(ms: &MemorySet, layout: &KernelLayout) -> bool {
    &&& ms.areas@.len() == 5
    &&& identical_region(&ms.areas@[0], layout.stext, layout.etext, perm_rx())
    &&& identical_region(&ms.areas@[1], layout.srodata, layout.erodata, perm_r())
    &&& identical_region(&ms.areas@[2], layout.sdata, layout.edata, perm_rw())
    &&& identical_region(&ms.areas@[3], layout.sbss_with_stack, layout.ebss, perm_rw())
    &&& identical_region(&ms.areas@[4], layout.ekernel, layout.memory_end, perm_rw())
    &&& forall|k: int|
        0 <= k < 5 ==> !((#[trigger] ms.areas@[k]).vpn_start <= floor_spec(TRAMPOLINE)
            < ms.areas@[k].vpn_end)
}

/// Entries that a later step keeps leave an identical mapping in place.
proof fn lemma_identical_kept(ms0: &MemorySet, ms1: &MemorySet, s: usize, e: usize, perm: MapPermission)
    requires
        maps_identically(ms0, s, e, perm),
        forall|v: usize|
            #[trigger] ms0.page_table@.contains_key(v) ==> ms1.page_table@.contains_key(v)
                && ms1.page_table@[v] == ms0.page_table@[v],
    ensures
        maps_identically(ms1, s, e, perm),
{
    assert forall|v: usize| floor_spec(s) <= v < ceil_spec(e) implies {
        &&& #[trigger] ms1.page_table@.contains_key(v)
        &&& ms1.page_table@[v] == mapped_entry(v, perm.pte_flags_spec())
    } by {
        assert(ms0.page_table@.contains_key(v));
    };
}

/// The page that holds an address of `[s, e)` is among the pages that cover it.
pub proof fn lemma_page_in_range(s: usize, e: usize, va: usize)
    requires
        s <= va < e,
    ensures
        floor_spec(s) <= floor_spec(va) < ceil_spec(e),
{
    vstd::arithmetic::div_mod::lemma_div_is_ordered(s as int, va as int, PAGE_SIZE as int);
    vstd::arithmetic::div_mod::lemma_div_is_ordered(va as int, e as int, PAGE_SIZE as int);
    if e % PAGE_SIZE == 0 {
        vstd::arithmetic::div_mod::lemma_fundamental_div_mod(e as int, PAGE_SIZE as int);
        vstd::arithmetic::div_mod::lemma_fundamental_div_mod(va as int, PAGE_SIZE as int);
        assert(floor_spec(va) < ceil_spec(e)) by (nonlinear_arith)
            requires
                e == (e / 4096) * 4096,
                va == (va / 4096) * 4096 + va % 4096,
                0 <= va % 4096 < 4096,
                va < e,
                floor_spec(va) == va / 4096,
                ceil_spec(e) == e / 4096,
        ;
    }
}

/// In the kernel address space the middle of the data section is writable,
/// the middle of the code is not, and the middle of the read-only data can
/// be neither written nor executed.
pub proof fn lemma_kernel_section_rights(ms: &MemorySet, layout: &KernelLayout)
    requires
        layout.wf(),
        is_kernel_space(ms, layout),
        layout.stext < layout.etext,
        layout.srodata < layout.erodata,
        layout.sdata < layout.edata,
    ensures
        ({
            let mid_text = floor_spec(((layout.stext + layout.etext) / 2) as usize);
            let mid_rodata = floor_spec(((layout.srodata + layout.erodata) / 2) as usize);
            let mid_data = floor_spec(((layout.sdata + layout.edata) / 2) as usize);
            &&& ms.page_table@.contains_key(mid_text)
            &&& !ms.page_table@[mid_text].flags.w
            &&& ms.page_table@.contains_key(mid_rodata)
            &&& !ms.page_table@[mid_rodata].flags.w
            &&& !ms.page_table@[mid_rodata].flags.x
            &&& ms.page_table@.contains_key(mid_data)
            &&& ms.page_table@[mid_data].flags.w
        }),
{
    let t = ((layout.stext + layout.etext) / 2) as usize;
    let r = ((layout.srodata + layout.erodata) / 2) as usize;
    let d = ((layout.sdata + layout.edata) / 2) as usize;
    lemma_page_in_range(layout.stext, layout.etext, t);
    lemma_page_in_range(layout.srodata, layout.erodata, r);
    lemma_page_in_range(layout.sdata, layout.edata, d);
    assert(ms.page_table@.contains_key(floor_spec(t)));
    assert(ms.page_table@.contains_key(floor_spec(r)));
    assert(ms.page_table@.contains_key(floor_spec(d)));
}

impl MemorySet {
    /// Maps the trampoline page, which no region tracks, to the page of the
    /// trampoline code.
    pub(crate) fn map_trampoline(&mut self, strampoline: usize)
        requires
            old(self).areas@.len() == 0,
            old(self).page_table@ == Map::<usize, PageTableEntry>::empty(),
        ensures
            final(self).wf(),
            final(self).areas@.len() == 0,
            final(self).page_table.root_ppn() == old(self).page_table.root_ppn(),
            final(self).page_table@ == Map::<usize, PageTableEntry>::empty().insert(
                floor_spec(TRAMPOLINE),
                mapped_entry(floor_spec(strampoline), perm_rx().pte_flags_spec()),
            ),
    {
        let flags = PTEFlags { v: false, r: true, w: false, x: true, u: false };
        self.page_table.map(floor(TRAMPOLINE), floor(strampoline), flags);
    }

    /// Pushes an identical region over `[start_va, end_va)` whose pages no
    /// entry maps yet.
    fn push_identical(&mut self, fa: &mut FrameAllocator, start_va: usize, end_va: usize, perm: MapPermission)
        requires
            old(self).wf(),
            old(fa).wf(),
            old(self).frames_from(old(fa)),
            start_va <= end_va,
            old(self).range_unmapped(floor_spec(start_va) as int, ceil_spec(end_va) as int),
        ensures
            final(self).wf(),
            final(fa).wf(),
            final(self).frames_from(final(fa)),
            final(fa).free_count_spec() == old(fa).free_count_spec(),
            final(self).areas@.len() == old(self).areas@.len() + 1,
            final(self).areas@.subrange(0, old(self).areas@.len() as int) == old(self).areas@,
            identical_region(&final(self).areas@[old(self).areas@.len() as int], start_va, end_va, perm),
            maps_identically(final(self), start_va, end_va, perm),
            forall|v: usize|
                #[trigger] final(self).page_table@.contains_key(v) == (old(self).page_table@.contains_key(v)
                    || (floor_spec(start_va) <= v < ceil_spec(end_va))),
            forall|v: usize|
                #[trigger] old(self).page_table@.contains_key(v) ==> final(self).page_table@[v]
                    == old(self).page_table@[v],
    {
        let area = MapArea::new(start_va, end_va, MapType::Identical, perm);
        let r = self.push(fa, area, None);
        assert(r is Ok);
        proof {
            let n = old(self).areas@.len();
            let a = self.areas@[n as int];
            assert(a.installed(self.page_table@));
            assert(a.data_frames@ =~= Map::empty());
            assert forall|v: usize| floor_spec(start_va) <= v < ceil_spec(end_va) implies {
                &&& #[trigger] self.page_table@.contains_key(v)
                &&& self.page_table@[v] == mapped_entry(v, perm.pte_flags_spec())
            } by {
                assert(a.page_installed(self.page_table@, v));
            };
        }
    }

    /// The kernel address space of `layout`: the trampoline, and the code,
    /// read-only data, data, bss and the rest of physical memory mapped to
    /// themselves, code readable and executable, read-only data readable, the
    /// rest readable and writable. Its page-table root takes one frame of `fa`.
    pub fn new_kernel(layout: &KernelLayout, fa: &mut FrameAllocator) -> (r: MemorySet)
        requires
            old(fa).wf(),
            old(fa).free_count_spec() > 0,
            layout.wf(),
        ensures
            r.wf(),
            final(fa).wf(),
            r.frames_from(final(fa)),
            is_kernel_space(&r, layout),
            kernel_regions(&r, layout),
    {
        let mut ms = MemorySet::new_bare(fa);
        ms.map_trampoline(layout.strampoline);
        let ghost tv = floor_spec(TRAMPOLINE);
        proof {
            lemma_floor_le_ceil(layout.stext, layout.etext);
            lemma_floor_le_ceil(layout.srodata, layout.erodata);
            lemma_floor_le_ceil(layout.sdata, layout.edata);
            lemma_floor_le_ceil(layout.sbss_with_stack, layout.ebss);
            lemma_floor_le_ceil(layout.ekernel, layout.memory_end);
            assert(ms.range_unmapped(floor_spec(layout.stext) as int, ceil_spec(layout.etext) as int));
        }
        let ghost m0 = ms;
        ms.push_identical(fa, layout.stext, layout.etext, MapPermission { r: true, w: false, x: true, u: false });
        let ghost m1 = ms;
        assert(ms.range_unmapped(floor_spec(layout.srodata) as int, ceil_spec(layout.erodata) as int));
        ms.push_identical(fa, layout.srodata, layout.erodata, MapPermission { r: true, w: false, x: false, u: false });
        let ghost m2 = ms;
        assert(ms.range_unmapped(floor_spec(layout.sdata) as int, ceil_spec(layout.edata) as int));
        ms.push_identical(fa, layout.sdata, layout.edata, MapPermission { r: true, w: true, x: false, u: false });
        let ghost m3 = ms;
        assert(ms.range_unmapped(floor_spec(layout.sbss_with_stack) as int, ceil_spec(layout.ebss) as int));
        ms.push_identical(fa, layout.sbss_with_stack, layout.ebss, MapPermission { r: true, w: true, x: false, u: false });
        let ghost m4 = ms;
        assert(ms.range_unmapped(floor_spec(layout.ekernel) as int, ceil_spec(layout.memory_end) as int));
        ms.push_identical(fa, layout.ekernel, layout.memory_end, MapPermission { r: true, w: true, x: false, u: false });
        proof {
            lemma_identical_kept(&m1, &m2, layout.stext, layout.etext, perm_rx());
            lemma_identical_kept(&m2, &m3, layout.stext, layout.etext, perm_rx());
            lemma_identical_kept(&m3, &m4, layout.stext, layout.etext, perm_rx());
            lemma_identical_kept(&m4, &ms, layout.stext, layout.etext, perm_rx());
            lemma_identical_kept(&m2, &m3, layout.srodata, layout.erodata, perm_r());
            lemma_identical_kept(&m3, &m4, layout.srodata, layout.erodata, perm_r());
            lemma_identical_kept(&m4, &ms, layout.srodata, layout.erodata, perm_r());
            lemma_identical_kept(&m3, &m4, layout.sdata, layout.edata, perm_rw());
            lemma_identical_kept(&m4, &ms, layout.sdata, layout.edata, perm_rw());
            lemma_identical_kept(&m4, &ms, layout.sbss_with_stack, layout.ebss, perm_rw());
            assert(m0.page_table@.contains_key(tv));
            assert(m1.page_table@.contains_key(tv));
            assert(m2.page_table@.contains_key(tv));
            assert(m3.page_table@.contains_key(tv));
            assert(m4.page_table@.contains_key(tv));
            assert(m2.areas@.subrange(0, 1) == m1.areas@);
            assert(m3.areas@.subrange(0, 2) == m2.areas@);
            assert(m4.areas@.subrange(0, 3) == m3.areas@);
            assert(ms.areas@.subrange(0, 4) == m4.areas@);
            assert(ms.areas@[3] == m4.areas@[3]) by {
                assert(ms.areas@.subrange(0, 4)[3] == ms.areas@[3]);
            };
            assert(ms.areas@[2] == m3.areas@[2]) by {
                assert(ms.areas@.subrange(0, 4)[2] == ms.areas@[2]);
                assert(m4.areas@.subrange(0, 3)[2] == m4.areas@[2]);
            };
            assert(ms.areas@[1] == m2.areas@[1]) by {
                assert(ms.areas@.subrange(0, 4)[1] == ms.areas@[1]);
                assert(m4.areas@.subrange(0, 3)[1] == m4.areas@[1]);
                assert(m3.areas@.subrange(0, 2)[1] == m3.areas@[1]);
            };
            assert(ms.areas@[0] == m1.areas@[0]) by {
                assert(ms.areas@.subrange(0, 4)[0] == ms.areas@[0]);
                assert(m4.areas@.subrange(0, 3)[0] == m4.areas@[0]);
                assert(m3.areas@.subrange(0, 2)[0] == m3.areas@[0]);
                assert(m2.areas@.subrange(0, 1)[0] == m2.areas@[0]);
            };
        }
        ms
    }
}

} // verus!
