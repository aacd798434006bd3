//! A user program's address space, built from its ELF image.

use vstd::prelude::*;

use crate::config::{ceil_spec, floor_spec, PAGE_SIZE, TRAMPOLINE, TRAP_CONTEXT_BASE, USER_STACK_SIZE};
use crate::elf::{
    elf_header_of, elf_segment_kind_of, elf_segment_of, program_header_in_bounds, program_header_readable,
    ElfHeader, ProgramSegment, read_elf_header, read_segment, read_segment_kind,
    SegmentKind, ELF_HEADER_LEN,
};
use crate::frame_allocator::FrameAllocator;
use crate::kernel_space::{maps_trampoline, perm_rw, perm_rwu};
use crate::map_area::{areas_disjoint, MapArea, MapPermission, MapType, MmError};
use crate::memory_set::{held_frames, MemorySet};

verus! {

/// The last three regions of `ms` are the user stack, which ends at `sp`,
/// the empty heap region right above it, and the trap-context page right
/// below the trampoline; the stack ends at or below the trap-context page.
pub open spec fn user_space_tail(ms: &MemorySet, sp: usize) -> bool {
    let n = ms.areas@.len();
    let stack = ms.areas@[n - 3];
    let heap = ms.areas@[n - 2];
    let trap = ms.areas@[n - 1];
    &&& n >= 3
    &&& sp % PAGE_SIZE == 0
    &&& sp <= TRAP_CONTEXT_BASE
    &&& stack.vpn_end == floor_spec(sp)
    &&& stack.vpn_start + USER_STACK_SIZE / PAGE_SIZE == stack.vpn_end
    &&& stack.map_type == MapType::Framed
    &&& stack.map_perm == perm_rwu()
    &&& heap.vpn_start == floor_spec(sp)
    &&& heap.vpn_end == floor_spec(sp)
    &&& heap.map_type == MapType::Framed
    &&& heap.map_perm == perm_rwu()
    &&& trap.vpn_start == floor_spec(TRAP_CONTEXT_BASE)
    &&& trap.vpn_end == floor_spec(TRAMPOLINE)
    &&& trap.map_type == MapType::Framed
    &&& trap.map_perm == perm_rw()
}

/// Region `a` is the one that loading makes of program header `i` of
/// `data`: a loadable segment, mapped framed over the pages that cover its
/// memory, user-accessible with the segment's read, write and execute rights,
/// and holding the segment's file bytes from its first page on.
pub open spec fn segment_region(data: Seq<u8>, i: u16, a: &MapArea) -> bool {
    &&& elf_segment_kind_of(data, i) == Some(SegmentKind::Load)
    &&& elf_segment_of(data, i) matches Some(seg) && {
        &&& a.map_type == MapType::Framed
        &&& a.vpn_start == floor_spec(seg.virtual_addr as usize)
        &&& a.vpn_end == ceil_spec((seg.virtual_addr + seg.mem_size) as usize)
        &&& a.map_perm == MapPermission {
            r: seg.readable,
            w: seg.writable,
            x: seg.executable,
            u: true,
        }
        &&& a.holds_data(data.subrange(seg.offset as int, seg.offset + seg.file_size))
    }
}

/// Region `a` is the one that loading makes of some program header of `data`.
pub open spec fn loaded_segment_region(data: Seq<u8>, a: &MapArea) -> bool {
    exists|i: u16| #[trigger] segment_region(data, i, a)
}

/// Whether `len` bytes fit in `pages` pages.
fn fits_pages(len: usize, pages: usize) -> (r: bool)
    ensures
        r == (len <= pages * PAGE_SIZE),
{
    let q = len / PAGE_SIZE;
    let rem = len % PAGE_SIZE;
    assert(r_fits(len as int, pages as int, q as int, rem as int)) by (nonlinear_arith)
        requires
            q == len / 4096,
            rem == len % 4096,
            len >= 0,
            pages >= 0,
    {
        vstd::arithmetic::div_mod::lemma_fundamental_div_mod(len as int, 4096);
        if q < pages {
            assert(q * 4096 + 4096 <= pages * 4096) by (nonlinear_arith)
                requires
                    q < pages,
            ;
        }
        if q > pages {
            assert(q * 4096 >= pages * 4096 + 4096) by (nonlinear_arith)
                requires
                    q > pages,
            ;
        }
    };
    q < pages || (q == pages && rem == 0)
}

/// `len` bytes, `q` full pages and `rem` more, fit in `pages` pages exactly
/// when `q` is less than `pages`, or equal with nothing more.
spec fn r_fits(len: int, pages: int, q: int, rem: int) -> bool {
    (len <= pages * 4096) == (q < pages || (q == pages && rem == 0))
}

/// What loading has built after some program headers: the mapped pages, the
/// free frames left, the end page of the last loadable segment, and the
/// indices of the loadable headers, in order.
pub type LoadState = (Set<usize>, nat, usize, Seq<u16>);

/// The pages `[s, e)`.
pub open spec fn page_range(s: usize, e: usize) -> Set<usize> {
    Set::new(|v: usize| s <= v < e)
}

/// Program header `seg` has sizes that fit the integer types, file bytes
/// inside `data`, an end not below its start, and file bytes that fit the
/// pages of its memory.
pub open spec fn segment_ok(data: Seq<u8>, seg: ProgramSegment) -> bool {
    let start_va = seg.virtual_addr as usize;
    let end_va = (seg.virtual_addr + seg.mem_size) as usize;
    &&& seg.virtual_addr + seg.mem_size <= u64::MAX
    &&& seg.offset + seg.file_size <= u64::MAX
    &&& seg.offset + seg.file_size <= data.len()
    &&& start_va <= end_va
    &&& seg.file_size <= (ceil_spec(end_va) - floor_spec(start_va)) * PAGE_SIZE
}

/// Loading program header `i` of `data` in state `st`: the header must be
/// readable and of a known type; a loadable one must be well formed, its
/// pages unmapped, and the free frames enough for them.
pub open spec fn load_header(data: Seq<u8>, h: ElfHeader, i: u16, st: LoadState) -> Result<LoadState, MmError> {
    if !program_header_readable(data, h, i) {
        Err(MmError::InvalidImage)
    } else {
        match elf_segment_kind_of(data, i) {
            None => Err(MmError::InvalidImage),
            Some(SegmentKind::Invalid) => Err(MmError::InvalidImage),
            Some(SegmentKind::Other) => Ok(st),
            Some(SegmentKind::Load) => match elf_segment_of(data, i) {
                None => Err(MmError::InvalidImage),
                Some(seg) => {
                    let s = floor_spec(seg.virtual_addr as usize);
                    let e = ceil_spec((seg.virtual_addr + seg.mem_size) as usize);
                    if !segment_ok(data, seg) {
                        Err(MmError::InvalidImage)
                    } else if exists|v: usize| s <= v < e && #[trigger] st.0.contains(v) {
                        Err(MmError::OverlapRejected)
                    } else if st.1 < e - s {
                        Err(MmError::FrameExhausted)
                    } else {
                        Ok((st.0.union(page_range(s, e)), (st.1 - (e - s)) as nat, e, st.3.push(i)))
                    }
                },
            },
        }
    }
}

/// Loading the first `n` program headers of `data` from state `st0`.
pub open spec fn load_headers(data: Seq<u8>, h: ElfHeader, n: nat, st0: LoadState) -> Result<LoadState, MmError>
    decreases n,
{
    if n == 0 {
        Ok(st0)
    } else {
        match load_headers(data, h, (n - 1) as nat, st0) {
            Err(e) => Err(e),
            Ok(st) => load_header(data, h, (n - 1) as u16, st),
        }
    }
}

/// The state before the first program header: only the trampoline page is
/// mapped, and the page-table root has taken one of `free` frames.
pub open spec fn load_start(free: nat) -> LoadState {
    (set![floor_spec(TRAMPOLINE)], (free - 1) as nat, 0usize, Seq::<u16>::empty())
}

/// What `from_elf` returns for the image `data` when `free` frames are free:
/// the top of the user stack and the entry address, or the error.
pub open spec fn from_elf_outcome(data: Seq<u8>, free: nat) -> Result<(usize, usize), MmError> {
    if data.len() < ELF_HEADER_LEN {
        Err(MmError::InvalidImage)
    } else {
        match elf_header_of(data) {
            None => Err(MmError::InvalidImage),
            Some(h) => if free < 1 {
                Err(MmError::FrameExhausted)
            } else {
                match load_headers(data, h, h.ph_count as nat, load_start(free)) {
                    Err(e) => Err(e),
                    Ok(st) => {
                        let t = floor_spec(TRAMPOLINE);
                        if st.2 > (usize::MAX - PAGE_SIZE - USER_STACK_SIZE) as int / PAGE_SIZE as int {
                            Err(MmError::InvalidImage)
                        } else if exists|v: usize| st.2 + 1 <= v < st.2 + 3 && #[trigger] st.0.contains(v) {
                            Err(MmError::OverlapRejected)
                        } else if st.1 < 2 {
                            Err(MmError::FrameExhausted)
                        } else if st.0.contains((t - 1) as usize) || (st.2 + 1 <= t - 1 < st.2 + 3) {
                            Err(MmError::OverlapRejected)
                        } else if st.1 < 3 {
                            Err(MmError::FrameExhausted)
                        } else {
                            Ok((((st.2 + 3) * PAGE_SIZE) as usize, h.entry_point as usize))
                        }
                    },
                }
            },
        }
    }
}

/// The indices of the loadable program headers of `data`, in order, when
/// loading them succeeds with `free` frames free.
pub open spec fn loaded_headers(data: Seq<u8>, free: nat) -> Seq<u16> {
    match elf_header_of(data) {
        Some(h) => match load_headers(data, h, h.ph_count as nat, load_start(free)) {
            Ok(st) => st.3,
            Err(_) => Seq::empty(),
        },
        None => Seq::empty(),
    }
}

/// A failure at header `i` stays the result of loading all headers.
proof fn lemma_load_fails_from(data: Seq<u8>, h: ElfHeader, i: nat, n: nat, st0: LoadState, e: MmError)
    requires
        i <= n,
        load_headers(data, h, i, st0) == Err::<LoadState, MmError>(e),
    ensures
        load_headers(data, h, n, st0) == Err::<LoadState, MmError>(e),
    decreases n - i,
{
    if i < n {
        assert(load_headers(data, h, (i + 1) as nat, st0) == Err::<LoadState, MmError>(e));
        lemma_load_fails_from(data, h, (i + 1) as nat, n, st0, e);
    }
}

impl MemorySet {
    /// The address space of the program in the ELF image `elf_data`: the
    /// trampoline, mapped to `strampoline`; a framed region for each
    /// loadable segment, in header order, user-accessible with the segment's
    /// read, write and execute rights, holding the segment's file bytes;
    /// then, past a guard page above the last loadable segment, the user
    /// stack; the empty heap region above it; and the trap-context page.
    /// Returns it with the top of the user stack and the entry address. On
    /// failure every frame taken goes back to `fa`.
    pub fn from_elf(elf_data: &[u8], strampoline: usize, fa: &mut FrameAllocator) -> (r: Result<
        (MemorySet, usize, usize),
        MmError,
    >)
        requires
            old(fa).wf(),
        ensures
            final(fa).wf(),
            (r is Ok) == (from_elf_outcome(elf_data@, old(fa).free_count_spec()) is Ok),
            r matches Err(e) ==> {
                &&& from_elf_outcome(elf_data@, old(fa).free_count_spec()) == Err::<(usize, usize), MmError>(e)
                &&& final(fa).free_count_spec() == old(fa).free_count_spec()
            },
            r matches Ok((ms, sp, entry)) ==> {
                let loads = loaded_headers(elf_data@, old(fa).free_count_spec());
                &&& from_elf_outcome(elf_data@, old(fa).free_count_spec()) == Ok::<(usize, usize), MmError>((sp, entry))
                &&& ms.wf()
                &&& ms.frames_from(final(fa))
                &&& maps_trampoline(&ms, strampoline)
                &&& user_space_tail(&ms, sp)
                &&& ms.areas@.len() == loads.len() + 3
                &&& forall|k: int|
                    0 <= k < loads.len() ==> segment_region(elf_data@, loads[k], #[trigger] &ms.areas@[k])
                &&& forall|k: int|
                    0 <= k < ms.areas@.len() ==> !((#[trigger] ms.areas@[k]).vpn_start <= floor_spec(
                        TRAMPOLINE,
                    ) < ms.areas@[k].vpn_end)
            },
    {
        if elf_data.len() < ELF_HEADER_LEN {
            return Err(MmError::InvalidImage);
        }
        let header = match read_elf_header(elf_data) {
            Some(h) => h,
            None => {
                return Err(MmError::InvalidImage);
            },
        };
        if !fa.has_free(1) {
            return Err(MmError::FrameExhausted);
        }
        let ghost free0 = old(fa).free_count_spec();
        let ghost data = elf_data@;
        let ghost st0 = load_start(free0);
        let ghost t = floor_spec(TRAMPOLINE);
        let mut ms = MemorySet::new_bare(fa);
        ms.map_trampoline(strampoline);
        let ghost mut st: LoadState = st0;
        proof {
            assert(ms.page_table@.dom() =~= st0.0);
        }
        let mut max_end_vpn: usize = 0;
        let mut i: u16 = 0;
        while i < header.ph_count
            invariant
                ms.wf(),
                fa.wf(),
                ms.frames_from(fa),
                maps_trampoline(&ms, strampoline),
                data == elf_data@,
                free0 == old(fa).free_count_spec(),
                st0 == load_start(free0),
                t == floor_spec(TRAMPOLINE),
                elf_data@.len() >= ELF_HEADER_LEN,
                elf_header_of(elf_data@) == Some(header),
                i <= header.ph_count,
                load_headers(data, header, i as nat, st0) == Ok::<LoadState, MmError>(st),
                ms.page_table@.dom() == st.0,
                fa.free_count_spec() == st.1,
                max_end_vpn == st.2,
                fa.free_count_spec() + held_frames(ms.areas@) + 1 == free0,
                ms.areas@.len() == st.3.len(),
                forall|k: int|
                    0 <= k < st.3.len() ==> segment_region(data, st.3[k], #[trigger] &ms.areas@[k]),
                forall|k: int|
                    0 <= k < ms.areas@.len() ==> !((#[trigger] ms.areas@[k]).vpn_start <= t
                        < ms.areas@[k].vpn_end),
            decreases header.ph_count - i,
        {
            let ghost n_all = header.ph_count as nat;
            if !program_header_in_bounds(elf_data, &header, i) {
                proof {
                    lemma_load_fails_from(data, header, (i + 1) as nat, n_all, st0, MmError::InvalidImage);
                }
                ms.release(fa);
                return Err(MmError::InvalidImage);
            }
            let kind = match read_segment_kind(elf_data, i) {
                Some(k) => k,
                None => {
                    proof {
                        lemma_load_fails_from(data, header, (i + 1) as nat, n_all, st0, MmError::InvalidImage);
                    }
                    ms.release(fa);
                    return Err(MmError::InvalidImage);
                },
            };
            match kind {
                SegmentKind::Invalid => {
                    proof {
                        lemma_load_fails_from(data, header, (i + 1) as nat, n_all, st0, MmError::InvalidImage);
                    }
                    ms.release(fa);
                    return Err(MmError::InvalidImage);
                },
                SegmentKind::Other => {
                    assert(load_headers(data, header, (i + 1) as nat, st0) == Ok::<LoadState, MmError>(st));
                },
                SegmentKind::Load => {
                    let seg = match read_segment(elf_data, i) {
                        Some(sg) => sg,
                        None => {
                            proof {
                                lemma_load_fails_from(data, header, (i + 1) as nat, n_all, st0, MmError::InvalidImage);
                            }
                            ms.release(fa);
                            return Err(MmError::InvalidImage);
                        },
                    };
                    if seg.virtual_addr > u64::MAX - seg.mem_size || seg.offset > u64::MAX
                        - seg.file_size {
                        proof {
                            lemma_load_fails_from(data, header, (i + 1) as nat, n_all, st0, MmError::InvalidImage);
                        }
                        ms.release(fa);
                        return Err(MmError::InvalidImage);
                    }
                    let file_end: u64 = seg.offset + seg.file_size;
                    if file_end as u128 > elf_data.len() as u128 {
                        proof {
                            lemma_load_fails_from(data, header, (i + 1) as nat, n_all, st0, MmError::InvalidImage);
                        }
                        ms.release(fa);
                        return Err(MmError::InvalidImage);
                    }
                    let start_va = seg.virtual_addr as usize;
                    let end_va = (seg.virtual_addr + seg.mem_size) as usize;
                    if start_va > end_va {
                        proof {
                            lemma_load_fails_from(data, header, (i + 1) as nat, n_all, st0, MmError::InvalidImage);
                        }
                        ms.release(fa);
                        return Err(MmError::InvalidImage);
                    }
                    let perm = MapPermission {
                        r: seg.readable,
                        w: seg.writable,
                        x: seg.executable,
                        u: true,
                    };
                    let area = MapArea::new(start_va, end_va, MapType::Framed, perm);
                    let pages = area.vpn_end - area.vpn_start;
                    let from = seg.offset as usize;
                    let to = file_end as usize;
                    if !fits_pages(to - from, pages) {
                        proof {
                            lemma_load_fails_from(data, header, (i + 1) as nat, n_all, st0, MmError::InvalidImage);
                        }
                        ms.release(fa);
                        return Err(MmError::InvalidImage);
                    }
                    let ghost s = area.vpn_start;
                    let ghost e = area.vpn_end;
                    let bytes = vstd::slice::slice_subrange(elf_data, from, to);
                    let ghost before = ms;
                    match ms.push(fa, area, Some(bytes)) {
                        Ok(()) => {},
                        Err(err) => {
                            proof {
                                if !before.range_unmapped(s as int, e as int) {
                                    let w = choose|w: usize| s <= w < e && before.page_table@.contains_key(w);
                                    assert(st.0.contains(w));
                                }
                                lemma_load_fails_from(data, header, (i + 1) as nat, n_all, st0, err);
                            }
                            ms.release(fa);
                            return Err(err);
                        },
                    }
                    max_end_vpn = area_end(&ms);
                    proof {
                        let n = before.areas@.len();
                        let a = ms.areas@[n as int];
                        assert(!(exists|v: usize| s <= v < e && #[trigger] st.0.contains(v))) by {
                            if exists|v: usize| s <= v < e && #[trigger] st.0.contains(v) {
                                let w = choose|w: usize| s <= w < e && #[trigger] st.0.contains(w);
                                assert(before.page_table@.contains_key(w));
                            }
                        };
                        let st2: LoadState = (st.0.union(page_range(s, e)), (st.1 - (e - s)) as nat, e, st.3.push(i));
                        assert(load_headers(data, header, (i + 1) as nat, st0) == Ok::<LoadState, MmError>(st2));
                        assert(ms.page_table@.dom() =~= st2.0);
                        assert(bytes@ == elf_data@.subrange(
                            seg.offset as int,
                            seg.offset + seg.file_size,
                        ));
                        assert(segment_region(elf_data@, i, &a));
                        assert(ms.areas@.drop_last() =~= before.areas@);
                        assert forall|k: int| 0 <= k < st2.3.len() implies segment_region(
                            data,
                            st2.3[k],
                            #[trigger] &ms.areas@[k],
                        ) by {
                            if k < n {
                                assert(ms.areas@.subrange(0, n as int)[k] == ms.areas@[k]);
                                assert(before.areas@[k] == ms.areas@[k]);
                            }
                        };
                        assert forall|k: int| 0 <= k < ms.areas@.len() implies !((
                        #[trigger] ms.areas@[k]).vpn_start <= t < ms.areas@[k].vpn_end) by {
                            if k < n {
                                assert(ms.areas@.subrange(0, n as int)[k] == ms.areas@[k]);
                                assert(before.areas@[k] == ms.areas@[k]);
                            } else {
                                assert(before.page_table@.contains_key(t));
                            }
                        };
                        assert(ms.page_table@.contains_key(floor_spec(TRAMPOLINE)));
                        st = st2;
                    }
                },
            }
            i = i + 1;
        }
        proof {
            assert(i == header.ph_count);
        }
        let ghost n_all = header.ph_count as nat;
        if max_end_vpn > (usize::MAX - PAGE_SIZE - USER_STACK_SIZE) / PAGE_SIZE {
            ms.release(fa);
            return Err(MmError::InvalidImage);
        }
        let user_stack_bottom = max_end_vpn * PAGE_SIZE + PAGE_SIZE;
        let user_stack_top = user_stack_bottom + USER_STACK_SIZE;
        let ghost m0 = ms;
        let stack = MapArea::new(
            user_stack_bottom,
            user_stack_top,
            MapType::Framed,
            MapPermission { r: true, w: true, x: false, u: true },
        );
        proof {
            assert(stack.vpn_start == max_end_vpn + 1);
            assert(stack.vpn_end == max_end_vpn + 3);
        }
        match ms.push(fa, stack, None) {
            Ok(()) => {},
            Err(err) => {
                proof {
                    if !m0.range_unmapped((max_end_vpn + 1) as int, (max_end_vpn + 3) as int) {
                        let w = choose|w: usize| max_end_vpn + 1 <= w < max_end_vpn + 3 && m0.page_table@.contains_key(w);
                        assert(st.0.contains(w));
                    }
                }
                ms.release(fa);
                return Err(err);
            },
        }
        let ghost m1 = ms;
        let heap = MapArea::new(
            user_stack_top,
            user_stack_top,
            MapType::Framed,
            MapPermission { r: true, w: true, x: false, u: true },
        );
        proof {
            assert(user_stack_top == (max_end_vpn + 3) * 4096);
            assert(heap.vpn_start == heap.vpn_end);
        }
        match ms.push(fa, heap, None) {
            Ok(()) => {},
            Err(err) => {
                ms.release(fa);
                return Err(err);
            },
        }
        let ghost m2 = ms;
        let trap = MapArea::new(
            TRAP_CONTEXT_BASE,
            TRAMPOLINE,
            MapType::Framed,
            MapPermission { r: true, w: true, x: false, u: false },
        );
        proof {
            assert(floor_spec(TRAMPOLINE) * 4096 == TRAMPOLINE);
            assert(floor_spec(TRAP_CONTEXT_BASE) + 1 == floor_spec(TRAMPOLINE));
            assert(trap.vpn_start == t - 1 && trap.vpn_end == t);
            assert(m0.page_table@.dom() =~= st.0);
        }
        match ms.push(fa, trap, None) {
            Ok(()) => {},
            Err(err) => {
                proof {
                    assert(!(exists|v: usize| st.2 + 1 <= v < st.2 + 3 && #[trigger] st.0.contains(v))) by {
                        if exists|v: usize| st.2 + 1 <= v < st.2 + 3 && #[trigger] st.0.contains(v) {
                            let w = choose|w: usize| st.2 + 1 <= w < st.2 + 3 && #[trigger] st.0.contains(w);
                            assert(m0.page_table@.contains_key(w));
                        }
                    };
                    let n0 = m0.areas@.len() as int;
                    assert(m1.areas@.drop_last() =~= m0.areas@) by {
                        assert(m1.areas@.subrange(0, n0) == m0.areas@);
                    };
                    assert(m2.areas@.drop_last() =~= m1.areas@) by {
                        assert(m2.areas@.subrange(0, n0 + 1) == m1.areas@);
                    };
                    assert(held_frames(m1.areas@) == held_frames(m0.areas@) + 2);
                    assert(held_frames(m2.areas@) == held_frames(m1.areas@));
                    let tp = (t - 1) as usize;
                    assert(m0.page_table@.contains_key(tp) == st.0.contains(tp));
                    assert(m1.page_table@.contains_key(tp) == (m0.page_table@.contains_key(tp) || (
                    st.2 + 1 <= tp < st.2 + 3)));
                    assert(m2.page_table@.contains_key(tp) == m1.page_table@.contains_key(tp));
                    if !m2.range_unmapped((t - 1) as int, t as int) {
                        assert(m2.page_table@.contains_key(tp));
                    }
                }
                ms.release(fa);
                return Err(err);
            },
        }
        proof {
            let n: int = m0.areas@.len() as int;
            assert(!(exists|v: usize| st.2 + 1 <= v < st.2 + 3 && #[trigger] st.0.contains(v))) by {
                if exists|v: usize| st.2 + 1 <= v < st.2 + 3 && #[trigger] st.0.contains(v) {
                    let w = choose|w: usize| st.2 + 1 <= w < st.2 + 3 && #[trigger] st.0.contains(w);
                    assert(m0.page_table@.contains_key(w));
                }
            };
            assert(!m2.page_table@.contains_key((t - 1) as usize));
            assert(!st.0.contains((t - 1) as usize));
            assert(ms.areas@.len() == n + 3);
            assert(m2.areas@.subrange(0, n + 1 as int) == m1.areas@);
            assert(ms.areas@.subrange(0, n + 2 as int) == m2.areas@);
            assert(m1.areas@.subrange(0, n as int) == m0.areas@);
            assert(ms.areas@[n as int] == m1.areas@[n as int]) by {
                assert(ms.areas@.subrange(0, n + 2 as int)[n as int] == ms.areas@[n as int]);
                assert(m2.areas@.subrange(0, n + 1 as int)[n as int] == m2.areas@[n as int]);
            };
            assert(ms.areas@[n + 1] == m2.areas@[n + 1]) by {
                assert(ms.areas@.subrange(0, n + 2 as int)[n + 1] == ms.areas@[n + 1]);
            };
            assert forall|k: int| 0 <= k < n implies ms.areas@[k] == m0.areas@[k] by {
                assert(ms.areas@.subrange(0, n + 2 as int)[k] == ms.areas@[k]);
                assert(m2.areas@.subrange(0, n + 1 as int)[k] == m2.areas@[k]);
                assert(m1.areas@.subrange(0, n as int)[k] == m1.areas@[k]);
            };
            assert forall|k: int| 0 <= k < st.3.len() implies segment_region(
                data,
                st.3[k],
                #[trigger] &ms.areas@[k],
            ) by {
                assert(ms.areas@[k] == m0.areas@[k]);
            };
            assert forall|k: int| 0 <= k < ms.areas@.len() implies !((#[trigger] ms.areas@[k]).vpn_start
                <= t < ms.areas@[k].vpn_end) by {
                if k < n {
                    assert(ms.areas@[k] == m0.areas@[k]);
                }
            };
            assert(m0.page_table@.contains_key(floor_spec(TRAMPOLINE)));
            assert(m1.page_table@.contains_key(floor_spec(TRAMPOLINE)));
            assert(m2.page_table@.contains_key(floor_spec(TRAMPOLINE)));
            assert(areas_disjoint(&ms.areas@[n as int], &ms.areas@[n + 2]));
            assert(user_stack_top == (max_end_vpn + 3) * 4096);
        }
        Ok((ms, user_stack_top, header.entry_point as usize))
    }
}

/// The end page of the last region of `ms`.
fn area_end(ms: &MemorySet) -> (r: usize)
    requires
        ms.areas@.len() > 0,
    ensures
        r == ms.areas@.last().vpn_end,
{
    ms.areas[ms.areas.len() - 1].vpn_end
}

} // verus!
