use kernel_mm::config::{PAGE_SIZE, TRAMPOLINE, TRAP_CONTEXT_BASE, USER_STACK_SIZE};
use kernel_mm::frame_allocator::FrameAllocator;
use kernel_mm::kernel_space::KernelLayout;
use kernel_mm::map_area::{MapArea, MapPermission, MapType, MmError};
use kernel_mm::memory_set::{kernel_stack_position, MemorySet};
use kernel_mm::page_table::PageTable;

const RWU: MapPermission = MapPermission { r: true, w: true, x: false, u: true };

fn allocator(frames: usize) -> FrameAllocator {
    FrameAllocator::new(0x80400, 0x80400 + frames)
}

fn space(fa: &mut FrameAllocator) -> MemorySet {
    MemorySet::new_bare(fa)
}

#[test]
fn allocator_hands_out_distinct_frames_and_recycles() {
    let mut fa = FrameAllocator::new(10, 13);
    let a = fa.alloc_frame().unwrap();
    let b = fa.alloc_frame().unwrap();
    let c = fa.alloc_frame().unwrap();
    assert_eq!((a.ppn, b.ppn, c.ppn), (10, 11, 12));
    assert!(a.bytes.iter().all(|&x| x == 0));
    assert_eq!(a.bytes.len(), PAGE_SIZE);
    assert!(fa.alloc_frame().is_none());
    assert!(!fa.has_free(1));
    fa.dealloc_frame(b);
    assert!(fa.has_free(1));
    assert_eq!(fa.alloc_frame().unwrap().ppn, 11);
}

#[test]
fn page_table_maps_translates_and_unmaps() {
    let mut fa = allocator(4);
    let root = fa.alloc_frame().unwrap();
    let root_ppn = root.ppn;
    let mut pt = PageTable::new(root);
    let flags = MapPermission { r: true, w: false, x: true, u: false }.pte_flags();
    pt.map(5, 77, flags);
    let e = pt.translate(5).unwrap();
    assert_eq!(e.ppn(), 77);
    assert!(e.is_valid() && e.readable() && e.executable());
    assert!(!e.writable() && !e.user_accessible());
    assert_eq!(e.flags().bits(), 1 | 2 | 8);
    assert!(pt.translate(6).is_none());
    pt.unmap(5);
    assert!(pt.translate(5).is_none());
    assert_eq!(pt.token(), (8usize << 60) | root_ppn);
}

#[test]
fn inserted_framed_pages_have_distinct_frames() {
    let mut fa = allocator(32);
    let mut ms = space(&mut fa);
    ms.insert_framed_area(&mut fa, 0x1000, 0x5000, RWU).unwrap();
    ms.insert_framed_area(&mut fa, 0x8000, 0xa000, RWU).unwrap();
    let mut ppns = Vec::new();
    for vpn in [1usize, 2, 3, 4, 8, 9] {
        ppns.push(ms.translate(vpn).unwrap().ppn());
    }
    let mut sorted = ppns.clone();
    sorted.sort();
    sorted.dedup();
    assert_eq!(sorted.len(), 6);
    for area in ms.areas.iter() {
        for (vpn, frame) in area.data_frames.iter() {
            assert!(*vpn >= area.vpn_start && *vpn < area.vpn_end);
            assert_eq!(ms.translate(*vpn).unwrap().ppn(), frame.ppn);
        }
    }
}

#[test]
fn mmap_then_munmap_restores_mapped_pages() {
    let mut fa = allocator(32);
    let mut ms = space(&mut fa);
    ms.mmap(&mut fa, 0x10000, 0x1000, 3).unwrap();
    let before: Vec<bool> = (0..0x40).map(|v| ms.translate(v).is_some()).collect();
    ms.mmap(&mut fa, 0x20000, 0x3000, 1).unwrap();
    assert!(ms.translate(0x20).is_some() && ms.translate(0x22).is_some());
    ms.munmap(&mut fa, 0x20000, 0x3000).unwrap();
    let after: Vec<bool> = (0x0..0x40).map(|v| ms.translate(v).is_some()).collect();
    assert_eq!(before, after);
    assert!(fa.has_free(31 - 1));
    assert!(!fa.has_free(31));
}

#[test]
fn munmap_inside_keeps_prefix_and_suffix() {
    let mut fa = allocator(32);
    let mut ms = space(&mut fa);
    ms.mmap(&mut fa, 0x10000, 0x5000, 3).unwrap();
    let old: Vec<_> = (0x10..0x15).map(|v| ms.translate(v).unwrap()).collect();
    ms.munmap(&mut fa, 0x11000, 0x2000).unwrap();
    assert_eq!(ms.translate(0x10).unwrap(), old[0]);
    assert_eq!(ms.translate(0x13).unwrap(), old[3]);
    assert_eq!(ms.translate(0x14).unwrap(), old[4]);
    assert!(ms.translate(0x11).is_none());
    assert!(ms.translate(0x12).is_none());
    let e = ms.translate(0x14).unwrap();
    assert!(e.readable() && e.writable() && e.user_accessible() && !e.executable());
}

#[test]
fn mmap_rejects_bad_permission_and_alignment() {
    let mut fa = allocator(8);
    let mut ms = space(&mut fa);
    assert_eq!(ms.mmap(&mut fa, 0x1000, 0x1000, 0), Err(MmError::PermissionError));
    assert_eq!(ms.mmap(&mut fa, 0x1001, 0x1000, 1), Err(MmError::AlignmentError));
    assert_eq!(ms.mmap(&mut fa, 0x1000, 0x1000, 8 | 1), Err(MmError::PermissionError));
    assert_eq!(ms.munmap(&mut fa, 0x1001, 0x1000), Err(MmError::AlignmentError));
    assert!(ms.translate(1).is_none());
    assert_eq!(ms.areas.len(), 0);
}

#[test]
fn mmap_permission_bits_select_rights() {
    let mut fa = allocator(8);
    let mut ms = space(&mut fa);
    ms.mmap(&mut fa, 0x1000, 0x1000, 4).unwrap();
    let e = ms.translate(1).unwrap();
    assert!(e.executable() && e.user_accessible() && !e.readable() && !e.writable());
    ms.mmap(&mut fa, 0x2000, 0x1000, 2).unwrap();
    let e = ms.translate(2).unwrap();
    assert!(e.writable() && !e.readable() && !e.executable());
}

#[test]
fn remove_region_range_splits_in_three() {
    let mut fa = allocator(16);
    let mut ms = space(&mut fa);
    ms.insert_framed_area(&mut fa, 0x1000, 0x4000, RWU).unwrap();
    let ppn_low = ms.translate(1).unwrap().ppn();
    let ppn_high = ms.translate(3).unwrap().ppn();
    ms.remove_framed_area(&mut fa, 0x2000, 0x3000).unwrap();
    assert_eq!(ms.areas.len(), 2);
    assert_eq!((ms.areas[0].vpn_start, ms.areas[0].vpn_end), (1, 2));
    assert_eq!((ms.areas[1].vpn_start, ms.areas[1].vpn_end), (3, 4));
    for a in ms.areas.iter() {
        assert_eq!(a.map_perm, RWU);
        assert_eq!(a.map_type, MapType::Framed);
        assert_eq!(a.data_frames.len(), 1);
    }
    assert!(ms.translate(2).is_none());
    assert_eq!(ms.translate(1).unwrap().ppn(), ppn_low);
    assert_eq!(ms.translate(3).unwrap().ppn(), ppn_high);
}

#[test]
fn remove_region_range_needs_one_covering_region() {
    let mut fa = allocator(16);
    let mut ms = space(&mut fa);
    ms.insert_framed_area(&mut fa, 0x1000, 0x3000, RWU).unwrap();
    ms.insert_framed_area(&mut fa, 0x3000, 0x5000, RWU).unwrap();
    assert_eq!(ms.remove_framed_area(&mut fa, 0x2000, 0x4000), Err(MmError::RegionNotFound));
    assert_eq!(ms.remove_framed_area(&mut fa, 0x9000, 0xa000), Err(MmError::RegionNotFound));
    assert_eq!(ms.areas.len(), 2);
    assert!(ms.translate(2).is_some() && ms.translate(3).is_some());
}

#[test]
fn overlapping_insert_is_rejected() {
    let mut fa = allocator(16);
    let mut ms = space(&mut fa);
    ms.mmap(&mut fa, 0x4000, 0x2000, 3).unwrap();
    assert_eq!(ms.mmap(&mut fa, 0x5000, 0x2000, 3), Err(MmError::OverlapRejected));
    assert!(ms.translate(6).is_none());
    assert_eq!(ms.areas.len(), 1);
}

#[test]
fn empty_region_does_not_block_insert() {
    let mut fa = allocator(16);
    let mut ms = space(&mut fa);
    ms.insert_framed_area(&mut fa, 0x3000, 0x3000, RWU).unwrap();
    assert_eq!(ms.areas[0].vpn_start, ms.areas[0].vpn_end);
    ms.insert_framed_area(&mut fa, 0x3000, 0x5000, RWU).unwrap();
    assert_eq!(ms.areas.len(), 2);
    assert!(ms.translate(3).is_some());
}

#[test]
fn exhausted_frames_leave_space_unchanged() {
    let mut fa = allocator(3);
    let mut ms = space(&mut fa);
    assert_eq!(ms.mmap(&mut fa, 0x1000, 0x3000, 3), Err(MmError::FrameExhausted));
    assert!(ms.translate(1).is_none());
    assert!(fa.has_free(2));
    ms.mmap(&mut fa, 0x1000, 0x2000, 3).unwrap();
    assert!(!fa.has_free(1));
}

#[test]
fn grow_and_shrink_region() {
    let mut fa = allocator(16);
    let mut ms = space(&mut fa);
    ms.insert_framed_area(&mut fa, 0x8000, 0x8000, RWU).unwrap();
    assert!(ms.append_to(&mut fa, 0x8000, 0xa000));
    assert_eq!(ms.areas[0].vpn_end, 0xa);
    assert!(ms.translate(8).is_some() && ms.translate(9).is_some());
    assert!(!ms.append_to(&mut fa, 0x8000, 0x9000));
    assert!(ms.shrink_to(&mut fa, 0x8000, 0x8800));
    assert_eq!(ms.areas[0].vpn_end, 9);
    assert!(ms.translate(9).is_none() && ms.translate(8).is_some());
    assert!(!ms.shrink_to(&mut fa, 0x8000, 0xb000));
    assert!(!ms.shrink_to(&mut fa, 0x7000, 0x7000));
    assert!(!ms.append_to(&mut fa, 0x7000, 0x9000));
}

#[test]
fn region_maps_unmaps_and_copies() {
    let mut fa = allocator(8);
    let root = fa.alloc_frame().unwrap();
    let mut pt = PageTable::new(root);
    let mut area = MapArea::new(0x2000, 0x3800, MapType::Framed, RWU);
    assert_eq!((area.vpn_start, area.vpn_end), (2, 4));
    assert!(area.map(&mut pt, &mut fa));
    let data: Vec<u8> = (0..5000u32).map(|i| (i % 251) as u8).collect();
    area.copy_data(&data);
    let f2 = area.data_frames.get(&2).unwrap();
    let f3 = area.data_frames.get(&3).unwrap();
    assert_eq!(&f2.bytes[..], &data[..PAGE_SIZE]);
    assert_eq!(&f3.bytes[..5000 - PAGE_SIZE], &data[PAGE_SIZE..]);
    assert_eq!(f3.bytes[5000 - PAGE_SIZE], 0);
    area.unmap(&mut pt, &mut fa);
    assert!(pt.translate(2).is_none() && pt.translate(3).is_none());
    assert!(area.data_frames.is_empty());
}

#[test]
fn identical_region_maps_to_same_page() {
    let mut fa = allocator(2);
    let root = fa.alloc_frame().unwrap();
    let mut pt = PageTable::new(root);
    let mut area = MapArea::new(0x5000, 0x7000, MapType::Identical, RWU);
    assert!(area.map(&mut pt, &mut fa));
    assert_eq!(pt.translate(5).unwrap().ppn(), 5);
    assert_eq!(pt.translate(6).unwrap().ppn(), 6);
    assert!(area.data_frames.is_empty());
    assert!(fa.has_free(1));
}

fn layout() -> KernelLayout {
    KernelLayout {
        stext: 0x8020_0000,
        etext: 0x8020_3000,
        srodata: 0x8020_3000,
        erodata: 0x8020_5000,
        sdata: 0x8020_5000,
        edata: 0x8020_7000,
        sbss_with_stack: 0x8020_7000,
        ebss: 0x8020_9000,
        ekernel: 0x8020_9000,
        memory_end: 0x8022_0000,
        strampoline: 0x8020_1000,
    }
}

#[test]
fn kernel_space_section_rights() {
    let l = layout();
    assert!(l.is_valid());
    let mut fa = FrameAllocator::new(0x8021_0, 0x8022_0);
    let ks = MemorySet::new_kernel(&l, &mut fa);
    let mid_text = ((l.stext + l.etext) / 2) / PAGE_SIZE;
    let mid_rodata = ((l.srodata + l.erodata) / 2) / PAGE_SIZE;
    let mid_data = ((l.sdata + l.edata) / 2) / PAGE_SIZE;
    let t = ks.translate(mid_text).unwrap();
    assert!(!t.writable() && t.executable() && t.readable());
    let r = ks.translate(mid_rodata).unwrap();
    assert!(!r.executable() && !r.writable() && r.readable());
    let d = ks.translate(mid_data).unwrap();
    assert!(d.writable() && !d.executable());
    assert_eq!(d.ppn(), mid_data);
    let tr = ks.translate(TRAMPOLINE / PAGE_SIZE).unwrap();
    assert_eq!(tr.ppn(), l.strampoline / PAGE_SIZE);
    assert!(tr.executable() && !tr.writable());
    assert_eq!(ks.areas.len(), 5);
    assert!(ks.translate(0x8021_f).is_some());
    assert!(ks.translate(0x8022_0).is_none());
}

#[test]
fn kernel_layout_with_shared_page_is_invalid() {
    let mut l = layout();
    l.srodata = 0x8020_2800;
    assert!(!l.is_valid());
}

#[test]
fn kernel_stack_positions() {
    assert_eq!(kernel_stack_position(0), (TRAMPOLINE - 0x2000, TRAMPOLINE));
    assert_eq!(kernel_stack_position(1), (TRAMPOLINE - 0x5000, TRAMPOLINE - 0x3000));
}

#[test]
fn trap_context_page_is_below_trampoline() {
    assert_eq!(TRAP_CONTEXT_BASE + PAGE_SIZE, TRAMPOLINE);
    assert_eq!(USER_STACK_SIZE, 2 * PAGE_SIZE);
}

#[test]
fn insert_over_identity_page_is_refused() {
    let l = layout();
    let mut fa = FrameAllocator::new(0x8021_0, 0x8022_0);
    let mut ks = MemorySet::new_kernel(&l, &mut fa);
    assert_eq!(
        ks.insert_framed_area(&mut fa, l.sdata, l.sdata + PAGE_SIZE, RWU),
        Err(MmError::OverlapRejected)
    );
    assert_eq!(
        ks.insert_framed_area(&mut fa, TRAMPOLINE, TRAMPOLINE + (PAGE_SIZE - 1), RWU),
        Err(MmError::OverlapRejected)
    );
    assert_eq!(ks.areas.len(), 5);
    for a in ks.areas.iter() {
        assert_eq!(a.map_type, MapType::Identical);
        assert!(a.data_frames.is_empty());
        assert!(a.vpn_end <= TRAMPOLINE / PAGE_SIZE);
    }
}

#[test]
fn shrinking_returns_frames() {
    let mut fa = allocator(8);
    let mut ms = space(&mut fa);
    ms.insert_framed_area(&mut fa, 0x1000, 0x5000, RWU).unwrap();
    assert!(!fa.has_free(4));
    assert!(ms.shrink_to(&mut fa, 0x1000, 0x2000));
    assert!(fa.has_free(6) && !fa.has_free(7));
    ms.recycle_data_pages(&mut fa);
    assert!(fa.has_free(7) && !fa.has_free(8));
    ms.release(&mut fa);
    assert!(fa.has_free(8));
}
