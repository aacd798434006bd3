use kernel_mm::config::{PAGE_SIZE, TRAMPOLINE, TRAP_CONTEXT_BASE};
use kernel_mm::frame_allocator::FrameAllocator;
use kernel_mm::map_area::{MapType, MmError};
use kernel_mm::memory_set::MemorySet;
use kernel_mm::syscall::{
    sys_getpid, sys_mmap, sys_munmap, sys_sbrk, sys_set_priority, sys_spawn, sys_waitpid,
    sys_yield, ChildInfo,
};
use kernel_mm::task::{
    task_info_of, time_val_of, TaskContext, TaskControlBlock, TaskStatus,
};

const STRAMPOLINE: usize = 0x8020_1000;

fn put(buf: &mut Vec<u8>, at: usize, bytes: &[u8]) {
    buf[at..at + bytes.len()].copy_from_slice(bytes);
}

fn segment(buf: &mut Vec<u8>, at: usize, flags: u32, offset: u64, vaddr: u64, filesz: u64, memsz: u64) {
    put(buf, at, &1u32.to_le_bytes());
    put(buf, at + 4, &flags.to_le_bytes());
    put(buf, at + 8, &offset.to_le_bytes());
    put(buf, at + 16, &vaddr.to_le_bytes());
    put(buf, at + 24, &vaddr.to_le_bytes());
    put(buf, at + 32, &filesz.to_le_bytes());
    put(buf, at + 40, &memsz.to_le_bytes());
    put(buf, at + 48, &0x1000u64.to_le_bytes());
}

/// A 64-bit ELF image with a read+execute segment at 0x10000 and a
/// read+write segment at 0x11000, entry 0x10000.
fn two_segment_image() -> Vec<u8> {
    let mut buf = vec![0u8; 0x118];
    put(&mut buf, 0, &[0x7f, b'E', b'L', b'F', 2, 1, 1, 0]);
    put(&mut buf, 16, &2u16.to_le_bytes());
    put(&mut buf, 18, &0xf3u16.to_le_bytes());
    put(&mut buf, 20, &1u32.to_le_bytes());
    put(&mut buf, 24, &0x10000u64.to_le_bytes());
    put(&mut buf, 32, &64u64.to_le_bytes());
    put(&mut buf, 52, &64u16.to_le_bytes());
    put(&mut buf, 54, &56u16.to_le_bytes());
    put(&mut buf, 56, &2u16.to_le_bytes());
    segment(&mut buf, 64, 4 | 1, 0x100, 0x10000, 16, 0x1000);
    segment(&mut buf, 120, 4 | 2, 0x110, 0x11000, 8, 0x2000);
    for i in 0..16 {
        buf[0x100 + i] = 0xa0 + i as u8;
    }
    for i in 0..8 {
        buf[0x110 + i] = 0x50 + i as u8;
    }
    buf
}

#[test]
fn build_from_two_segment_image() {
    let image = two_segment_image();
    let mut fa = FrameAllocator::new(0x80400, 0x80440);
    let (ms, sp, entry) = MemorySet::from_elf(&image, STRAMPOLINE, &mut fa).unwrap();
    assert_eq!(entry, 0x10000);
    assert_eq!(sp, 0x16000);
    let code = ms.translate(0x10).unwrap();
    assert!(code.readable() && code.executable() && code.user_accessible() && !code.writable());
    let data = ms.translate(0x11).unwrap();
    assert!(data.readable() && data.writable() && data.user_accessible() && !data.executable());
    assert!(ms.translate(0x12).is_some());
    assert!(ms.translate(0x13).is_none());
    assert!(ms.translate(0x14).unwrap().writable());
    assert!(ms.translate(0x15).unwrap().user_accessible());
    assert!(ms.translate(0x16).is_none());
    let trap = ms.translate(TRAP_CONTEXT_BASE / PAGE_SIZE).unwrap();
    assert!(trap.writable() && !trap.user_accessible());
    assert_eq!(ms.translate(TRAMPOLINE / PAGE_SIZE).unwrap().ppn(), STRAMPOLINE / PAGE_SIZE);
    let n = ms.areas.len();
    assert_eq!(n, 5);
    assert_eq!((ms.areas[n - 3].vpn_start, ms.areas[n - 3].vpn_end), (0x14, 0x16));
    assert_eq!((ms.areas[n - 2].vpn_start, ms.areas[n - 2].vpn_end), (0x16, 0x16));
    assert_eq!(ms.areas[n - 1].vpn_start, TRAP_CONTEXT_BASE / PAGE_SIZE);
    assert_eq!(ms.areas[n - 1].vpn_end, TRAMPOLINE / PAGE_SIZE);
    assert!(ms.areas[n - 3].vpn_end * PAGE_SIZE <= TRAP_CONTEXT_BASE);
    assert!(ms.areas.iter().all(|a| a.map_type == MapType::Framed));
    let first = ms.areas[0].data_frames.get(&0x10).unwrap();
    assert_eq!(&first.bytes[..16], &image[0x100..0x110]);
    assert_eq!(first.bytes[16], 0);
    let second = ms.areas[1].data_frames.get(&0x11).unwrap();
    assert_eq!(&second.bytes[..8], &image[0x110..0x118]);
}

#[test]
fn image_with_bad_magic_is_refused() {
    let mut image = two_segment_image();
    image[1] = b'X';
    let mut fa = FrameAllocator::new(0x80400, 0x80440);
    assert!(matches!(MemorySet::from_elf(&image, STRAMPOLINE, &mut fa), Err(MmError::InvalidImage)));
    assert!(fa.has_free(0x40));
}

#[test]
fn short_image_is_refused() {
    let image = vec![0x7f, b'E', b'L', b'F'];
    let mut fa = FrameAllocator::new(0x80400, 0x80440);
    assert!(matches!(MemorySet::from_elf(&image, STRAMPOLINE, &mut fa), Err(MmError::InvalidImage)));
}

#[test]
fn image_with_segment_past_its_end_is_refused() {
    let mut image = two_segment_image();
    segment(&mut image, 120, 4 | 2, 0x110, 0x11000, 0x100, 0x2000);
    let mut fa = FrameAllocator::new(0x80400, 0x80440);
    assert!(matches!(MemorySet::from_elf(&image, STRAMPOLINE, &mut fa), Err(MmError::InvalidImage)));
}

#[test]
fn image_needing_too_many_frames_is_refused() {
    let image = two_segment_image();
    let mut fa = FrameAllocator::new(0x80400, 0x80404);
    assert!(matches!(MemorySet::from_elf(&image, STRAMPOLINE, &mut fa), Err(MmError::FrameExhausted)));
    assert!(fa.has_free(4));
}

#[test]
fn recycling_returns_all_frames() {
    let image = two_segment_image();
    let mut fa = FrameAllocator::new(0x80400, 0x80440);
    let (mut ms, _, _) = MemorySet::from_elf(&image, STRAMPOLINE, &mut fa).unwrap();
    assert!(!fa.has_free(0x40 - 1 - 6 + 1));
    ms.recycle_data_pages(&mut fa);
    assert!(ms.areas.is_empty());
    assert!(ms.translate(0x10).is_none() && ms.translate(0x14).is_none());
    assert!(ms.translate(TRAMPOLINE / PAGE_SIZE).is_some());
    assert!(fa.has_free(0x40 - 1));
    assert!(!fa.has_free(0x40));
    ms.release(&mut fa);
    assert!(fa.has_free(0x40));
}

#[test]
fn sbrk_grows_and_shrinks_heap() {
    let image = two_segment_image();
    let mut fa = FrameAllocator::new(0x80400, 0x80440);
    let (mut ms, sp, _) = MemorySet::from_elf(&image, STRAMPOLINE, &mut fa).unwrap();
    let heap_bottom = sp;
    let mut brk = sp;
    assert_eq!(sys_sbrk(&mut ms, &mut fa, heap_bottom, &mut brk, 0x1800), sp as isize);
    assert_eq!(brk, sp + 0x1800);
    assert!(ms.translate(0x16).is_some() && ms.translate(0x17).is_some());
    assert!(ms.translate(0x18).is_none());
    assert_eq!(sys_sbrk(&mut ms, &mut fa, heap_bottom, &mut brk, -0x1000), (sp + 0x1800) as isize);
    assert_eq!(brk, sp + 0x800);
    assert!(ms.translate(0x16).is_some() && ms.translate(0x17).is_none());
    assert_eq!(sys_sbrk(&mut ms, &mut fa, heap_bottom, &mut brk, -0x1000), -1);
    assert_eq!(brk, sp + 0x800);
}

#[test]
fn sys_mmap_and_munmap_report_status() {
    let mut fa = FrameAllocator::new(0x80400, 0x80410);
    let mut ms = MemorySet::new_bare(&mut fa);
    assert_eq!(sys_mmap(&mut ms, &mut fa, 0x1000, 0x1000, 3), 0);
    assert_eq!(sys_mmap(&mut ms, &mut fa, 0x1000, 0x1000, 3), -1);
    assert_eq!(sys_mmap(&mut ms, &mut fa, 0x2000, 0x1000, 0), -1);
    assert_eq!(sys_munmap(&mut ms, &mut fa, 0x1000, 0x1000), 0);
    assert_eq!(sys_munmap(&mut ms, &mut fa, 0x1000, 0x1000), -1);
}

#[test]
fn fixed_syscall_results() {
    assert_eq!(sys_spawn(), -1);
    assert_eq!(sys_set_priority(16), -1);
    assert_eq!(sys_getpid(7), 7);
    assert_eq!(sys_yield(), 0);
}

#[test]
fn waitpid_decisions() {
    let kids = vec![
        ChildInfo { pid: 3, is_zombie: false, exit_code: 0 },
        ChildInfo { pid: 4, is_zombie: true, exit_code: 9 },
        ChildInfo { pid: 5, is_zombie: true, exit_code: 1 },
    ];
    assert_eq!(sys_waitpid(&kids, -1), (4, Some(1)));
    assert_eq!(sys_waitpid(&kids, 5), (5, Some(2)));
    assert_eq!(sys_waitpid(&kids, 3), (-2, None));
    assert_eq!(sys_waitpid(&kids, 8), (-1, None));
    assert_eq!(sys_waitpid(&Vec::new(), -1), (-1, None));
}

#[test]
fn task_reports() {
    let mut times = [0usize; 500];
    times[64] = 3;
    times[93] = (1usize << 32) + 5;
    let tcb = TaskControlBlock {
        task_status: TaskStatus::Running,
        task_cx: TaskContext { ra: 0, sp: 0, s: [0; 12] },
        time: 42,
        syscall_times: times,
    };
    assert!(tcb.get_task_status() == TaskStatus::Running);
    assert_eq!(tcb.get_time(), 42);
    let t = tcb.get_syscall_times();
    assert_eq!(t[64], 3);
    assert_eq!(t[93], 5);
    let info = task_info_of(&tcb);
    assert!(info.status == TaskStatus::Running);
    assert_eq!(info.time, 42);
    assert_eq!(info.syscall_times[64], 3);
    let tv = time_val_of(3_500_007);
    assert_eq!((tv.sec, tv.usec), (3, 500_007));
}

#[test]
fn image_at_odd_address_loads() {
    let image = two_segment_image();
    let mut shifted = vec![0u8; image.len() + 1];
    shifted[1..].copy_from_slice(&image);
    let mut fa = FrameAllocator::new(0x80400, 0x80440);
    let (ms, sp, entry) = MemorySet::from_elf(&shifted[1..], STRAMPOLINE, &mut fa).unwrap();
    assert_eq!((sp, entry), (0x16000, 0x10000));
    assert!(ms.translate(0x10).unwrap().executable());
}

#[test]
fn overlapping_segments_are_refused_and_frames_returned() {
    let mut image = two_segment_image();
    segment(&mut image, 120, 4 | 2, 0x110, 0x10000, 8, 0x2000);
    let mut fa = FrameAllocator::new(0x80400, 0x80440);
    assert!(matches!(MemorySet::from_elf(&image, STRAMPOLINE, &mut fa), Err(MmError::OverlapRejected)));
    assert!(fa.has_free(0x40));
}
