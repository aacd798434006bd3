//! The decisions of the process and memory system calls. The caller finds
//! the current task and hands over its address space and the frame
//! allocator; a result of -1 reports a failure to user code.

use vstd::prelude::*;

use crate::frame_allocator::FrameAllocator;
use crate::memory_set::{
    append_ok, mmap_outcome, mmap_result, munmap_outcome, munmap_result, shrink_ok, MemorySet,
};

verus! {

/// Maps `len` bytes at the page-aligned address `start` for the calling
/// task with the access bits `prot` (R, W, X in bits 0 to 2). Returns 0, or
/// -1 when `mmap` fails.
pub fn sys_mmap(ms: &mut MemorySet, fa: &mut FrameAllocator, start: usize, len: usize, prot: usize) -> (r:
    isize)
    requires
        old(ms).wf(),
        old(fa).wf(),
        old(ms).frames_from(old(fa)),
        start + len <= usize::MAX,
    ensures
        final(ms).wf(),
        final(fa).wf(),
        final(ms).frames_from(final(fa)),
        mmap_result(old(ms), final(ms), old(fa), final(fa), start, len, prot, mmap_outcome(old(ms), old(fa), start, len, prot)),
        r == (if mmap_outcome(old(ms), old(fa), start, len, prot) is Ok {
            0isize
        } else {
            -1isize
        }),
{
    match ms.mmap(fa, start, len, prot) {
        Ok(()) => 0,
        Err(_) => -1,
    }
}

/// Unmaps `len` bytes at the page-aligned address `start` for the calling
/// task. Returns 0, or -1 when `munmap` fails.
pub fn sys_munmap(ms: &mut MemorySet, fa: &mut FrameAllocator, start: usize, len: usize) -> (r: isize)
    requires
        old(ms).wf(),
        old(fa).wf(),
        old(ms).frames_from(old(fa)),
        start + len <= usize::MAX,
    ensures
        final(ms).wf(),
        final(fa).wf(),
        final(ms).frames_from(final(fa)),
        munmap_result(old(ms), final(ms), old(fa), final(fa), start, len, munmap_outcome(old(ms), start, len)),
        r == (if munmap_outcome(old(ms), start, len) is Ok {
            0isize
        } else {
            -1isize
        }),
{
    match ms.munmap(fa, start, len) {
        Ok(()) => 0,
        Err(_) => -1,
    }
}

/// Moves the program break of the calling task by `size` bytes: the heap
/// region, which starts at `heap_bottom`, grows or shrinks to end at the new
/// break. Returns the old break, or -1 when the new break would lie below
/// the heap's start or past `isize::MAX`, or the region cannot be resized.
pub fn sys_sbrk(
    ms: &mut MemorySet,
    fa: &mut FrameAllocator,
    heap_bottom: usize,
    program_brk: &mut usize,
    size: i32,
) -> (r: isize)
    requires
        old(ms).wf(),
        old(fa).wf(),
        old(ms).frames_from(old(fa)),
        *old(program_brk) <= isize::MAX,
    ensures
        final(ms).wf(),
        final(fa).wf(),
        final(ms).frames_from(final(fa)),
        ({
            let nb = *old(program_brk) + size;
            let ok = heap_bottom <= nb <= isize::MAX && (if size < 0 {
                shrink_ok(old(ms), heap_bottom, nb as usize)
            } else {
                append_ok(old(ms), old(fa), heap_bottom, nb as usize)
            });
            &&& r == (if ok {
                *old(program_brk) as isize
            } else {
                -1isize
            })
            &&& *final(program_brk) == (if ok {
                nb as usize
            } else {
                *old(program_brk)
            })
        }),
{
    let old_brk = *program_brk;
    let new_brk: i128 = old_brk as i128 + size as i128;
    if new_brk < heap_bottom as i128 || new_brk > isize::MAX as i128 {
        return -1;
    }
    let new_end = new_brk as usize;
    let ok = if size < 0 {
        ms.shrink_to(fa, heap_bottom, new_end)
    } else {
        ms.append_to(fa, heap_bottom, new_end)
    };
    if ok {
        *program_brk = new_end;
        old_brk as isize
    } else {
        -1
    }
}

/// Creating a task from a program path: not offered, so always -1.
pub fn sys_spawn() -> (r: isize)
    ensures
        r == -1,
{
    -1
}

/// Setting a task's priority: not offered, so always -1.
pub fn sys_set_priority(_prio: isize) -> (r: isize)
    ensures
        r == -1,
{
    -1
}

/// The value that `getpid` returns for a task of process id `pid`.
pub fn sys_getpid(pid: usize) -> (r: isize)
    requires
        pid <= isize::MAX,
    ensures
        r == pid,
{
    pid as isize
}

/// The value that `yield` returns once the task runs again.
pub fn sys_yield() -> (r: isize)
    ensures
        r == 0,
{
    0
}

/// What a waiting task knows of one of its children.
#[derive(Clone, Copy, Debug, PartialEq, Eq, Structural)]
pub struct ChildInfo {
    pub pid: usize,
    pub is_zombie: bool,
    pub exit_code: i32,
}

/// Child `c` is one that `waitpid(pid)` waits for: any child for -1, else
/// the one of that process id.
pub open spec fn waits_for(pid: isize, c: ChildInfo) -> bool {
    pid == -1 || pid as usize == c.pid
}

/// What `waitpid(pid)` decides over `children`: -1 when no child is one it
/// waits for; -2 when none of those has exited yet; else the process id of
/// the first exited one, with its index, which the caller removes and whose
/// exit code it hands to user code.
pub fn sys_waitpid(children: &Vec<ChildInfo>, pid: isize) -> (r: (isize, Option<usize>))
    requires
        forall|i: int| 0 <= i < children@.len() ==> (#[trigger] children@[i]).pid <= isize::MAX,
    ensures
        !(exists|i: int| 0 <= i < children@.len() && waits_for(pid, #[trigger] children@[i])) ==> r
            == (-1isize, None::<usize>),
        (exists|i: int| 0 <= i < children@.len() && waits_for(pid, #[trigger] children@[i])) && !(
        exists|i: int|
            0 <= i < children@.len() && waits_for(pid, #[trigger] children@[i])
                && children@[i].is_zombie) ==> r == (-2isize, None::<usize>),
        r.1 matches Some(k) ==> {
            &&& 0 <= k < children@.len()
            &&& waits_for(pid, children@[k as int])
            &&& children@[k as int].is_zombie
            &&& r.0 == children@[k as int].pid
            &&& forall|j: int|
                0 <= j < k ==> !(waits_for(pid, #[trigger] children@[j]) && children@[j].is_zombie)
        },
        (exists|i: int|
            0 <= i < children@.len() && waits_for(pid, #[trigger] children@[i])
                && children@[i].is_zombie) ==> r.1 is Some,
{
    let mut any = false;
    let mut i: usize = 0;
    while i < children.len()
        invariant
            i <= children@.len(),
            forall|j: int| 0 <= j < children@.len() ==> (#[trigger] children@[j]).pid <= isize::MAX,
            forall|j: int|
                0 <= j < i ==> !(waits_for(pid, #[trigger] children@[j]) && children@[j].is_zombie),
            any == (exists|j: int| 0 <= j < i && waits_for(pid, #[trigger] children@[j])),
        decreases children@.len() - i,
    {
        let c = children[i];
        let matches = pid == -1 || #[verifier::truncate] (pid as usize) == c.pid;
        if matches && c.is_zombie {
            proof {
                assert(children@[i as int].pid <= isize::MAX);
                assert(waits_for(pid, children@[i as int]));
            }
            return (c.pid as isize, Some(i));
        }
        proof {
            if matches {
                assert(waits_for(pid, children@[i as int]));
            }
            if any || matches {
                if !any {
                    assert(waits_for(pid, children@[i as int]));
                }
            } else {
                assert forall|j: int| 0 <= j < i + 1 implies !waits_for(pid, #[trigger] children@[j]) by {
                    if j < i {
                    }
                };
            }
        }
        any = any || matches;
        i = i + 1;
    }
    if !any {
        (-1, None)
    } else {
        (-2, None)
    }
}

} // verus!
