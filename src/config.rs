//! Fixed layout constants shared by every address space.

use vstd::prelude::*;

verus! {

/// Bytes in one page.
pub const PAGE_SIZE: usize = 4096;

/// Bytes in the user stack of each program.
pub const USER_STACK_SIZE: usize = 8192;

/// Bytes in each kernel stack.
pub const KERNEL_STACK_SIZE: usize = 8192;

/// End of the physical memory that the kernel maps.
pub const MEMORY_END: usize = 0x8800_0000;

/// Virtual address of the trampoline page: the highest page of the address space.
pub const TRAMPOLINE: usize = usize::MAX - PAGE_SIZE + 1;

/// Virtual address of the trap-context page, right below the trampoline.
pub const TRAP_CONTEXT_BASE: usize = TRAMPOLINE - PAGE_SIZE;

/// Number of system calls that a task's statistics keep a counter for.
pub const MAX_SYSCALL_NUM: usize = 500;

/// Page number that holds the address `va`.
pub open spec fn floor_spec(va: usize) -> usize {
    va / PAGE_SIZE
}

/// Smallest page number whose page starts at or above `va`.
pub open spec fn ceil_spec(va: usize) -> usize {
    if va % PAGE_SIZE == 0 {
        va / PAGE_SIZE
    } else {
        (va / PAGE_SIZE + 1) as usize
    }
}

/// Page number that holds the address `va`.
pub fn floor(va: usize) -> (r: usize)
    ensures
        r == floor_spec(va),
{
    va / PAGE_SIZE
}

/// Smallest page number whose page starts at or above `va`.
pub fn ceil(va: usize) -> (r: usize)
    ensures
        r == ceil_spec(va),
{
    if va % PAGE_SIZE == 0 {
        va / PAGE_SIZE
    } else {
        va / PAGE_SIZE + 1
    }
}

/// `floor(a) <= ceil(b)` when `a <= b`.
pub proof fn lemma_floor_le_ceil(a: usize, b: usize)
    requires
        a <= b,
    ensures
        floor_spec(a) <= ceil_spec(b),
{
    vstd::arithmetic::div_mod::lemma_div_is_ordered(a as int, b as int, PAGE_SIZE as int);
}

} // verus!
