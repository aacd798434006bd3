//! Task control blocks and what a task reports about itself.

use vstd::prelude::*;

use crate::config::MAX_SYSCALL_NUM;

verus! {

/// Where a task is in its life cycle.
#[derive(Clone, Copy, Debug, PartialEq, Eq, Structural)]
pub enum TaskStatus {
    /// Not initialized.
    UnInit,
    /// Ready to run.
    Ready,
    /// Running.
    Running,
    /// Exited.
    Exited,
}

/// The registers that a switch between tasks saves: the return address,
/// the stack pointer, and the callee-saved registers.
#[derive(Clone, Copy, Debug)]
pub struct TaskContext {
    pub ra: usize,
    pub sp: usize,
    pub s: [usize; 12],
}

/// The control block of a task.
#[derive(Clone, Copy)]
pub struct TaskControlBlock {
    /// Where the task is in its life cycle.
    pub task_status: TaskStatus,
    /// The saved registers.
    pub task_cx: TaskContext,
    /// The time the task has run.
    pub time: usize,
    /// How often the task made each system call.
    pub syscall_times: [usize; MAX_SYSCALL_NUM],
}

impl TaskControlBlock {
    /// Where the task is in its life cycle.
    pub fn get_task_status(&self) -> (r: TaskStatus)
        ensures
            r == self.task_status,
    {
        self.task_status
    }

    /// The time the task has run.
    pub fn get_time(&self) -> (r: usize)
        ensures
            r == self.time,
    {
        self.time
    }

    /// How often the task made each system call, each count cut to 32 bits.
    pub fn get_syscall_times(&self) -> (r: [u32; MAX_SYSCALL_NUM])
        ensures
            forall|i: int| 0 <= i < MAX_SYSCALL_NUM ==> #[trigger] r@[i] == self.syscall_times@[i] as u32,
    {
        let mut r = [0u32; MAX_SYSCALL_NUM];
        let mut i: usize = 0;
        while i < MAX_SYSCALL_NUM
            invariant
                i <= MAX_SYSCALL_NUM,
                forall|k: int| 0 <= k < i ==> #[trigger] r@[k] == self.syscall_times@[k] as u32,
            decreases MAX_SYSCALL_NUM - i,
        {
            r[i] = self.syscall_times[i] as u32;
            i = i + 1;
        }
        r
    }
}

/// What a task reports about itself.
pub struct TaskInfo {
    /// Where the task is in its life cycle.
    pub status: TaskStatus,
    /// How often the task made each system call.
    pub syscall_times: [u32; MAX_SYSCALL_NUM],
    /// The time the task has run.
    pub time: usize,
}

/// A time as seconds and microseconds.
#[derive(Clone, Copy, Debug, PartialEq, Eq, Structural)]
pub struct TimeVal {
    pub sec: usize,
    pub usec: usize,
}

/// The time `us` microseconds as seconds and the microseconds left over.
pub fn time_val_of(us: usize) -> (r: TimeVal)
    ensures
        r.sec == us / 1_000_000,
        r.usec == us % 1_000_000,
{
    TimeVal { sec: us / 1_000_000, usec: us % 1_000_000 }
}

/// What task `tcb` reports about itself.
pub fn task_info_of(tcb: &TaskControlBlock) -> (r: TaskInfo)
    ensures
        r.status == tcb.task_status,
        r.time == tcb.time,
        forall|i: int| 0 <= i < MAX_SYSCALL_NUM ==> #[trigger] r.syscall_times@[i] == tcb.syscall_times@[i] as u32,
{
    TaskInfo { status: tcb.get_task_status(), syscall_times: tcb.get_syscall_times(), time: tcb.get_time() }
}

} // verus!
