//! Tasks as the scheduler sees them.

use vstd::prelude::*;

verus! {

/// Unique identifier for a core.
pub type CoreId = u32;

/// Reference to a task that a core holds in its [`TaskStore`](crate::store::TaskStore).
///
/// Two references are equal exactly when they denote the same task, whatever
/// identifiers the tasks carry.
pub type TaskRef = usize;

/// Unique identifier of a task.
#[derive(Clone, Copy, Debug, PartialEq, Eq, Structural)]
pub struct TaskId(pub u32);

impl TaskId {
    pub fn into(self) -> (x: u32)
        ensures
            x == self.0,
    {
        self.0
    }

    pub fn from(x: u32) -> (id: TaskId)
        ensures
            id == TaskId(x),
    {
        TaskId(x)
    }
}

/// Priority of a task. A larger number is more urgent.
#[derive(Clone, Copy, Debug, PartialEq, Eq, Structural)]
pub struct Priority(pub u8);

/// The priority of an idle task, below or equal to every other one.
pub const IDLE_PRIO: u8 = 0;

impl Priority {
    pub fn into(self) -> (x: u8)
        ensures
            x == self.0,
    {
        self.0
    }

    pub fn from(x: u8) -> (prio: Priority)
        ensures
            prio == Priority(x),
    {
        Priority(x)
    }
}

/// The state of a task in its life from creation to release.
#[derive(Clone, Copy, Debug, PartialEq, Eq, Structural)]
pub enum TaskStatus {
    /// Finished and handed over for cleanup.
    TaskInvalid,
    /// Waiting in a ready queue.
    TaskReady,
    /// Owns its core.
    TaskRunning,
    /// Waiting for a wakeup.
    TaskBlocked,
    /// Has exited and still owns its core.
    TaskFinished,
    /// The task a core runs when it has nothing else to do.
    TaskIdle,
}

/// Why a blocked task became ready again.
#[derive(Clone, Copy, Debug, PartialEq, Eq, Structural)]
pub enum WakeupReason {
    /// Another task woke it up.
    Custom,
    /// Its wakeup time elapsed.
    Timer,
}

/// What a core has to know to wake up a task that may live on another core.
#[derive(Clone, Copy, Debug, PartialEq, Eq, Structural)]
pub struct TaskHandle {
    pub id: TaskId,
    pub prio: Priority,
    pub core_id: CoreId,
}

impl TaskHandle {
    pub fn new(id: TaskId, prio: Priority, core_id: CoreId) -> (handle: TaskHandle)
        ensures
            handle == (TaskHandle { id, prio, core_id }),
    {
        TaskHandle { id, prio, core_id }
    }

    pub fn get_id(&self) -> (id: TaskId)
        ensures
            id == self.id,
    {
        self.id
    }

    pub fn get_core_id(&self) -> (core_id: CoreId)
        ensures
            core_id == self.core_id,
    {
        self.core_id
    }
}

/// Where the stacks of a task lie, as start address and size in bytes.
#[derive(Clone, Copy, Debug, PartialEq, Eq, Structural)]
pub struct TaskStacks {
    pub kernel_stack: usize,
    pub kernel_stack_size: usize,
    pub interrupt_stack: usize,
    pub interrupt_stack_size: usize,
}

/// How many bytes stay free above the top of a stack.
pub const STACK_TOP_GAP: usize = 0x10;

/// The stack pointer at the top of a stack with the given start address and size.
pub open spec fn stack_top(start: usize, size: usize) -> int {
    start + size - STACK_TOP_GAP
}

impl TaskStacks {
    /// Says that each stack lies in the address space and has a top above address zero.
    pub open spec fn has_tops(self) -> bool {
        &&& STACK_TOP_GAP <= self.kernel_stack + self.kernel_stack_size <= usize::MAX
        &&& STACK_TOP_GAP <= self.interrupt_stack + self.interrupt_stack_size <= usize::MAX
    }
}

/// What the platform prepares before a task can be created: its stacks, the
/// stack pointer of its first stack frame, and the platform's own data.
pub struct TaskSeed<C> {
    pub stacks: TaskStacks,
    pub stack_pointer: usize,
    pub context: C,
}

/// A task control block. The type `C` holds what only the platform can read,
/// such as saved FPU registers and the memory of the stacks.
pub struct Task<C> {
    /// Identifier of the task
    pub id: TaskId,
    /// Status of the task
    pub status: TaskStatus,
    /// Task priority
    pub prio: Priority,
    /// Stack pointer at which the task continues when it gets the core
    pub last_stack_pointer: usize,
    /// Stack pointer of the user stack
    pub user_stack_pointer: usize,
    /// The core on which the task lives
    pub core_id: CoreId,
    /// Stacks of the task
    pub stacks: TaskStacks,
    /// Why the task was woken up the last time
    pub last_wakeup_reason: WakeupReason,
    /// Error number of the network stack
    pub lwip_errno: i32,
    /// Data of the platform
    pub context: C,
}

/// The task that [`Task::new`] creates.
pub open spec fn new_task<C>(
    id: TaskId,
    core_id: CoreId,
    status: TaskStatus,
    prio: Priority,
    seed: TaskSeed<C>,
) -> Task<C> {
    Task {
        id,
        status,
        prio,
        last_stack_pointer: seed.stack_pointer,
        user_stack_pointer: 0,
        core_id,
        stacks: seed.stacks,
        last_wakeup_reason: WakeupReason::Custom,
        lwip_errno: 0,
        context: seed.context,
    }
}

/// The task that [`Task::clone`] creates.
pub open spec fn cloned_task<C>(
    id: TaskId,
    core_id: CoreId,
    task: Task<C>,
    seed: TaskSeed<C>,
) -> Task<C> {
    Task {
        last_wakeup_reason: task.last_wakeup_reason,
        ..new_task(id, core_id, TaskStatus::TaskReady, task.prio, seed)
    }
}

impl<C> Task<C> {
    /// A task with the given identity that starts with the given seed.
    pub fn new(
        id: TaskId,
        core_id: CoreId,
        status: TaskStatus,
        prio: Priority,
        seed: TaskSeed<C>,
    ) -> (task: Task<C>)
        ensures
            task == new_task(id, core_id, status, prio, seed),
    {
        Task {
            id,
            status,
            prio,
            last_stack_pointer: seed.stack_pointer,
            user_stack_pointer: 0,
            core_id,
            stacks: seed.stacks,
            last_wakeup_reason: WakeupReason::Custom,
            lwip_errno: 0,
            context: seed.context,
        }
    }

    /// The idle task of a core.
    pub fn new_idle(id: TaskId, core_id: CoreId, seed: TaskSeed<C>) -> (task: Task<C>)
        ensures
            task == new_task(id, core_id, TaskStatus::TaskIdle, Priority(IDLE_PRIO), seed),
    {
        Task::new(id, core_id, TaskStatus::TaskIdle, Priority(IDLE_PRIO), seed)
    }

    /// A ready task with the priority and the last wakeup reason of `task`.
    pub fn clone(id: TaskId, core_id: CoreId, task: &Task<C>, seed: TaskSeed<C>) -> (clone: Task<C>)
        ensures
            clone == cloned_task(id, core_id, *task, seed),
    {
        let mut clone = Task::new(id, core_id, TaskStatus::TaskReady, task.prio, seed);
        clone.last_wakeup_reason = task.last_wakeup_reason;
        clone
    }

    /// The handle by which other tasks can wake it up.
    pub open spec fn handle(self) -> TaskHandle {
        TaskHandle { id: self.id, prio: self.prio, core_id: self.core_id }
    }
}

} // verus!
