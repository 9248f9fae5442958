//! What the operations of a scheduler do, as functions on the state of a core and
//! on the state that all cores share.

use crate::blocked::{elapsed_count, first_with_id, holds_id, place, sorted, BlockedEntry};
use crate::ready::{highest_priority, is_next, next_entry, next_index, without_next, ReadyEntry};
use crate::shared::{after_pick, picked_core, InputView, SharedView};
use crate::store::free_ref;
use crate::task::{
    cloned_task, new_task, stack_top, CoreId, Priority, Task, TaskHandle, TaskId, TaskRef, TaskSeed,
    TaskStatus, WakeupReason, IDLE_PRIO,
};
use vstd::prelude::*;

verus! {

/// Time slice of a task in microseconds.
/// When this time has elapsed and the scheduler is called, it may switch to another ready task.
pub const TASK_TIME_SLICE: u64 = 10_000;

/// A change of the running task, which the platform has to carry out: it saves
/// the context of `from` and continues with `to` at the given stack pointer.
#[derive(Clone, Copy, Debug, PartialEq, Eq, Structural)]
pub struct Switch {
    pub from: TaskRef,
    pub to: TaskRef,
    pub new_stack_pointer: usize,
}

/// A change of the FPU owner, which the platform has to carry out: it saves the
/// registers to the context of `save` and loads them from that of `restore`.
#[derive(Clone, Copy, Debug, PartialEq, Eq, Structural)]
pub struct FpuSwitch {
    pub save: TaskRef,
    pub restore: TaskRef,
}

/// What a scheduler finds for its core to run.
pub enum Choice {
    /// Nothing: the current task goes on.
    Stay,
    /// The ready task that comes next.
    NextReady,
    /// The idle task.
    Idle,
}

/// The state of one core.
#[verifier::ext_equal]
pub struct CoreView<C> {
    pub core_id: CoreId,
    pub input: int,
    pub tasks: Map<TaskRef, Task<C>>,
    pub current: TaskRef,
    pub idle: TaskRef,
    pub fpu_owner: TaskRef,
    pub ready: Seq<ReadyEntry>,
    pub finished: Seq<TaskId>,
    pub blocked: Seq<BlockedEntry>,
    pub last_task_switch_tick: u64,
}

impl<C> CoreView<C> {
    /// The task that has the core.
    pub open spec fn current_task(self) -> Task<C> {
        self.tasks[self.current]
    }

    /// Says that all references denote tasks of the core, that the queues hold the
    /// priorities and identifiers of their tasks, that the blocked tasks are sorted by
    /// wakeup time, and that the largest reference denotes no task.
    pub open spec fn valid(self) -> bool {
        &&& self.tasks.contains_key(self.current)
        &&& self.tasks.contains_key(self.idle)
        &&& self.tasks.contains_key(self.fpu_owner)
        &&& forall|r: TaskRef| #[trigger]
            self.tasks.contains_key(r) ==> self.tasks[r].core_id == self.core_id
        &&& forall|i: int|
            0 <= i < self.ready.len() ==> self.tasks.contains_key((#[trigger] self.ready[i]).task)
                && self.tasks[self.ready[i].task].prio == self.ready[i].prio
        &&& forall|i: int|
            0 <= i < self.blocked.len() ==> self.tasks.contains_key(
                (#[trigger] self.blocked[i]).task,
            ) && self.tasks[self.blocked[i].task].id == self.blocked[i].id
        &&& sorted(self.blocked)
        &&& !self.tasks.contains_key(usize::MAX)
    }

    /// Says that the core has references for `n` more tasks. The largest one is never used.
    pub open spec fn has_room(self, n: int) -> bool {
        self.tasks.dom().len() + n <= usize::MAX
    }

    /// Says that the input of the core is among those that all cores share, and belongs
    /// to the core.
    pub open spec fn attached_to(self, shared: SharedView<C>) -> bool {
        0 <= self.input < shared.owners.len() && shared.owners[self.input] == self.core_id
    }

    /// Says that both states are states of the same core with the same input.
    pub open spec fn same_core(self, other: CoreView<C>) -> bool {
        self.core_id == other.core_id && self.input == other.input
    }

    /// The identifier of the current task.
    pub open spec fn task_id(self) -> TaskId {
        self.current_task().id
    }

    /// The error number of the network stack for the current task.
    pub open spec fn lwip_errno(self) -> i32 {
        self.current_task().lwip_errno
    }

    /// Why the current task was woken up the last time.
    pub open spec fn wakeup_reason(self) -> WakeupReason {
        self.current_task().last_wakeup_reason
    }

    /// The user stack pointer of the current task.
    pub open spec fn user_stack(self) -> usize {
        self.current_task().user_stack_pointer
    }

    /// Says that the current task is an idle task.
    pub open spec fn is_idle(self) -> bool {
        self.current_task().status == TaskStatus::TaskIdle
    }

    /// The stack pointers with which the processor enters the kernel while the current task
    /// runs: on a change to the kernel's privilege level, and in an interrupt handler.
    pub open spec fn kernel_entry(self) -> (int, int) {
        let stacks = self.current_task().stacks;
        (
            stack_top(stacks.kernel_stack, stacks.kernel_stack_size),
            stack_top(stacks.interrupt_stack, stacks.interrupt_stack_size),
        )
    }

    /// The top of the kernel stack of the current task, if that stack has the given size.
    pub open spec fn kernel_stack_top(self, size: usize) -> int {
        stack_top(self.current_task().stacks.kernel_stack, size)
    }

    /// The state with another current task control block.
    pub open spec fn with_current(self, task: Task<C>) -> CoreView<C> {
        CoreView { tasks: self.tasks.insert(self.current, task), ..self }
    }

    /// The state in which the current task has another error number of the network stack.
    pub open spec fn with_lwip_errno(self, errno: i32) -> CoreView<C> {
        self.with_current(Task { lwip_errno: errno, ..self.current_task() })
    }

    /// The state in which the current task has another last wakeup reason.
    pub open spec fn with_wakeup_reason(self, reason: WakeupReason) -> CoreView<C> {
        self.with_current(Task { last_wakeup_reason: reason, ..self.current_task() })
    }

    /// The state in which the current task has another user stack pointer.
    pub open spec fn with_user_stack(self, addr: usize) -> CoreView<C> {
        self.with_current(Task { user_stack_pointer: addr, ..self.current_task() })
    }

    /// The state in which another stack pointer is saved for a task.
    pub open spec fn with_stack_pointer(self, r: TaskRef, stack_pointer: usize) -> CoreView<C> {
        CoreView {
            tasks: self.tasks.insert(
                r,
                Task { last_stack_pointer: stack_pointer, ..self.tasks[r] },
            ),
            ..self
        }
    }

    /// The state in which the platform has other data for a task.
    pub open spec fn with_context(self, r: TaskRef, context: C) -> CoreView<C> {
        CoreView { tasks: self.tasks.insert(r, Task { context, ..self.tasks[r] }), ..self }
    }

    /// The state with another status of a task.
    pub open spec fn with_status(self, r: TaskRef, status: TaskStatus) -> CoreView<C> {
        CoreView { tasks: self.tasks.insert(r, Task { status, ..self.tasks[r] }), ..self }
    }

    /// The state with the given task at the end of the ready queue.
    pub open spec fn enqueued(self, r: TaskRef) -> CoreView<C> {
        CoreView {
            ready: self.ready.push(ReadyEntry { task: r, prio: self.tasks[r].prio }),
            ..self
        }
    }

    /// The state with a new task of the core, which is ready.
    pub open spec fn adopted(self, task: Task<C>) -> CoreView<C> {
        let r = free_ref(self.tasks);
        CoreView { tasks: self.tasks.insert(r, task), ..self }.enqueued(r)
    }

    /// The state with all the given tasks as new tasks, from the first to the last.
    pub open spec fn adopted_all(self, tasks: Seq<Task<C>>) -> CoreView<C>
        decreases tasks.len(),
    {
        if tasks.len() == 0 {
            self
        } else {
            self.adopted(tasks[0]).adopted_all(tasks.drop_first())
        }
    }

    /// Says that the core has got the given tasks: each of them has a reference that no
    /// task had before, no two of them share one, they are queued behind those that are
    /// ready, from the first to the last, and nothing has changed for the tasks that the
    /// core had before.
    pub open spec fn has_got(self, before: CoreView<C>, tasks: Seq<Task<C>>) -> bool {
        &&& self.ready.len() == before.ready.len() + tasks.len()
        &&& before.ready.is_prefix_of(self.ready)
        &&& forall|i: int|
            0 <= i < tasks.len() ==> {
                let entry = self.ready[before.ready.len() + i];
                &&& entry.prio == (#[trigger] tasks[i]).prio
                &&& !before.tasks.contains_key(entry.task)
                &&& self.tasks.contains_key(entry.task)
                &&& self.tasks[entry.task] == tasks[i]
            }
        &&& forall|i: int, j: int|
            before.ready.len() <= i < j < self.ready.len() ==> (#[trigger] self.ready[i]).task != (
            #[trigger] self.ready[j]).task
        &&& forall|r: TaskRef| #[trigger]
            before.tasks.contains_key(r) ==> self.tasks.contains_key(r) && self.tasks[r]
                == before.tasks[r]
        &&& self.blocked == before.blocked
        &&& self.same_roles(before)
    }

    /// Says that the same tasks have the core, are idle, own the FPU and are left to clean
    /// up, and that the core was last handed over at the same time.
    pub open spec fn same_roles(self, before: CoreView<C>) -> bool {
        &&& self.current == before.current
        &&& self.idle == before.idle
        &&& self.fpu_owner == before.fpu_owner
        &&& self.finished == before.finished
        &&& self.last_task_switch_tick == before.last_task_switch_tick
    }

    /// Says that the core still has all its tasks, each under its reference, and that they
    /// are as before unless they were blocked and have been woken up by somebody.
    pub open spec fn keeps_tasks_of(self, before: CoreView<C>) -> bool {
        forall|r: TaskRef| #[trigger]
            before.tasks.contains_key(r) ==> self.tasks.contains_key(r) && {
                ||| self.tasks[r] == before.tasks[r]
                ||| {
                    &&& exists|i: int|
                        0 <= i < before.blocked.len() && (#[trigger] before.blocked[i]).task == r
                    &&& self.tasks[r] == CoreView::<C>::woken_task(
                        before.tasks[r],
                        WakeupReason::Custom,
                    )
                }
            }
    }

    /// The state in which the current task waits for a wakeup.
    pub open spec fn current_blocked(self, wakeup_time: Option<u64>) -> CoreView<C> {
        let entry = BlockedEntry {
            task: self.current,
            id: self.current_task().id,
            wakeup_time,
        };
        CoreView {
            blocked: self.blocked.insert(place(self.blocked, wakeup_time), entry),
            ..self.with_status(self.current, TaskStatus::TaskBlocked)
        }
    }

    /// A task as it is after a wakeup.
    pub open spec fn woken_task(task: Task<C>, reason: WakeupReason) -> Task<C> {
        Task { status: TaskStatus::TaskReady, last_wakeup_reason: reason, ..task }
    }

    /// The state in which the given task is ready again.
    pub open spec fn woken(self, r: TaskRef, reason: WakeupReason) -> CoreView<C> {
        CoreView {
            tasks: self.tasks.insert(r, CoreView::<C>::woken_task(self.tasks[r], reason)),
            ..self
        }.enqueued(r)
    }

    /// The state after a wakeup of the blocked task with the given identifier. No
    /// wakeup reaches a task that is not blocked.
    pub open spec fn wake(self, id: TaskId) -> CoreView<C> {
        if holds_id(self.blocked, id) {
            let i = first_with_id(self.blocked, id);
            CoreView { blocked: self.blocked.remove(i), ..self }.woken(
                self.blocked[i].task,
                WakeupReason::Custom,
            )
        } else {
            self
        }
    }

    /// The state after the given wakeups, from the first to the last.
    pub open spec fn wake_all(self, handles: Seq<TaskHandle>) -> CoreView<C>
        decreases handles.len(),
    {
        if handles.len() == 0 {
            self
        } else {
            self.wake(handles[0].id).wake_all(handles.drop_first())
        }
    }

    /// The state after the core has taken in its requests.
    pub open spec fn after_input(self, input: InputView<C>) -> CoreView<C> {
        self.wake_all(input.wakeup_tasks).adopted_all(input.new_tasks)
    }

    /// Says that the task is one of the first `n` blocked tasks.
    pub open spec fn among_first_blocked(self, r: TaskRef, n: int) -> bool {
        exists|i: int| 0 <= i < n && (#[trigger] self.blocked[i]).task == r
    }

    /// The state in which the first `n` blocked tasks are ready, because their
    /// wakeup times have elapsed.
    pub open spec fn first_blocked_woken(self, n: int) -> CoreView<C> {
        CoreView {
            tasks: Map::new(
                |r: TaskRef| self.tasks.contains_key(r),
                |r: TaskRef|
                    if self.among_first_blocked(r, n) {
                        CoreView::<C>::woken_task(self.tasks[r], WakeupReason::Timer)
                    } else {
                        self.tasks[r]
                    },
            ),
            ready: self.ready + self.blocked.take(n).map_values(
                |entry: BlockedEntry|
                    ReadyEntry { task: entry.task, prio: self.tasks[entry.task].prio },
            ),
            blocked: self.blocked.skip(n),
            ..self
        }
    }

    /// The state after all tasks were woken up whose wakeup time has elapsed.
    pub open spec fn elapsed_woken(self, now: u64) -> CoreView<C> {
        self.first_blocked_woken(elapsed_count(self.blocked, now))
    }

    /// Says that the core still refers to the given task.
    pub open spec fn refers_to(self, r: TaskRef) -> bool {
        ||| r == self.current
        ||| r == self.idle
        ||| r == self.fpu_owner
        ||| exists|i: int| 0 <= i < self.ready.len() && (#[trigger] self.ready[i]).task == r
        ||| exists|i: int| 0 <= i < self.blocked.len() && (#[trigger] self.blocked[i]).task == r
    }

    /// The state without the tasks to which the core no longer refers.
    pub open spec fn released(self) -> CoreView<C> {
        CoreView {
            tasks: self.tasks.restrict(Set::new(|r: TaskRef| self.refers_to(r))),
            ..self
        }
    }

    /// The change of the FPU owner that follows when the current task wants to use the
    /// FPU.
    pub open spec fn fpu_switch(self) -> Option<FpuSwitch> {
        if self.current != self.fpu_owner {
            Some(FpuSwitch { save: self.fpu_owner, restore: self.current })
        } else {
            None
        }
    }

    /// The state in which the current task owns the FPU.
    pub open spec fn fpu_claimed(self) -> CoreView<C> {
        CoreView { fpu_owner: self.current, ..self }
    }

    /// Says that the ready queue, if it is not empty, has an entry that leaves it next:
    /// the first of the most urgent ones.
    pub open spec fn ready_is_ordered(self) -> bool {
        self.ready.len() > 0 ==> is_next(self.ready, next_index(self.ready))
    }

    /// Says that a ready task is more urgent than the current one.
    pub open spec fn must_reschedule(self) -> bool {
        self.current_task().prio.0 < highest_priority(self.ready).0
    }

    /// Says that the current task has used up its time slice.
    pub open spec fn slice_elapsed(self, ticks: u64) -> bool {
        ticks > self.last_task_switch_tick + TASK_TIME_SLICE
    }

    /// What the core has to run at the given time. A running task makes way for a
    /// more urgent one, and for an equally urgent one when its time slice is over.
    /// Any other task makes way for every ready task, and for the idle task if
    /// there is none.
    pub open spec fn choice(self, ticks: u64) -> Choice {
        let current = self.current_task();
        let next = next_entry(self.ready);
        if current.status == TaskStatus::TaskRunning {
            if self.ready.len() > 0 && (next.prio.0 > current.prio.0 || (next.prio == current.prio
                && self.slice_elapsed(ticks))) {
                Choice::NextReady
            } else {
                Choice::Stay
            }
        } else if self.ready.len() > 0 {
            Choice::NextReady
        } else if current.status != TaskStatus::TaskIdle {
            Choice::Idle
        } else {
            Choice::Stay
        }
    }

    /// The task that a choice denotes.
    pub open spec fn chosen(self, ticks: u64) -> Option<TaskRef> {
        match self.choice(ticks) {
            Choice::Stay => None,
            Choice::NextReady => Some(next_entry(self.ready).task),
            Choice::Idle => Some(self.idle),
        }
    }

    /// The state in which a finished current task is invalid and waits for cleanup.
    pub open spec fn retired(self) -> CoreView<C> {
        if self.current_task().status == TaskStatus::TaskFinished {
            CoreView {
                finished: self.finished.push(self.current_task().id),
                ..self.with_status(self.current, TaskStatus::TaskInvalid)
            }
        } else {
            self
        }
    }

    /// The state in which a running current task is ready again and queued.
    pub open spec fn preempted(self) -> CoreView<C> {
        if self.current_task().status == TaskStatus::TaskRunning {
            self.with_status(self.current, TaskStatus::TaskReady).enqueued(self.current)
        } else {
            self
        }
    }

    /// The state in which the given task has the core. An idle task stays idle; any
    /// other one is running.
    pub open spec fn given_to(self, r: TaskRef, switch_ticks: u64) -> CoreView<C> {
        let after = if self.tasks[r].status != TaskStatus::TaskIdle {
            self.with_status(r, TaskStatus::TaskRunning)
        } else {
            self
        };
        if self.tasks[r].id != self.current_task().id {
            CoreView { current: r, last_task_switch_tick: switch_ticks, ..after }
        } else {
            after
        }
    }

    /// The state after the scheduler has made its choice at `slice_ticks` and has
    /// handed over the core at `switch_ticks`.
    pub open spec fn scheduled(self, slice_ticks: u64, switch_ticks: u64) -> CoreView<C> {
        match self.choice(slice_ticks) {
            Choice::Stay => self.retired(),
            Choice::NextReady => CoreView {
                ready: without_next(self.ready),
                ..self.retired()
            }.preempted().given_to(next_entry(self.ready).task, switch_ticks),
            Choice::Idle => self.retired().preempted().given_to(self.idle, switch_ticks),
        }
    }

    /// The change of the running task that the platform has to carry out.
    pub open spec fn switch(self, slice_ticks: u64) -> Option<Switch> {
        match self.chosen(slice_ticks) {
            Some(r) => if self.tasks[r].id != self.current_task().id {
                Some(
                    Switch {
                        from: self.current,
                        to: r,
                        new_stack_pointer: self.tasks[r].last_stack_pointer,
                    },
                )
            } else {
                None
            },
            None => None,
        }
    }
}

/// A core whose only task is the idle task, which has the core and owns the FPU.
pub open spec fn idle_core<C>(core_id: CoreId, input: int, idle_task: Task<C>) -> CoreView<C> {
    CoreView {
        core_id,
        input,
        tasks: map![0usize => idle_task],
        current: 0,
        idle: 0,
        fpu_owner: 0,
        ready: Seq::empty(),
        finished: Seq::empty(),
        blocked: Seq::empty(),
        last_task_switch_tick: 0,
    }
}

/// Says that somebody waits for one of the tasks with the given identifiers.
pub open spec fn any_awaited<C>(shared: SharedView<C>, ids: Seq<TaskId>) -> bool {
    exists|i: int| 0 <= i < ids.len() && shared.waiting(#[trigger] ids[i]).len() > 0
}

/// A core together with the state that all cores share, and the cores that it has
/// notified of requests, from the first to the last.
#[verifier::ext_equal]
pub struct System<C> {
    pub core: CoreView<C>,
    pub shared: SharedView<C>,
    pub notified: Seq<CoreId>,
}

/// A core that has not notified any other core yet.
pub open spec fn system<C>(core: CoreView<C>, shared: SharedView<C>) -> System<C> {
    System { core, shared, notified: Seq::empty() }
}

impl<C> System<C> {
    /// The system after a wakeup. A task of another core is left to that core.
    pub open spec fn wake(self, handle: TaskHandle) -> System<C> {
        if handle.core_id == self.core.core_id {
            System { core: self.core.wake(handle.id), ..self }
        } else {
            System {
                shared: self.shared.with_wakeup(handle.core_id, handle),
                notified: self.notified.push(handle.core_id),
                ..self
            }
        }
    }

    /// The system after the given wakeups, from the first to the last.
    pub open spec fn wake_all(self, handles: Seq<TaskHandle>) -> System<C>
        decreases handles.len(),
    {
        if handles.len() == 0 {
            self
        } else {
            self.wake(handles[0]).wake_all(handles.drop_first())
        }
    }

    /// The system after the tasks with the given identifiers were forgotten and
    /// those who waited for them were woken up.
    pub open spec fn forgotten_all(self, ids: Seq<TaskId>) -> System<C>
        decreases ids.len(),
    {
        if ids.len() == 0 {
            self
        } else {
            System { shared: self.shared.without_task(ids[0]), ..self }.wake_all(
                self.shared.waiting(ids[0]),
            ).forgotten_all(ids.drop_first())
        }
    }

    /// The system after the finished tasks of the core were cleaned up.
    pub open spec fn cleaned(self) -> System<C> {
        if self.core.finished.len() == 0 {
            self
        } else {
            let after = System {
                core: CoreView { finished: Seq::empty(), ..self.core },
                ..self
            }.forgotten_all(self.core.finished);
            System { core: after.core.released(), ..after }
        }
    }

    /// Says that somebody waits for a finished task of the core.
    pub open spec fn finished_awaited(self) -> bool {
        any_awaited(self.shared, self.core.finished)
    }

    /// The system after the scheduler ran.
    pub open spec fn scheduled(self, slice_ticks: u64, switch_ticks: u64) -> System<C> {
        let after = self.cleaned();
        System { core: after.core.scheduled(slice_ticks, switch_ticks), ..after }
    }

    /// The change of the running task that follows from a run of the scheduler.
    pub open spec fn switch(self, slice_ticks: u64) -> Option<Switch> {
        self.cleaned().core.switch(slice_ticks)
    }

    /// The system after the current task was marked as finished.
    pub open spec fn current_finished(self) -> System<C> {
        System {
            core: self.core.with_status(self.core.current, TaskStatus::TaskFinished),
            shared: self.shared.with_one_less(),
            ..self
        }
    }

    /// The system with a new task, which is ready on its core. Another core is
    /// notified of it.
    pub open spec fn spawned(self, task: Task<C>) -> System<C> {
        let shared = self.shared.with_task(task.id).with_one_more();
        if task.core_id == self.core.core_id {
            System { core: self.core.adopted(task), shared, ..self }
        } else {
            System {
                shared: shared.with_new_task(task.core_id, task),
                notified: self.notified.push(task.core_id),
                ..self
            }
        }
    }
}

/// The cores that are notified where at most one is.
pub open spec fn notified_of(core_id: Option<CoreId>) -> Seq<CoreId> {
    match core_id {
        Some(core_id) => seq![core_id],
        None => Seq::empty(),
    }
}

impl<C> System<C> {
    /// The system after a task was spawned.
    pub open spec fn after_spawn(
        self,
        prio: Priority,
        core_id: CoreId,
        seed: TaskSeed<C>,
    ) -> System<C> {
        System { shared: self.shared.after_get_tid(), ..self }.spawned(
            new_task(self.shared.next_tid(), core_id, TaskStatus::TaskReady, prio, seed),
        )
    }

    /// The system after the current task was cloned on the next core.
    pub open spec fn after_clone(self, processor_count: u32, seed: TaskSeed<C>) -> System<C> {
        System {
            shared: SharedView {
                next_core_id: after_pick(self.shared.next_core_id, processor_count),
                ..self.shared.after_get_tid()
            },
            ..self
        }.spawned(
            cloned_task(
                self.shared.next_tid(),
                picked_core(self.shared.next_core_id, processor_count),
                self.core.current_task(),
                seed,
            ),
        )
    }

    /// The system in which the current task waits for the end of the task with the given
    /// identifier.
    pub open spec fn waiting_for(self, id: TaskId) -> System<C> {
        System {
            core: self.core.current_blocked(None),
            shared: self.shared.with_waiting(id, self.core.current_task().handle()),
            ..self
        }
    }

    /// The system after the current task has exited.
    pub open spec fn exited(self, switch_ticks: u64) -> System<C> {
        self.current_finished().scheduled(switch_ticks, switch_ticks)
    }

    /// The change of the running task that follows from an exit.
    pub open spec fn exit_switch(self, switch_ticks: u64) -> Option<Switch> {
        self.current_finished().switch(switch_ticks)
    }

    /// The system after the current task has asked to wait for the task with the given
    /// identifier.
    pub open spec fn joined(self, id: TaskId, switch_ticks: u64) -> System<C> {
        if self.shared.tasks.contains_key(id) {
            self.waiting_for(id).scheduled(switch_ticks, switch_ticks)
        } else {
            self
        }
    }

    /// The change of the running task that follows from a join.
    pub open spec fn join_switch(self, id: TaskId, switch_ticks: u64) -> Option<Switch> {
        if self.shared.tasks.contains_key(id) {
            self.waiting_for(id).switch(switch_ticks)
        } else {
            None
        }
    }

    /// The system after the core has taken in its requests.
    pub open spec fn after_check_input(self) -> System<C> {
        System {
            core: self.core.after_input(self.shared.inputs[self.core.input]),
            shared: self.shared.with_empty_input(self.core.input),
            ..self
        }
    }
}

/// The shared state after a start without schedulers and without tasks.
pub open spec fn after_init<C>(shared: SharedView<C>) -> SharedView<C> {
    SharedView { schedulers: Map::empty(), tasks: Map::empty(), ..shared }
}

/// A core that was just added, with the state that all cores share.
pub open spec fn added_core<C>(
    shared: SharedView<C>,
    core_id: CoreId,
    seed: TaskSeed<C>,
) -> System<C> {
    system(
        idle_core(
            core_id,
            shared.inputs.len() as int,
            new_task(
                shared.next_tid(),
                core_id,
                TaskStatus::TaskIdle,
                Priority(IDLE_PRIO),
                seed,
            ),
        ),
        shared.after_get_tid().with_task(shared.next_tid()).with_scheduler(core_id),
    )
}

/// What happens to the idle task.
pub enum IdleEvent {
    /// It wants to know what comes next. The timer shows the given ticks when the
    /// scheduler makes its choice and when it hands over the core.
    Enter { slice_ticks: u64, switch_ticks: u64 },
    /// It continues after a switch to another task.
    Resumed,
}

/// What the idle task has to do next.
#[derive(Clone, Copy, Debug, PartialEq, Eq, Structural)]
pub enum IdleAction {
    /// Switch to another task.
    Switch(Switch),
    /// Enable the interrupts and go on, because a task was woken up.
    Enable,
    /// Enable the interrupts and at the same time wait for the next one.
    EnableAndWait,
}

/// The system after the idle task has handled an event.
pub open spec fn idle_step<C>(before: System<C>, event: IdleEvent) -> System<C> {
    match event {
        IdleEvent::Enter { slice_ticks, switch_ticks } => {
            let after = before.scheduled(slice_ticks, switch_ticks);
            if before.switch(slice_ticks) is Some {
                after
            } else {
                after.cleaned()
            }
        },
        IdleEvent::Resumed => before.cleaned(),
    }
}

/// What the idle task has to do after an event: it switches if the scheduler says
/// so, and otherwise waits unless the cleanup has woken up a task.
pub open spec fn idle_action<C>(before: System<C>, event: IdleEvent) -> IdleAction {
    let settled = match event {
        IdleEvent::Enter { slice_ticks, switch_ticks } => before.scheduled(
            slice_ticks,
            switch_ticks,
        ),
        IdleEvent::Resumed => before,
    };
    let switch = match event {
        IdleEvent::Enter { slice_ticks, .. } => before.switch(slice_ticks),
        IdleEvent::Resumed => None,
    };
    if switch is Some {
        IdleAction::Switch(switch->0)
    } else if settled.finished_awaited() {
        IdleAction::Enable
    } else {
        IdleAction::EnableAndWait
    }
}

/// One more elapsed task at the front of the blocked tasks is woken up.
pub proof fn lemma_one_more_woken<C>(start: CoreView<C>, n: int)
    requires
        start.valid(),
        0 <= n < start.blocked.len(),
    ensures
        ({
            let before = start.first_blocked_woken(n);
            (CoreView { blocked: before.blocked.remove(0), ..before }).woken(
                start.blocked[n].task,
                WakeupReason::Timer,
            )
        }) == start.first_blocked_woken(n + 1),
{
    let before = start.first_blocked_woken(n);
    let r = start.blocked[n].task;
    let after = (CoreView { blocked: before.blocked.remove(0), ..before }).woken(
        r,
        WakeupReason::Timer,
    );
    let goal = start.first_blocked_woken(n + 1);
    assert forall|q: TaskRef| start.among_first_blocked(q, n + 1) == (start.among_first_blocked(
        q,
        n,
    ) || q == r) by {
        if q == r {
            assert(start.blocked[n].task == q);
        }
    }
    assert(after.tasks =~= goal.tasks);
    assert(after.blocked =~= goal.blocked);
    assert(start.blocked.take(n + 1) =~= start.blocked.take(n).push(start.blocked[n]));
    assert(after.ready =~= goal.ready);
}

} // verus!
