//! The scheduler of one core.

use crate::blocked::{
    elapsed, elapsed_count, first_with_id, holds_id, is_elapsed_count, is_first_with_id, is_place,
    lemma_elapsed_count_is_unique, lemma_first_exists, place, BlockedTaskQueue,
};
use crate::consistency::law_cleanup_forgets_exactly_finished_tasks;
use crate::model::{
    idle_action, idle_core, idle_step, lemma_one_more_woken, notified_of, system, CoreView,
    FpuSwitch, IdleAction, IdleEvent, Switch, System, TASK_TIME_SLICE,
};
use crate::ready::{lemma_next_exists, PriorityTaskQueue};
use crate::shared::{after_pick, lemma_free_tid_offset, picked_core, SharedState, SharedView};
use crate::store::{
    free_ref, is_free_ref, lemma_count_of_refs, lemma_free_ref_is_unique, lemma_one_more_ref,
    TaskStore,
};
use crate::task::{
    cloned_task, new_task, CoreId, Priority, Task, TaskHandle, TaskId, TaskRef, TaskSeed,
    TaskStacks, TaskStatus, WakeupReason, STACK_TOP_GAP,
};
use crate::wakeups::law_input_displaces_no_task;
use std::collections::VecDeque;
use vstd::prelude::*;

verus! {

/// What has to happen outside the scheduler after it ran.
pub struct Reschedule {
    /// Cores that have to be notified of requests, from the first to the last
    pub notified: Vec<CoreId>,
    /// Change of the running task, after all notifications
    pub switch: Option<Switch>,
}

/// The scheduler of one core.
pub struct PerCoreScheduler<C> {
    /// Core ID of this per-core scheduler
    core_id: CoreId,
    /// Tasks of the core
    tasks: TaskStore<C>,
    /// Task which is currently running
    current_task: TaskRef,
    /// Idle Task
    idle_task: TaskRef,
    /// Task that currently owns the FPU
    fpu_owner: TaskRef,
    /// Queue of tasks, which are ready
    ready_queue: PriorityTaskQueue,
    /// Place of the queues to handle incoming requests from the other cores
    input: usize,
    /// Queue of tasks, which are finished and can be released
    finished_tasks: VecDeque<TaskId>,
    /// Queue of blocked tasks, sorted by wakeup time.
    blocked_tasks: BlockedTaskQueue,
    /// Processor Timer Tick when we last switched the current task.
    last_task_switch_tick: u64,
}

impl<C> View for PerCoreScheduler<C> {
    type V = CoreView<C>;

    closed spec fn view(&self) -> CoreView<C> {
        CoreView {
            core_id: self.core_id,
            input: self.input as int,
            tasks: self.tasks@,
            current: self.current_task,
            idle: self.idle_task,
            fpu_owner: self.fpu_owner,
            ready: self.ready_queue@,
            finished: self.finished_tasks@,
            blocked: self.blocked_tasks@,
            last_task_switch_tick: self.last_task_switch_tick,
        }
    }
}

/// The stack pointers with which the processor enters the kernel.
#[derive(Clone, Copy, Debug, PartialEq, Eq, Structural)]
pub struct KernelEntryStacks {
    /// On a change to the kernel's privilege level
    pub rsp0: u64,
    /// In an interrupt handler with a stack of its own
    pub ist0: u64,
}

/// Says that somebody waits for one of the first `k` tasks.
spec fn awaited_before<C>(start: System<C>, ids: Seq<TaskId>, k: int) -> bool {
    exists|j: int| 0 <= j < k && start.shared.waiting(#[trigger] ids[j]).len() > 0
}

impl<C> PerCoreScheduler<C> {
    /// Makes a task ready again.
    fn wakeup_task(&mut self, r: TaskRef, reason: WakeupReason)
        requires
            old(self)@.valid(),
            old(self)@.tasks.contains_key(r),
        ensures
            final(self)@ == old(self)@.woken(r, reason),
            final(self)@.valid(),
    {
        let task = self.tasks.get_mut(r);
        task.status = TaskStatus::TaskReady;
        task.last_wakeup_reason = reason;
        let prio = task.prio;
        self.ready_queue.push(r, prio);
    }

    /// Wakes up the blocked task with the given identifier, if there is one.
    fn wake_blocked(&mut self, id: TaskId)
        requires
            old(self)@.valid(),
        ensures
            final(self)@ == old(self)@.wake(id),
            final(self)@.tasks.dom() == old(self)@.tasks.dom(),
            final(self)@.valid(),
    {
        if let Some(task) = self.blocked_tasks.remove_id(id) {
            self.wakeup_task(task, WakeupReason::Custom);
        }
        assert(self@.tasks.dom() =~= old(self)@.tasks.dom());
    }

    /// Wakes up a task, on this core or on another one. Returns the core that has to
    /// be notified, if any.
    pub fn custom_wakeup(&mut self, shared: &mut SharedState<C>, task: TaskHandle) -> (notified:
        Option<CoreId>)
        requires
            old(self)@.valid(),
            old(shared)@.valid(),
            task.core_id != old(self)@.core_id ==> old(shared)@.schedulers.contains_key(
                task.core_id,
            ),
        ensures
            holds_id(old(self)@.blocked, task.id) ==> is_first_with_id(
                old(self)@.blocked,
                task.id,
                first_with_id(old(self)@.blocked, task.id),
            ),
            task.core_id == old(self)@.core_id ==> {
                &&& final(self)@ == old(self)@.wake(task.id)
                &&& final(shared)@ == old(shared)@
                &&& notified is None
            },
            task.core_id != old(self)@.core_id ==> {
                &&& final(self)@ == old(self)@
                &&& final(shared)@ == old(shared)@.with_wakeup(task.core_id, task)
                &&& notified == Some(task.core_id)
            },
            (System {
                core: final(self)@,
                shared: final(shared)@,
                notified: notified_of(notified),
            }) == system(old(self)@, old(shared)@).wake(task),
            final(self)@.valid(),
            final(shared)@.valid(),
            final(self)@.same_core(old(self)@),
            final(shared)@.same_schedulers(old(shared)@),
    {
        proof {
            if holds_id(self@.blocked, task.id) {
                lemma_first_exists(self@.blocked, task.id);
            }
        }
        if task.get_core_id() == self.core_id {
            self.wake_blocked(task.get_id());
            None
        } else {
            shared.send_wakeup(task.get_core_id(), task);
            Some(task.get_core_id())
        }
    }

    /// Check if a finished task could be deleted.
    /// Return true if a task is waked up
    fn cleanup_tasks(&mut self, shared: &mut SharedState<C>, notified: &mut Vec<CoreId>) -> (result:
        bool)
        requires
            old(self)@.valid(),
            old(shared)@.valid(),
        ensures
            (System { core: final(self)@, shared: final(shared)@, notified: final(notified)@ })
                == (System {
                core: old(self)@,
                shared: old(shared)@,
                notified: old(notified)@,
            }).cleaned(),
            result == system(old(self)@, old(shared)@).finished_awaited(),
            final(self)@.valid(),
            final(shared)@.valid(),
            final(self)@.same_core(old(self)@),
            final(shared)@.same_schedulers(old(shared)@),
    {
        let mut result: bool = false;
        if self.finished_tasks.len() == 0 {
            return result;
        }
        let mut finished: VecDeque<TaskId> = VecDeque::new();
        std::mem::swap(&mut finished, &mut self.finished_tasks);

        let ghost start = System { core: self@, shared: shared@, notified: notified@ };
        let ghost ids = finished@;
        let ghost mut k: int = 0;
        assert(start.core == CoreView { finished: Seq::empty(), ..old(self)@ });

        // Pop the first finished task, remove it from the tasks, and wake up all that wait for it.
        while finished.len() > 0
            invariant
                self@.valid(),
                shared@.valid(),
                self@.same_core(old(self)@),
                shared@.same_schedulers(old(shared)@),
                self@.finished == Seq::<TaskId>::empty(),
                0 <= k <= ids.len(),
                finished@ == ids.skip(k),
                (System { core: self@, shared: shared@, notified: notified@ }).forgotten_all(
                    finished@,
                ) == start.forgotten_all(ids),
                forall|id: TaskId| #[trigger]
                    shared@.tasks.contains_key(id) ==> start.shared.tasks.contains_key(id)
                        && shared@.tasks[id] == start.shared.tasks[id],
                forall|id: TaskId|
                    start.shared.tasks.contains_key(id) && !#[trigger] shared@.tasks.contains_key(
                        id,
                    ) ==> exists|j: int| 0 <= j < k && #[trigger] ids[j] == id,
                result == awaited_before(start, ids, k),
            decreases finished.len(),
        {
            let ghost before = System { core: self@, shared: shared@, notified: notified@ };
            let id: TaskId = finished.pop_front().unwrap();
            let mut queue: VecDeque<TaskHandle> = shared.remove_task(id);
            let ghost waiting = queue@;
            let ghost forgotten = System { core: self@, shared: shared@, notified: notified@ };
            assert(id == ids[k]);
            assert(forgotten == System { shared: before.shared.without_task(id), ..before });
            proof {
                if waiting.len() > 0 {
                    assert(start.shared.waiting(ids[k]).len() > 0);
                }
                if start.shared.waiting(ids[k]).len() > 0 && waiting.len() == 0 {
                    assert(!before.shared.tasks.contains_key(id));
                    let j = choose|j: int| 0 <= j < k && #[trigger] ids[j] == id;
                    assert(start.shared.waiting(ids[j]).len() > 0);
                    assert(result);
                }
                assert forall|i: int| 0 <= i < waiting.len() implies shared@.schedulers.contains_key(
                    (#[trigger] waiting[i]).core_id,
                ) by {
                    assert(before.shared.tasks[id][i] == waiting[i]);
                }
            }
            while queue.len() > 0
                invariant
                    self@.valid(),
                    shared@.valid(),
                    self@.same_core(old(self)@),
                    shared@.same_schedulers(old(shared)@),
                    self@.finished == Seq::<TaskId>::empty(),
                    (System { core: self@, shared: shared@, notified: notified@ }).wake_all(queue@)
                        == forgotten.wake_all(waiting),
                    shared@.tasks == forgotten.shared.tasks,
                    forall|i: int| 0 <= i < queue@.len() ==> shared@.schedulers.contains_key(
                        (#[trigger] queue@[i]).core_id,
                    ),
                    queue@.len() < waiting.len() ==> result,
                    result == (awaited_before(start, ids, k) || queue@.len() < waiting.len()),
                    queue@.len() <= waiting.len(),
                decreases queue.len(),
            {
                let ghost here = System { core: self@, shared: shared@, notified: notified@ };
                let ghost all = queue@;
                let task: TaskHandle = queue.pop_front().unwrap();
                assert(here.wake_all(all) == here.wake(task).wake_all(all.drop_first()));
                result = true;
                if let Some(core_id) = self.custom_wakeup(shared, task) {
                    notified.push(core_id);
                }
                assert((System { core: self@, shared: shared@, notified: notified@ })
                    == here.wake(task));
            }
            proof {
                k = k + 1;
            }
        }
        proof {
            let awaited = system(old(self)@, old(shared)@);
            assert(awaited.core.finished == ids && awaited.shared == start.shared);
            assert(awaited.finished_awaited() == awaited_before(start, ids, k));
        }
        self.release_tasks();
        result
    }

    /// Releases the tasks to which nothing refers any more.
    fn release_tasks(&mut self)
        requires
            old(self)@.valid(),
        ensures
            final(self)@ == old(self)@.released(),
            final(self)@.valid(),
    {
        let mut keep: Vec<TaskRef> = Vec::new();
        keep.push(self.current_task);
        keep.push(self.idle_task);
        keep.push(self.fpu_owner);
        let ghost first = keep@;
        self.ready_queue.collect_refs(&mut keep);
        self.blocked_tasks.collect_refs(&mut keep);
        proof {
            assert forall|r: TaskRef| #[trigger] keep@.contains(r) <==> self@.refers_to(r) by {
                assert(first[0] == self@.current && first[1] == self@.idle && first[2]
                    == self@.fpu_owner);
                assert(first.contains(r) <==> r == self@.current || r == self@.idle || r
                    == self@.fpu_owner);
            }
        }
        self.tasks.retain(&keep);
        proof {
            assert(self@.tasks =~= old(self)@.released().tasks);
        }
    }

    /// Triggers the scheduler to reschedule the tasks, with the timer read at
    /// `slice_ticks` to see whether the time slice is over, and at `switch_ticks`
    /// when the core is handed over.
    /// Interrupt flag must be cleared before calling this function.
    pub fn scheduler(
        &mut self,
        shared: &mut SharedState<C>,
        slice_ticks: u64,
        switch_ticks: u64,
    ) -> (out: Reschedule)
        requires
            old(self)@.valid(),
            old(shared)@.valid(),
        ensures
            system(old(self)@, old(shared)@).cleaned().core.ready_is_ordered(),
            (System { core: final(self)@, shared: final(shared)@, notified: out.notified@ })
                == system(old(self)@, old(shared)@).scheduled(slice_ticks, switch_ticks),
            out.switch == system(old(self)@, old(shared)@).switch(slice_ticks),
            out.switch matches Some(switch) ==> final(self)@.tasks.contains_key(switch.from)
                && final(self)@.current == switch.to,
            out.switch matches Some(switch) ==> switch.from == old(self)@.current
                && final(self)@.last_task_switch_tick == switch_ticks && switch.new_stack_pointer
                == final(self)@.tasks[switch.to].last_stack_pointer,
            out.switch is None ==> final(self)@.current == old(self)@.current
                && final(self)@.last_task_switch_tick == old(self)@.last_task_switch_tick,
            final(self)@.valid(),
            final(shared)@.valid(),
            final(self)@.same_core(old(self)@),
            final(shared)@.same_schedulers(old(shared)@),
    {
        // Someone wants to give up the CPU
        // => we have time to cleanup the system
        let mut notified: Vec<CoreId> = Vec::new();
        let _ = self.cleanup_tasks(shared, &mut notified);
        let ghost start = self@;
        proof {
            law_cleanup_forgets_exactly_finished_tasks(system(old(self)@, old(shared)@));
            if start.ready.len() > 0 {
                lemma_next_exists(start.ready);
            }
        }

        // Get information about the current task.
        let current: TaskRef = self.current_task;
        let (id, prio, status) = {
            let task = self.tasks.get(current);
            (task.id, task.prio, task.status)
        };

        let mut new_task: Option<TaskRef> = None;

        if status == TaskStatus::TaskRunning {
            // A task is currently running.
            // Check if a task with a higher priority is available. None is above the highest one.
            let higher: Option<TaskRef> = if prio.into() < u8::MAX {
                let higher_prio = Priority::from(prio.into() + 1);
                self.ready_queue.pop_with_prio(higher_prio)
            } else {
                None
            };
            if let Some(task) = higher {
                // This higher priority task becomes the new task.
                new_task = Some(task);
            } else {
                // No task with a higher priority is available, but a task with the same priority
                // as ours may be available.
                // We implement Round-Robin Scheduling for this case.
                // Check if our current task has been running for longer than the task time slice.
                if slice_ticks > TASK_TIME_SLICE && slice_ticks - TASK_TIME_SLICE
                    > self.last_task_switch_tick {
                    // Check if a task with our own priority is available.
                    if let Some(task) = self.ready_queue.pop_with_prio(prio) {
                        // The task becomes the new task.
                        new_task = Some(task);
                    }
                }
            }
        } else {
            if status == TaskStatus::TaskFinished {
                // Mark the finished task as invalid and add it to the finished tasks for a later
                // cleanup.
                self.tasks.get_mut(current).status = TaskStatus::TaskInvalid;
                self.finished_tasks.push_back(id);
            }
            // No task is currently running.
            // Check if there is any available task and get the one with the highest priority.
            if let Some(task) = self.ready_queue.pop() {
                // This available task becomes the new task.
                new_task = Some(task);
            } else if status != TaskStatus::TaskIdle {
                // The Idle task becomes the new task.
                new_task = Some(self.idle_task);
            }
        }
        assert(new_task == start.chosen(slice_ticks));

        let mut switch: Option<Switch> = None;
        if let Some(task) = new_task {
            // There is a new task we want to switch to.
            // Handle the current task.
            if status == TaskStatus::TaskRunning {
                // Mark the running task as ready again and add it back to the queue.
                self.tasks.get_mut(current).status = TaskStatus::TaskReady;
                self.ready_queue.push(current, prio);
            }
            // Handle the new task and get information about it.
            let (new_id, new_stack_pointer) = {
                let borrowed = self.tasks.get_mut(task);
                if borrowed.status != TaskStatus::TaskIdle {
                    // Mark the new task as running.
                    borrowed.status = TaskStatus::TaskRunning;
                }
                (borrowed.id, borrowed.last_stack_pointer)
            };

            if id != new_id {
                // Tell the scheduler about the new task.
                self.current_task = task;
                self.last_task_switch_tick = switch_ticks;

                // Finally the current context is saved and the context of the new task restored.
                switch = Some(Switch { from: current, to: task, new_stack_pointer });
            }
        }
        assert(self@ =~= start.scheduled(slice_ticks, switch_ticks));
        Reschedule { notified, switch }
    }

    /// Triggers the scheduler to reschedule the tasks.
    /// Interrupt flag will be cleared during the reschedule
    pub fn reschedule(
        &mut self,
        shared: &mut SharedState<C>,
        slice_ticks: u64,
        switch_ticks: u64,
    ) -> (out: Reschedule)
        requires
            old(self)@.valid(),
            old(shared)@.valid(),
        ensures
            system(old(self)@, old(shared)@).cleaned().core.ready_is_ordered(),
            (System { core: final(self)@, shared: final(shared)@, notified: out.notified@ })
                == system(old(self)@, old(shared)@).scheduled(slice_ticks, switch_ticks),
            out.switch == system(old(self)@, old(shared)@).switch(slice_ticks),
            out.switch matches Some(switch) ==> final(self)@.tasks.contains_key(switch.from)
                && final(self)@.current == switch.to,
            out.switch matches Some(switch) ==> switch.from == old(self)@.current
                && final(self)@.last_task_switch_tick == switch_ticks && switch.new_stack_pointer
                == final(self)@.tasks[switch.to].last_stack_pointer,
            out.switch is None ==> final(self)@.current == old(self)@.current
                && final(self)@.last_task_switch_tick == old(self)@.last_task_switch_tick,
            final(self)@.valid(),
            final(shared)@.valid(),
            final(self)@.same_core(old(self)@),
            final(shared)@.same_schedulers(old(shared)@),
    {
        self.scheduler(shared, slice_ticks, switch_ticks)
    }

    /// Only the idle task should call this function to
    /// reschedule the system. Set the idle task in halt
    /// state by leaving this function.
    ///
    /// It is called when the idle task enters, with interrupts disabled, and again
    /// when the idle task continues after a switch. The housekeeping that decides
    /// how the interrupts are enabled follows as soon as the idle task has the core.
    pub fn reschedule_and_wait(&mut self, shared: &mut SharedState<C>, event: IdleEvent) -> (out: (
        Vec<CoreId>,
        IdleAction,
    ))
        requires
            old(self)@.valid(),
            old(shared)@.valid(),
        ensures
            event is Enter ==> system(
                old(self)@,
                old(shared)@,
            ).cleaned().core.ready_is_ordered(),
            (System { core: final(self)@, shared: final(shared)@, notified: out.0@ })
                == idle_step(system(old(self)@, old(shared)@), event),
            out.1 == idle_action(system(old(self)@, old(shared)@), event),
            out.1 matches IdleAction::Switch(switch) ==> final(self)@.tasks.contains_key(
                switch.from,
            ) && final(self)@.current == switch.to,
            out.1 matches IdleAction::Switch(switch) ==> {
                &&& event matches IdleEvent::Enter { switch_ticks, .. }
                &&& final(self)@.last_task_switch_tick == switch_ticks
                &&& switch.from == old(self)@.current
                &&& switch.new_stack_pointer == final(self)@.tasks[switch.to].last_stack_pointer
            },
            final(self)@.valid(),
            final(shared)@.valid(),
            final(self)@.same_core(old(self)@),
            final(shared)@.same_schedulers(old(shared)@),
    {
        let mut notified: Vec<CoreId> = Vec::new();
        if let IdleEvent::Enter { slice_ticks, switch_ticks } = event {
            let out = self.scheduler(shared, slice_ticks, switch_ticks);
            notified = out.notified;
            if let Some(switch) = out.switch {
                return (notified, IdleAction::Switch(switch));
            }
        }
        // do housekeeping
        let wakeup_tasks: bool = self.cleanup_tasks(shared, &mut notified);

        // Reenable interrupts and simultaneously set the CPU into the HALT state to only wake up
        // at the next interrupt.
        // This atomic operation guarantees that we cannot miss a wakeup interrupt in between.
        if !wakeup_tasks {
            (notified, IdleAction::EnableAndWait)
        } else {
            (notified, IdleAction::Enable)
        }
    }

    /// Terminate the current task on the current core. The task is finished, so the
    /// time at which the scheduler makes its choice does not matter.
    pub fn exit(&mut self, shared: &mut SharedState<C>, _exit_code: i32, switch_ticks: u64) -> (out:
        Reschedule)
        requires
            old(self)@.valid(),
            old(shared)@.valid(),
            old(self)@.current_task().status != TaskStatus::TaskIdle,
        ensures
            system(old(self)@, old(shared)@).current_finished().cleaned().core.ready_is_ordered(),
            (System { core: final(self)@, shared: final(shared)@, notified: out.notified@ })
                == system(old(self)@, old(shared)@).current_finished().scheduled(
                switch_ticks,
                switch_ticks,
            ),
            out.switch == system(old(self)@, old(shared)@).current_finished().switch(switch_ticks),
            (System { core: final(self)@, shared: final(shared)@, notified: out.notified@ })
                == system(old(self)@, old(shared)@).exited(switch_ticks),
            out.switch == system(old(self)@, old(shared)@).exit_switch(switch_ticks),
            out.switch matches Some(switch) ==> final(self)@.tasks.contains_key(switch.from)
                && final(self)@.current == switch.to,
            out.switch matches Some(switch) ==> switch.from == old(self)@.current
                && final(self)@.last_task_switch_tick == switch_ticks && switch.new_stack_pointer
                == final(self)@.tasks[switch.to].last_stack_pointer,
            out.switch is None ==> final(self)@.current == old(self)@.current
                && final(self)@.last_task_switch_tick == old(self)@.last_task_switch_tick,
            final(self)@.valid(),
            final(shared)@.valid(),
            final(self)@.same_core(old(self)@),
            final(shared)@.same_schedulers(old(shared)@),
    {
        // Finish the task and reschedule.
        self.tasks.get_mut(self.current_task).status = TaskStatus::TaskFinished;
        shared.count_down();
        assert(system(self@, shared@) == system(old(self)@, old(shared)@).current_finished());
        self.scheduler(shared, switch_ticks, switch_ticks)
    }

    /// Takes a new task of the core over.
    fn adopt(&mut self, task: Task<C>)
        requires
            old(self)@.valid(),
            task.core_id == old(self)@.core_id,
        ensures
            is_free_ref(old(self)@.tasks, free_ref(old(self)@.tasks)),
            old(self)@.has_room(1),
            final(self)@ == old(self)@.adopted(task),
            final(self)@.tasks.dom().len() == old(self)@.tasks.dom().len() + 1,
            final(self)@.valid(),
    {
        let prio = task.prio;
        let r: TaskRef = self.tasks.insert(task);
        proof {
            lemma_one_more_ref(old(self)@.tasks, r, task);
            lemma_count_of_refs(self@.tasks.dom());
        }
        self.ready_queue.push(r, prio);
    }

    /// Makes a new task known, and hands it to its core. Returns the core that has
    /// to be notified, if any.
    fn add_task(&mut self, shared: &mut SharedState<C>, task: Task<C>) -> (notified: Option<CoreId>)
        requires
            old(self)@.valid(),
            old(shared)@.valid(),
            old(shared)@.schedulers.contains_key(task.core_id),
        ensures
            task.core_id == old(self)@.core_id ==> old(self)@.has_room(1) && is_free_ref(
                old(self)@.tasks,
                free_ref(old(self)@.tasks),
            ),
            system(final(self)@, final(shared)@) == (System {
                notified: Seq::empty(),
                ..system(old(self)@, old(shared)@).spawned(task)
            }),
            notified == (if task.core_id != old(self)@.core_id {
                Some(task.core_id)
            } else {
                None
            }),
            final(self)@.valid(),
            final(shared)@.valid(),
            final(self)@.same_core(old(self)@),
            final(shared)@.same_schedulers(old(shared)@),
    {
        shared.insert_task(task.id);
        shared.count_up();
        let core_id: CoreId = task.core_id;
        if core_id != self.core_id {
            shared.send_new_task(core_id, task);
            Some(core_id)
        } else {
            self.adopt(task);
            None
        }
    }

    /// Spawn a new task. Returns its identifier and the core that has to be
    /// notified, if any.
    pub fn spawn(
        &mut self,
        shared: &mut SharedState<C>,
        prio: Priority,
        core_id: CoreId,
        seed: TaskSeed<C>,
    ) -> (out: (TaskId, Option<CoreId>))
        requires
            old(self)@.valid(),
            old(shared)@.valid(),
            old(shared)@.has_free_tid(),
            old(shared)@.schedulers.contains_key(core_id),
        ensures
            old(shared)@.is_free_tid_offset(old(shared)@.free_tid_offset()),
            core_id == old(self)@.core_id ==> old(self)@.has_room(1) && is_free_ref(
                old(self)@.tasks,
                free_ref(old(self)@.tasks),
            ),
            (System {
                core: final(self)@,
                shared: final(shared)@,
                notified: notified_of(out.1),
            }) == system(old(self)@, old(shared)@).after_spawn(prio, core_id, seed),
            out.0 == old(shared)@.next_tid(),
            !old(shared)@.tasks.contains_key(out.0),
            out.1 == (if core_id != old(self)@.core_id {
                Some(core_id)
            } else {
                None
            }),
            system(final(self)@, final(shared)@) == (System {
                notified: Seq::empty(),
                ..system(old(self)@, old(shared)@.after_get_tid()).spawned(
                    new_task(out.0, core_id, TaskStatus::TaskReady, prio, seed),
                )
            }),
            final(self)@.valid(),
            final(shared)@.valid(),
            final(self)@.same_core(old(self)@),
            final(shared)@.same_schedulers(old(shared)@),
    {
        // Create the new task.
        proof {
            lemma_free_tid_offset(shared@);
        }
        let tid: TaskId = shared.get_tid();
        let task = Task::new(tid, core_id, TaskStatus::TaskReady, prio, seed);

        // Add it to the task lists.
        let notified: Option<CoreId> = self.add_task(shared, task);
        (tid, notified)
    }

    /// Clone the current task on the next core. Returns the identifier of the clone
    /// and the core that has to be notified, if any.
    pub fn clone(&mut self, shared: &mut SharedState<C>, processor_count: u32, seed: TaskSeed<C>) -> (
    out: (TaskId, Option<CoreId>))
        requires
            old(self)@.valid(),
            old(shared)@.valid(),
            old(shared)@.has_free_tid(),
            old(shared)@.schedulers.contains_key(
                picked_core(old(shared)@.next_core_id, processor_count),
            ),
        ensures
            old(shared)@.is_free_tid_offset(old(shared)@.free_tid_offset()),
            picked_core(old(shared)@.next_core_id, processor_count) == old(self)@.core_id
                ==> old(self)@.has_room(1) && is_free_ref(
                old(self)@.tasks,
                free_ref(old(self)@.tasks),
            ),
            out.0 == old(shared)@.next_tid(),
            !old(shared)@.tasks.contains_key(out.0),
            out.1 == ({
                let core_id = picked_core(old(shared)@.next_core_id, processor_count);
                if core_id != old(self)@.core_id {
                    Some(core_id)
                } else {
                    None
                }
            }),
            system(final(self)@, final(shared)@) == (System {
                notified: Seq::empty(),
                ..system(
                    old(self)@,
                    SharedView {
                        next_core_id: after_pick(old(shared)@.next_core_id, processor_count),
                        ..old(shared)@.after_get_tid()
                    },
                ).spawned(
                    cloned_task(
                        out.0,
                        picked_core(old(shared)@.next_core_id, processor_count),
                        old(self)@.current_task(),
                        seed,
                    ),
                )
            }),
            (System {
                core: final(self)@,
                shared: final(shared)@,
                notified: notified_of(out.1),
            }) == system(old(self)@, old(shared)@).after_clone(processor_count, seed),
            0 < processor_count && old(shared)@.next_core_id <= processor_count ==> picked_core(
                old(shared)@.next_core_id,
                processor_count,
            ) < processor_count && final(shared)@.next_core_id <= processor_count,
            final(self)@.valid(),
            final(shared)@.valid(),
            final(self)@.same_core(old(self)@),
            final(shared)@.same_schedulers(old(shared)@),
    {
        // Get the Core ID of the next CPU.
        let core_id: CoreId = shared.next_core(processor_count);
        proof {
            let free = choose|id: TaskId| !old(shared)@.tasks.contains_key(id);
            assert(!shared@.tasks.contains_key(free));
            lemma_free_tid_offset(old(shared)@);
            lemma_free_tid_offset(shared@);
            assert(shared@.is_free_tid_offset(old(shared)@.free_tid_offset()));
        }

        // Clone the current task.
        let tid: TaskId = shared.get_tid();
        let clone_task = Task::clone(tid, core_id, self.tasks.get(self.current_task), seed);

        // Add it to the task lists.
        let notified: Option<CoreId> = self.add_task(shared, clone_task);
        (tid, notified)
    }

    /// Returns `true` if a reschedule is required
    pub fn is_scheduling(&self) -> (required: bool)
        requires
            self@.valid(),
        ensures
            self@.ready_is_ordered(),
            required == self@.must_reschedule(),
            required <==> exists|i: int|
                0 <= i < self@.ready.len() && (#[trigger] self@.ready[i]).prio.0
                    > self@.current_task().prio.0,
    {
        proof {
            if self@.ready.len() > 0 {
                lemma_next_exists(self@.ready);
            }
        }
        self.tasks.get(self.current_task).prio.0 < self.ready_queue.get_highest_priority().0
    }

    /// Wakes up all tasks whose wakeup time has elapsed.
    pub fn handle_waiting_tasks(&mut self, now: u64)
        requires
            old(self)@.valid(),
        ensures
            is_elapsed_count(old(self)@.blocked, now, elapsed_count(old(self)@.blocked, now)),
            final(self)@ == old(self)@.elapsed_woken(now),
            final(self)@.valid(),
    {
        let ghost start = self@;
        let ghost mut n: int = 0;
        assert(start.first_blocked_woken(0) =~= start);
        loop
            invariant
                start == old(self)@,
                start.valid(),
                self@.valid(),
                0 <= n <= start.blocked.len(),
                forall|j: int| 0 <= j < n ==> elapsed(#[trigger] start.blocked[j], now),
                self@ == start.first_blocked_woken(n),
            decreases start.blocked.len() - n,
        {
            match self.blocked_tasks.pop_elapsed(now) {
                Some(task) => {
                    self.wakeup_task(task, WakeupReason::Timer);
                    proof {
                        lemma_one_more_woken(start, n);
                        n = n + 1;
                    }
                },
                None => {
                    proof {
                        assert(is_elapsed_count(start.blocked, now, n));
                        lemma_elapsed_count_is_unique(start.blocked, now, n);
                    }
                    return;
                },
            }
        }
    }

    /// Makes the current task wait until it is woken up, or until its wakeup time
    /// has elapsed. It keeps the core until the scheduler runs.
    pub fn block_current_task(&mut self, wakeup_time: Option<u64>)
        requires
            old(self)@.valid(),
        ensures
            is_place(old(self)@.blocked, wakeup_time, place(old(self)@.blocked, wakeup_time)),
            final(self)@ == old(self)@.current_blocked(wakeup_time),
            final(self)@.valid(),
    {
        let current: TaskRef = self.current_task;
        let task = self.tasks.get_mut(current);
        task.status = TaskStatus::TaskBlocked;
        let id: TaskId = task.id;
        self.blocked_tasks.add(current, id, wakeup_time);
    }

    /// Takes in the requests of the other cores.
    pub fn check_input(&mut self, shared: &mut SharedState<C>)
        requires
            old(self)@.valid(),
            old(shared)@.valid(),
            old(self)@.attached_to(old(shared)@),
        ensures
            final(self)@ == old(self)@.after_input(old(shared)@.inputs[old(self)@.input]),
            final(shared)@ == old(shared)@.with_empty_input(old(self)@.input),
            system(final(self)@, final(shared)@) == system(
                old(self)@,
                old(shared)@,
            ).after_check_input(),
            final(self)@.keeps_tasks_of(old(self)@),
            final(self)@.same_roles(old(self)@),
            ({
                let input = old(shared)@.inputs[old(self)@.input];
                let woken = old(self)@.wake_all(input.wakeup_tasks);
                &&& old(self)@.has_room(input.new_tasks.len() as int)
                &&& woken.tasks.dom() == old(self)@.tasks.dom()
                &&& final(self)@.has_got(woken, input.new_tasks)
            }),
            final(self)@.valid(),
            final(shared)@.valid(),
            final(self)@.same_core(old(self)@),
            final(shared)@.same_schedulers(old(shared)@),
    {
        let mut input = shared.take_input(self.input);
        let ghost requests = input@;

        loop
            invariant
                self@.valid(),
                self@.same_core(old(self)@),
                input@.new_tasks == requests.new_tasks,
                self@.wake_all(input@.wakeup_tasks) == old(self)@.wake_all(requests.wakeup_tasks),
                self@.tasks.dom() == old(self)@.tasks.dom(),
            ensures
                input@.wakeup_tasks.len() == 0,
            decreases input@.wakeup_tasks.len(),
        {
            match input.pop_wakeup_task() {
                Some(task) => self.wake_blocked(task.get_id()),
                None => break,
            }
        }

        loop
            invariant
                self@.valid(),
                self@.same_core(old(self)@),
                forall|i: int| 0 <= i < input@.new_tasks.len() ==> (
                #[trigger] input@.new_tasks[i]).core_id == self@.core_id,
                self@.adopted_all(input@.new_tasks) == old(self)@.after_input(requests),
                self@.tasks.dom().len() + input@.new_tasks.len() == old(self)@.tasks.dom().len()
                    + requests.new_tasks.len(),
            ensures
                input@.new_tasks.len() == 0,
            decreases input@.new_tasks.len(),
        {
            match input.pop_new_task() {
                Some(task) => self.adopt(task),
                None => break,
            }
        }
        proof {
            lemma_count_of_refs(self@.tasks.dom());
            law_input_displaces_no_task(old(self)@, requests);
        }
    }

    /// A scheduler for the given core, with its input at the given place, whose only
    /// task is the idle task, which has the core and owns the FPU.
    pub(crate) fn with_idle_task(core_id: CoreId, input: usize, idle_task: Task<C>) -> (scheduler:
        Self)
        requires
            idle_task.core_id == core_id,
        ensures
            scheduler@ == idle_core(core_id, input as int, idle_task),
            scheduler@.valid(),
    {
        let mut tasks: TaskStore<C> = TaskStore::new();
        let idle: TaskRef = tasks.insert(idle_task);
        let scheduler = PerCoreScheduler {
            core_id,
            tasks,
            current_task: idle,
            idle_task: idle,
            fpu_owner: idle,
            ready_queue: PriorityTaskQueue::new(),
            input,
            finished_tasks: VecDeque::new(),
            blocked_tasks: BlockedTaskQueue::new(),
            last_task_switch_tick: 0,
        };
        proof {
            let none = Map::<TaskRef, Task<C>>::empty();
            assert(is_free_ref(none, 0));
            lemma_free_ref_is_unique(none, 0);
        }
        scheduler
    }

    /// The core of this scheduler.
    pub fn get_core_id(&self) -> (core_id: CoreId)
        ensures
            core_id == self@.core_id,
    {
        self.core_id
    }

    /// Tells whether the current task is an idle task, which cannot exit.
    pub fn is_idle(&self) -> (idle: bool)
        requires
            self@.valid(),
        ensures
            idle == (self@.current_task().status == TaskStatus::TaskIdle),
            idle == self@.is_idle(),
    {
        self.tasks.get(self.current_task).status == TaskStatus::TaskIdle
    }

    pub fn get_current_task_handle(&self) -> (handle: TaskHandle)
        requires
            self@.valid(),
        ensures
            handle == self@.current_task().handle(),
            handle.core_id == self@.core_id,
    {
        let task = self.tasks.get(self.current_task);
        TaskHandle::new(task.id, task.prio, task.core_id)
    }

    pub fn set_lwip_errno(&mut self, errno: i32)
        requires
            old(self)@.valid(),
        ensures
            final(self)@ == old(self)@.with_current(
                Task { lwip_errno: errno, ..old(self)@.current_task() },
            ),
            final(self)@ == old(self)@.with_lwip_errno(errno),
            final(self)@.valid(),
    {
        self.tasks.get_mut(self.current_task).lwip_errno = errno;
    }

    pub fn get_lwip_errno(&self) -> (errno: i32)
        requires
            self@.valid(),
        ensures
            errno == self@.current_task().lwip_errno,
            errno == self@.lwip_errno(),
    {
        self.tasks.get(self.current_task).lwip_errno
    }

    pub fn get_current_task_id(&self) -> (id: TaskId)
        requires
            self@.valid(),
        ensures
            id == self@.current_task().id,
            id == self@.task_id(),
    {
        self.tasks.get(self.current_task).id
    }

    pub fn get_current_task_wakeup_reason(&self) -> (reason: WakeupReason)
        requires
            self@.valid(),
        ensures
            reason == self@.current_task().last_wakeup_reason,
            reason == self@.wakeup_reason(),
    {
        self.tasks.get(self.current_task).last_wakeup_reason
    }

    pub fn set_current_task_wakeup_reason(&mut self, reason: WakeupReason)
        requires
            old(self)@.valid(),
        ensures
            final(self)@ == old(self)@.with_current(
                Task { last_wakeup_reason: reason, ..old(self)@.current_task() },
            ),
            final(self)@ == old(self)@.with_wakeup_reason(reason),
            final(self)@.valid(),
    {
        self.tasks.get_mut(self.current_task).last_wakeup_reason = reason;
    }

    pub fn get_current_user_stack(&self) -> (addr: usize)
        requires
            self@.valid(),
        ensures
            addr == self@.current_task().user_stack_pointer,
            addr == self@.user_stack(),
    {
        self.tasks.get(self.current_task).user_stack_pointer
    }

    pub fn set_current_user_stack(&mut self, addr: usize)
        requires
            old(self)@.valid(),
        ensures
            final(self)@ == old(self)@.with_current(
                Task { user_stack_pointer: addr, ..old(self)@.current_task() },
            ),
            final(self)@ == old(self)@.with_user_stack(addr),
            final(self)@.valid(),
    {
        self.tasks.get_mut(self.current_task).user_stack_pointer = addr;
    }

    /// Where the stacks of the current task lie.
    pub fn get_current_stacks(&self) -> (stacks: TaskStacks)
        requires
            self@.valid(),
        ensures
            stacks == self@.current_task().stacks,
    {
        self.tasks.get(self.current_task).stacks
    }

    /// The top of the kernel stack of the current task, if that stack has the
    /// default size.
    pub fn get_current_kernel_stack(&self, default_stack_size: usize) -> (addr: usize)
        requires
            self@.valid(),
            self@.current_task().stacks.kernel_stack + default_stack_size <= usize::MAX,
            self@.current_task().stacks.kernel_stack + default_stack_size >= STACK_TOP_GAP,
        ensures
            addr == self@.current_task().stacks.kernel_stack + default_stack_size - STACK_TOP_GAP,
            addr == self@.kernel_stack_top(default_stack_size),
    {
        self.tasks.get(self.current_task).stacks.kernel_stack + default_stack_size - STACK_TOP_GAP
    }

    /// The stack pointers that the processor has to load when it enters the kernel
    /// while the current task runs.
    pub fn set_current_kernel_stack(&self) -> (entry: KernelEntryStacks)
        requires
            self@.valid(),
            self@.current_task().stacks.has_tops(),
        ensures
            entry.rsp0 == self@.current_task().stacks.kernel_stack
                + self@.current_task().stacks.kernel_stack_size - STACK_TOP_GAP,
            entry.ist0 == self@.current_task().stacks.interrupt_stack
                + self@.current_task().stacks.interrupt_stack_size - STACK_TOP_GAP,
            entry.rsp0 == self@.kernel_entry().0,
            entry.ist0 == self@.kernel_entry().1,
    {
        let stacks: TaskStacks = self.tasks.get(self.current_task).stacks;
        let rsp0: u64 = (stacks.kernel_stack + stacks.kernel_stack_size - STACK_TOP_GAP) as u64;
        let ist0: u64 = (stacks.interrupt_stack + stacks.interrupt_stack_size - STACK_TOP_GAP)
            as u64;
        KernelEntryStacks { rsp0, ist0 }
    }

    /// Save the FPU context for the current FPU owner and restore it for the current task,
    /// which wants to use the FPU now.
    pub fn fpu_switch(&mut self) -> (switch: Option<FpuSwitch>)
        requires
            old(self)@.valid(),
        ensures
            switch == old(self)@.fpu_switch(),
            final(self)@ == old(self)@.fpu_claimed(),
            old(self)@.current != old(self)@.fpu_owner ==> switch == Some(
                FpuSwitch { save: old(self)@.fpu_owner, restore: old(self)@.current },
            ),
            old(self)@.current == old(self)@.fpu_owner ==> switch is None,
            final(self)@.valid(),
    {
        if self.current_task != self.fpu_owner {
            let switch = FpuSwitch { save: self.fpu_owner, restore: self.current_task };
            self.fpu_owner = self.current_task;
            Some(switch)
        } else {
            None
        }
    }

    /// Where the platform saves the stack pointer of the given task.
    pub fn last_stack_pointer_mut(&mut self, r: TaskRef) -> (stack_pointer: &mut usize)
        requires
            old(self)@.valid(),
            old(self)@.tasks.contains_key(r),
        ensures
            *stack_pointer == old(self)@.tasks[r].last_stack_pointer,
            final(self)@ == (CoreView {
                tasks: old(self)@.tasks.insert(
                    r,
                    Task { last_stack_pointer: *final(stack_pointer), ..old(self)@.tasks[r] },
                ),
                ..old(self)@
            }),
            final(self)@ == old(self)@.with_stack_pointer(r, *final(stack_pointer)),
            final(self)@.valid(),
    {
        &mut self.tasks.get_mut(r).last_stack_pointer
    }

    /// The data of the platform for the given task.
    pub fn context_mut(&mut self, r: TaskRef) -> (context: &mut C)
        requires
            old(self)@.valid(),
            old(self)@.tasks.contains_key(r),
        ensures
            *context == old(self)@.tasks[r].context,
            final(self)@ == (CoreView {
                tasks: old(self)@.tasks.insert(
                    r,
                    Task { context: *final(context), ..old(self)@.tasks[r] },
                ),
                ..old(self)@
            }),
            final(self)@ == old(self)@.with_context(r, *final(context)),
            final(self)@.valid(),
    {
        &mut self.tasks.get_mut(r).context
    }
}

} // verus!
