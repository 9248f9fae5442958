//! Laws that say what each operation is for: what its result has to satisfy, and what it
//! changes and leaves alone in a task, a queue, or the state that all cores share.

use crate::blocked::{
    earlier, elapsed, is_elapsed_count, is_first_with_id, is_place, lemma_elapsed_count_is_unique,
    lemma_first_with_id_is_unique, lemma_place_is_unique,
};
use crate::consistency::law_cleanup_forgets_exactly_finished_tasks;
use crate::model::{
    added_core, after_init, idle_action, idle_step, notified_of, system, CoreView, IdleAction,
    IdleEvent, System,
};
use crate::ready::{
    highest_priority, lemma_next_exists, lemma_next_is_unique, next_entry, next_index, ReadyEntry,
};
use crate::shared::{
    after_pick, lemma_free_tid_offset, new_shared, picked_core, tid_at, SharedView,
};
use crate::store::lemma_next_ref;
use crate::task::{
    cloned_task, new_task, stack_top, CoreId, Priority, Task, TaskHandle, TaskId, TaskRef,
    TaskSeed, TaskStatus, WakeupReason, IDLE_PRIO,
};
use crate::wakeups::law_input_displaces_no_task;
use vstd::prelude::*;

verus! {

/// Says that two tasks agree in everything but status and last wakeup reason.
pub open spec fn same_data<C>(a: Task<C>, b: Task<C>) -> bool {
    &&& a.id == b.id
    &&& a.prio == b.prio
    &&& a.core_id == b.core_id
    &&& a.last_stack_pointer == b.last_stack_pointer
    &&& a.user_stack_pointer == b.user_stack_pointer
    &&& a.stacks == b.stacks
    &&& a.lwip_errno == b.lwip_errno
    &&& a.context == b.context
}

/// Says that the entry at `i` leads the queue: none has a higher priority, and none with
/// the same priority came earlier.
pub open spec fn leads(queue: Seq<ReadyEntry>, i: int) -> bool {
    &&& 0 <= i < queue.len()
    &&& forall|j: int| 0 <= j < queue.len() ==> (#[trigger] queue[j]).prio.0 <= queue[i].prio.0
    &&& forall|j: int| 0 <= j < i ==> (#[trigger] queue[j]).prio.0 != queue[i].prio.0
}

proof fn lemma_leader_is_next(queue: Seq<ReadyEntry>, i: int)
    requires
        leads(queue, i),
    ensures
        next_index(queue) == i,
{
    assert forall|j: int| 0 <= j < i implies (#[trigger] queue[j]).prio.0 < queue[i].prio.0 by {
        assert(queue[j].prio.0 != queue[i].prio.0);
    }
    lemma_next_is_unique(queue, i);
}

/// Every queue that is not empty has exactly one leader, and that is the one that leaves
/// it next.
pub proof fn law_ready_queue_has_one_leader(queue: Seq<ReadyEntry>, i: int)
    requires
        0 <= i < queue.len(),
    ensures
        leads(queue, i) <==> next_index(queue) == i,
        leads(queue, i) ==> next_entry(queue) == queue[i] && highest_priority(queue)
            == queue[i].prio,
{
    lemma_next_exists(queue);
    assert(leads(queue, next_index(queue)));
    if leads(queue, i) {
        lemma_leader_is_next(queue, i);
    }
}

/// The idle priority is the lowest one, so an empty queue is never more urgent than a task.
pub proof fn law_idle_priority_is_lowest(prio: Priority)
    ensures
        IDLE_PRIO <= prio.0,
        highest_priority(Seq::empty()).0 <= prio.0,
{
}

/// A reschedule is required exactly if some ready task has a higher priority than the
/// current task, whatever the status of that one.
pub proof fn law_reschedule_is_required_for_more_urgent_tasks<C>(core: CoreView<C>)
    ensures
        core.must_reschedule() <==> exists|i: int|
            0 <= i < core.ready.len() && (#[trigger] core.ready[i]).prio.0
                > core.tasks[core.current].prio.0,
{
    if core.ready.len() > 0 {
        lemma_next_exists(core.ready);
        assert(core.ready[next_index(core.ready)].prio == highest_priority(core.ready));
    }
}

/// The task that leads the ready queue gets the core exactly if the current task is not
/// running, or is less urgent, or is equally urgent and has had the core for more than
/// 10000 microseconds. The switch goes from the current task to that task, and continues at
/// the stack pointer saved for it.
pub proof fn law_leading_task_gets_the_core<C>(core: CoreView<C>, i: int, ticks: u64)
    requires
        leads(core.ready, i),
    ensures
        ({
            let current = core.tasks[core.current];
            let next = core.ready[i];
            let takes_over = {
                ||| current.status != TaskStatus::TaskRunning
                ||| next.prio.0 > current.prio.0
                ||| next.prio.0 == current.prio.0 && ticks - core.last_task_switch_tick > 10_000
            };
            if takes_over && core.tasks[next.task].id != current.id {
                &&& core.switch(ticks) matches Some(switch)
                &&& switch.from == core.current
                &&& switch.to == next.task
                &&& switch.new_stack_pointer == core.tasks[next.task].last_stack_pointer
            } else {
                core.switch(ticks) is None
            }
        }),
{
    lemma_leader_is_next(core.ready, i);
}

/// Without ready tasks, a task that runs keeps the core, and so does the idle task. Any
/// other task makes way for the idle task, which continues at its saved stack pointer.
pub proof fn law_idle_task_gets_an_unused_core<C>(core: CoreView<C>, ticks: u64)
    requires
        core.ready.len() == 0,
    ensures
        ({
            let current = core.tasks[core.current];
            if current.status != TaskStatus::TaskRunning && current.status != TaskStatus::TaskIdle
                && core.tasks[core.idle].id != current.id {
                &&& core.switch(ticks) matches Some(switch)
                &&& switch.from == core.current
                &&& switch.to == core.idle
                &&& switch.new_stack_pointer == core.tasks[core.idle].last_stack_pointer
            } else {
                core.switch(ticks) is None
            }
        }),
{
}

/// A switch and the state after it agree: the task to which the scheduler switches has the
/// core, from the time of the switch on, whatever the status and priority of the task that
/// leaves. Without a switch the same task has the core since the same time.
pub proof fn law_switch_gives_the_core_from_now_on<C>(
    core: CoreView<C>,
    slice_ticks: u64,
    switch_ticks: u64,
)
    requires
        core.valid(),
    ensures
        ({
            let after = core.scheduled(slice_ticks, switch_ticks);
            match core.switch(slice_ticks) {
                Some(switch) => {
                    &&& after.current == switch.to
                    &&& after.last_task_switch_tick == switch_ticks
                    &&& switch.from == core.current
                    &&& switch.new_stack_pointer == after.tasks[switch.to].last_stack_pointer
                },
                None => {
                    &&& after.current == core.current
                    &&& after.last_task_switch_tick == core.last_task_switch_tick
                },
            }
        }),
{
    if core.ready.len() > 0 {
        lemma_next_exists(core.ready);
    }
}

/// Every task gets a whole time slice: after a switch to a task, and as long as it is
/// running and has the core since that switch, a run of the scheduler within 10000
/// microseconds takes the core from it only for a task with a higher priority, and changes
/// nothing otherwise.
pub proof fn law_switch_starts_a_whole_time_slice<C>(
    core: CoreView<C>,
    slice_ticks: u64,
    switch_ticks: u64,
    later: CoreView<C>,
    ticks: u64,
    next_ticks: u64,
)
    requires
        core.valid(),
        core.switch(slice_ticks) is Some,
        later.valid(),
        later.current == core.scheduled(slice_ticks, switch_ticks).current,
        later.last_task_switch_tick == core.scheduled(
            slice_ticks,
            switch_ticks,
        ).last_task_switch_tick,
        later.tasks[later.current].status == TaskStatus::TaskRunning,
        ticks <= switch_ticks + 10_000,
        forall|i: int|
            0 <= i < later.ready.len() ==> (#[trigger] later.ready[i]).prio.0
                <= later.tasks[later.current].prio.0,
    ensures
        later.switch(ticks) is None,
        later.scheduled(ticks, next_ticks) == later,
{
    law_switch_gives_the_core_from_now_on(core, slice_ticks, switch_ticks);
    if later.ready.len() > 0 {
        lemma_next_exists(later.ready);
        assert(later.ready[next_index(later.ready)].prio.0 <= later.tasks[later.current].prio.0);
    }
}

/// When its time slice is over, a task makes way for the first of the equally urgent ready
/// tasks, where none is more urgent.
pub proof fn law_end_of_time_slice_passes_the_core_on<C>(
    core: CoreView<C>,
    i: int,
    slice_ticks: u64,
    switch_ticks: u64,
)
    requires
        core.valid(),
        leads(core.ready, i),
        core.tasks[core.current].status == TaskStatus::TaskRunning,
        core.ready[i].prio.0 == core.tasks[core.current].prio.0,
        core.tasks[core.ready[i].task].id != core.tasks[core.current].id,
        slice_ticks > core.last_task_switch_tick + 10_000,
    ensures
        core.switch(slice_ticks) is Some,
        core.scheduled(slice_ticks, switch_ticks).current == core.ready[i].task,
        core.scheduled(slice_ticks, switch_ticks).last_task_switch_tick == switch_ticks,
{
    lemma_leader_is_next(core.ready, i);
}

/// The scheduler leaves all data of all tasks alone, and all that is not its business: who
/// is blocked, who owns the FPU, and which task is the idle one.
pub proof fn law_scheduler_changes_only_statuses<C>(
    core: CoreView<C>,
    slice_ticks: u64,
    switch_ticks: u64,
    r: TaskRef,
)
    requires
        core.valid(),
    ensures
        ({
            let after = core.scheduled(slice_ticks, switch_ticks);
            &&& after.tasks.contains_key(r) <==> core.tasks.contains_key(r)
            &&& same_data(after.tasks[r], core.tasks[r])
            &&& after.tasks[r].last_wakeup_reason == core.tasks[r].last_wakeup_reason
            &&& after.blocked == core.blocked
            &&& after.idle == core.idle
            &&& after.fpu_owner == core.fpu_owner
            &&& after.core_id == core.core_id
            &&& after.input == core.input
        }),
{
    if core.ready.len() > 0 {
        lemma_next_exists(core.ready);
    }
}

/// Where the leading task takes over, it leaves the queue and is running. A running task
/// that makes way is ready again and goes to the end of the queue with its priority. A
/// finished one is invalid and left to clean up. All other tasks keep their status.
pub proof fn law_handover_moves_tasks<C>(
    core: CoreView<C>,
    i: int,
    slice_ticks: u64,
    switch_ticks: u64,
)
    requires
        core.valid(),
        leads(core.ready, i),
        ({
            let current = core.tasks[core.current];
            ||| current.status != TaskStatus::TaskRunning
            ||| core.ready[i].prio.0 > current.prio.0
            ||| core.ready[i].prio.0 == current.prio.0 && slice_ticks
                > core.last_task_switch_tick + 10_000
        }),
    ensures
        ({
            let after = core.scheduled(slice_ticks, switch_ticks);
            let current = core.tasks[core.current];
            let r = core.ready[i].task;
            let rest = core.ready.remove(i);
            &&& core.tasks[r].status != TaskStatus::TaskIdle ==> after.tasks[r].status
                == TaskStatus::TaskRunning
            &&& core.tasks[r].status == TaskStatus::TaskIdle ==> after.tasks[r].status
                == TaskStatus::TaskIdle
            &&& core.current != r ==> after.tasks[core.current].status == (match current.status {
                TaskStatus::TaskRunning => TaskStatus::TaskReady,
                TaskStatus::TaskFinished => TaskStatus::TaskInvalid,
                status => status,
            })
            &&& forall|q: TaskRef|
                q != r && q != core.current ==> (#[trigger] after.tasks[q]).status
                    == core.tasks[q].status
            &&& if current.status == TaskStatus::TaskRunning {
                &&& after.ready.len() == core.ready.len()
                &&& after.ready.drop_last() == rest
                &&& after.ready.last().task == core.current
                &&& after.ready.last().prio == current.prio
            } else {
                after.ready == rest
            }
            &&& if current.status == TaskStatus::TaskFinished {
                after.finished == core.finished + seq![current.id]
            } else {
                after.finished == core.finished
            }
        }),
{
    lemma_leader_is_next(core.ready, i);
    let after = core.scheduled(slice_ticks, switch_ticks);
    let rest = core.ready.remove(i);
    let current = core.tasks[core.current];
    if current.status == TaskStatus::TaskRunning {
        assert(after.ready.drop_last() =~= rest);
    }
    assert(core.finished.push(current.id) =~= core.finished + seq![current.id]);
}

/// Where no task takes over, the scheduler changes nothing.
pub proof fn law_scheduler_leaves_a_kept_core<C>(
    core: CoreView<C>,
    slice_ticks: u64,
    switch_ticks: u64,
)
    requires
        core.valid(),
        ({
            let current = core.tasks[core.current];
            ||| current.status == TaskStatus::TaskIdle && core.ready.len() == 0
            ||| current.status == TaskStatus::TaskRunning && forall|i: int|
                0 <= i < core.ready.len() ==> (#[trigger] core.ready[i]).prio.0 < current.prio.0
                    || core.ready[i].prio.0 == current.prio.0 && slice_ticks
                    <= core.last_task_switch_tick + 10_000
        }),
    ensures
        core.switch(slice_ticks) is None,
        core.scheduled(slice_ticks, switch_ticks) == core,
{
    if core.ready.len() > 0 {
        lemma_next_exists(core.ready);
        let next = core.ready[next_index(core.ready)];
        assert(core.tasks[core.current].status == TaskStatus::TaskRunning ==> next.prio.0
            <= core.tasks[core.current].prio.0);
    }
}

/// Where the idle task takes over, only a task that has finished changes, which is invalid
/// and left to clean up. The idle task stays idle.
pub proof fn law_handover_to_idle_task<C>(core: CoreView<C>, slice_ticks: u64, switch_ticks: u64)
    requires
        core.valid(),
        core.ready.len() == 0,
        core.tasks[core.current].status != TaskStatus::TaskRunning,
        core.tasks[core.current].status != TaskStatus::TaskIdle,
        core.tasks[core.idle].status == TaskStatus::TaskIdle,
    ensures
        ({
            let after = core.scheduled(slice_ticks, switch_ticks);
            let current = core.tasks[core.current];
            &&& after.tasks[core.idle] == core.tasks[core.idle]
            &&& after.ready.len() == 0
            &&& forall|q: TaskRef|
                q != core.current ==> (#[trigger] after.tasks[q]).status == core.tasks[q].status
            &&& if current.status == TaskStatus::TaskFinished {
                &&& after.tasks[core.current].status == TaskStatus::TaskInvalid
                &&& after.finished == core.finished + seq![current.id]
            } else {
                &&& after.tasks[core.current].status == current.status
                &&& after.finished == core.finished
            }
        }),
{
    let current = core.tasks[core.current];
    assert(core.finished.push(current.id) =~= core.finished + seq![current.id]);
}

/// A task that is created starts with what its seed says: it continues at the stack pointer
/// of the seed, on the stacks and with the platform's data of the seed. Identifier, status,
/// priority and core are those that were asked for, and all else is empty.
pub proof fn law_new_task_starts_with_its_seed<C>(
    id: TaskId,
    core_id: CoreId,
    status: TaskStatus,
    prio: Priority,
    seed: TaskSeed<C>,
)
    ensures
        ({
            let task = new_task(id, core_id, status, prio, seed);
            &&& task.last_stack_pointer == seed.stack_pointer
            &&& task.stacks == seed.stacks
            &&& task.context == seed.context
            &&& task.id == id
            &&& task.core_id == core_id
            &&& task.status == status
            &&& task.prio == prio
            &&& task.user_stack_pointer == 0
            &&& task.lwip_errno == 0
            &&& task.last_wakeup_reason == WakeupReason::Custom
        }),
{
}

/// A clone starts with what its seed says, like every new task. It takes only priority and
/// last wakeup reason from its parent: two parents that agree in these have equal clones.
pub proof fn law_clone_starts_with_its_seed<C>(
    id: TaskId,
    core_id: CoreId,
    parent: Task<C>,
    other: Task<C>,
    seed: TaskSeed<C>,
)
    ensures
        ({
            let task = cloned_task(id, core_id, parent, seed);
            &&& task.last_stack_pointer == seed.stack_pointer
            &&& task.stacks == seed.stacks
            &&& task.context == seed.context
            &&& task.id == id
            &&& task.core_id == core_id
            &&& task.status == TaskStatus::TaskReady
            &&& task.prio == parent.prio
            &&& task.last_wakeup_reason == parent.last_wakeup_reason
            &&& task.user_stack_pointer == 0
            &&& task.lwip_errno == 0
        }),
        other.prio == parent.prio && other.last_wakeup_reason == parent.last_wakeup_reason
            ==> cloned_task(id, core_id, other, seed) == cloned_task(id, core_id, parent, seed),
{
}

/// The handle of a task carries its identifier, its priority and its core.
pub proof fn law_handle_denotes_its_task<C>(task: Task<C>)
    ensures
        task.handle().id == task.id,
        task.handle().prio == task.prio,
        task.handle().core_id == task.core_id,
{
}

/// The top of a stack lies 16 bytes below its end.
pub proof fn law_stack_top_lies_below_the_end(start: usize, size: usize)
    ensures
        stack_top(start, size) + 16 == start + size,
{
}

/// A wakeup makes a task ready, tells it the reason, and leaves everything else of it as it
/// was: it continues where it has been blocked, with all its data.
pub proof fn law_wakeup_only_makes_ready<C>(task: Task<C>, reason: WakeupReason)
    ensures
        ({
            let woken = CoreView::<C>::woken_task(task, reason);
            &&& woken.status == TaskStatus::TaskReady
            &&& woken.last_wakeup_reason == reason
            &&& woken.last_stack_pointer == task.last_stack_pointer
            &&& woken.user_stack_pointer == task.user_stack_pointer
            &&& woken.stacks == task.stacks
            &&& woken.lwip_errno == task.lwip_errno
            &&& woken.context == task.context
            &&& woken.id == task.id
            &&& woken.prio == task.prio
            &&& woken.core_id == task.core_id
        }),
{
}

/// A wakeup on a core reaches the first blocked task with the identifier: that one is no
/// longer blocked, is ready with all its data, and goes to the end of the queue with its
/// priority. Nothing else of the core changes.
pub proof fn law_wakeup_moves_the_blocked_task<C>(core: CoreView<C>, i: int)
    requires
        core.valid(),
        0 <= i < core.blocked.len(),
        forall|j: int|
            0 <= j < i ==> (#[trigger] core.blocked[j]).id != core.blocked[i].id,
    ensures
        ({
            let r = core.blocked[i].task;
            let after = core.wake(core.blocked[i].id);
            &&& after.blocked == core.blocked.remove(i)
            &&& after.ready == core.ready.push(ReadyEntry { task: r, prio: core.tasks[r].prio })
            &&& after.tasks[r].status == TaskStatus::TaskReady
            &&& after.tasks[r].last_wakeup_reason == WakeupReason::Custom
            &&& same_data(after.tasks[r], core.tasks[r])
            &&& forall|q: TaskRef| q != r ==> #[trigger] after.tasks[q] == core.tasks[q]
            &&& forall|q: TaskRef| #[trigger]
                after.tasks.contains_key(q) <==> core.tasks.contains_key(q)
            &&& after.core_id == core.core_id
            &&& after.input == core.input
            &&& after.current == core.current
            &&& after.idle == core.idle
            &&& after.fpu_owner == core.fpu_owner
            &&& after.finished == core.finished
            &&& after.last_task_switch_tick == core.last_task_switch_tick
        }),
{
    let id = core.blocked[i].id;
    assert(is_first_with_id(core.blocked, id, i));
    lemma_first_with_id_is_unique(core.blocked, id, i);
}

/// A wakeup of a task that is not blocked on the core changes nothing.
pub proof fn law_wakeup_without_blocked_task_does_nothing<C>(core: CoreView<C>, id: TaskId)
    requires
        forall|j: int| 0 <= j < core.blocked.len() ==> (#[trigger] core.blocked[j]).id != id,
    ensures
        core.wake(id) == core,
{
}

/// Wakeups take effect one by one, from the first to the last.
pub proof fn law_wakeups_come_in_order<C>(
    core: CoreView<C>,
    first: Seq<TaskHandle>,
    handle: TaskHandle,
    rest: Seq<TaskHandle>,
)
    ensures
        core.wake_all(Seq::empty()) == core,
        core.wake_all(first + rest) == core.wake_all(first).wake_all(rest),
        core.wake_all(first.push(handle)) == core.wake_all(first).wake(handle.id),
    decreases first.len(),
{
    if first.len() == 0 {
        assert(first + rest =~= rest);
        assert(first.push(handle).drop_first() =~= Seq::empty());
        assert(core.wake(handle.id).wake_all(first.push(handle).drop_first()) == core.wake(
            handle.id,
        ));
    } else {
        assert((first + rest).drop_first() =~= first.drop_first() + rest);
        assert(first.push(handle).drop_first() =~= first.drop_first().push(handle));
        law_wakeups_come_in_order(
            core.wake(first[0].id),
            first.drop_first(),
            handle,
            rest,
        );
    }
}

/// A wakeup for the own core is carried out at once and notifies nobody. One for another
/// core becomes the last of its requests, and that core is notified.
pub proof fn law_wakeup_goes_to_its_core<C>(before: System<C>, handle: TaskHandle)
    requires
        before.shared.valid(),
        before.shared.schedulers.contains_key(handle.core_id),
    ensures
        ({
            let after = before.wake(handle);
            let place = before.shared.schedulers[handle.core_id];
            if handle.core_id == before.core.core_id {
                &&& after.core == before.core.wake(handle.id)
                &&& after.shared == before.shared
                &&& after.notified == before.notified
            } else {
                &&& after.core == before.core
                &&& after.notified == before.notified.push(handle.core_id)
                &&& after.shared.inputs.len() == before.shared.inputs.len()
                &&& after.shared.inputs[place].wakeup_tasks
                    == before.shared.inputs[place].wakeup_tasks.push(handle)
                &&& after.shared.inputs[place].new_tasks == before.shared.inputs[place].new_tasks
                &&& forall|p: int|
                    0 <= p < before.shared.inputs.len() && p != place
                        ==> #[trigger] after.shared.inputs[p] == before.shared.inputs[p]
                &&& after.shared == (SharedView { inputs: after.shared.inputs, ..before.shared })
            }
        }),
{
}

/// Wakeups of a system take effect one by one, from the first to the last.
pub proof fn law_system_wakeups_come_in_order<C>(
    before: System<C>,
    first: Seq<TaskHandle>,
    handle: TaskHandle,
    rest: Seq<TaskHandle>,
)
    ensures
        before.wake_all(Seq::empty()) == before,
        before.wake_all(first + rest) == before.wake_all(first).wake_all(rest),
        before.wake_all(first.push(handle)) == before.wake_all(first).wake(handle),
    decreases first.len(),
{
    if first.len() == 0 {
        assert(first + rest =~= rest);
        assert(first.push(handle).drop_first() =~= Seq::empty());
        assert(before.wake(handle).wake_all(first.push(handle).drop_first()) == before.wake(
            handle,
        ));
    } else {
        assert((first + rest).drop_first() =~= first.drop_first() + rest);
        assert(first.push(handle).drop_first() =~= first.drop_first().push(handle));
        law_system_wakeups_come_in_order(
            before.wake(first[0]),
            first.drop_first(),
            handle,
            rest,
        );
    }
}

/// A task that blocks is queued behind all blocked tasks that have to be woken up no later
/// and before all others, where to have no wakeup time is the latest of all. It is blocked
/// and keeps all its data and the core. Nothing else changes.
pub proof fn law_blocking_queues_by_wakeup_time<C>(
    core: CoreView<C>,
    wakeup_time: Option<u64>,
    p: int,
)
    requires
        0 <= p <= core.blocked.len(),
        forall|j: int|
            0 <= j < p ==> (wakeup_time is None || ((#[trigger] core.blocked[j]).wakeup_time is Some
                && core.blocked[j].wakeup_time->0 <= wakeup_time->0)),
        p < core.blocked.len() ==> wakeup_time is Some && (core.blocked[p].wakeup_time is None
            || core.blocked[p].wakeup_time->0 > wakeup_time->0),
    ensures
        ({
            let r = core.current;
            let after = core.current_blocked(wakeup_time);
            let entry = after.blocked[p];
            &&& after.blocked.len() == core.blocked.len() + 1
            &&& after.blocked.remove(p) == core.blocked
            &&& entry.task == r
            &&& entry.id == core.tasks[r].id
            &&& entry.wakeup_time == wakeup_time
            &&& after.tasks[r].status == TaskStatus::TaskBlocked
            &&& after.tasks[r].last_wakeup_reason == core.tasks[r].last_wakeup_reason
            &&& same_data(after.tasks[r], core.tasks[r])
            &&& forall|q: TaskRef| q != r ==> #[trigger] after.tasks[q] == core.tasks[q]
            &&& after.tasks.dom() == core.tasks.dom().insert(r)
            &&& after.ready == core.ready
            &&& after.core_id == core.core_id
            &&& after.input == core.input
            &&& after.current == core.current
            &&& after.idle == core.idle
            &&& after.fpu_owner == core.fpu_owner
            &&& after.finished == core.finished
            &&& after.last_task_switch_tick == core.last_task_switch_tick
        }),
{
    assert forall|j: int| 0 <= j < p implies !earlier(
        wakeup_time,
        (#[trigger] core.blocked[j]).wakeup_time,
    ) by {}
    assert(is_place(core.blocked, wakeup_time, p));
    lemma_place_is_unique(core.blocked, wakeup_time, p);
    let after = core.current_blocked(wakeup_time);
    assert(after.blocked.remove(p) =~= core.blocked);
    assert(after.tasks.dom() =~= core.tasks.dom().insert(core.current));
}

/// In the queue of blocked tasks no task stands behind one that has to be woken up later,
/// and only tasks without a wakeup time stand behind one without.
pub proof fn law_blocked_tasks_are_sorted<C>(core: CoreView<C>, i: int, j: int)
    requires
        core.valid(),
        0 <= i < j < core.blocked.len(),
    ensures
        core.blocked[i].wakeup_time is None ==> core.blocked[j].wakeup_time is None,
        core.blocked[i].wakeup_time is Some && core.blocked[j].wakeup_time is Some
            ==> core.blocked[i].wakeup_time->0 <= core.blocked[j].wakeup_time->0,
{
    assert(!earlier(core.blocked[j].wakeup_time, core.blocked[i].wakeup_time));
}

/// When the timer has been handled, exactly the tasks are ready whose wakeup time is not
/// after the given time: the first `n` of the blocked ones. They are queued in their order,
/// each with its priority, know that the timer has woken them up, and keep all their data.
/// Nothing else changes.
pub proof fn law_timer_moves_the_elapsed_tasks<C>(core: CoreView<C>, now: u64, n: int)
    requires
        core.valid(),
        0 <= n <= core.blocked.len(),
        forall|j: int|
            0 <= j < n ==> (#[trigger] core.blocked[j]).wakeup_time is Some
                && core.blocked[j].wakeup_time->0 <= now,
        n < core.blocked.len() ==> core.blocked[n].wakeup_time is None
            || core.blocked[n].wakeup_time->0 > now,
    ensures
        ({
            let after = core.elapsed_woken(now);
            &&& after.blocked == core.blocked.subrange(n, core.blocked.len() as int)
            &&& after.ready.len() == core.ready.len() + n
            &&& forall|i: int|
                0 <= i < core.ready.len() ==> #[trigger] after.ready[i] == core.ready[i]
            &&& forall|j: int|
                0 <= j < n ==> {
                    let r = (#[trigger] core.blocked[j]).task;
                    &&& after.ready[core.ready.len() + j].task == r
                    &&& after.ready[core.ready.len() + j].prio == core.tasks[r].prio
                    &&& after.tasks[r].status == TaskStatus::TaskReady
                    &&& after.tasks[r].last_wakeup_reason == WakeupReason::Timer
                }
            &&& forall|q: TaskRef| #[trigger]
                core.tasks.contains_key(q) ==> same_data(after.tasks[q], core.tasks[q])
            &&& forall|q: TaskRef|
                #![trigger after.tasks[q]]
                core.tasks.contains_key(q) && (forall|j: int|
                    0 <= j < n ==> (#[trigger] core.blocked[j]).task != q) ==> after.tasks[q]
                    == core.tasks[q]
            &&& forall|q: TaskRef| #[trigger]
                after.tasks.contains_key(q) <==> core.tasks.contains_key(q)
            &&& after.core_id == core.core_id
            &&& after.input == core.input
            &&& after.current == core.current
            &&& after.idle == core.idle
            &&& after.fpu_owner == core.fpu_owner
            &&& after.finished == core.finished
            &&& after.last_task_switch_tick == core.last_task_switch_tick
        }),
{
    assert forall|j: int| 0 <= j < n implies elapsed(#[trigger] core.blocked[j], now) by {}
    assert(is_elapsed_count(core.blocked, now, n));
    lemma_elapsed_count_is_unique(core.blocked, now, n);
    let after = core.elapsed_woken(now);
    assert forall|j: int| 0 <= j < n implies core.tasks.contains_key(
        (#[trigger] core.blocked[j]).task,
    ) && core.among_first_blocked(core.blocked[j].task, n) by {}
    assert forall|j: int| 0 <= j < n implies {
        let r = (#[trigger] core.blocked[j]).task;
        &&& after.ready[core.ready.len() + j].task == r
        &&& after.ready[core.ready.len() + j].prio == core.tasks[r].prio
        &&& after.tasks[r].status == TaskStatus::TaskReady
        &&& after.tasks[r].last_wakeup_reason == WakeupReason::Timer
    } by {
        assert(core.blocked.take(n)[j] == core.blocked[j]);
    }
}

/// The FPU registers are saved to the task that owns the FPU and loaded from the current
/// task, exactly if these are not the same. Afterwards the current task owns the FPU, and
/// nothing else has changed.
pub proof fn law_fpu_goes_from_its_owner_to_the_current_task<C>(core: CoreView<C>)
    ensures
        core.fpu_switch() is Some <==> core.fpu_owner != core.current,
        core.fpu_switch() matches Some(switch) ==> switch.save == core.fpu_owner && switch.restore
            == core.current,
        core.fpu_claimed().fpu_owner == core.current,
        core.fpu_claimed() == (CoreView { fpu_owner: core.fpu_claimed().fpu_owner, ..core }),
{
}

/// Claims of the FPU form a chain: each saves the registers to the task for which the one
/// before has loaded them.
pub proof fn law_fpu_claims_form_a_chain<C>(core: CoreView<C>, later: CoreView<C>)
    requires
        later.fpu_owner == core.fpu_claimed().fpu_owner,
        later.fpu_switch() is Some,
    ensures
        later.fpu_switch()->0.save == core.current,
        core.fpu_switch() is Some ==> later.fpu_switch()->0.save == core.fpu_switch()->0.restore,
{
}

/// What is read of the current task is what it holds.
pub proof fn law_reads_show_the_current_task<C>(core: CoreView<C>, size: usize)
    ensures
        ({
            let task = core.tasks[core.current];
            &&& core.task_id() == task.id
            &&& core.lwip_errno() == task.lwip_errno
            &&& core.wakeup_reason() == task.last_wakeup_reason
            &&& core.user_stack() == task.user_stack_pointer
            &&& core.is_idle() <==> task.status == TaskStatus::TaskIdle
            &&& core.kernel_stack_top(size) + 16 == task.stacks.kernel_stack + size
            &&& core.kernel_entry().0 + 16 == task.stacks.kernel_stack
                + task.stacks.kernel_stack_size
            &&& core.kernel_entry().1 + 16 == task.stacks.interrupt_stack
                + task.stacks.interrupt_stack_size
        }),
{
}

/// What was written last is read, and a write to one item leaves all others readable as they
/// were.
pub proof fn law_reads_give_back_writes<C>(
    core: CoreView<C>,
    errno: i32,
    reason: WakeupReason,
    addr: usize,
)
    ensures
        core.with_lwip_errno(errno).lwip_errno() == errno,
        core.with_lwip_errno(errno).wakeup_reason() == core.wakeup_reason(),
        core.with_lwip_errno(errno).user_stack() == core.user_stack(),
        core.with_lwip_errno(errno).task_id() == core.task_id(),
        core.with_wakeup_reason(reason).wakeup_reason() == reason,
        core.with_wakeup_reason(reason).lwip_errno() == core.lwip_errno(),
        core.with_wakeup_reason(reason).user_stack() == core.user_stack(),
        core.with_wakeup_reason(reason).task_id() == core.task_id(),
        core.with_user_stack(addr).user_stack() == addr,
        core.with_user_stack(addr).lwip_errno() == core.lwip_errno(),
        core.with_user_stack(addr).wakeup_reason() == core.wakeup_reason(),
        core.with_user_stack(addr).task_id() == core.task_id(),
{
}

/// What is written for a task is read from it, and nothing else of the task and of the core
/// changes.
pub proof fn law_writes_change_one_field<C>(
    core: CoreView<C>,
    r: TaskRef,
    errno: i32,
    reason: WakeupReason,
    addr: usize,
    context: C,
)
    requires
        core.valid(),
        core.tasks.contains_key(r),
    ensures
        ({
            let c = core.current;
            &&& core.current_task() == core.tasks[c]
            &&& core.with_lwip_errno(errno) == (CoreView {
                tasks: core.tasks.insert(c, Task { lwip_errno: errno, ..core.tasks[c] }),
                ..core
            })
            &&& core.with_wakeup_reason(reason) == (CoreView {
                tasks: core.tasks.insert(c, Task { last_wakeup_reason: reason, ..core.tasks[c] }),
                ..core
            })
            &&& core.with_user_stack(addr) == (CoreView {
                tasks: core.tasks.insert(c, Task { user_stack_pointer: addr, ..core.tasks[c] }),
                ..core
            })
            &&& core.with_stack_pointer(r, addr) == (CoreView {
                tasks: core.tasks.insert(r, Task { last_stack_pointer: addr, ..core.tasks[r] }),
                ..core
            })
            &&& core.with_context(r, context) == (CoreView {
                tasks: core.tasks.insert(r, Task { context, ..core.tasks[r] }),
                ..core
            })
            &&& core.with_current(core.tasks[r]) == (CoreView {
                tasks: core.tasks.insert(c, core.tasks[r]),
                ..core
            })
        }),
{
}

/// The identifier of a new task is the first one from the counter on that no task has, and
/// the counter goes on behind it. Identifiers go from the largest number to zero.
pub proof fn law_next_identifier_is_the_first_free_one<C>(shared: SharedView<C>)
    requires
        exists|id: TaskId| !shared.tasks.contains_key(id),
    ensures
        !shared.tasks.contains_key(shared.next_tid()),
        exists|k: int| #[trigger] first_free_after(shared, k),
        shared.after_get_tid() == (SharedView {
            tid_counter: shared.after_get_tid().tid_counter,
            ..shared
        }),
        forall|k: int| #[trigger]
            first_free_after(shared, k) ==> {
                &&& shared.next_tid().0 == (shared.tid_counter + k) % 0x1_0000_0000
                &&& shared.after_get_tid().tid_counter == (shared.tid_counter + k + 1)
                    % 0x1_0000_0000
            },
{
    assert(shared.has_free_tid());
    lemma_free_tid_offset(shared);
    let found = shared.free_tid_offset();
    assert forall|j: int| 0 <= j < found implies shared.tasks.contains_key(
        TaskId(#[trigger] ((shared.tid_counter + j) % 0x1_0000_0000) as u32),
    ) by {
        assert(shared.tasks.contains_key(tid_at(shared.tid_counter, j)));
    }
    assert(first_free_after(shared, found));
    assert forall|k: int| #[trigger] first_free_after(shared, k) implies k == found by {
        assert forall|j: int| 0 <= j < k implies shared.tasks.contains_key(
            #[trigger] tid_at(shared.tid_counter, j),
        ) by {
            let x = (shared.tid_counter + j) % 0x1_0000_0000;
            assert(shared.tasks.contains_key(TaskId(x as u32)));
        }
        assert(shared.is_free_tid_offset(k));
    }
}

/// Says that the identifier `k` steps after the counter is the first one that no task has.
pub open spec fn first_free_after<C>(shared: SharedView<C>, k: int) -> bool {
    &&& 0 <= k < 0x1_0000_0000
    &&& !shared.tasks.contains_key(TaskId(((shared.tid_counter + k) % 0x1_0000_0000) as u32))
    &&& forall|j: int|
        0 <= j < k ==> shared.tasks.contains_key(
            TaskId(#[trigger] ((shared.tid_counter + j) % 0x1_0000_0000) as u32),
        )
}

/// A cloned task goes to the core at which the counter stands, and the counter moves on to
/// the next core. Behind the last core it goes to core zero, where the counter then stands.
pub proof fn law_clones_go_round(next_core_id: u32, processor_count: u32)
    ensures
        next_core_id == processor_count ==> picked_core(next_core_id, processor_count) == 0
            && after_pick(next_core_id, processor_count) == 0,
        next_core_id != processor_count ==> picked_core(next_core_id, processor_count)
            == next_core_id && after_pick(next_core_id, processor_count) == (next_core_id + 1)
            % 0x1_0000_0000,
{
}

/// A task that is spawned is known, counted and ready: on the own core it gets a reference
/// of its own and is the last in the queue; for another core it is the last of the new tasks
/// on their way there, and that core is notified. Nobody waits for it yet. The other tasks
/// and the queues are left alone.
pub proof fn law_spawned_task_is_ready_on_its_core<C>(before: System<C>, task: Task<C>)
    requires
        before.shared.valid(),
        before.shared.schedulers.contains_key(task.core_id),
        task.core_id == before.core.core_id ==> before.core.has_room(1),
    ensures
        ({
            let after = before.spawned(task);
            let place = before.shared.schedulers[task.core_id];
            &&& after.shared.tasks.contains_key(task.id)
            &&& after.shared.tasks[task.id].len() == 0
            &&& after.shared.tasks.remove(task.id) == before.shared.tasks.remove(task.id)
            &&& after.shared.no_tasks == (before.shared.no_tasks + 1) % 0x1_0000_0000
            &&& after.shared == (SharedView {
                tasks: after.shared.tasks,
                no_tasks: after.shared.no_tasks,
                inputs: after.shared.inputs,
                ..before.shared
            })
            &&& if task.core_id == before.core.core_id {
                let entry = after.core.ready.last();
                &&& after.notified == before.notified
                &&& after.shared.inputs == before.shared.inputs
                &&& after.core.ready == before.core.ready.push(entry)
                &&& entry.prio == task.prio
                &&& !before.core.tasks.contains_key(entry.task)
                &&& after.core.tasks == before.core.tasks.insert(entry.task, task)
                &&& after.core == (CoreView {
                    tasks: after.core.tasks,
                    ready: after.core.ready,
                    ..before.core
                })
            } else {
                &&& after.notified == before.notified.push(task.core_id)
                &&& after.core == before.core
                &&& after.shared.inputs.len() == before.shared.inputs.len()
                &&& after.shared.inputs[place].new_tasks
                    == before.shared.inputs[place].new_tasks.push(task)
                &&& after.shared.inputs[place].wakeup_tasks
                    == before.shared.inputs[place].wakeup_tasks
                &&& forall|p: int|
                    0 <= p < before.shared.inputs.len() && p != place
                        ==> #[trigger] after.shared.inputs[p] == before.shared.inputs[p]
            }
        }),
{
    let after = before.spawned(task);
    assert(after.shared.tasks.remove(task.id) =~= before.shared.tasks.remove(task.id));
    if task.core_id == before.core.core_id {
        lemma_next_ref(before.core.tasks);
    }
}

/// A spawn creates one ready task with the next identifier, for the core and with the
/// priority that were asked for, which starts with the seed.
pub proof fn law_spawn_creates_what_was_asked_for<C>(
    before: System<C>,
    prio: Priority,
    core_id: CoreId,
    seed: TaskSeed<C>,
    task: Task<C>,
)
    requires
        task.id == before.shared.next_tid(),
        task.core_id == core_id,
        task.status == TaskStatus::TaskReady,
        task.prio == prio,
        task.last_stack_pointer == seed.stack_pointer,
        task.stacks == seed.stacks,
        task.context == seed.context,
        task.user_stack_pointer == 0,
        task.lwip_errno == 0,
        task.last_wakeup_reason == WakeupReason::Custom,
    ensures
        before.after_spawn(prio, core_id, seed) == (System {
            shared: before.shared.after_get_tid(),
            ..before
        }).spawned(task),
{
    assert(task == new_task(
        before.shared.next_tid(),
        core_id,
        TaskStatus::TaskReady,
        prio,
        seed,
    ));
}

/// A clone creates one ready task with the next identifier on the core whose turn it is, with
/// the priority and the last wakeup reason of the current task, which starts with the seed.
pub proof fn law_clone_creates_what_was_asked_for<C>(
    before: System<C>,
    processor_count: u32,
    seed: TaskSeed<C>,
    task: Task<C>,
)
    requires
        task.id == before.shared.next_tid(),
        task.core_id == picked_core(before.shared.next_core_id, processor_count),
        task.status == TaskStatus::TaskReady,
        task.prio == before.core.tasks[before.core.current].prio,
        task.last_stack_pointer == seed.stack_pointer,
        task.stacks == seed.stacks,
        task.context == seed.context,
        task.user_stack_pointer == 0,
        task.lwip_errno == 0,
        task.last_wakeup_reason == before.core.tasks[before.core.current].last_wakeup_reason,
    ensures
        before.after_clone(processor_count, seed) == (System {
            shared: SharedView {
                next_core_id: after_pick(before.shared.next_core_id, processor_count),
                ..before.shared.after_get_tid()
            },
            ..before
        }).spawned(task),
{
    assert(task == cloned_task(
        before.shared.next_tid(),
        picked_core(before.shared.next_core_id, processor_count),
        before.core.tasks[before.core.current],
        seed,
    ));
}

/// A task that finishes has the status that says so, is no longer counted, and keeps
/// everything else. Nothing else changes.
pub proof fn law_finished_task_is_marked_and_uncounted<C>(before: System<C>)
    requires
        before.core.valid(),
    ensures
        ({
            let after = before.current_finished();
            let r = before.core.current;
            &&& after.core.tasks[r].status == TaskStatus::TaskFinished
            &&& same_data(after.core.tasks[r], before.core.tasks[r])
            &&& after.core.tasks[r].last_wakeup_reason == before.core.tasks[r].last_wakeup_reason
            &&& after.core.tasks == before.core.tasks.insert(r, after.core.tasks[r])
            &&& after.core == (CoreView { tasks: after.core.tasks, ..before.core })
            &&& (after.shared.no_tasks + 1) % 0x1_0000_0000 == before.shared.no_tasks
            &&& after.shared == (SharedView { no_tasks: after.shared.no_tasks, ..before.shared })
            &&& after.notified == before.notified
        }),
{
}

/// A task that joins another one is the last of those who wait for it, by its own handle, and
/// is blocked until somebody wakes it up. Who waits for other tasks stays the same.
pub proof fn law_join_registers_the_current_task<C>(before: System<C>, id: TaskId)
    requires
        before.core.valid(),
        before.shared.tasks.contains_key(id),
    ensures
        ({
            let after = before.waiting_for(id);
            let task = before.core.tasks[before.core.current];
            let waiting = after.shared.tasks[id];
            &&& after.shared.tasks.contains_key(id)
            &&& waiting.drop_last() == before.shared.tasks[id]
            &&& waiting.len() == before.shared.tasks[id].len() + 1
            &&& waiting.last().id == task.id
            &&& waiting.last().prio == task.prio
            &&& waiting.last().core_id == task.core_id
            &&& after.shared.tasks.remove(id) == before.shared.tasks.remove(id)
            &&& after.shared == (SharedView { tasks: after.shared.tasks, ..before.shared })
            &&& after.core == before.core.current_blocked(None)
            &&& after.core.blocked.last().task == before.core.current
            &&& after.core.blocked.last().wakeup_time is None
            &&& after.core.blocked.drop_last() == before.core.blocked
            &&& after.notified == before.notified
        }),
{
    let after = before.waiting_for(id);
    assert(after.shared.tasks[id].drop_last() =~= before.shared.tasks[id]);
    assert(after.shared.tasks.remove(id) =~= before.shared.tasks.remove(id));
    law_blocking_queues_by_wakeup_time(before.core, None, before.core.blocked.len() as int);
    assert(after.core.blocked.remove(before.core.blocked.len() as int)
        =~= after.core.blocked.drop_last());
}

/// A start forgets all schedulers and all tasks, and keeps everything else: counters, and
/// the requests in all inputs.
pub proof fn law_start_forgets_schedulers_and_tasks<C>(shared: SharedView<C>)
    ensures
        forall|core_id: CoreId| !#[trigger] after_init(shared).schedulers.contains_key(core_id),
        forall|id: TaskId| !#[trigger] after_init(shared).tasks.contains_key(id),
        after_init(shared).inputs == shared.inputs,
        after_init(shared).owners == shared.owners,
        after_init(shared).no_tasks == shared.no_tasks,
        after_init(shared).tid_counter == shared.tid_counter,
        after_init(shared).next_core_id == shared.next_core_id,
{
}

/// A core that is added has one task, its idle task, with the next identifier and the lowest
/// priority. It has the core and owns the FPU, and is known but not counted. Other cores find
/// the scheduler of the core, whose input is new and without requests.
pub proof fn law_added_core_runs_its_idle_task<C>(
    shared: SharedView<C>,
    core_id: CoreId,
    seed: TaskSeed<C>,
)
    ensures
        ({
            let after = added_core(shared, core_id, seed);
            let core = after.core;
            let idle = core.tasks[core.idle];
            let id = shared.next_tid();
            &&& core.core_id == core_id
            &&& core.current == core.idle
            &&& core.fpu_owner == core.idle
            &&& core.tasks.dom() == set![core.idle]
            &&& core.ready.len() == 0
            &&& core.blocked.len() == 0
            &&& core.finished.len() == 0
            &&& core.last_task_switch_tick == 0
            &&& idle.id == id
            &&& idle.core_id == core_id
            &&& idle.status == TaskStatus::TaskIdle
            &&& idle.prio.0 == 0
            &&& idle.last_stack_pointer == seed.stack_pointer
            &&& idle.stacks == seed.stacks
            &&& idle.context == seed.context
            &&& idle.user_stack_pointer == 0
            &&& idle.lwip_errno == 0
            &&& after.shared.schedulers == shared.schedulers.insert(core_id, core.input)
            &&& core.input == shared.inputs.len()
            &&& after.shared.inputs.len() == shared.inputs.len() + 1
            &&& after.shared.inputs.drop_last() == shared.inputs
            &&& after.shared.inputs[core.input].new_tasks.len() == 0
            &&& after.shared.inputs[core.input].wakeup_tasks.len() == 0
            &&& after.shared.owners == shared.owners.push(core_id)
            &&& after.shared.tasks.contains_key(id)
            &&& after.shared.tasks[id].len() == 0
            &&& after.shared.tasks.remove(id) == shared.tasks.remove(id)
            &&& after.shared.no_tasks == shared.no_tasks
            &&& after.shared.next_core_id == shared.next_core_id
            &&& after.shared.tid_counter == shared.after_get_tid().tid_counter
            &&& after.notified.len() == 0
        }),
{
    let after = added_core(shared, core_id, seed);
    let id = shared.next_tid();
    assert(after.core.tasks.dom() =~= set![after.core.idle]);
    assert(after.shared.inputs.drop_last() =~= shared.inputs);
    assert(after.shared.tasks.remove(id) =~= shared.tasks.remove(id));
}

/// A core that takes in its requests first carries out the wakeups and then gets the new
/// tasks. Its input is empty afterwards, and that of every other core is as before.
pub proof fn law_input_is_taken_in_and_emptied<C>(before: System<C>)
    requires
        before.core.attached_to(before.shared),
        before.shared.valid(),
        before.core.has_room(before.shared.inputs[before.core.input].new_tasks.len() as int),
        before.core.valid(),
    ensures
        ({
            let after = before.after_check_input();
            let place = before.core.input;
            let input = before.shared.inputs[place];
            let woken = before.core.wake_all(input.wakeup_tasks);
            &&& after.shared.inputs.len() == before.shared.inputs.len()
            &&& after.shared.inputs[place].new_tasks.len() == 0
            &&& after.shared.inputs[place].wakeup_tasks.len() == 0
            &&& forall|p: int|
                0 <= p < before.shared.inputs.len() && p != place
                    ==> #[trigger] after.shared.inputs[p] == before.shared.inputs[p]
            &&& after.shared == (SharedView { inputs: after.shared.inputs, ..before.shared })
            &&& after.notified == before.notified
            &&& input.new_tasks.len() == 0 ==> after.core == woken
            &&& after.core.blocked == woken.blocked
            &&& after.core.ready.len() == woken.ready.len() + input.new_tasks.len()
            &&& forall|i: int|
                0 <= i < woken.ready.len() ==> #[trigger] after.core.ready[i] == woken.ready[i]
            &&& forall|i: int|
                0 <= i < input.new_tasks.len() ==> {
                    let entry = after.core.ready[woken.ready.len() + i];
                    &&& entry.prio == (#[trigger] input.new_tasks[i]).prio
                    &&& !before.core.tasks.contains_key(entry.task)
                    &&& after.core.tasks[entry.task] == input.new_tasks[i]
                }
            &&& forall|r: TaskRef| #[trigger]
                before.core.tasks.contains_key(r) ==> {
                    &&& after.core.tasks.contains_key(r)
                    &&& after.core.tasks[r] == woken.tasks[r]
                    &&& same_data(after.core.tasks[r], before.core.tasks[r])
                }
            &&& after.core.current == before.core.current
            &&& after.core.idle == before.core.idle
            &&& after.core.fpu_owner == before.core.fpu_owner
            &&& after.core.finished == before.core.finished
            &&& after.core.last_task_switch_tick == before.core.last_task_switch_tick
        }),
{
    let input = before.shared.inputs[before.core.input];
    let woken = before.core.wake_all(input.wakeup_tasks);
    let after = before.after_check_input();
    law_input_displaces_no_task(before.core, input);
    assert forall|r: TaskRef|
        before.core.tasks.contains_key(r) <==> woken.tasks.contains_key(r) by {
        assert(before.core.tasks.dom().contains(r) <==> woken.tasks.dom().contains(r));
    }
    assert forall|i: int| 0 <= i < woken.ready.len() implies #[trigger] after.core.ready[i]
        == woken.ready[i] by {
        assert(after.core.ready.subrange(0, woken.ready.len() as int)[i] == after.core.ready[i]);
    }
    assert forall|r: TaskRef| #[trigger] before.core.tasks.contains_key(r) implies same_data(
        after.core.tasks[r],
        before.core.tasks[r],
    ) by {}
}

/// A release keeps exactly the tasks to which the core refers: the current one, the idle
/// one, the one that owns the FPU, and those that are ready or blocked.
pub proof fn law_release_keeps_exactly_what_is_needed<C>(core: CoreView<C>, r: TaskRef)
    ensures
        core.released().tasks.contains_key(r) <==> core.tasks.contains_key(r) && {
            ||| r == core.current
            ||| r == core.idle
            ||| r == core.fpu_owner
            ||| exists|i: int| 0 <= i < core.ready.len() && (#[trigger] core.ready[i]).task == r
            ||| exists|i: int|
                0 <= i < core.blocked.len() && (#[trigger] core.blocked[i]).task == r
        },
        core.released().tasks.contains_key(r) ==> core.released().tasks[r] == core.tasks[r],
        core.released() == (CoreView { tasks: core.released().tasks, ..core }),
{
}

/// Without finished tasks a cleanup does nothing. Otherwise it forgets them, and then
/// releases what is no longer needed.
pub proof fn law_cleanup_forgets_and_releases<C>(before: System<C>)
    ensures
        before.core.finished.len() == 0 ==> before.cleaned() == before,
        before.core.finished.len() > 0 ==> {
            let start = System {
                core: CoreView { finished: Seq::empty(), ..before.core },
                shared: before.shared,
                notified: before.notified,
            };
            let end = start.forgotten_all(before.core.finished);
            &&& before.cleaned().core == end.core.released()
            &&& before.cleaned().shared == end.shared
            &&& before.cleaned().notified == end.notified
        },
{
}

/// To forget a task removes it from those that are known, and wakes up exactly those who wait
/// for it, from the first to the last.
pub proof fn law_forgotten_task_wakes_who_waits<C>(before: System<C>, id: TaskId)
    ensures
        before.forgotten_all(seq![id]) == (System {
            shared: SharedView { tasks: before.shared.tasks.remove(id), ..before.shared },
            ..before
        }).wake_all(
            if before.shared.tasks.contains_key(id) {
                before.shared.tasks[id]
            } else {
                Seq::empty()
            },
        ),
{
    let ids = seq![id];
    let next = System { shared: before.shared.without_task(id), ..before }.wake_all(
        before.shared.waiting(id),
    );
    assert(ids.drop_first() =~= Seq::empty());
    assert(next.forgotten_all(ids.drop_first()) == next);
}

/// Finished tasks are forgotten one by one, from the first to the last.
pub proof fn law_tasks_are_forgotten_in_order<C>(
    before: System<C>,
    first: Seq<TaskId>,
    rest: Seq<TaskId>,
)
    ensures
        before.forgotten_all(Seq::empty()) == before,
        before.forgotten_all(first + rest) == before.forgotten_all(first).forgotten_all(rest),
    decreases first.len(),
{
    if first.len() == 0 {
        assert(first + rest =~= rest);
    } else {
        assert((first + rest).drop_first() =~= first.drop_first() + rest);
        let next = System { shared: before.shared.without_task(first[0]), ..before }.wake_all(
            before.shared.waiting(first[0]),
        );
        law_tasks_are_forgotten_in_order(next, first.drop_first(), rest);
    }
}

/// The scheduler first cleans up and then chooses. Its result and its effect are those of the
/// choice on the core as the cleanup has left it.
pub proof fn law_scheduler_cleans_up_and_chooses<C>(
    before: System<C>,
    slice_ticks: u64,
    switch_ticks: u64,
)
    requires
        before.core.valid(),
        before.shared.valid(),
    ensures
        ({
            let cleaned = before.cleaned();
            let after = before.scheduled(slice_ticks, switch_ticks);
            &&& after.core == cleaned.core.scheduled(slice_ticks, switch_ticks)
            &&& after.shared == cleaned.shared
            &&& after.notified == cleaned.notified
            &&& before.switch(slice_ticks) == cleaned.core.switch(slice_ticks)
            &&& forall|id: TaskId| #[trigger]
                after.shared.tasks.contains_key(id) <==> before.shared.tasks.contains_key(id)
                    && !before.core.finished.contains(id)
            &&& forall|id: TaskId| #[trigger]
                after.shared.tasks.contains_key(id) ==> after.shared.tasks[id]
                    == before.shared.tasks[id]
            &&& cleaned.core.current == before.core.current
            &&& cleaned.core.last_task_switch_tick == before.core.last_task_switch_tick
            &&& cleaned.core.finished.len() == 0
        }),
{
    law_cleanup_forgets_exactly_finished_tasks(before);
}

/// Says that somebody waits for a finished task that is known.
pub open spec fn somebody_waits<C>(before: System<C>) -> bool {
    exists|k: int|
        0 <= k < before.core.finished.len() && before.shared.tasks.contains_key(
            #[trigger] before.core.finished[k],
        ) && before.shared.tasks[before.core.finished[k]].len() > 0
}

/// An idle task that continues cleans up. It goes on without waiting exactly if somebody has
/// waited for a finished task, and waits otherwise.
pub proof fn law_resumed_idle_task_looks_for_waiting_tasks<C>(before: System<C>)
    ensures
        idle_action(before, IdleEvent::Resumed) == (if somebody_waits(before) {
            IdleAction::Enable
        } else {
            IdleAction::EnableAndWait
        }),
        idle_step(before, IdleEvent::Resumed) == before.cleaned(),
        before.finished_awaited() <==> somebody_waits(before),
{
    if before.finished_awaited() {
        let k = choose|k: int|
            0 <= k < before.core.finished.len() && before.shared.waiting(
                #[trigger] before.core.finished[k],
            ).len() > 0;
        assert(before.shared.tasks.contains_key(before.core.finished[k]));
    }
    if somebody_waits(before) {
        let k = choose|k: int|
            0 <= k < before.core.finished.len() && before.shared.tasks.contains_key(
                #[trigger] before.core.finished[k],
            ) && before.shared.tasks[before.core.finished[k]].len() > 0;
        assert(before.shared.waiting(before.core.finished[k]).len() > 0);
    }
}

/// An idle task that enters runs the scheduler. Where that switches, so does the idle task;
/// otherwise it goes on as if it continued on the core as the scheduler has left it.
pub proof fn law_entering_idle_task_runs_the_scheduler<C>(
    before: System<C>,
    slice_ticks: u64,
    switch_ticks: u64,
)
    ensures
        ({
            let event = IdleEvent::Enter { slice_ticks, switch_ticks };
            let after = before.scheduled(slice_ticks, switch_ticks);
            match before.switch(slice_ticks) {
                Some(switch) => {
                    &&& idle_action(before, event) == IdleAction::Switch(switch)
                    &&& idle_step(before, event) == after
                },
                None => {
                    &&& idle_action(before, event) == idle_action(after, IdleEvent::Resumed)
                    &&& idle_step(before, event) == idle_step(after, IdleEvent::Resumed)
                },
            }
        }),
{
}

/// An exit is a finish of the current task followed by a run of the scheduler. The task that
/// exits is not counted any more.
pub proof fn law_exit_finishes_and_reschedules<C>(before: System<C>, switch_ticks: u64)
    requires
        before.core.valid(),
        before.shared.valid(),
    ensures
        before.exited(switch_ticks) == before.current_finished().scheduled(
            switch_ticks,
            switch_ticks,
        ),
        before.exit_switch(switch_ticks) == before.current_finished().switch(switch_ticks),
        (before.exited(switch_ticks).shared.no_tasks + 1) % 0x1_0000_0000
            == before.shared.no_tasks,
{
    let finished = before.current_finished();
    law_cleanup_forgets_exactly_finished_tasks(finished);
}

/// A join of a known task, be it the current one itself, registers the current task and runs
/// the scheduler. A join of an unknown task changes nothing and switches to nobody.
pub proof fn law_join_waits_only_for_known_tasks<C>(
    before: System<C>,
    id: TaskId,
    switch_ticks: u64,
)
    ensures
        before.shared.tasks.contains_key(id) ==> {
            &&& before.joined(id, switch_ticks) == before.waiting_for(id).scheduled(
                switch_ticks,
                switch_ticks,
            )
            &&& before.join_switch(id, switch_ticks) == before.waiting_for(id).switch(switch_ticks)
        },
        !before.shared.tasks.contains_key(id) ==> {
            &&& before.joined(id, switch_ticks) == before
            &&& before.join_switch(id, switch_ticks) is None
        },
{
}

/// An identifier is left exactly if some identifier belongs to no known task.
pub proof fn law_identifiers_are_left_until_all_are_used<C>(shared: SharedView<C>)
    ensures
        shared.has_free_tid() <==> exists|x: u32| !#[trigger] shared.tasks.contains_key(TaskId(x)),
{
    if shared.has_free_tid() {
        let id = choose|id: TaskId| !shared.tasks.contains_key(id);
        assert(!shared.tasks.contains_key(TaskId(id.0)));
    }
}

/// The input of a core is the one to which the entry for its scheduler points. An operation
/// starts without notified cores, and notifies at most the one core that it says.
pub proof fn law_lookups_and_notifications<C>(
    core: CoreView<C>,
    shared: SharedView<C>,
    core_id: CoreId,
)
    ensures
        shared.input_of(core_id) == shared.inputs[shared.schedulers[core_id]],
        system(core, shared).core == core,
        system(core, shared).shared == shared,
        system(core, shared).notified.len() == 0,
        notified_of(Some(core_id)) == seq![core_id],
        notified_of(None).len() == 0,
{
}

/// Before anything was started, no core has a scheduler, no task is known or counted, no
/// identifier was given out, and cloned tasks begin with the core after the boot core.
pub proof fn law_nothing_is_there_at_first<C>(core_id: CoreId, id: TaskId)
    ensures
        !new_shared::<C>().schedulers.contains_key(core_id),
        !new_shared::<C>().tasks.contains_key(id),
        new_shared::<C>().inputs.len() == 0,
        new_shared::<C>().owners.len() == 0,
        new_shared::<C>().no_tasks == 0,
        new_shared::<C>().next_tid().0 == 0,
        new_shared::<C>().next_core_id == 1,
{
    let shared = new_shared::<C>();
    assert(!shared.tasks.contains_key(TaskId(0)));
    law_next_identifier_is_the_first_free_one(shared);
    assert(first_free_after(shared, 0)) by {
        assert(!shared.tasks.contains_key(TaskId(0)));
    }
}

} // verus!
