//! Laws that relate the operations of a scheduler.

use crate::consistency::{
    law_cleanup_keeps_consistent, law_finish_keeps_consistent, law_release_keeps_live_tasks,
    law_scheduling_keeps_consistent, lemma_live_unchanged,
};
use crate::model::{CoreView, Switch, System};
use crate::ready::{
    highest_priority, lemma_next_exists, next_entry, next_index, without_next, ReadyEntry,
};
use crate::shared::{after_pick, lemma_free_tid_offset, picked_core, SharedView};
use crate::store::{free_ref, lemma_next_ref, lemma_one_more_ref};
use crate::task::{CoreId, Task, TaskId, TaskRef, TaskStatus};
use vstd::prelude::*;

verus! {

/// Among ready tasks, none leaves the queue before a more urgent one, and none before
/// an equally urgent one that came earlier.
pub proof fn law_most_urgent_first_then_first_come(queue: Seq<ReadyEntry>, i: int, j: int)
    requires
        0 <= i < queue.len(),
        0 <= j < queue.len(),
        queue[i].prio.0 > queue[j].prio.0 || (queue[i].prio == queue[j].prio && i < j),
    ensures
        next_index(queue) != j,
{
    lemma_next_exists(queue);
}

/// After the scheduler ran, no ready task is more urgent than the one that has the
/// core: another reschedule is not required.
pub proof fn law_nothing_more_urgent_is_left<C>(
    before: System<C>,
    slice_ticks: u64,
    switch_ticks: u64,
)
    requires
        before.consistent(),
    ensures
        !before.scheduled(slice_ticks, switch_ticks).core.must_reschedule(),
{
    law_cleanup_keeps_consistent(before);
    let core = before.cleaned().core;
    let after = core.scheduled(slice_ticks, switch_ticks);
    law_scheduling_keeps_consistent(core, slice_ticks, switch_ticks);
    if after.ready.len() > 0 {
        lemma_next_exists(after.ready);
        let m = next_index(after.ready);
        lemma_next_exists(core.ready);
        let n = next_index(core.ready);
        assert(core.queued(core.ready[n].task));
        assert(core.live(core.ready[n].task) && core.live(core.current));
        let rest = without_next(core.ready);
        if m < rest.len() && core.choice(slice_ticks) is NextReady {
            let k = if m < n { m } else { m + 1 };
            assert(after.ready[m] == rest[m] && rest[m] == core.ready[k]);
        }
    }
}

/// After the scheduler ran, the task that has the core is running, or it is the idle
/// task and no task is ready.
pub proof fn law_core_is_idle_only_without_ready_tasks<C>(
    before: System<C>,
    slice_ticks: u64,
    switch_ticks: u64,
)
    requires
        before.consistent(),
    ensures
        ({
            let after = before.scheduled(slice_ticks, switch_ticks).core;
            ||| after.current_task().status == TaskStatus::TaskRunning
            ||| after.current == after.idle && after.current_task().status == TaskStatus::TaskIdle
                && after.ready.len() == 0
        }),
{
    law_cleanup_keeps_consistent(before);
    let core = before.cleaned().core;
    law_scheduling_keeps_consistent(core, slice_ticks, switch_ticks);
    assert(core.live(core.current) && core.live(core.idle));
    if core.ready.len() > 0 {
        lemma_next_exists(core.ready);
        let r = next_entry(core.ready).task;
        assert(core.queued(r));
        assert(core.live(r));
    }
}

/// A running task keeps the core as long as its time slice lasts and no ready task is
/// more urgent.
pub proof fn law_time_slice_is_kept<C>(core: CoreView<C>, slice_ticks: u64, switch_ticks: u64)
    requires
        core.valid(),
        core.current_task().status == TaskStatus::TaskRunning,
        !core.slice_elapsed(slice_ticks),
        !core.must_reschedule(),
    ensures
        core.scheduled(slice_ticks, switch_ticks) == core,
        core.switch(slice_ticks) is None,
{
}

/// A more urgent ready task gets the core of a running task at once, however long that
/// one has run. The running task becomes ready and goes to the end of the queue.
pub proof fn law_more_urgent_task_preempts<C>(core: CoreView<C>, slice_ticks: u64, switch_ticks: u64)
    requires
        core.consistent(),
        core.current_task().status == TaskStatus::TaskRunning,
        core.must_reschedule(),
    ensures
        ({
            let after = core.scheduled(slice_ticks, switch_ticks);
            let next = next_entry(core.ready);
            &&& next.prio.0 > core.current_task().prio.0
            &&& core.switch(slice_ticks) == Some(
                Switch {
                    from: core.current,
                    to: next.task,
                    new_stack_pointer: core.tasks[next.task].last_stack_pointer,
                },
            )
            &&& after.current == next.task
            &&& after.last_task_switch_tick == switch_ticks
            &&& after.tasks[core.current].status == TaskStatus::TaskReady
            &&& after.ready.last().task == core.current
        }),
{
    lemma_next_exists(core.ready);
    let r = next_entry(core.ready).task;
    assert(core.queued(r));
    assert(core.live(r) && core.live(core.current));
}

/// When its time slice is over, a running task makes way for the equally urgent ready
/// task that waits longest, and goes to the end of the queue. All that wait behind that
/// task move up by one.
pub proof fn law_round_robin_among_equals<C>(core: CoreView<C>, slice_ticks: u64, switch_ticks: u64)
    requires
        core.consistent(),
        core.current_task().status == TaskStatus::TaskRunning,
        core.slice_elapsed(slice_ticks),
        core.ready.len() > 0,
        highest_priority(core.ready) == core.current_task().prio,
    ensures
        ({
            let after = core.scheduled(slice_ticks, switch_ticks);
            let n = next_index(core.ready);
            &&& core.ready[n].prio == core.current_task().prio
            &&& forall|i: int|
                0 <= i < n ==> (#[trigger] core.ready[i]).prio.0 < core.current_task().prio.0
            &&& core.switch(slice_ticks) == Some(
                Switch {
                    from: core.current,
                    to: core.ready[n].task,
                    new_stack_pointer: core.tasks[core.ready[n].task].last_stack_pointer,
                },
            )
            &&& after.current == core.ready[n].task
            &&& after.tasks[core.current].status == TaskStatus::TaskReady
            &&& after.ready.last().task == core.current
            &&& forall|i: int|
                n < i < core.ready.len() ==> #[trigger] after.ready[i - 1] == core.ready[i]
        }),
{
    lemma_next_exists(core.ready);
    let r = next_entry(core.ready).task;
    assert(core.queued(r));
    assert(core.live(r) && core.live(core.current));
}

/// A running task never loses its core to a less urgent one.
pub proof fn law_running_task_yields_to_no_less_urgent_one<C>(core: CoreView<C>, slice_ticks: u64)
    requires
        core.valid(),
        core.current_task().status == TaskStatus::TaskRunning,
        core.switch(slice_ticks) is Some,
    ensures
        core.tasks[core.switch(slice_ticks)->0.to].prio.0 >= core.current_task().prio.0,
{
    lemma_next_exists(core.ready);
}

/// For a task that is not running, it does not matter when the scheduler makes its
/// choice.
pub proof fn law_only_running_tasks_have_time_slices<C>(
    core: CoreView<C>,
    slice_ticks: u64,
    other_ticks: u64,
    switch_ticks: u64,
)
    requires
        core.current_task().status != TaskStatus::TaskRunning,
    ensures
        core.switch(slice_ticks) == core.switch(other_ticks),
        core.scheduled(slice_ticks, switch_ticks) == core.scheduled(other_ticks, switch_ticks),
{
}

/// A running task that exits always loses its core, and is left for cleanup.
pub proof fn law_exit_leaves_the_core<C>(before: System<C>, switch_ticks: u64)
    requires
        before.consistent(),
        before.core.current_task().status == TaskStatus::TaskRunning,
    ensures
        ({
            let finished = before.current_finished();
            let after = finished.scheduled(switch_ticks, switch_ticks);
            &&& finished.switch(switch_ticks) matches Some(switch)
            &&& switch.from == before.core.current
            &&& switch.to != before.core.current
            &&& after.core.current == switch.to
            &&& after.core.tasks[before.core.current].status == TaskStatus::TaskInvalid
            &&& after.core.finished == seq![before.core.current_task().id]
        }),
{
    let c = before.core.current;
    law_finish_keeps_consistent(before);
    let finished = before.current_finished();
    assert(finished.core.live(c));
    law_cleanup_keeps_consistent(finished);
    let core = finished.cleaned().core;
    assert(core.live(c));
    lemma_cleanup_keeps_unblocked(finished, c);
    assert(core.tasks[c].status == TaskStatus::TaskFinished);
    assert(!core.queued(c));
    assert(core.live(core.idle));
    if core.ready.len() > 0 {
        lemma_next_exists(core.ready);
        let r = next_entry(core.ready).task;
        assert(core.queued(r));
        assert(core.live(r));
    }
    let after = core.scheduled(switch_ticks, switch_ticks);
    assert(core.finished =~= Seq::empty());
    assert(after.finished =~= seq![before.core.current_task().id]);
}

/// The cleanup does not touch a task that is alive and not blocked.
pub proof fn lemma_cleanup_keeps_unblocked<C>(before: System<C>, r: TaskRef)
    requires
        before.consistent(),
        before.core.live(r),
        before.core.tasks[r].status != TaskStatus::TaskBlocked,
    ensures
        before.cleaned().core.tasks[r] == before.core.tasks[r],
{
    let finished = before.core.finished;
    if finished.len() > 0 {
        let start = crate::consistency::cleanup_start(before);
        crate::consistency::lemma_cleanup_start(before);
        let after = start.forgotten_all(finished);
        assert(start.core.tasks.contains_key(r));
        lemma_live_unchanged(start.core, after.core);
        assert(start.core.live(r));
        law_release_keeps_live_tasks(after.core);
        assert(after.core.live(r));
    }
}

/// No task is lost: whoever is neither finished nor invalid when the scheduler runs is
/// still there afterwards, under the same reference, with the same identifier and
/// priority, and is running, ready, blocked or idle.
pub proof fn law_no_task_is_lost<C>(
    before: System<C>,
    slice_ticks: u64,
    switch_ticks: u64,
    r: TaskRef,
)
    requires
        before.consistent(),
        before.core.live(r),
        before.core.tasks[r].status != TaskStatus::TaskFinished,
    ensures
        ({
            let after = before.scheduled(slice_ticks, switch_ticks).core;
            &&& after.live(r)
            &&& after.tasks[r].status != TaskStatus::TaskFinished
            &&& after.tasks[r].id == before.core.tasks[r].id
            &&& after.tasks[r].prio == before.core.tasks[r].prio
            &&& after.refers_to(r)
        }),
{
    law_cleanup_keeps_consistent(before);
    let core = before.cleaned().core;
    if before.core.tasks[r].status == TaskStatus::TaskBlocked {
        lemma_cleanup_wakes_or_keeps_blocked(before, r);
    } else {
        lemma_cleanup_keeps_unblocked(before, r);
    }
    assert(core.live(r));
    law_scheduling_keeps_consistent(core, slice_ticks, switch_ticks);
    let after = core.scheduled(slice_ticks, switch_ticks);
    assert(core.live(core.current) && core.live(core.idle));
    if core.ready.len() > 0 {
        lemma_next_exists(core.ready);
        let n = next_entry(core.ready).task;
        assert(core.queued(n));
        assert(core.live(n));
    }
    assert(after.live(r));
    assert(after.tasks.contains_key(r));
    assert(after.queued(r) ==> after.refers_to(r));
    assert(after.waiting(r) ==> after.refers_to(r));
}

/// The cleanup leaves a blocked task blocked or makes it ready.
pub proof fn lemma_cleanup_wakes_or_keeps_blocked<C>(before: System<C>, r: TaskRef)
    requires
        before.consistent(),
        before.core.live(r),
        before.core.tasks[r].status == TaskStatus::TaskBlocked,
    ensures
        ({
            let task = before.cleaned().core.tasks[r];
            ||| task.status == TaskStatus::TaskBlocked
            ||| task.status == TaskStatus::TaskReady
        }),
{
    let finished = before.core.finished;
    if finished.len() > 0 {
        let start = crate::consistency::cleanup_start(before);
        crate::consistency::lemma_cleanup_start(before);
        let after = start.forgotten_all(finished);
        assert(start.core.tasks.contains_key(r));
        lemma_live_unchanged(start.core, after.core);
        assert(start.core.live(r));
        law_release_keeps_live_tasks(after.core);
        assert(after.core.live(r));
    }
}

/// The identifier of a new task is not that of any task that is known, so two tasks that
/// are known never get the same one.
pub proof fn law_new_identifier_is_unused<C>(shared: SharedView<C>, id: TaskId)
    requires
        shared.has_free_tid(),
        shared.tasks.contains_key(id),
    ensures
        shared.next_tid() != id,
        ({
            let after = shared.after_get_tid().with_task(shared.next_tid());
            after.has_free_tid() ==> after.next_tid() != shared.next_tid() && after.next_tid() != id
        }),
{
    lemma_free_tid_offset(shared);
    let after = shared.after_get_tid().with_task(shared.next_tid());
    if after.has_free_tid() {
        lemma_free_tid_offset(after);
    }
}

/// The end of a task takes back that it was counted.
pub proof fn law_end_of_task_undoes_its_count<C>(shared: SharedView<C>)
    ensures
        shared.with_one_more().with_one_less() == shared,
        shared.with_one_less().with_one_more() == shared,
{
}

/// The counter after `k` cores were picked for cloned tasks.
pub open spec fn after_picks(next_core_id: u32, processor_count: u32, k: nat) -> u32
    decreases k,
{
    if k == 0 {
        next_core_id
    } else {
        after_pick(after_picks(next_core_id, processor_count, (k - 1) as nat), processor_count)
    }
}

/// Cloned tasks go to existing cores only.
pub proof fn law_clones_go_to_existing_cores(next_core_id: u32, processor_count: u32, k: nat)
    requires
        0 < processor_count,
        next_core_id <= processor_count,
    ensures
        after_picks(next_core_id, processor_count, k) <= processor_count,
        picked_core(after_picks(next_core_id, processor_count, k), processor_count)
            < processor_count,
    decreases k,
{
    if k > 0 {
        law_clones_go_to_existing_cores(next_core_id, processor_count, (k - 1) as nat);
    }
}

/// Cloned tasks are spread over all cores: wherever the counter stands, each core gets
/// one of the tasks up to the one `processor_count` further on.
pub proof fn law_clones_reach_every_core(
    next_core_id: u32,
    processor_count: u32,
    core_id: CoreId,
) -> (k: nat)
    requires
        next_core_id <= processor_count,
        core_id < processor_count,
    ensures
        k <= processor_count,
        picked_core(after_picks(next_core_id, processor_count, k), processor_count) == core_id,
{
    if next_core_id <= core_id {
        lemma_picks_count_up(next_core_id, processor_count, (core_id - next_core_id) as nat);
        (core_id - next_core_id) as nat
    } else {
        let wrap = (processor_count - next_core_id) as nat;
        lemma_picks_count_up(next_core_id, processor_count, wrap);
        if core_id == 0 {
            wrap
        } else {
            assert(after_picks(next_core_id, processor_count, wrap + 1) == 0);
            lemma_picks_compose(next_core_id, processor_count, wrap + 1, core_id as nat);
            lemma_picks_count_up(0, processor_count, core_id as nat);
            wrap + 1 + core_id as nat
        }
    }
}

proof fn lemma_picks_count_up(from: u32, processor_count: u32, k: nat)
    requires
        from + k <= processor_count,
    ensures
        after_picks(from, processor_count, k) == from + k,
    decreases k,
{
    if k > 0 {
        lemma_picks_count_up(from, processor_count, (k - 1) as nat);
    }
}

proof fn lemma_picks_compose(from: u32, processor_count: u32, a: nat, b: nat)
    ensures
        after_picks(from, processor_count, a + b) == after_picks(
            after_picks(from, processor_count, a),
            processor_count,
            b,
        ),
    decreases b,
{
    if b > 0 {
        lemma_picks_compose(from, processor_count, a, (b - 1) as nat);
    }
}

/// What is written to the current task is read from it afterwards, and nothing else of
/// the core changes.
pub proof fn law_current_task_keeps_what_is_written<C>(core: CoreView<C>, task: Task<C>)
    requires
        core.valid(),
    ensures
        core.with_current(task).current_task() == task,
        forall|r: TaskRef|
            r != core.current && core.tasks.contains_key(r) ==> #[trigger] core.with_current(
                task,
            ).tasks[r] == core.tasks[r],
        core.with_current(task).with_current(core.current_task()) == core,
{
    assert(core.with_current(task).with_current(core.current_task()).tasks =~= core.tasks);
}

/// A task that has claimed the FPU keeps it: as long as it is the current task and
/// nobody else claims the FPU, no further change is needed.
pub proof fn law_fpu_is_switched_once<C>(core: CoreView<C>)
    ensures
        core.fpu_claimed().fpu_owner == core.current,
        core.fpu_claimed().fpu_switch() is None,
        core.fpu_claimed().fpu_claimed() == core.fpu_claimed(),
{
}

/// The scheduler leaves the FPU with its owner: the registers are saved and restored
/// only when a task wants to use the FPU.
pub proof fn law_scheduler_leaves_the_fpu<C>(core: CoreView<C>, slice_ticks: u64, switch_ticks: u64)
    ensures
        core.scheduled(slice_ticks, switch_ticks).fpu_owner == core.fpu_owner,
{
}

/// The tasks that a core takes in are queued behind those that are ready, in the order in
/// which they were sent, and nothing changes for the tasks that the core had before.
pub proof fn law_new_tasks_are_queued_in_order<C>(core: CoreView<C>, tasks: Seq<Task<C>>)
    requires
        core.has_room(tasks.len() as int),
    ensures
        core.adopted_all(tasks).has_got(core, tasks),
    decreases tasks.len(),
{
    if tasks.len() > 0 {
        let r = free_ref(core.tasks);
        lemma_next_ref(core.tasks);
        lemma_one_more_ref(core.tasks, r, tasks[0]);
        let next = core.adopted(tasks[0]);
        let rest = tasks.drop_first();
        let after = core.adopted_all(tasks);
        law_new_tasks_are_queued_in_order(next, rest);
        assert forall|i: int| 0 <= i < core.ready.len() implies after.ready[i] == core.ready[i] by {
            assert(next.ready[i] == core.ready[i]);
        }
        assert forall|i: int| 0 <= i < tasks.len() implies {
            let entry = after.ready[core.ready.len() + i];
            &&& entry.prio == (#[trigger] tasks[i]).prio
            &&& !core.tasks.contains_key(entry.task)
            &&& after.tasks.contains_key(entry.task)
            &&& after.tasks[entry.task] == tasks[i]
        } by {
            if i == 0 {
                assert(next.ready[core.ready.len() as int].task == r);
                assert(after.ready[core.ready.len() as int] == next.ready[core.ready.len() as int]);
                assert(next.tasks.contains_key(r));
            } else {
                assert(rest[i - 1] == tasks[i]);
                let entry = after.ready[next.ready.len() + (i - 1)];
                assert(!next.tasks.contains_key(entry.task));
            }
        }
        assert forall|i: int, j: int| core.ready.len() <= i < j < after.ready.len() implies (
        #[trigger] after.ready[i]).task != (#[trigger] after.ready[j]).task by {
            if i == core.ready.len() {
                assert(after.ready[i] == next.ready[i]);
                assert(rest[j - next.ready.len()] == tasks[j - core.ready.len()]);
                assert(!next.tasks.contains_key(
                    after.ready[next.ready.len() + (j - next.ready.len())].task,
                ));
            }
        }
        assert forall|q: TaskRef| #[trigger] core.tasks.contains_key(
            q,
        ) implies after.tasks.contains_key(q) && after.tasks[q] == core.tasks[q] by {
            assert(next.tasks.contains_key(q));
        }
    }
}

} // verus!
