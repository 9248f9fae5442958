//! How schedulers come to life, and how tasks wait for each other.

use crate::blocked::{is_place, place};
use crate::model::{added_core, after_init, idle_core, system, System};
use crate::percore::{PerCoreScheduler, Reschedule};
use crate::shared::{lemma_free_tid_offset, SharedState, SharedView};
use crate::task::{new_task, CoreId, Priority, Task, TaskId, TaskSeed, TaskStatus, IDLE_PRIO};
use vstd::prelude::*;

verus! {

/// Starts without schedulers and without tasks. A core that had a scheduler keeps it
/// together with the requests that were sent to it, but no other core finds it any more.
pub fn init<C>(shared: &mut SharedState<C>)
    ensures
        final(shared)@ == (SharedView {
            schedulers: Map::empty(),
            tasks: Map::empty(),
            ..old(shared)@
        }),
        final(shared)@ == after_init(old(shared)@),
        old(shared)@.valid() ==> final(shared)@.valid(),
{
    shared.clear();
}

/// Terminates the current task with exit code -1.
pub fn abort<C>(
    core_scheduler: &mut PerCoreScheduler<C>,
    shared: &mut SharedState<C>,
    switch_ticks: u64,
) -> (out: Reschedule)
    requires
        old(core_scheduler)@.valid(),
        old(shared)@.valid(),
        old(core_scheduler)@.current_task().status != TaskStatus::TaskIdle,
    ensures
        system(
            old(core_scheduler)@,
            old(shared)@,
        ).current_finished().cleaned().core.ready_is_ordered(),
        (System { core: final(core_scheduler)@, shared: final(shared)@, notified: out.notified@ })
            == system(old(core_scheduler)@, old(shared)@).current_finished().scheduled(
            switch_ticks,
            switch_ticks,
        ),
        out.switch == system(old(core_scheduler)@, old(shared)@).current_finished().switch(
            switch_ticks,
        ),
        (System { core: final(core_scheduler)@, shared: final(shared)@, notified: out.notified@ })
            == system(old(core_scheduler)@, old(shared)@).exited(switch_ticks),
        out.switch == system(old(core_scheduler)@, old(shared)@).exit_switch(switch_ticks),
        out.switch matches Some(switch) ==> final(core_scheduler)@.tasks.contains_key(switch.from)
            && final(core_scheduler)@.current == switch.to,
        out.switch matches Some(switch) ==> switch.from == old(core_scheduler)@.current
            && final(core_scheduler)@.last_task_switch_tick == switch_ticks
            && switch.new_stack_pointer
            == final(core_scheduler)@.tasks[switch.to].last_stack_pointer,
        out.switch is None ==> final(core_scheduler)@.current == old(core_scheduler)@.current
            && final(core_scheduler)@.last_task_switch_tick
            == old(core_scheduler)@.last_task_switch_tick,
        final(core_scheduler)@.valid(),
        final(shared)@.valid(),
        final(core_scheduler)@.same_core(old(core_scheduler)@),
        final(shared)@.same_schedulers(old(shared)@),
{
    core_scheduler.exit(shared, -1, switch_ticks)
}

/// Add a per-core scheduler for the current core.
pub fn add_current_core<C>(
    shared: &mut SharedState<C>,
    core_id: CoreId,
    seed: TaskSeed<C>,
) -> (scheduler: PerCoreScheduler<C>)
    requires
        old(shared)@.valid(),
        old(shared)@.has_free_tid(),
    ensures
        scheduler@ == idle_core(
            core_id,
            old(shared)@.inputs.len() as int,
            new_task(
                old(shared)@.next_tid(),
                core_id,
                TaskStatus::TaskIdle,
                Priority(IDLE_PRIO),
                seed,
            ),
        ),
        old(shared)@.is_free_tid_offset(old(shared)@.free_tid_offset()),
        !old(shared)@.tasks.contains_key(old(shared)@.next_tid()),
        final(shared)@ == old(shared)@.after_get_tid().with_task(
            old(shared)@.next_tid(),
        ).with_scheduler(core_id),
        system(scheduler@, final(shared)@) == added_core(old(shared)@, core_id, seed),
        final(shared)@.no_tasks == old(shared)@.no_tasks,
        scheduler@.valid(),
        scheduler@.attached_to(final(shared)@),
        final(shared)@.valid(),
{
    // Create an idle task for this core.
    proof {
        lemma_free_tid_offset(shared@);
    }
    let tid: TaskId = shared.get_tid();
    let idle_task = Task::new_idle(tid, core_id, seed);

    // Make it known under its identifier.
    shared.insert_task(tid);

    // Initialize a scheduler for this core.
    let input: usize = shared.insert_scheduler(core_id);
    PerCoreScheduler::with_idle_task(core_id, input, idle_task)
}

/// Lets the current task wait for the end of the task with the given identifier, and
/// reschedules. If there is no such task, nothing happens.
pub fn join<C>(
    core_scheduler: &mut PerCoreScheduler<C>,
    shared: &mut SharedState<C>,
    id: TaskId,
    switch_ticks: u64,
) -> (out: Result<Reschedule, ()>)
    requires
        old(core_scheduler)@.valid(),
        old(shared)@.valid(),
        old(shared)@.tasks.contains_key(id) ==> old(shared)@.schedulers.contains_key(
            old(core_scheduler)@.core_id,
        ),
    ensures
        out is Ok,
        (System {
            core: final(core_scheduler)@,
            shared: final(shared)@,
            notified: out->Ok_0.notified@,
        }) == system(old(core_scheduler)@, old(shared)@).joined(id, switch_ticks),
        out->Ok_0.switch == system(old(core_scheduler)@, old(shared)@).join_switch(
            id,
            switch_ticks,
        ),
        !old(shared)@.tasks.contains_key(id) ==> {
            &&& final(core_scheduler)@ == old(core_scheduler)@
            &&& final(shared)@ == old(shared)@
            &&& out->Ok_0.notified@ == Seq::<CoreId>::empty()
            &&& out->Ok_0.switch is None
        },
        old(shared)@.tasks.contains_key(id) ==> {
            let waiting = system(
                old(core_scheduler)@.current_blocked(None),
                old(shared)@.with_waiting(id, old(core_scheduler)@.current_task().handle()),
            );
            &&& (System {
                core: final(core_scheduler)@,
                shared: final(shared)@,
                notified: out->Ok_0.notified@,
            }) == waiting.scheduled(switch_ticks, switch_ticks)
            &&& out->Ok_0.switch == waiting.switch(switch_ticks)
            &&& waiting.cleaned().core.ready_is_ordered()
            &&& is_place(
                old(core_scheduler)@.blocked,
                None,
                place(old(core_scheduler)@.blocked, None),
            )
        },
        out->Ok_0.switch matches Some(switch) ==> final(core_scheduler)@.tasks.contains_key(
            switch.from,
        ) && final(core_scheduler)@.current == switch.to,
        out->Ok_0.switch matches Some(switch) ==> switch.from == old(core_scheduler)@.current
            && final(core_scheduler)@.last_task_switch_tick == switch_ticks
            && switch.new_stack_pointer
            == final(core_scheduler)@.tasks[switch.to].last_stack_pointer,
        out->Ok_0.switch is None ==> final(core_scheduler)@.current
            == old(core_scheduler)@.current && final(core_scheduler)@.last_task_switch_tick
            == old(core_scheduler)@.last_task_switch_tick,
        final(core_scheduler)@.valid(),
        final(shared)@.valid(),
        final(core_scheduler)@.same_core(old(core_scheduler)@),
        final(shared)@.same_schedulers(old(shared)@),
{
    if !shared.wait_for(id, core_scheduler.get_current_task_handle()) {
        return Ok(Reschedule { notified: Vec::new(), switch: None });
    }
    core_scheduler.block_current_task(None);

    // Switch to the next task.
    Ok(core_scheduler.scheduler(shared, switch_ticks, switch_ticks))
}

} // verus!
