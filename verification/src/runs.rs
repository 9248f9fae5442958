//! Laws on what the cores do one after the other.

use crate::consistency::{
    cleanup_start, law_cleanup_forgets_exactly_finished_tasks, law_cleanup_keeps_consistent,
    law_scheduling_keeps_consistent, law_timer_keeps_consistent, law_wakeup_keeps_consistent,
    lemma_core_wake_all, lemma_scheduled_ids,
};
use crate::laws::{
    law_exit_leaves_the_core, law_new_tasks_are_queued_in_order, lemma_cleanup_keeps_unblocked,
    lemma_cleanup_wakes_or_keeps_blocked,
};
use crate::machine::{
    law_every_step_keeps_machine_consistent, lemma_adopted_all_ids, lemma_step_keeps_core, Machine,
    Step,
};
use crate::model::{CoreView, System};
use crate::ready::{lemma_next_exists, next_entry};
use crate::shared::wrapping_pred;
use crate::store::lemma_next_ref;
use crate::task::{CoreId, Task, TaskHandle, TaskId, TaskStatus};
use vstd::prelude::*;

verus! {

/// How many tasks a run creates.
pub open spec fn spawns<C>(run: Seq<(CoreId, Step<C>)>) -> int
    decreases run.len(),
{
    if run.len() == 0 {
        0
    } else {
        spawns(run.drop_first()) + (if run[0].1 is Spawn {
            1int
        } else {
            0
        })
    }
}

/// How many tasks finish in a run.
pub open spec fn finishes<C>(run: Seq<(CoreId, Step<C>)>) -> int
    decreases run.len(),
{
    if run.len() == 0 {
        0
    } else {
        finishes(run.drop_first()) + (if run[0].1 is Finish {
            1int
        } else {
            0
        })
    }
}

proof fn lemma_wake_all_keeps_count<C>(before: System<C>, handles: Seq<TaskHandle>)
    ensures
        before.wake_all(handles).shared.no_tasks == before.shared.no_tasks,
    decreases handles.len(),
{
    if handles.len() > 0 {
        lemma_wake_all_keeps_count(before.wake(handles[0]), handles.drop_first());
    }
}

proof fn lemma_forgotten_all_keeps_count<C>(before: System<C>, ids: Seq<TaskId>)
    ensures
        before.forgotten_all(ids).shared.no_tasks == before.shared.no_tasks,
    decreases ids.len(),
{
    if ids.len() > 0 {
        let forgotten = System { shared: before.shared.without_task(ids[0]), ..before };
        let waiting = before.shared.waiting(ids[0]);
        lemma_wake_all_keeps_count(forgotten, waiting);
        lemma_forgotten_all_keeps_count(forgotten.wake_all(waiting), ids.drop_first());
    }
}

/// After any run, the number of tasks is that from before, plus the tasks that were
/// created, minus those that finished, in the arithmetic of a 32-bit counter.
pub proof fn law_tasks_are_counted<C>(machine: Machine<C>, run: Seq<(CoreId, Step<C>)>)
    ensures
        machine.after_all(run).shared.no_tasks == (machine.shared.no_tasks + spawns(run)
            - finishes(run)) % 0x1_0000_0000,
    decreases run.len(),
{
    if run.len() > 0 {
        let before = machine.at(run[0].0);
        let next = machine.after(run[0].0, run[0].1);
        lemma_forgotten_all_keeps_count(cleanup_start(before), before.core.finished);
        law_tasks_are_counted(next, run.drop_first());
    }
}

/// From boot on, the number of tasks is the number of tasks that were created minus that of
/// those that have finished, in the arithmetic of a 32-bit counter. Idle tasks, with which
/// cores are added, do not count.
pub proof fn law_tasks_are_counted_from_boot<C>(run: Seq<(CoreId, Step<C>)>)
    ensures
        Machine::<C>::boot().after_all(run).shared.no_tasks == (spawns(run) - finishes(run))
            % 0x1_0000_0000,
{
    law_tasks_are_counted(Machine::<C>::boot(), run);
}

impl<C> CoreView<C> {
    /// Says that the task with the given identifier has finished on the core and has not
    /// been cleaned up yet.
    pub open spec fn ended(self, id: TaskId) -> bool {
        ||| self.finished.contains(id)
        ||| self.current_task().status == TaskStatus::TaskFinished && self.current_task().id == id
    }
}

impl<C> Machine<C> {
    /// Says that at most the task with the given identifier has finished and has not been
    /// cleaned up yet.
    pub open spec fn only_ended(self, id: TaskId) -> bool {
        forall|c: CoreId, other: TaskId|
            self.cores.contains_key(c) && #[trigger] self.cores[c].ended(other) ==> other == id
    }

    /// Says that every task that has finished has been cleaned up.
    pub open spec fn settled(self) -> bool {
        forall|c: CoreId, id: TaskId|
            self.cores.contains_key(c) ==> !#[trigger] self.cores[c].ended(id)
    }
}

/// Says that no task comes to life or ends with a step.
pub open spec fn quiet_step<C>(step: Step<C>) -> bool {
    !(step is Spawn) && !(step is Finish) && !(step is Start)
}

/// Says that no task comes to life and none ends in a run.
pub open spec fn quiet<C>(run: Seq<(CoreId, Step<C>)>) -> bool {
    forall|i: int| 0 <= i < run.len() ==> quiet_step((#[trigger] run[i]).1)
}

/// Says that somebody starts to wait for the task with the given identifier in a run.
pub open spec fn joins<C>(run: Seq<(CoreId, Step<C>)>, id: TaskId) -> bool {
    exists|i: int| 0 <= i < run.len() && (#[trigger] run[i]).1 == Step::<C>::Join(id)
}

proof fn lemma_quiet_counts<C>(run: Seq<(CoreId, Step<C>)>)
    requires
        quiet(run),
    ensures
        spawns(run) == 0,
        finishes(run) == 0,
    decreases run.len(),
{
    if run.len() > 0 {
        let rest = run.drop_first();
        assert(quiet(rest)) by {
            assert(forall|i: int| 0 <= i < rest.len() ==> #[trigger] rest[i] == run[i + 1]);
        }
        assert(quiet_step(run[0].1));
        lemma_quiet_counts(rest);
    }
}

/// What a step does to the known tasks and to those who wait for them.
pub proof fn lemma_known_after_step<C>(before: System<C>, step: Step<C>, id: TaskId)
    requires
        before.consistent(),
        before.can_do(step),
    ensures
        before.after(step).shared.tasks.contains_key(id) <==> {
            &&& before.shared.tasks.contains_key(id) || (step matches Step::Spawn(task) && task.id
                == id)
            &&& !(step is Cleanup && before.core.finished.contains(id))
        },
        before.shared.tasks.contains_key(id) && before.after(step).shared.tasks.contains_key(id)
            && step != Step::<C>::Join(id) ==> before.after(step).shared.tasks[id]
            == before.shared.tasks[id],
{
    law_cleanup_forgets_exactly_finished_tasks(before);
}

/// Only a task that finishes has ended after a step and not before.
proof fn lemma_ended_after_step<C>(before: System<C>, step: Step<C>, id: TaskId)
    requires
        before.consistent(),
        before.can_do(step),
        before.after(step).core.ended(id),
    ensures
        before.core.ended(id) || (step is Finish && before.core.current_task().id == id),
{
    let core = before.core;
    let after = before.after(step).core;
    assert(core.live(core.current));
    match step {
        Step::Cleanup => {
            law_cleanup_keeps_consistent(before);
            if core.tasks[core.current].status == TaskStatus::TaskBlocked {
                lemma_cleanup_wakes_or_keeps_blocked(before, core.current);
            } else {
                lemma_cleanup_keeps_unblocked(before, core.current);
            }
        },
        Step::Schedule { slice_ticks, switch_ticks } => {
            lemma_scheduled_ids(core, slice_ticks, switch_ticks);
            law_scheduling_keeps_consistent(core, slice_ticks, switch_ticks);
            if core.ready.len() > 0 {
                lemma_next_exists(core.ready);
                let r = next_entry(core.ready).task;
                assert(core.queued(r));
                assert(core.live(r));
            }
            assert(core.live(core.idle));
            assert(after.current_task().status != TaskStatus::TaskFinished);
            if after.finished.contains(id) && !core.finished.contains(id) {
                let k = choose|k: int| 0 <= k < after.finished.len() && after.finished[k] == id;
                if k < core.finished.len() {
                    assert(core.finished[k] == id);
                }
            }
        },
        Step::Input => {
            let input = before.shared.inputs[core.input];
            lemma_core_wake_all(core, input.wakeup_tasks);
            let woken = core.wake_all(input.wakeup_tasks);
            assert(woken.tasks.contains_key(woken.current));
            law_new_tasks_are_queued_in_order(woken, input.new_tasks);
            lemma_adopted_all_ids(woken, input.new_tasks);
        },
        Step::Timer(now) => {
            law_timer_keeps_consistent(core, now);
        },
        Step::Wake(handle) => {
            law_wakeup_keeps_consistent(core, handle.id);
        },
        Step::Spawn(task) => {
            if task.core_id == core.core_id {
                lemma_next_ref(core.tasks);
            }
        },
        _ => {},
    }
}

/// What a step without a new and without a finishing task does to the known tasks, where
/// at most one task has ended.
proof fn lemma_quiet_step<C>(machine: Machine<C>, core_id: CoreId, step: Step<C>, ending: TaskId)
    requires
        machine.consistent(),
        machine.only_ended(ending),
        machine.cores.contains_key(core_id),
        machine.at(core_id).can_do(step),
        quiet_step(step),
    ensures
        ({
            let next = machine.after(core_id, step);
            &&& next.consistent()
            &&& next.only_ended(ending)
            &&& next.cores.dom() == machine.cores.dom()
            &&& next.shared.tasks.contains_key(ending) ==> machine.shared.tasks.contains_key(ending)
            &&& forall|id: TaskId|
                id != ending ==> (#[trigger] next.shared.tasks.contains_key(id)
                    <==> machine.shared.tasks.contains_key(id))
            &&& forall|id: TaskId|
                id != ending && #[trigger] machine.shared.tasks.contains_key(id) && step != Step::<
                    C,
                >::Join(id) ==> next.shared.tasks[id] == machine.shared.tasks[id]
        }),
{
    let before = machine.at(core_id);
    let after = before.after(step);
    let next = machine.after(core_id, step);
    law_every_step_keeps_machine_consistent(machine, core_id, step);
    lemma_step_keeps_core(before, step);
    assert(next.cores.dom() =~= machine.cores.dom());
    assert forall|c: CoreId, id: TaskId|
        next.cores.contains_key(c) && #[trigger] next.cores[c].ended(id) implies id == ending by {
        if c == core_id {
            lemma_ended_after_step(before, step, id);
            assert(machine.cores[core_id].ended(id));
        } else {
            assert(machine.cores[c].ended(id));
        }
    }
    assert forall|id: TaskId| #[trigger]
        next.shared.tasks.contains_key(id) implies machine.shared.tasks.contains_key(id) by {
        lemma_known_after_step(before, step, id);
    }
    assert forall|id: TaskId|
        id != ending && #[trigger] machine.shared.tasks.contains_key(
            id,
        ) implies next.shared.tasks.contains_key(id) && (step != Step::<C>::Join(id)
        ==> next.shared.tasks[id] == machine.shared.tasks[id]) by {
        lemma_known_after_step(before, step, id);
        if before.core.finished.contains(id) {
            assert(machine.cores[core_id].ended(id));
        }
    }
}

/// What a quiet run does to the known tasks, where at most one task has ended.
proof fn lemma_quiet_run<C>(machine: Machine<C>, run: Seq<(CoreId, Step<C>)>, ending: TaskId)
    requires
        machine.consistent(),
        machine.only_ended(ending),
        machine.can_do_all(run),
        quiet(run),
    ensures
        ({
            let end = machine.after_all(run);
            &&& end.consistent()
            &&& end.only_ended(ending)
            &&& end.cores.dom() == machine.cores.dom()
            &&& end.shared.no_tasks == machine.shared.no_tasks
            &&& end.shared.tasks.contains_key(ending) ==> machine.shared.tasks.contains_key(ending)
            &&& forall|id: TaskId|
                id != ending ==> (#[trigger] end.shared.tasks.contains_key(id)
                    <==> machine.shared.tasks.contains_key(id))
            &&& forall|id: TaskId|
                id != ending && #[trigger] machine.shared.tasks.contains_key(id) && !joins(run, id)
                    ==> end.shared.tasks[id] == machine.shared.tasks[id]
        }),
    decreases run.len(),
{
    law_tasks_are_counted(machine, run);
    lemma_quiet_counts(run);
    if run.len() > 0 {
        let rest = run.drop_first();
        let next = machine.after(run[0].0, run[0].1);
        assert(quiet_step(run[0].1));
        lemma_quiet_step(machine, run[0].0, run[0].1, ending);
        assert(quiet(rest)) by {
            assert(forall|i: int| 0 <= i < rest.len() ==> #[trigger] rest[i] == run[i + 1]);
        }
        lemma_quiet_run(next, rest, ending);
        let end = machine.after_all(run);
        assert forall|id: TaskId|
            id != ending && #[trigger] machine.shared.tasks.contains_key(id) && !joins(
                run,
                id,
            ) implies end.shared.tasks[id] == machine.shared.tasks[id] by {
            assert(next.shared.tasks.contains_key(id));
            assert(run[0].1 != Step::<C>::Join(id));
            if joins(rest, id) {
                let i = choose|i: int|
                    0 <= i < rest.len() && (#[trigger] rest[i]).1 == Step::<C>::Join(id);
                assert(run[i + 1].1 == Step::<C>::Join(id));
            }
        }
    }
}

/// A task that waits for its cleanup keeps waiting, until it is forgotten for good.
proof fn lemma_waits_for_cleanup<C>(
    machine: Machine<C>,
    run: Seq<(CoreId, Step<C>)>,
    core_id: CoreId,
    id: TaskId,
)
    requires
        machine.consistent(),
        machine.can_do_all(run),
        quiet(run),
        machine.cores.contains_key(core_id),
        machine.cores[core_id].finished.contains(id) || !machine.shared.tasks.contains_key(id),
    ensures
        machine.after_all(run).cores[core_id].finished.contains(id) || !machine.after_all(
            run,
        ).shared.tasks.contains_key(id),
    decreases run.len(),
{
    if run.len() > 0 {
        let rest = run.drop_first();
        let c = run[0].0;
        let step = run[0].1;
        let before = machine.at(c);
        let next = machine.after(c, step);
        assert(quiet_step(step));
        law_every_step_keeps_machine_consistent(machine, c, step);
        lemma_step_keeps_core(before, step);
        lemma_known_after_step(before, step, id);
        if machine.cores[core_id].finished.contains(id) && c == core_id && !(step is Cleanup) {
            lemma_finished_after_step(before, step, id);
        }
        assert(quiet(rest)) by {
            assert(forall|i: int| 0 <= i < rest.len() ==> #[trigger] rest[i] == run[i + 1]);
        }
        lemma_waits_for_cleanup(next, rest, core_id, id);
    }
}

/// A task waits for its cleanup until the cleanup comes.
proof fn lemma_finished_after_step<C>(before: System<C>, step: Step<C>, id: TaskId)
    requires
        before.consistent(),
        before.can_do(step),
        before.core.finished.contains(id),
        !(step is Cleanup),
    ensures
        before.after(step).core.finished.contains(id),
{
    let core = before.core;
    let after = before.after(step).core;
    match step {
        Step::Schedule { slice_ticks, switch_ticks } => {
            lemma_scheduled_ids(core, slice_ticks, switch_ticks);
            let k = choose|k: int| 0 <= k < core.finished.len() && core.finished[k] == id;
            assert(after.finished[k] == id);
        },
        Step::Input => {
            let input = before.shared.inputs[core.input];
            lemma_core_wake_all(core, input.wakeup_tasks);
            lemma_adopted_all_ids(core.wake_all(input.wakeup_tasks), input.new_tasks);
        },
        _ => {},
    }
}

impl<C> Machine<C> {
    /// The machine after the current task of a core has exited: it finishes, and the
    /// scheduler of its core runs.
    pub open spec fn after_exit(self, core_id: CoreId, switch_ticks: u64) -> Machine<C> {
        self.after(core_id, Step::Finish).after(core_id, Step::Cleanup).after(
            core_id,
            Step::Schedule { slice_ticks: switch_ticks, switch_ticks },
        )
    }
}

/// The exit of the task that is the only one to end leaves the known tasks and those who
/// wait for them alone, and leaves the task for cleanup.
proof fn lemma_exit<C>(machine: Machine<C>, core_id: CoreId, switch_ticks: u64)
    requires
        machine.consistent(),
        machine.cores.contains_key(core_id),
        machine.at(core_id).can_do(Step::Finish),
        machine.only_ended(machine.cores[core_id].current_task().id),
    ensures
        ({
            let id = machine.cores[core_id].current_task().id;
            let end = machine.after_exit(core_id, switch_ticks);
            &&& end.consistent()
            &&& end.only_ended(id)
            &&& end.cores.dom() == machine.cores.dom()
            &&& end.cores[core_id].finished.contains(id)
            &&& end.shared.no_tasks == wrapping_pred(machine.shared.no_tasks)
            &&& forall|other: TaskId|
                other != id ==> (#[trigger] end.shared.tasks.contains_key(other)
                    <==> machine.shared.tasks.contains_key(other))
            &&& forall|other: TaskId|
                other != id && #[trigger] machine.shared.tasks.contains_key(other)
                    ==> end.shared.tasks[other] == machine.shared.tasks[other]
        }),
{
    let id = machine.cores[core_id].current_task().id;
    let before = machine.at(core_id);
    let finished = machine.after(core_id, Step::Finish);
    let cleaned = finished.after(core_id, Step::Cleanup);
    let schedule = Step::<C>::Schedule { slice_ticks: switch_ticks, switch_ticks };
    let end = cleaned.after(core_id, schedule);
    law_every_step_keeps_machine_consistent(machine, core_id, Step::Finish);
    lemma_step_keeps_core(before, Step::Finish);
    assert(finished.cores.dom() =~= machine.cores.dom());
    assert forall|c: CoreId, other: TaskId|
        finished.cores.contains_key(c) && #[trigger] finished.cores[c].ended(
            other,
        ) implies other == id by {
        if c == core_id {
            lemma_ended_after_step(before, Step::Finish, other);
            if before.core.ended(other) {
                assert(machine.cores[core_id].ended(other));
            }
        } else {
            assert(machine.cores[c].ended(other));
        }
    }
    lemma_quiet_step(finished, core_id, Step::Cleanup, id);
    lemma_step_keeps_core(finished.at(core_id), Step::Cleanup);
    lemma_quiet_step(cleaned, core_id, schedule, id);
    lemma_step_keeps_core(cleaned.at(core_id), schedule);
    law_cleanup_keeps_consistent(finished.at(core_id));
    law_exit_leaves_the_core(before, switch_ticks);
    assert(finished.at(core_id) == before.current_finished());
    let after = before.current_finished().scheduled(switch_ticks, switch_ticks);
    assert(end.cores[core_id] == after.core);
    assert(after.core.finished[0] == id);
}

/// The exit and the cleanup of a task undo its creation. Where a task is created, runs,
/// exits, and is cleaned up, and no other task is created, finishes or is left to clean
/// up, and no core is added, the number of tasks and the known tasks are those from before,
/// whatever else the cores do. Nobody can wait for the task any more. Those who waited for
/// other tasks still do.
pub proof fn law_exit_and_cleanup_undo_spawn<C>(
    machine: Machine<C>,
    core_id: CoreId,
    task: Task<C>,
    life: Seq<(CoreId, Step<C>)>,
    switch_ticks: u64,
    rest: Seq<(CoreId, Step<C>)>,
)
    requires
        machine.consistent(),
        machine.settled(),
        machine.cores.contains_key(core_id),
        machine.at(core_id).can_do(Step::Spawn(task)),
        ({
            let spawned = machine.after(core_id, Step::Spawn(task));
            let lived = spawned.after_all(life);
            let exited = lived.after_exit(task.core_id, switch_ticks);
            &&& quiet(life)
            &&& spawned.can_do_all(life)
            &&& lived.cores[task.core_id].current_task().id == task.id
            &&& lived.at(task.core_id).can_do(Step::Finish)
            &&& quiet(rest)
            &&& exited.can_do_all(rest)
        }),
    ensures
        ({
            let spawned = machine.after(core_id, Step::Spawn(task));
            let lived = spawned.after_all(life);
            let exited = lived.after_exit(task.core_id, switch_ticks);
            let end = exited.after_all(rest).after(task.core_id, Step::Cleanup);
            &&& end.shared.no_tasks == machine.shared.no_tasks
            &&& end.shared.tasks.dom() == machine.shared.tasks.dom()
            &&& !end.shared.tasks.contains_key(task.id)
            &&& forall|id: TaskId| #[trigger]
                machine.shared.tasks.contains_key(id) && !joins(life, id) && !joins(rest, id)
                    ==> end.shared.tasks[id] == machine.shared.tasks[id]
            &&& (forall|id: TaskId| #[trigger]
                machine.shared.tasks.contains_key(id) ==> !joins(life, id) && !joins(rest, id))
                ==> end.shared.tasks == machine.shared.tasks
        }),
{
    let before = machine.at(core_id);
    let step = Step::Spawn(task);
    let spawned = machine.after(core_id, step);
    let lived = spawned.after_all(life);
    let exited = lived.after_exit(task.core_id, switch_ticks);
    let last = exited.after_all(rest);
    let end = last.after(task.core_id, Step::Cleanup);

    law_every_step_keeps_machine_consistent(machine, core_id, step);
    lemma_step_keeps_core(before, step);
    assert(spawned.cores.dom() =~= machine.cores.dom());
    assert(machine.shared.schedulers.dom().contains(task.core_id));
    assert forall|c: CoreId, id: TaskId|
        spawned.cores.contains_key(c) implies !#[trigger] spawned.cores[c].ended(id) by {
        if c == core_id && spawned.cores[c].ended(id) {
            lemma_ended_after_step(before, step, id);
        }
        assert(!machine.cores[c].ended(id));
    }
    lemma_quiet_run(spawned, life, task.id);
    assert(lived.cores.dom().contains(task.core_id));
    lemma_exit(lived, task.core_id, switch_ticks);
    assert(exited.cores.dom().contains(task.core_id));
    lemma_quiet_run(exited, rest, task.id);
    lemma_waits_for_cleanup(exited, rest, task.core_id, task.id);
    assert(last.cores.dom().contains(task.core_id));
    lemma_quiet_step(last, task.core_id, Step::Cleanup, task.id);
    law_cleanup_keeps_consistent(last.at(task.core_id));
    lemma_known_after_step(last.at(task.core_id), Step::Cleanup, task.id);

    assert forall|id: TaskId| #[trigger]
        end.shared.tasks.contains_key(id) <==> machine.shared.tasks.contains_key(id) by {
        assert(id != task.id ==> (spawned.shared.tasks.contains_key(id)
            <==> machine.shared.tasks.contains_key(id)));
        assert(id != task.id ==> (lived.shared.tasks.contains_key(id)
            <==> spawned.shared.tasks.contains_key(id)));
        assert(id != task.id ==> (exited.shared.tasks.contains_key(id)
            <==> lived.shared.tasks.contains_key(id)));
        assert(id != task.id ==> (last.shared.tasks.contains_key(id)
            <==> exited.shared.tasks.contains_key(id)));
    }
    assert(end.shared.tasks.dom() =~= machine.shared.tasks.dom());
    assert forall|id: TaskId| #[trigger]
        machine.shared.tasks.contains_key(id) && !joins(life, id) && !joins(
            rest,
            id,
        ) implies end.shared.tasks[id] == machine.shared.tasks[id] by {
        assert(spawned.shared.tasks.contains_key(id));
        assert(lived.shared.tasks.contains_key(id));
        assert(exited.shared.tasks.contains_key(id));
        assert(last.shared.tasks.contains_key(id));
    }
    if forall|id: TaskId| #[trigger]
        machine.shared.tasks.contains_key(id) ==> !joins(life, id) && !joins(rest, id) {
        assert(end.shared.tasks =~= machine.shared.tasks);
    }
}

} // verus!
