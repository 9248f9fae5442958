//! Laws on tasks that wait for the end of another one, whatever the cores do meanwhile.

use crate::blocked::{elapsed, lemma_place_exists, place};
use crate::consistency::{
    cleanup_start, law_cleanup_forgets_exactly_finished_tasks, law_cleanup_keeps_consistent,
    law_scheduling_keeps_consistent, law_timer_keeps_consistent, law_wakeup_keeps_consistent,
    lemma_cleanup_start, lemma_core_wake_all, lemma_waiting_is_valid,
    lemma_wake_all_frame, lemma_wake_frame,
};
use crate::laws::law_new_tasks_are_queued_in_order;
use crate::machine::{
    law_every_step_keeps_machine_consistent, law_identifiers_are_unique, lemma_step_keeps_core,
    Machine, Step,
};
use crate::model::{CoreView, System};
use crate::ready::{lemma_next_exists, next_entry};
use crate::runs::lemma_known_after_step;
use crate::shared::SharedView;
use crate::store::lemma_next_ref;
use crate::task::{CoreId, TaskHandle, TaskId, TaskRef, TaskStatus};
use crate::wakeups::{law_end_of_task_wakes_nobody_else, law_timer_wakes_exactly_elapsed_tasks};
use vstd::prelude::*;

verus! {

impl<C> CoreView<C> {
    /// Says that a task is blocked, and that no time is set at which it is woken up.
    pub open spec fn waits_untimed(self, r: TaskRef) -> bool {
        &&& self.live(r)
        &&& self.tasks[r].status == TaskStatus::TaskBlocked
        &&& forall|i: int|
            0 <= i < self.blocked.len() && (#[trigger] self.blocked[i]).task == r
                ==> self.blocked[i].wakeup_time is None
    }
}

impl<C> SharedView<C> {
    /// Says that no wakeup of the given task is among the requests at the given place.
    pub open spec fn no_wakeup_at(self, place: int, waiter: TaskId) -> bool {
        forall|i: int|
            0 <= i < self.inputs[place].wakeup_tasks.len() ==> (
            #[trigger] self.inputs[place].wakeup_tasks[i]).id != waiter
    }

    /// Says that the given task does not wait for the end of the task with the given
    /// identifier.
    pub open spec fn not_waiting_for(self, id: TaskId, waiter: TaskId) -> bool {
        forall|i: int|
            0 <= i < self.waiting(id).len() ==> (#[trigger] self.waiting(id)[i]).id != waiter
    }

    /// Says that the given task waits for the end of no task but the one with the given
    /// identifier.
    pub open spec fn waits_for_no_other(self, id: TaskId, waiter: TaskId) -> bool {
        forall|other: TaskId| other != id ==> #[trigger] self.not_waiting_for(other, waiter)
    }
}

impl<C> Machine<C> {
    /// Says that a task of a core waits for the end of the task with the given identifier
    /// and for nothing else: it is blocked without a wakeup time, it is among those who wait
    /// for that task and for no other one, and no request to wake it up is on its way.
    pub open spec fn waits_only_for(self, core_id: CoreId, r: TaskRef, id: TaskId) -> bool {
        let core = self.cores[core_id];
        &&& self.cores.contains_key(core_id)
        &&& core.waits_untimed(r)
        &&& self.shared.waiting(id).contains(core.tasks[r].handle())
        &&& self.shared.waits_for_no_other(id, core.tasks[r].id)
        &&& self.shared.no_wakeup_at(core.input, core.tasks[r].id)
    }
}

proof fn lemma_core_wake_all_spares<C>(core: CoreView<C>, handles: Seq<TaskHandle>, r: TaskRef)
    requires
        core.consistent(),
        core.tasks.contains_key(r),
        forall|i: int| 0 <= i < handles.len() ==> (#[trigger] handles[i]).id != core.tasks[r].id,
    ensures
        core.wake_all(handles).tasks[r] == core.tasks[r],
    decreases handles.len(),
{
    if handles.len() > 0 {
        law_wakeup_keeps_consistent(core, handles[0].id);
        lemma_core_wake_all_spares(core.wake(handles[0].id), handles.drop_first(), r);
    }
}

/// A task that waits without a wakeup time goes on waiting whatever its own core does,
/// unless it is woken up.
pub proof fn lemma_own_core_keeps_waiting<C>(before: System<C>, step: Step<C>, r: TaskRef)
    requires
        before.consistent(),
        before.can_do(step),
        before.core.waits_untimed(r),
        step matches Step::Wake(handle) ==> handle.id != before.core.tasks[r].id,
        step is Input ==> before.shared.no_wakeup_at(before.core.input, before.core.tasks[r].id),
        step is Cleanup ==> forall|k: int|
            0 <= k < before.core.finished.len() ==> #[trigger] before.shared.not_waiting_for(
                before.core.finished[k],
                before.core.tasks[r].id,
            ),
    ensures
        before.after(step).core.waits_untimed(r),
        before.after(step).core.tasks[r].handle() == before.core.tasks[r].handle(),
{
    let core = before.core;
    let after = before.after(step).core;
    assert(core.live(core.current));
    assert(core.tasks.contains_key(r));
    match step {
        Step::Cleanup => {
            law_cleanup_keeps_consistent(before);
            assert forall|k: int, m: int|
                0 <= k < core.finished.len() && 0 <= m < before.shared.waiting(
                    core.finished[k],
                ).len() implies {
                let handle = #[trigger] before.shared.waiting(core.finished[k])[m];
                handle.core_id != core.core_id || handle.id != core.tasks[r].id
            } by {
                assert(before.shared.not_waiting_for(core.finished[k], core.tasks[r].id));
            }
            law_end_of_task_wakes_nobody_else(before, r);
            if core.finished.len() > 0 {
                lemma_cleanup_start(before);
                let start = cleanup_start(before);
                let end = start.forgotten_all(core.finished);
                assert(after.blocked == end.core.blocked);
                lemma_subset_waits_untimed(core, after, r);
            }
        },
        Step::Schedule { slice_ticks, switch_ticks } => {
            law_scheduling_keeps_consistent(core, slice_ticks, switch_ticks);
            if core.ready.len() > 0 {
                lemma_next_exists(core.ready);
                let q = next_entry(core.ready).task;
                assert(core.queued(q));
                assert(core.live(q));
            }
            assert(core.live(core.idle));
            assert(after.blocked == core.blocked);
            assert(after.tasks[r] == core.tasks[r]);
        },
        Step::Wake(handle) => {
            law_wakeup_keeps_consistent(core, handle.id);
            if handle.core_id == core.core_id {
                lemma_subset_waits_untimed(core, after, r);
            }
        },
        Step::Spawn(task) => {
            if task.core_id == core.core_id {
                lemma_next_ref(core.tasks);
            }
        },
        Step::Block(wakeup_time) => {
            lemma_block_keeps_waiting(core, wakeup_time, r);
        },
        Step::Join(_) => {
            lemma_block_keeps_waiting(core, None, r);
        },
        Step::Timer(now) => {
            law_timer_keeps_consistent(core, now);
            law_timer_wakes_exactly_elapsed_tasks(core, now);
            assert(core.waiting(r));
            let k = choose|k: int|
                0 <= k < core.blocked.len() && (#[trigger] core.blocked[k]).task == r;
            assert(!elapsed(core.blocked[k], now));
            lemma_subset_waits_untimed(core, after, r);
        },
        Step::Input => {
            let input = before.shared.inputs[core.input];
            let woken = core.wake_all(input.wakeup_tasks);
            lemma_core_wake_all(core, input.wakeup_tasks);
            lemma_core_wake_all_spares(core, input.wakeup_tasks, r);
            law_new_tasks_are_queued_in_order(woken, input.new_tasks);
            lemma_subset_waits_untimed(core, after, r);
        },
        _ => {},
    }
}

/// Where entries have at most left the queue of blocked tasks, no time is set.
proof fn lemma_subset_waits_untimed<C>(core: CoreView<C>, after: CoreView<C>, r: TaskRef)
    requires
        core.waits_untimed(r),
        after.live(r),
        after.tasks[r].status == TaskStatus::TaskBlocked,
        forall|i: int|
            0 <= i < after.blocked.len() ==> core.blocked.contains(#[trigger] after.blocked[i]),
    ensures
        after.waits_untimed(r),
{
    assert forall|i: int|
        0 <= i < after.blocked.len() && (#[trigger] after.blocked[i]).task
            == r implies after.blocked[i].wakeup_time is None by {
        let k = choose|k: int|
            0 <= k < core.blocked.len() && core.blocked[k] == after.blocked[i];
        assert(core.blocked[k].task == r);
    }
}

/// A task that blocks leaves all who wait alone.
proof fn lemma_block_keeps_waiting<C>(core: CoreView<C>, wakeup_time: Option<u64>, r: TaskRef)
    requires
        core.waits_untimed(r),
        core.tasks.contains_key(core.current),
        core.current_task().status == TaskStatus::TaskRunning,
    ensures
        core.current_blocked(wakeup_time).waits_untimed(r),
        core.current_blocked(wakeup_time).tasks[r] == core.tasks[r],
{
    let after = core.current_blocked(wakeup_time);
    lemma_place_exists(core.blocked, wakeup_time);
    let p = place(core.blocked, wakeup_time);
    assert forall|i: int|
        0 <= i < after.blocked.len() && (#[trigger] after.blocked[i]).task
            == r implies after.blocked[i].wakeup_time is None by {
        if i != p {
            let k = if i < p { i } else { i - 1 };
            assert(after.blocked[i] == core.blocked[k]);
        }
    }
}

/// Who does not wait for a task does not do so as long as nobody joins the task.
proof fn lemma_still_not_waiting<C>(
    before: SharedView<C>,
    after: SharedView<C>,
    id: TaskId,
    waiter: TaskId,
)
    requires
        before.not_waiting_for(id, waiter),
        after.waiting(id).len() == 0 || after.waiting(id) == before.waiting(id),
    ensures
        after.not_waiting_for(id, waiter),
{
    assert forall|i: int| 0 <= i < after.waiting(id).len() implies (
    #[trigger] after.waiting(id)[i]).id != waiter by {
        assert(before.waiting(id)[i].id != waiter);
    }
}

/// Who does not wait for a task does not do so when somebody else joins the task.
proof fn lemma_one_more_waiting<C>(
    before: SharedView<C>,
    id: TaskId,
    handle: TaskHandle,
    waiter: TaskId,
)
    requires
        before.tasks.contains_key(id),
        before.not_waiting_for(id, waiter),
        handle.id != waiter,
    ensures
        before.with_waiting(id, handle).not_waiting_for(id, waiter),
{
    let after = before.with_waiting(id, handle);
    assert forall|i: int| 0 <= i < after.waiting(id).len() implies (
    #[trigger] after.waiting(id)[i]).id != waiter by {
        if i < before.waiting(id).len() {
            assert(before.waiting(id)[i].id != waiter);
        }
    }
}

proof fn lemma_wake_all_requests<C>(
    before: System<C>,
    handles: Seq<TaskHandle>,
    place: int,
    waiter: TaskId,
)
    requires
        before.shared.valid(),
        0 <= place < before.shared.inputs.len(),
        before.shared.no_wakeup_at(place, waiter),
        forall|i: int|
            0 <= i < handles.len() ==> before.shared.schedulers.contains_key(
                (#[trigger] handles[i]).core_id,
            ) && handles[i].id != waiter,
    ensures
        before.wake_all(handles).shared.no_wakeup_at(place, waiter),
    decreases handles.len(),
{
    if handles.len() > 0 {
        let next = before.wake(handles[0]);
        lemma_wake_frame(before, handles[0]);
        assert(next.shared.no_wakeup_at(place, waiter));
        lemma_wake_all_requests(next, handles.drop_first(), place, waiter);
    }
}

proof fn lemma_forgotten_all_requests<C>(
    before: System<C>,
    ids: Seq<TaskId>,
    place: int,
    waiter: TaskId,
)
    requires
        before.shared.valid(),
        0 <= place < before.shared.inputs.len(),
        before.shared.no_wakeup_at(place, waiter),
        forall|k: int|
            0 <= k < ids.len() ==> before.shared.not_waiting_for(#[trigger] ids[k], waiter),
    ensures
        before.forgotten_all(ids).shared.no_wakeup_at(place, waiter),
    decreases ids.len(),
{
    if ids.len() > 0 {
        let forgotten = System { shared: before.shared.without_task(ids[0]), ..before };
        let waiting = before.shared.waiting(ids[0]);
        let rest = ids.drop_first();
        lemma_waiting_is_valid(before.shared, ids[0]);
        lemma_wake_all_frame(forgotten, waiting);
        assert(before.shared.not_waiting_for(ids[0], waiter));
        assert(forgotten.shared.no_wakeup_at(place, waiter));
        lemma_wake_all_requests(forgotten, waiting, place, waiter);
        let next = forgotten.wake_all(waiting);
        assert forall|k: int| 0 <= k < rest.len() implies next.shared.not_waiting_for(
            #[trigger] rest[k],
            waiter,
        ) by {
            assert(rest[k] == ids[k + 1]);
            lemma_still_not_waiting(before.shared, next.shared, ids[k + 1], waiter);
        }
        lemma_forgotten_all_requests(next, rest, place, waiter);
    }
}

/// What a step of a core does to the requests for a task that waits, and to the tasks for
/// which it waits.
proof fn lemma_step_does_not_disturb<C>(
    before: System<C>,
    step: Step<C>,
    place: int,
    waiter: TaskHandle,
    id: TaskId,
)
    requires
        before.consistent(),
        before.can_do(step),
        0 <= place < before.shared.inputs.len(),
        before.shared.no_wakeup_at(place, waiter.id),
        before.shared.waits_for_no_other(id, waiter.id),
        before.shared.waiting(id).contains(waiter),
        before.after(step).shared.tasks.contains_key(id),
        step matches Step::Wake(handle) ==> handle.id != waiter.id,
        step is Join ==> before.core.current_task().id != waiter.id,
    ensures
        before.after(step).shared.no_wakeup_at(place, waiter.id),
        before.after(step).shared.waits_for_no_other(id, waiter.id),
        before.after(step).shared.waiting(id).contains(waiter),
        step is Cleanup ==> forall|k: int|
            0 <= k < before.core.finished.len() ==> #[trigger] before.shared.not_waiting_for(
                before.core.finished[k],
                waiter.id,
            ),
{
    let after = before.after(step);
    if step is Cleanup {
        law_cleanup_forgets_exactly_finished_tasks(before);
        let finished = before.core.finished;
        assert forall|k: int| 0 <= k < finished.len() implies before.shared.not_waiting_for(
            #[trigger] finished[k],
            waiter.id,
        ) by {
            assert(finished.contains(finished[k]));
        }
        lemma_forgotten_all_requests(cleanup_start(before), finished, place, waiter.id);
    }
    let k = choose|k: int|
        0 <= k < before.shared.waiting(id).len() && before.shared.waiting(id)[k] == waiter;
    assert(after.shared.waiting(id)[k] == waiter);
    assert forall|other: TaskId| other != id implies #[trigger] after.shared.not_waiting_for(
        other,
        waiter.id,
    ) by {
        assert(before.shared.not_waiting_for(other, waiter.id));
        if step == Step::<C>::Join(other) {
            lemma_one_more_waiting(
                before.shared,
                other,
                before.core.current_task().handle(),
                waiter.id,
            );
        } else {
            lemma_still_not_waiting(before.shared, after.shared, other, waiter.id);
        }
    }
}

/// A task that waits for nothing but the end of another one goes on waiting whatever one
/// core does, as long as it does not wake up the task, and the other task is known.
proof fn lemma_step_keeps_waiting<C>(
    machine: Machine<C>,
    d: CoreId,
    step: Step<C>,
    c: CoreId,
    r: TaskRef,
    id: TaskId,
)
    requires
        machine.consistent(),
        machine.waits_only_for(c, r, id),
        machine.can_do(d, step),
        step matches Step::Wake(handle) ==> handle.id != machine.cores[c].tasks[r].id,
        machine.after(d, step).shared.tasks.contains_key(id),
    ensures
        machine.after(d, step).consistent(),
        machine.after(d, step).waits_only_for(c, r, id),
        machine.after(d, step).cores[c].tasks[r].handle() == machine.cores[c].tasks[r].handle(),
{
    let before = machine.at(d);
    let next = machine.after(d, step);
    let core = machine.cores[c];
    let waiter = core.tasks[r].handle();
    assert(machine.at(c).consistent());
    law_every_step_keeps_machine_consistent(machine, d, step);
    if step is Start {
        assert forall|other: TaskId| other != id implies #[trigger] next.shared.not_waiting_for(
            other,
            waiter.id,
        ) by {
            assert(machine.shared.not_waiting_for(other, waiter.id));
            lemma_still_not_waiting(machine.shared, next.shared, other, waiter.id);
        }
        assert(next.shared.inputs[core.input] == machine.shared.inputs[core.input]);
        assert(next.shared.no_wakeup_at(core.input, waiter.id));
    } else {
        assert(before.consistent());
        lemma_step_keeps_core(before, step);
        if step is Join && before.core.current_task().id == waiter.id {
            assert(machine.cores[d].live(machine.cores[d].current));
            law_identifiers_are_unique(machine, c, d, r, machine.cores[d].current);
        }
        lemma_step_does_not_disturb(before, step, core.input, waiter, id);
        if c == d {
            lemma_own_core_keeps_waiting(before, step, r);
        }
    }
}

impl<C> Machine<C> {
    /// Says that the task with the given identifier is known in every state of a run, from
    /// the first to the last.
    pub open spec fn known_throughout(self, run: Seq<(CoreId, Step<C>)>, id: TaskId) -> bool
        decreases run.len(),
    {
        &&& self.shared.tasks.contains_key(id)
        &&& run.len() > 0 ==> self.after(run[0].0, run[0].1).known_throughout(run.drop_first(), id)
    }
}

/// Says that nobody asks for a wakeup of the given task in a run. A cleanup may wake it up.
pub open spec fn never_wakes<C>(run: Seq<(CoreId, Step<C>)>, waiter: TaskId) -> bool {
    forall|i: int|
        0 <= i < run.len() ==> ((#[trigger] run[i]).1 matches Step::Wake(handle) ==> handle.id
            != waiter)
}

/// Says that a task with the given identifier comes to life with a step.
pub open spec fn creates<C>(step: Step<C>, id: TaskId) -> bool {
    match step {
        Step::Spawn(task) | Step::Start(task) => task.id == id,
        _ => false,
    }
}

/// Says that no task with the given identifier comes to life in a run.
pub open spec fn never_creates<C>(run: Seq<(CoreId, Step<C>)>, id: TaskId) -> bool {
    forall|i: int| 0 <= i < run.len() ==> !creates((#[trigger] run[i]).1, id)
}

/// A running task that joins a task waits for the end of that task and for nothing else,
/// unless an earlier request to wake it up is still on its way, or it is still among those
/// who wait for a third task.
pub proof fn law_join_waits_for_the_end<C>(machine: Machine<C>, core_id: CoreId, id: TaskId)
    requires
        machine.consistent(),
        machine.cores.contains_key(core_id),
        machine.at(core_id).can_do(Step::Join(id)),
        machine.shared.no_wakeup_at(
            machine.cores[core_id].input,
            machine.cores[core_id].current_task().id,
        ),
        machine.shared.waits_for_no_other(id, machine.cores[core_id].current_task().id),
    ensures
        machine.after(core_id, Step::Join(id)).consistent(),
        machine.after(core_id, Step::Join(id)).waits_only_for(
            core_id,
            machine.cores[core_id].current,
            id,
        ),
        machine.after(core_id, Step::Join(id)).cores[core_id].current_task().handle()
            == machine.cores[core_id].current_task().handle(),
        machine.after(core_id, Step::Join(id)).cores[core_id].current
            == machine.cores[core_id].current,
{
    let before = machine.at(core_id);
    let core = machine.cores[core_id];
    let r = core.current;
    let handle = core.current_task().handle();
    let next = machine.after(core_id, Step::Join(id));
    let after = core.current_blocked(None);
    assert(before.consistent());
    law_every_step_keeps_machine_consistent(machine, core_id, Step::Join(id));
    lemma_step_keeps_core(before, Step::Join(id));
    lemma_place_exists(core.blocked, None);
    let p = place(core.blocked, None);
    assert(!core.waiting(r));
    assert forall|i: int|
        0 <= i < after.blocked.len() && (#[trigger] after.blocked[i]).task
            == r implies after.blocked[i].wakeup_time is None by {
        if i != p {
            let k = if i < p { i } else { i - 1 };
            assert(after.blocked[i] == core.blocked[k]);
        }
    }
    let waiting = next.shared.waiting(id);
    assert(waiting[waiting.len() - 1] == handle);
    assert forall|other: TaskId| other != id implies #[trigger] next.shared.not_waiting_for(
        other,
        handle.id,
    ) by {
        lemma_still_not_waiting(machine.shared, next.shared, other, handle.id);
    }
    assert(next.shared.no_wakeup_at(after.input, handle.id));
}

/// A task that waits for the end of another one, and for nothing else, stays blocked as long
/// as the other one is known, whatever the cores do, unless somebody asks for its wakeup.
pub proof fn law_waiting_task_stays_blocked<C>(
    machine: Machine<C>,
    core_id: CoreId,
    r: TaskRef,
    id: TaskId,
    run: Seq<(CoreId, Step<C>)>,
)
    requires
        machine.consistent(),
        machine.waits_only_for(core_id, r, id),
        machine.can_do_all(run),
        machine.known_throughout(run, id),
        never_wakes(run, machine.cores[core_id].tasks[r].id),
    ensures
        machine.after_all(run).waits_only_for(core_id, r, id),
        machine.after_all(run).cores[core_id].tasks[r].handle()
            == machine.cores[core_id].tasks[r].handle(),
    decreases run.len(),
{
    if run.len() > 0 {
        let rest = run.drop_first();
        let next = machine.after(run[0].0, run[0].1);
        let waiter = machine.cores[core_id].tasks[r].id;
        assert(next.known_throughout(rest, id));
        assert(run[0].1 matches Step::Wake(handle) ==> handle.id != waiter);
        lemma_step_keeps_waiting(machine, run[0].0, run[0].1, core_id, r, id);
        assert(never_wakes(rest, waiter)) by {
            assert(forall|i: int| 0 <= i < rest.len() ==> #[trigger] rest[i] == run[i + 1]);
        }
        law_waiting_task_stays_blocked(next, core_id, r, id, rest);
    }
}

/// A task that is known after a run that does not create it was known all the time.
proof fn lemma_known_throughout<C>(
    machine: Machine<C>,
    run: Seq<(CoreId, Step<C>)>,
    id: TaskId,
)
    requires
        machine.consistent(),
        machine.can_do_all(run),
        never_creates(run, id),
        machine.after_all(run).shared.tasks.contains_key(id),
    ensures
        machine.known_throughout(run, id),
    decreases run.len(),
{
    if run.len() > 0 {
        let rest = run.drop_first();
        let before = machine.at(run[0].0);
        let next = machine.after(run[0].0, run[0].1);
        assert(!creates(run[0].1, id));
        assert(never_creates(rest, id)) by {
            assert(forall|i: int| 0 <= i < rest.len() ==> #[trigger] rest[i] == run[i + 1]);
        }
        law_every_step_keeps_machine_consistent(machine, run[0].0, run[0].1);
        lemma_known_throughout(next, rest, id);
        if !(run[0].1 is Start) {
            lemma_known_after_step(before, run[0].1, id);
        }
    }
}

/// A join returns only when the other task has been cleaned up. Where a running task joins
/// a known task, and nobody else wakes it up, then after any run, in which the identifier
/// is not used again, the task is still blocked and waits, or nobody knows the other task
/// any more.
pub proof fn law_join_returns_only_after_the_end<C>(
    machine: Machine<C>,
    core_id: CoreId,
    id: TaskId,
    run: Seq<(CoreId, Step<C>)>,
)
    requires
        machine.consistent(),
        machine.cores.contains_key(core_id),
        machine.at(core_id).can_do(Step::Join(id)),
        machine.shared.no_wakeup_at(
            machine.cores[core_id].input,
            machine.cores[core_id].current_task().id,
        ),
        machine.shared.waits_for_no_other(id, machine.cores[core_id].current_task().id),
        machine.after(core_id, Step::Join(id)).can_do_all(run),
        never_wakes(run, machine.cores[core_id].current_task().id),
        never_creates(run, id),
    ensures
        ({
            let r = machine.cores[core_id].current;
            let end = machine.after(core_id, Step::Join(id)).after_all(run);
            ||| !end.shared.tasks.contains_key(id)
            ||| {
                &&& end.waits_only_for(core_id, r, id)
                &&& end.cores[core_id].tasks[r].handle()
                    == machine.cores[core_id].current_task().handle()
            }
        }),
{
    let r = machine.cores[core_id].current;
    let joined = machine.after(core_id, Step::Join(id));
    law_join_waits_for_the_end(machine, core_id, id);
    if joined.after_all(run).shared.tasks.contains_key(id) {
        lemma_known_throughout(joined, run, id);
        law_waiting_task_stays_blocked(joined, core_id, r, id, run);
    }
}

} // verus!
