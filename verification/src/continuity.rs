//! Laws on what a task and a core can rely on while the cores go on: a task continues where
//! it left the core, the FPU registers go back to where they came from, and a time slice
//! lasts from the switch on.

use crate::consistency::{
    cleanup_start, law_cleanup_forgets_exactly_finished_tasks, law_cleanup_keeps_consistent,
    law_release_keeps_live_tasks, law_timer_keeps_consistent, law_wakeup_keeps_consistent,
    lemma_cleanup_start, lemma_wake_frame,
};
use crate::effects::{
    law_clone_starts_with_its_seed, law_fpu_goes_from_its_owner_to_the_current_task,
    law_new_task_starts_with_its_seed, law_scheduler_changes_only_statuses,
    law_switch_gives_the_core_from_now_on, law_switch_starts_a_whole_time_slice,
    law_wakeup_only_makes_ready, same_data,
};
use crate::machine::{
    law_every_step_keeps_machine_consistent, lemma_step_keeps_core, Machine, Step,
};
use crate::model::{CoreView, System};
use crate::ready::{lemma_next_exists, next_entry};
use crate::store::{free_ref, lemma_next_ref};
use crate::task::{
    cloned_task, new_task, CoreId, Priority, Task, TaskId, TaskRef, TaskSeed, TaskStatus,
    WakeupReason,
};
use crate::wakeups::law_input_displaces_no_task;
use vstd::prelude::*;

verus! {

impl<C> CoreView<C> {
    /// Says that the task under a reference is alive and goes on, with the given data.
    pub open spec fn carries(self, r: TaskRef, task: Task<C>) -> bool {
        &&& self.tasks.contains_key(r)
        &&& self.tasks[r].status != TaskStatus::TaskInvalid
        &&& self.tasks[r].status != TaskStatus::TaskFinished
        &&& same_data(self.tasks[r], task)
    }
}

impl<C> System<C> {
    /// Says that a task with the given data is on its way to the core.
    pub open spec fn gets(self, task: Task<C>) -> bool {
        exists|i: int|
            0 <= i < self.shared.inputs[self.core.input].new_tasks.len() && same_data(
                #[trigger] self.shared.inputs[self.core.input].new_tasks[i],
                task,
            )
    }

    /// Says that the core has a task with the given data, or that one is on its way to it.
    pub open spec fn holds(self, task: Task<C>) -> bool {
        (exists|r: TaskRef| #[trigger] self.core.carries(r, task)) || self.gets(task)
    }
}

impl<C> Machine<C> {
    /// Says that a step neither ends the task with the given identifier on the given core
    /// nor writes to it.
    pub open spec fn leaves_alone(
        self,
        d: CoreId,
        step: Step<C>,
        c: CoreId,
        id: TaskId,
    ) -> bool {
        d == c ==> match step {
            Step::Finish => self.cores[c].tasks[self.cores[c].current].id != id,
            Step::Update(r, _) => self.cores[c].tasks[r].id != id,
            _ => true,
        }
    }

    /// Says that no step of a run ends the task with the given identifier on the given core
    /// or writes to it.
    pub open spec fn leaves_alone_all(
        self,
        run: Seq<(CoreId, Step<C>)>,
        c: CoreId,
        id: TaskId,
    ) -> bool
        decreases run.len(),
    {
        run.len() > 0 ==> {
            &&& self.leaves_alone(run[0].0, run[0].1, c, id)
            &&& self.after(run[0].0, run[0].1).leaves_alone_all(run.drop_first(), c, id)
        }
    }
}

/// A cleanup keeps the data of every task that goes on.
proof fn lemma_cleanup_carries<C>(before: System<C>, r: TaskRef, task: Task<C>)
    requires
        before.consistent(),
        before.core.carries(r, task),
    ensures
        before.cleaned().core.carries(r, task),
{
    let finished = before.core.finished;
    if finished.len() > 0 {
        let start = cleanup_start(before);
        lemma_cleanup_start(before);
        let after = start.forgotten_all(finished);
        assert(start.core.tasks.contains_key(r));
        law_wakeup_only_makes_ready(start.core.tasks[r], WakeupReason::Custom);
        assert(after.core.tasks.contains_key(r)) by {
            assert(after.core.tasks.dom().contains(r));
        }
        law_release_keeps_live_tasks(after.core);
        assert(after.core.live(r));
    }
}

/// A step of its own core that leaves a task alone keeps its data.
proof fn lemma_own_core_carries<C>(before: System<C>, step: Step<C>, r: TaskRef, task: Task<C>)
    requires
        before.consistent(),
        before.can_do(step),
        before.core.carries(r, task),
        match step {
            Step::Finish => before.core.tasks[before.core.current].id != task.id,
            Step::Update(q, _) => before.core.tasks[q].id != task.id,
            _ => true,
        },
    ensures
        before.after(step).core.carries(r, task),
{
    let core = before.core;
    let after = before.after(step).core;
    law_wakeup_only_makes_ready(core.tasks[r], WakeupReason::Custom);
    law_wakeup_only_makes_ready(core.tasks[r], WakeupReason::Timer);
    match step {
        Step::Cleanup => {
            lemma_cleanup_carries(before, r, task);
        },
        Step::Schedule { slice_ticks, switch_ticks } => {
            law_scheduler_changes_only_statuses(core, slice_ticks, switch_ticks, r);
            if core.ready.len() > 0 {
                lemma_next_exists(core.ready);
            }
        },
        Step::Wake(handle) => {
            law_wakeup_keeps_consistent(core, handle.id);
            assert(core.wake(handle.id).tasks.dom().contains(r));
        },
        Step::Spawn(new) => {
            if new.core_id == core.core_id {
                lemma_next_ref(core.tasks);
            }
        },
        Step::Timer(now) => {
            law_timer_keeps_consistent(core, now);
            assert(after.tasks.dom().contains(r));
        },
        Step::Input => {
            law_input_displaces_no_task(core, before.shared.inputs[core.input]);
        },
        _ => {},
    }
}

/// A task on its way to a core stays on its way when another core does something.
proof fn lemma_other_core_keeps_new_tasks<C>(before: System<C>, step: Step<C>, place: int, i: int)
    requires
        before.consistent(),
        before.can_do(step),
        0 <= place < before.shared.inputs.len(),
        place != before.core.input || !(step is Input),
        0 <= i < before.shared.inputs[place].new_tasks.len(),
    ensures
        ({
            let tasks = before.after(step).shared.inputs[place].new_tasks;
            &&& i < tasks.len()
            &&& tasks[i] == before.shared.inputs[place].new_tasks[i]
        }),
{
    match step {
        Step::Cleanup => {
            law_cleanup_forgets_exactly_finished_tasks(before);
            assert(before.cleaned().shared.inputs[place].new_tasks == cleanup_start(
                before,
            ).shared.inputs[place].new_tasks);
        },
        Step::Wake(handle) => {
            lemma_wake_frame(before, handle);
        },
        _ => {},
    }
}

proof fn lemma_step_holds<C>(
    machine: Machine<C>,
    d: CoreId,
    step: Step<C>,
    c: CoreId,
    task: Task<C>,
)
    requires
        machine.consistent(),
        machine.can_do(d, step),
        machine.cores.contains_key(c),
        machine.at(c).holds(task),
        machine.leaves_alone(d, step, c, task.id),
    ensures
        machine.after(d, step).consistent(),
        machine.after(d, step).cores.contains_key(c),
        machine.after(d, step).at(c).holds(task),
{
    let here = machine.at(c);
    let next = machine.after(d, step);
    let there = next.at(c);
    let place = here.core.input;
    assert(here.consistent());
    law_every_step_keeps_machine_consistent(machine, d, step);
    if !(step is Start) {
        assert(machine.at(d).consistent());
        lemma_step_keeps_core(machine.at(d), step);
    }
    if exists|r: TaskRef| #[trigger] here.core.carries(r, task) {
        let r = choose|r: TaskRef| #[trigger] here.core.carries(r, task);
        if d == c {
            lemma_own_core_carries(here, step, r, task);
        }
        assert(there.core.carries(r, task));
    } else {
        let tasks = here.shared.inputs[place].new_tasks;
        let i = choose|i: int| 0 <= i < tasks.len() && same_data(#[trigger] tasks[i], task);
        if step is Start {
            assert(there.shared.inputs[place].new_tasks[i] == tasks[i]);
            assert(there.gets(task));
        } else if d == c && step is Input {
            let input = here.shared.inputs[place];
            let woken = here.core.wake_all(input.wakeup_tasks);
            law_input_displaces_no_task(here.core, input);
            let r = there.core.ready[woken.ready.len() + i].task;
            assert(here.incoming()[i] == input.new_tasks[i]);
            assert(there.core.tasks[r] == input.new_tasks[i]);
            assert(there.core.carries(r, task));
        } else {
            if d != c {
                assert(machine.shared.owners[machine.at(d).core.input] == d);
            }
            lemma_other_core_keeps_new_tasks(machine.at(d), step, place, i);
            assert(there.shared.inputs[place].new_tasks[i] == tasks[i]);
            assert(there.gets(task));
        }
    }
}

/// A task keeps its data, whatever the cores do: as long as it goes on and nobody writes to
/// it, it has the same identifier, priority, core, stack pointers, stacks, error number and
/// platform data, be it ready, running or blocked, woken up, preempted, or on its way from
/// the core that has created it.
pub proof fn law_task_keeps_its_data<C>(
    machine: Machine<C>,
    run: Seq<(CoreId, Step<C>)>,
    c: CoreId,
    task: Task<C>,
)
    requires
        machine.consistent(),
        machine.can_do_all(run),
        machine.cores.contains_key(c),
        machine.at(c).holds(task),
        machine.leaves_alone_all(run, c, task.id),
    ensures
        machine.after_all(run).consistent(),
        machine.after_all(run).cores.contains_key(c),
        machine.after_all(run).at(c).holds(task),
    decreases run.len(),
{
    if run.len() > 0 {
        lemma_step_holds(machine, run[0].0, run[0].1, c, task);
        law_task_keeps_its_data(
            machine.after(run[0].0, run[0].1),
            run.drop_first(),
            c,
            task,
        );
    }
}

/// A switch to a task continues at the stack pointer of that task.
proof fn lemma_switch_continues<C>(before: System<C>, task: Task<C>, slice_ticks: u64)
    requires
        before.consistent(),
        before.holds(task),
        before.switch(slice_ticks) matches Some(switch) && before.cleaned().core.tasks[switch.to].id
            == task.id,
    ensures
        before.switch(slice_ticks)->0.new_stack_pointer == task.last_stack_pointer,
{
    law_cleanup_keeps_consistent(before);
    let cleaned = before.cleaned();
    let core = cleaned.core;
    let switch = before.switch(slice_ticks)->0;
    if core.ready.len() > 0 {
        lemma_next_exists(core.ready);
        assert(core.queued(next_entry(core.ready).task));
    }
    assert(core.live(core.idle));
    assert(core.live(switch.to));
    law_switch_gives_the_core_from_now_on(core, slice_ticks, 0);
    law_scheduler_changes_only_statuses(core, slice_ticks, 0, switch.to);
    if exists|r: TaskRef| #[trigger] before.core.carries(r, task) {
        let r = choose|r: TaskRef| #[trigger] before.core.carries(r, task);
        lemma_cleanup_carries(before, r, task);
        assert(core.live(r));
        assert(r == switch.to);
    } else {
        let i = choose|i: int|
            0 <= i < before.shared.inputs[before.core.input].new_tasks.len() && same_data(
                #[trigger] before.shared.inputs[before.core.input].new_tasks[i],
                task,
            );
        assert(cleaned.incoming()[i].id == task.id);
    }
}

/// A task continues where it left the core: the stack pointer that is saved for it is that
/// of the next switch to it, whatever happens in between, be it preempted or blocked, and
/// woken up by the timer, by somebody, or by the end of another task.
pub proof fn law_task_continues_where_it_left<C>(
    machine: Machine<C>,
    c: CoreId,
    r: TaskRef,
    stack_pointer: usize,
    run: Seq<(CoreId, Step<C>)>,
    slice_ticks: u64,
)
    requires
        machine.consistent(),
        machine.cores.contains_key(c),
        machine.cores[c].tasks.contains_key(r),
        machine.cores[c].tasks[r].status != TaskStatus::TaskInvalid,
        machine.cores[c].tasks[r].status != TaskStatus::TaskFinished,
        ({
            let id = machine.cores[c].tasks[r].id;
            let saved = Machine {
                cores: machine.cores.insert(
                    c,
                    machine.cores[c].with_stack_pointer(r, stack_pointer),
                ),
                ..machine
            };
            let end = saved.after_all(run);
            &&& saved.can_do_all(run)
            &&& saved.leaves_alone_all(run, c, id)
            &&& end.at(c).switch(slice_ticks) matches Some(switch)
            &&& end.at(c).cleaned().core.tasks[switch.to].id == id
        }),
    ensures
        ({
            let saved = Machine {
                cores: machine.cores.insert(
                    c,
                    machine.cores[c].with_stack_pointer(r, stack_pointer),
                ),
                ..machine
            };
            let switch = saved.after_all(run).at(c).switch(slice_ticks);
            switch->0.new_stack_pointer == stack_pointer
        }),
{
    let core = machine.cores[c].with_stack_pointer(r, stack_pointer);
    let saved = Machine { cores: machine.cores.insert(c, core), ..machine };
    let task = core.tasks[r];
    let step = Step::Update(r, task);
    assert(machine.at(c).consistent());
    law_every_step_keeps_machine_consistent(machine, c, step);
    assert(machine.after(c, step) =~= saved);
    assert(saved.at(c).core.carries(r, task));
    law_task_keeps_its_data(saved, run, c, task);
    let end = saved.after_all(run);
    assert(end.at(c).consistent());
    lemma_switch_continues(end.at(c), task, slice_ticks);
}

/// A new task starts with its seed: the first switch to a task that was spawned or cloned,
/// on this core or from another one, continues at the stack pointer of the seed with which
/// the task was created.
pub proof fn law_first_switch_starts_with_the_seed<C>(
    machine: Machine<C>,
    d: CoreId,
    task: Task<C>,
    prio: Priority,
    parent: Task<C>,
    seed: TaskSeed<C>,
    run: Seq<(CoreId, Step<C>)>,
    slice_ticks: u64,
)
    requires
        machine.consistent(),
        machine.can_do(d, Step::Spawn(task)),
        task == new_task(task.id, task.core_id, TaskStatus::TaskReady, prio, seed) || task
            == cloned_task(task.id, task.core_id, parent, seed),
        ({
            let spawned = machine.after(d, Step::Spawn(task));
            let end = spawned.after_all(run);
            &&& spawned.can_do_all(run)
            &&& spawned.leaves_alone_all(run, task.core_id, task.id)
            &&& end.at(task.core_id).switch(slice_ticks) matches Some(switch)
            &&& end.at(task.core_id).cleaned().core.tasks[switch.to].id == task.id
        }),
    ensures
        machine.after(d, Step::Spawn(task)).after_all(run).at(task.core_id).switch(
            slice_ticks,
        )->0.new_stack_pointer == seed.stack_pointer,
{
    let c = task.core_id;
    let before = machine.at(d);
    let spawned = machine.after(d, Step::Spawn(task));
    law_new_task_starts_with_its_seed(task.id, c, TaskStatus::TaskReady, prio, seed);
    law_clone_starts_with_its_seed(task.id, c, parent, parent, seed);
    law_every_step_keeps_machine_consistent(machine, d, Step::Spawn(task));
    assert(before.consistent());
    lemma_step_keeps_core(before, Step::Spawn(task));
    assert(machine.shared.schedulers.dom().contains(c));
    assert(machine.cores.contains_key(c));
    assert(machine.at(c).consistent());
    if c == d {
        lemma_next_ref(before.core.tasks);
        assert(spawned.at(c).core.carries(free_ref(before.core.tasks), task));
    } else {
        let place = machine.cores[c].input;
        let tasks = spawned.shared.inputs[place].new_tasks;
        assert(tasks[tasks.len() - 1] == task);
        assert(spawned.at(c).gets(task));
    }
    law_task_keeps_its_data(spawned, run, c, task);
    let end = spawned.after_all(run);
    assert(end.at(c).consistent());
    lemma_switch_continues(end.at(c), task, slice_ticks);
}

/// Which task has the core and since when changes only by a switch, and who owns the FPU
/// only by a claim. The task that owns the FPU stays the same one.
proof fn lemma_roles_after_step<C>(before: System<C>, step: Step<C>)
    requires
        before.consistent(),
        before.can_do(step),
    ensures
        ({
            let core = before.core;
            let after = before.after(step).core;
            let r = core.fpu_owner;
            &&& !(step is ClaimFpu) ==> after.fpu_owner == r
            &&& after.tasks.contains_key(r)
            &&& after.tasks[r].id == core.tasks[r].id
            &&& (step matches Step::Schedule { slice_ticks, .. } ==> core.switch(slice_ticks)
                is None) ==> after.current == core.current && after.last_task_switch_tick
                == core.last_task_switch_tick
        }),
{
    let core = before.core;
    let after = before.after(step).core;
    let r = core.fpu_owner;
    assert(core.tasks.contains_key(r));
    law_wakeup_only_makes_ready(core.tasks[r], WakeupReason::Custom);
    law_wakeup_only_makes_ready(core.tasks[r], WakeupReason::Timer);
    match step {
        Step::Cleanup => {
            law_cleanup_forgets_exactly_finished_tasks(before);
            law_cleanup_keeps_consistent(before);
            if core.finished.len() > 0 {
                lemma_cleanup_start(before);
                let start = cleanup_start(before);
                let end = start.forgotten_all(core.finished);
                assert(start.core.tasks.contains_key(r));
                assert(end.core.tasks.dom().contains(r));
                assert(end.core.fpu_owner == r);
                assert(after.tasks[r] == end.core.tasks[r]);
            }
        },
        Step::Schedule { slice_ticks, switch_ticks } => {
            law_switch_gives_the_core_from_now_on(core, slice_ticks, switch_ticks);
            law_scheduler_changes_only_statuses(core, slice_ticks, switch_ticks, r);
        },
        Step::Wake(handle) => {
            law_wakeup_keeps_consistent(core, handle.id);
            assert(core.wake(handle.id).tasks.dom().contains(r));
        },
        Step::Spawn(task) => {
            if task.core_id == core.core_id {
                lemma_next_ref(core.tasks);
            }
        },
        Step::Timer(now) => {
            law_timer_keeps_consistent(core, now);
            assert(after.tasks.dom().contains(r));
        },
        Step::Input => {
            law_input_displaces_no_task(core, before.shared.inputs[core.input]);
        },
        _ => {},
    }
}

/// Says that no task of the given core claims the FPU in a run.
pub open spec fn never_claims<C>(run: Seq<(CoreId, Step<C>)>, c: CoreId) -> bool {
    forall|i: int| 0 <= i < run.len() ==> (#[trigger] run[i]).0 != c || !(run[i].1 is ClaimFpu)
}

/// The FPU registers of a task are kept for it: after a task has claimed the FPU, whatever
/// the cores do, even if the task has exited, the next change of the owner saves the
/// registers to that task, whoever claims the FPU.
pub proof fn law_fpu_registers_go_back_to_their_task<C>(
    machine: Machine<C>,
    c: CoreId,
    run: Seq<(CoreId, Step<C>)>,
)
    requires
        machine.consistent(),
        machine.cores.contains_key(c),
        machine.after(c, Step::ClaimFpu).can_do_all(run),
        never_claims(run, c),
    ensures
        ({
            let r = machine.cores[c].current;
            let end = machine.after(c, Step::ClaimFpu).after_all(run);
            &&& end.cores[c].tasks.contains_key(r)
            &&& end.cores[c].tasks[r].id == machine.cores[c].tasks[r].id
            &&& match end.cores[c].fpu_switch() {
                Some(switch) => switch.save == r && switch.restore == end.cores[c].current
                    && end.cores[c].current != r,
                None => end.cores[c].current == r,
            }
        }),
{
    let r = machine.cores[c].current;
    let claimed = machine.after(c, Step::ClaimFpu);
    assert(machine.at(c).consistent());
    assert(machine.can_do(c, Step::ClaimFpu));
    law_fpu_goes_from_its_owner_to_the_current_task(machine.cores[c]);
    law_every_step_keeps_machine_consistent(machine, c, Step::ClaimFpu);
    lemma_owner_after_run(claimed, c, run);
    law_fpu_goes_from_its_owner_to_the_current_task(claimed.after_all(run).cores[c]);
}

proof fn lemma_owner_after_run<C>(machine: Machine<C>, c: CoreId, run: Seq<(CoreId, Step<C>)>)
    requires
        machine.consistent(),
        machine.cores.contains_key(c),
        machine.can_do_all(run),
        never_claims(run, c),
    ensures
        ({
            let r = machine.cores[c].fpu_owner;
            let end = machine.after_all(run);
            &&& end.cores[c].fpu_owner == r
            &&& end.cores[c].tasks.contains_key(r)
            &&& end.cores[c].tasks[r].id == machine.cores[c].tasks[r].id
        }),
    decreases run.len(),
{
    assert(machine.at(c).consistent());
    if run.len() > 0 {
        let d = run[0].0;
        let step = run[0].1;
        let rest = run.drop_first();
        assert(d != c || !(step is ClaimFpu));
        law_every_step_keeps_machine_consistent(machine, d, step);
        if !(step is Start) {
            assert(machine.at(d).consistent());
            lemma_step_keeps_core(machine.at(d), step);
            lemma_roles_after_step(machine.at(d), step);
        }
        assert(never_claims(rest, c)) by {
            assert(forall|i: int| 0 <= i < rest.len() ==> #[trigger] rest[i] == run[i + 1]);
        }
        lemma_owner_after_run(machine.after(d, step), c, rest);
    }
}

impl<C> Machine<C> {
    /// Says that the scheduler of the given core does not switch in a run.
    pub open spec fn never_switches(self, run: Seq<(CoreId, Step<C>)>, c: CoreId) -> bool
        decreases run.len(),
    {
        run.len() > 0 ==> {
            &&& run[0].0 == c ==> (run[0].1 matches Step::Schedule { slice_ticks, .. }
                ==> self.cores[c].switch(slice_ticks) is None)
            &&& self.after(run[0].0, run[0].1).never_switches(run.drop_first(), c)
        }
    }
}

proof fn lemma_current_after_run<C>(machine: Machine<C>, c: CoreId, run: Seq<(CoreId, Step<C>)>)
    requires
        machine.consistent(),
        machine.cores.contains_key(c),
        machine.can_do_all(run),
        machine.never_switches(run, c),
    ensures
        machine.after_all(run).consistent(),
        machine.after_all(run).cores.contains_key(c),
        machine.after_all(run).cores[c].current == machine.cores[c].current,
        machine.after_all(run).cores[c].last_task_switch_tick
            == machine.cores[c].last_task_switch_tick,
    decreases run.len(),
{
    if run.len() > 0 {
        let d = run[0].0;
        let step = run[0].1;
        law_every_step_keeps_machine_consistent(machine, d, step);
        if !(step is Start) {
            assert(machine.at(d).consistent());
            lemma_step_keeps_core(machine.at(d), step);
            lemma_roles_after_step(machine.at(d), step);
        }
        lemma_current_after_run(machine.after(d, step), c, run.drop_first());
    }
}

/// A time slice lasts from the switch on: where the scheduler of a core has switched to a
/// task at some time, and has not switched since, whatever the cores have done in between, a
/// run of the scheduler at most 10000 microseconds after the switch leaves the task the core
/// while it is running and no ready task has a higher priority.
pub proof fn law_time_slice_lasts_from_the_switch_on<C>(
    machine: Machine<C>,
    c: CoreId,
    slice_ticks: u64,
    switch_ticks: u64,
    run: Seq<(CoreId, Step<C>)>,
    ticks: u64,
    next_ticks: u64,
)
    requires
        machine.consistent(),
        machine.cores.contains_key(c),
        machine.cores[c].switch(slice_ticks) is Some,
        ticks <= switch_ticks + 10_000,
        ({
            let switched = machine.after(c, Step::Schedule { slice_ticks, switch_ticks });
            let core = switched.after_all(run).at(c).cleaned().core;
            &&& switched.can_do_all(run)
            &&& switched.never_switches(run, c)
            &&& core.tasks[core.current].status == TaskStatus::TaskRunning
            &&& forall|i: int|
                0 <= i < core.ready.len() ==> (#[trigger] core.ready[i]).prio.0
                    <= core.tasks[core.current].prio.0
        }),
    ensures
        ({
            let switched = machine.after(c, Step::Schedule { slice_ticks, switch_ticks });
            let end = switched.after_all(run).at(c);
            &&& end.core.current == machine.cores[c].switch(slice_ticks)->0.to
            &&& end.switch(ticks) is None
            &&& end.scheduled(ticks, next_ticks).core == end.cleaned().core
        }),
{
    let step = Step::Schedule { slice_ticks, switch_ticks };
    let switched = machine.after(c, step);
    let end = switched.after_all(run).at(c);
    assert(machine.at(c).consistent());
    assert(machine.can_do(c, step));
    law_every_step_keeps_machine_consistent(machine, c, step);
    lemma_step_keeps_core(machine.at(c), step);
    law_switch_gives_the_core_from_now_on(machine.cores[c], slice_ticks, switch_ticks);
    lemma_current_after_run(switched, c, run);
    assert(switched.after_all(run).at(c).consistent());
    law_cleanup_keeps_consistent(end);
    law_cleanup_forgets_exactly_finished_tasks(end);
    law_switch_starts_a_whole_time_slice(
        machine.cores[c],
        slice_ticks,
        switch_ticks,
        end.cleaned().core,
        ticks,
        next_ticks,
    );
}

} // verus!
