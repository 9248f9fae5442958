//! All cores together: whatever the cores do, in whatever order, every task stays where
//! its status says, and no two tasks get the same identifier.

use crate::consistency::{
    law_blocking_keeps_consistent, law_cleanup_keeps_consistent, law_custom_wakeup_keeps_consistent,
    law_finish_keeps_consistent, law_input_keeps_consistent, law_join_keeps_consistent,
    law_new_system_is_consistent, law_scheduling_keeps_consistent, law_spawn_keeps_consistent,
    law_timer_keeps_consistent, lemma_core_wake_all, lemma_live_unchanged,
    lemma_scheduled_ids,
};
use crate::model::{idle_core, idle_step, system, CoreView, IdleEvent, System};
use crate::shared::{new_shared, wrapping_succ, SharedView};
use crate::store::{free_ref, lemma_next_ref};
use crate::task::{CoreId, Task, TaskHandle, TaskId, TaskRef, TaskStatus};
use vstd::prelude::*;

verus! {

/// The state of all cores and of what they share.
#[verifier::ext_equal]
pub struct Machine<C> {
    pub cores: Map<CoreId, CoreView<C>>,
    pub shared: SharedView<C>,
}

/// What a core does in one go. Every operation of a scheduler is one of these steps or
/// several of them in a row.
pub enum Step<C> {
    /// It cleans up its finished tasks.
    Cleanup,
    /// It chooses a task and hands over the core.
    Schedule { slice_ticks: u64, switch_ticks: u64 },
    /// It wakes up a task, on this core or on another one.
    Wake(TaskHandle),
    /// It makes a new task known and hands it to its core.
    Spawn(Task<C>),
    /// The current task finishes.
    Finish,
    /// The current task blocks.
    Block(Option<u64>),
    /// The current task waits for the end of another one.
    Join(TaskId),
    /// It wakes up the tasks whose wakeup time has elapsed.
    Timer(u64),
    /// It takes in the requests of the other cores.
    Input,
    /// The current task claims the FPU.
    ClaimFpu,
    /// It changes what no queue depends on in a task: all but identifier, status, priority
    /// and core.
    Update(TaskRef, Task<C>),
    /// It moves the counters on by which identifiers and cores are given out.
    MoveCounters { tid_counter: u32, next_core_id: u32 },
    /// It is added to the machine with the given idle task.
    Start(Task<C>),
}

impl<C> System<C> {
    /// Says that an identifier belongs to a task of the core: to one that is alive, to
    /// one that waits for cleanup, or to one on its way to the core.
    pub open spec fn owns(self, id: TaskId) -> bool {
        ||| exists|r: TaskRef| #[trigger] self.core.live(r) && self.core.tasks[r].id == id
        ||| self.core.finished.contains(id)
        ||| exists|i: int| 0 <= i < self.incoming().len() && (#[trigger] self.incoming()[i]).id == id
    }

    /// Says that a core of the machine can do a step.
    pub open spec fn can_do(self, step: Step<C>) -> bool {
        match step {
            Step::Cleanup | Step::Schedule { .. } | Step::Timer(_) | Step::ClaimFpu
            | Step::MoveCounters { .. } => true,
            Step::Wake(handle) => self.shared.schedulers.contains_key(handle.core_id),
            Step::Spawn(task) => {
                &&& task.status == TaskStatus::TaskReady
                &&& !self.shared.tasks.contains_key(task.id)
                &&& self.shared.schedulers.contains_key(task.core_id)
                &&& task.core_id == self.core.core_id ==> self.core.has_room(1)
            },
            Step::Finish | Step::Block(_) => self.core.current_task().status
                == TaskStatus::TaskRunning,
            Step::Join(id) => self.core.current_task().status == TaskStatus::TaskRunning
                && self.shared.tasks.contains_key(id),
            Step::Input => self.core.has_room(self.incoming().len() as int),
            Step::Update(r, task) => {
                &&& self.core.tasks.contains_key(r)
                &&& task.id == self.core.tasks[r].id
                &&& task.status == self.core.tasks[r].status
                &&& task.prio == self.core.tasks[r].prio
                &&& task.core_id == self.core.tasks[r].core_id
            },
            Step::Start(_) => false,
        }
    }

    /// The system after a step.
    pub open spec fn after(self, step: Step<C>) -> System<C> {
        match step {
            Step::Cleanup => self.cleaned(),
            Step::Schedule { slice_ticks, switch_ticks } => System {
                core: self.core.scheduled(slice_ticks, switch_ticks),
                ..self
            },
            Step::Wake(handle) => self.wake(handle),
            Step::Spawn(task) => self.spawned(task),
            Step::Finish => self.current_finished(),
            Step::Block(wakeup_time) => System {
                core: self.core.current_blocked(wakeup_time),
                ..self
            },
            Step::Join(id) => System {
                core: self.core.current_blocked(None),
                shared: self.shared.with_waiting(id, self.core.current_task().handle()),
                ..self
            },
            Step::Timer(now) => System { core: self.core.elapsed_woken(now), ..self },
            Step::Input => System {
                core: self.core.after_input(self.shared.inputs[self.core.input]),
                shared: self.shared.with_empty_input(self.core.input),
                ..self
            },
            Step::ClaimFpu => System { core: self.core.fpu_claimed(), ..self },
            Step::Update(r, task) => System {
                core: CoreView { tasks: self.core.tasks.insert(r, task), ..self.core },
                ..self
            },
            Step::MoveCounters { tid_counter, next_core_id } => System {
                shared: SharedView { tid_counter, next_core_id, ..self.shared },
                ..self
            },
            Step::Start(_) => self,
        }
    }
}

impl<C> Machine<C> {
    /// A core together with the state that all cores share.
    pub open spec fn at(self, core_id: CoreId) -> System<C> {
        system(self.cores[core_id], self.shared)
    }

    /// Says that every core is consistent, and that no identifier belongs to tasks of two
    /// cores.
    pub open spec fn consistent(self) -> bool {
        &&& self.shared.valid()
        &&& self.shared.schedulers.dom() == self.cores.dom()
        &&& forall|c: CoreId| #[trigger]
            self.cores.contains_key(c) ==> self.cores[c].core_id == c && self.at(c).consistent()
        &&& forall|c: CoreId, d: CoreId, id: TaskId|
            #![trigger self.at(c).owns(id), self.at(d).owns(id)]
            self.cores.contains_key(c) && self.cores.contains_key(d) && self.at(c).owns(id)
                && self.at(d).owns(id) ==> c == d
    }

    /// The machine after a core was replaced, together with what all cores share.
    pub open spec fn with_core(self, after: System<C>) -> Machine<C> {
        Machine {
            cores: self.cores.insert(after.core.core_id, after.core),
            shared: after.shared,
        }
    }

    /// Says that a core can do a step. To start, it has to be new, with an idle task that
    /// has an unused identifier.
    pub open spec fn can_do(self, core_id: CoreId, step: Step<C>) -> bool {
        match step {
            Step::Start(idle_task) => {
                &&& !self.cores.contains_key(core_id)
                &&& idle_task.core_id == core_id
                &&& idle_task.status == TaskStatus::TaskIdle
                &&& !self.shared.tasks.contains_key(idle_task.id)
            },
            _ => self.cores.contains_key(core_id) && self.at(core_id).can_do(step),
        }
    }

    /// The machine after a step of one core.
    pub open spec fn after(self, core_id: CoreId, step: Step<C>) -> Machine<C> {
        match step {
            Step::Start(idle_task) => self.with_core(
                system(
                    idle_core(core_id, self.shared.inputs.len() as int, idle_task),
                    self.shared.with_task(idle_task.id).with_scheduler(core_id),
                ),
            ),
            _ => self.with_core(self.at(core_id).after(step)),
        }
    }

    /// Says that the cores can do the given steps one after the other.
    pub open spec fn can_do_all(self, run: Seq<(CoreId, Step<C>)>) -> bool
        decreases run.len(),
    {
        run.len() == 0 || {
            &&& self.can_do(run[0].0, run[0].1)
            &&& self.after(run[0].0, run[0].1).can_do_all(run.drop_first())
        }
    }

    /// The machine after the given steps, from the first to the last.
    pub open spec fn after_all(self, run: Seq<(CoreId, Step<C>)>) -> Machine<C>
        decreases run.len(),
    {
        if run.len() == 0 {
            self
        } else {
            self.after(run[0].0, run[0].1).after_all(run.drop_first())
        }
    }
}

/// The tasks on their way to a core after a task may have been sent.
spec fn with_sent<C>(
    before: SharedView<C>,
    core_id: CoreId,
    sent: Option<Task<C>>,
) -> Seq<Task<C>> {
    let tasks = before.input_of(core_id).new_tasks;
    match sent {
        Some(task) => if task.core_id == core_id {
            tasks.push(task)
        } else {
            tasks
        },
        None => tasks,
    }
}

/// Says what another core can rely on when a core goes from one state to the next: only
/// tasks of the core itself are forgotten, new tasks have new identifiers, and at most
/// one of them is sent away.
spec fn step_is_safe<C>(before: System<C>, after: System<C>, sent: Option<Task<C>>) -> bool {
    &&& after.consistent()
    &&& after.core.same_core(before.core)
    &&& after.shared.same_schedulers(before.shared)
    &&& forall|id: TaskId|
        before.shared.tasks.contains_key(id) && !#[trigger] after.shared.tasks.contains_key(id)
            ==> before.owns(id)
    &&& forall|id: TaskId| #[trigger]
        after.owns(id) ==> before.owns(id) || !before.shared.tasks.contains_key(id)
    &&& forall|d: CoreId| #[trigger]
        before.shared.schedulers.contains_key(d) && d != before.core.core_id
            ==> after.shared.input_of(d).new_tasks == with_sent(before.shared, d, sent)
    &&& sent matches Some(task) ==> {
        &&& task.status == TaskStatus::TaskReady
        &&& !before.shared.tasks.contains_key(task.id)
        &&& after.shared.tasks.contains_key(task.id)
        &&& !after.owns(task.id)
    }
}

/// Every identifier that belongs to a task of a core is known.
proof fn lemma_owned_is_known<C>(before: System<C>, id: TaskId)
    requires
        before.consistent(),
        before.owns(id),
    ensures
        before.shared.tasks.contains_key(id),
{
    if before.core.finished.contains(id) {
        let k = choose|k: int| 0 <= k < before.core.finished.len() && before.core.finished[k] == id;
        assert(before.shared.tasks.contains_key(before.core.finished[k]));
    }
}

proof fn lemma_safe_step<C>(machine: Machine<C>, after: System<C>, sent: Option<Task<C>>)
    requires
        machine.consistent(),
        machine.cores.contains_key(after.core.core_id),
        step_is_safe(machine.at(after.core.core_id), after, sent),
    ensures
        machine.with_core(after).consistent(),
{
    let c = after.core.core_id;
    let before = machine.at(c);
    let next = machine.with_core(after);
    assert(next.shared.schedulers.dom() =~= next.cores.dom());
    assert forall|d: CoreId| #[trigger] next.cores.contains_key(d) implies next.cores[d].core_id == d
        && next.at(d).consistent() by {
        if d == c {
            assert(next.at(c).incoming() == after.incoming());
            lemma_notified_is_irrelevant(after);
        } else {
            lemma_other_core_is_consistent(machine, after, sent, d);
        }
    }
    assert forall|d: CoreId, e: CoreId, id: TaskId|
        #![trigger next.at(d).owns(id), next.at(e).owns(id)]
        next.cores.contains_key(d) && next.cores.contains_key(e) && next.at(d).owns(id)
            && next.at(e).owns(id) implies d == e by {
        lemma_ids_stay_separate(machine, after, sent, d, e, id);
    }
}

proof fn lemma_notified_is_irrelevant<C>(after: System<C>)
    ensures
        system(after.core, after.shared).consistent() == after.consistent(),
        forall|id: TaskId| #[trigger]
            system(after.core, after.shared).owns(id) == after.owns(id),
{
    let bare = system(after.core, after.shared);
    assert(bare.incoming() == after.incoming());
    assert(bare.core == after.core);
    assert forall|id: TaskId| #[trigger] bare.owns(id) == after.owns(id) by {}
}

/// What another core owns after a step it owned before, or it was just sent to it.
proof fn lemma_other_core_owns<C>(
    machine: Machine<C>,
    after: System<C>,
    sent: Option<Task<C>>,
    d: CoreId,
    id: TaskId,
)
    requires
        machine.consistent(),
        machine.cores.contains_key(after.core.core_id),
        machine.cores.contains_key(d),
        d != after.core.core_id,
        step_is_safe(machine.at(after.core.core_id), after, sent),
        machine.with_core(after).at(d).owns(id),
    ensures
        machine.at(d).owns(id) || (sent matches Some(task) && task.core_id == d && task.id == id),
{
    let here = machine.at(d);
    let there = machine.with_core(after).at(d);
    assert(there.core == here.core && here.core.core_id == d);
    assert(machine.shared.schedulers.contains_key(d));
    assert(there.incoming() == with_sent(machine.shared, d, sent));
    if exists|i: int| 0 <= i < there.incoming().len() && (#[trigger] there.incoming()[i]).id == id {
        let i = choose|i: int|
            0 <= i < there.incoming().len() && (#[trigger] there.incoming()[i]).id == id;
        if i < here.incoming().len() {
            assert(here.incoming()[i] == there.incoming()[i]);
        }
    } else if there.core.finished.contains(id) {
        assert(here.core.finished.contains(id));
    } else {
        let r = choose|r: TaskRef| #[trigger] there.core.live(r) && there.core.tasks[r].id == id;
        assert(here.core.live(r));
    }
}

proof fn lemma_ids_stay_separate<C>(
    machine: Machine<C>,
    after: System<C>,
    sent: Option<Task<C>>,
    d: CoreId,
    e: CoreId,
    id: TaskId,
)
    requires
        machine.consistent(),
        machine.cores.contains_key(after.core.core_id),
        step_is_safe(machine.at(after.core.core_id), after, sent),
        machine.cores.contains_key(d),
        machine.cores.contains_key(e),
        machine.with_core(after).at(d).owns(id),
        machine.with_core(after).at(e).owns(id),
    ensures
        d == e,
{
    let c = after.core.core_id;
    let next = machine.with_core(after);
    lemma_notified_is_irrelevant(after);
    assert(next.at(c) == system(after.core, after.shared));
    if d != c {
        lemma_other_core_owns(machine, after, sent, d, id);
        if machine.at(d).owns(id) {
            lemma_owned_is_known(machine.at(d), id);
        }
    }
    if e != c {
        lemma_other_core_owns(machine, after, sent, e, id);
        if machine.at(e).owns(id) {
            lemma_owned_is_known(machine.at(e), id);
        }
    }
}

proof fn lemma_other_core_is_consistent<C>(
    machine: Machine<C>,
    after: System<C>,
    sent: Option<Task<C>>,
    d: CoreId,
)
    requires
        machine.consistent(),
        machine.cores.contains_key(after.core.core_id),
        machine.cores.contains_key(d),
        d != after.core.core_id,
        step_is_safe(machine.at(after.core.core_id), after, sent),
    ensures
        machine.with_core(after).at(d).consistent(),
{
    let c = after.core.core_id;
    let before = machine.at(c);
    let here = machine.at(d);
    let there = machine.with_core(after).at(d);
    assert(there.core == here.core && here.core.core_id == d);
    assert(here.consistent());
    assert(machine.shared.schedulers.contains_key(d));
    assert(there.incoming() == with_sent(machine.shared, d, sent));
    assert(here.incoming() == machine.shared.input_of(d).new_tasks);
    assert forall|id: TaskId| #[trigger] here.owns(id) implies there.shared.tasks.contains_key(
        id,
    ) by {
        lemma_owned_is_known(here, id);
        if !after.shared.tasks.contains_key(id) {
            assert(before.owns(id));
        }
    }
    assert forall|r: TaskRef| #[trigger] there.core.live(r) implies there.shared.tasks.contains_key(
        there.core.tasks[r].id,
    ) by {
        assert(here.core.live(r));
        assert(here.owns(here.core.tasks[r].id));
    }
    assert forall|i: int|
        0 <= i < there.core.finished.len() implies there.shared.tasks.contains_key(
        #[trigger] there.core.finished[i],
    ) by {
        assert(here.core.finished.contains(here.core.finished[i]));
        assert(here.owns(here.core.finished[i]));
    }
    assert forall|i: int| 0 <= i < here.incoming().len() implies here.owns(
        (#[trigger] here.incoming()[i]).id,
    ) && there.incoming()[i] == here.incoming()[i] by {}
    assert forall|i: int| 0 <= i < there.incoming().len() implies {
        &&& (#[trigger] there.incoming()[i]).status == TaskStatus::TaskReady
        &&& there.shared.tasks.contains_key(there.incoming()[i].id)
    } by {
        if i < here.incoming().len() {
            assert(there.incoming()[i] == here.incoming()[i]);
        }
    }
    assert forall|i: int, j: int| 0 <= i < j < there.incoming().len() implies (
    #[trigger] there.incoming()[i]).id != (#[trigger] there.incoming()[j]).id by {
        assert(there.incoming()[i] == here.incoming()[i]);
        if j < here.incoming().len() {
            assert(there.incoming()[j] == here.incoming()[j]);
        }
    }
    assert forall|i: int, r: TaskRef|
        #![trigger there.incoming()[i], there.core.live(r)]
        0 <= i < there.incoming().len() && there.core.live(r) implies there.incoming()[i].id
        != there.core.tasks[r].id by {
        assert(here.core.live(r));
        if i < here.incoming().len() {
            assert(there.incoming()[i] == here.incoming()[i]);
        }
    }
    assert forall|i: int, j: int|
        #![trigger there.incoming()[i], there.core.finished[j]]
        0 <= i < there.incoming().len() && 0 <= j
            < there.core.finished.len() implies there.incoming()[i].id != there.core.finished[j] by {
        assert(here.shared.tasks.contains_key(here.core.finished[j]));
        if i < here.incoming().len() {
            assert(there.incoming()[i] == here.incoming()[i]);
        }
    }
}

/// Says that no task was sent to any core between two states.
spec fn nothing_sent<C>(before: System<C>, after: System<C>) -> bool {
    forall|d: CoreId| #[trigger]
        before.shared.schedulers.contains_key(d) ==> after.shared.input_of(d).new_tasks
            == before.shared.input_of(d).new_tasks
}

/// A step that brings no task to life and leaves the tasks on their way alone is safe, if
/// it forgets only finished tasks.
proof fn lemma_quiet_step_is_safe<C>(before: System<C>, after: System<C>)
    requires
        before.consistent(),
        after.consistent(),
        after.core.same_core(before.core),
        after.shared.same_schedulers(before.shared),
        nothing_sent(before, after),
        forall|r: TaskRef| #[trigger]
            after.core.live(r) ==> before.core.live(r) && after.core.tasks[r].id
                == before.core.tasks[r].id,
        forall|id: TaskId| #[trigger] after.core.finished.contains(id) ==> before.owns(id),
        forall|id: TaskId|
            before.shared.tasks.contains_key(id) && !#[trigger] after.shared.tasks.contains_key(id)
                ==> before.owns(id),
    ensures
        step_is_safe(before, after, None),
{
    assert(before.shared.schedulers.contains_key(before.core.core_id));
    assert(after.incoming() == before.incoming());
    assert forall|id: TaskId| #[trigger] after.owns(id) implies before.owns(id) by {
        if exists|r: TaskRef| #[trigger] after.core.live(r) && after.core.tasks[r].id == id {
            let r = choose|r: TaskRef| #[trigger]
                after.core.live(r) && after.core.tasks[r].id == id;
            assert(before.core.live(r));
        }
    }
}

proof fn lemma_step_is_safe<C>(before: System<C>, step: Step<C>) -> (sent: Option<Task<C>>)
    requires
        before.consistent(),
        before.can_do(step),
    ensures
        step_is_safe(before, before.after(step), sent),
{
    let after = before.after(step);
    match step {
        Step::Cleanup => {
            law_cleanup_keeps_consistent(before);
            assert(nothing_sent(before, after));
            lemma_quiet_step_is_safe(before, after);
            None
        },
        Step::Schedule { slice_ticks, switch_ticks } => {
            law_scheduling_keeps_consistent(before.core, slice_ticks, switch_ticks);
            lemma_scheduled_ids(before.core, slice_ticks, switch_ticks);
            lemma_schedule_step(before, slice_ticks, switch_ticks);
            None
        },
        Step::Wake(handle) => {
            law_custom_wakeup_keeps_consistent(before, handle);
            lemma_live_unchanged(before.core, after.core);
            lemma_quiet_step_is_safe(before, after);
            None
        },
        Step::Spawn(task) => {
            law_spawn_keeps_consistent(before, task);
            lemma_spawn_step(before, task);
            if task.core_id == before.core.core_id {
                None
            } else {
                Some(task)
            }
        },
        Step::Finish => {
            law_finish_keeps_consistent(before);
            lemma_quiet_step_is_safe(before, after);
            None
        },
        Step::Block(wakeup_time) => {
            law_blocking_keeps_consistent(before.core, wakeup_time);
            assert forall|r: TaskRef| #[trigger] after.core.live(r) implies before.core.live(r)
                && after.core.tasks[r].id == before.core.tasks[r].id by {}
            assert(after.incoming() == before.incoming());
            lemma_core_step_is_consistent(before, after.core);
            lemma_quiet_step_is_safe(before, after);
            None
        },
        Step::Join(id) => {
            law_join_keeps_consistent(before, id);
            assert forall|r: TaskRef| #[trigger] after.core.live(r) implies before.core.live(r)
                && after.core.tasks[r].id == before.core.tasks[r].id by {}
            lemma_quiet_step_is_safe(before, after);
            None
        },
        Step::Timer(now) => {
            law_timer_keeps_consistent(before.core, now);
            assert forall|r: TaskRef| #[trigger] after.core.live(r) implies before.core.live(r)
                && after.core.tasks[r].id == before.core.tasks[r].id by {
                assert(before.core.tasks.contains_key(r));
            }
            lemma_core_step_is_consistent(before, after.core);
            lemma_quiet_step_is_safe(before, after);
            None
        },
        Step::Input => {
            law_input_keeps_consistent(before);
            lemma_input_step(before);
            None
        },
        Step::ClaimFpu => {
            lemma_same_queues(before.core, after.core);
            lemma_core_step_is_consistent(before, after.core);
            lemma_quiet_step_is_safe(before, after);
            None
        },
        Step::Update(_, _) => {
            assert(after.core.tasks.dom() =~= before.core.tasks.dom());
            lemma_same_queues(before.core, after.core);
            lemma_core_step_is_consistent(before, after.core);
            lemma_quiet_step_is_safe(before, after);
            None
        },
        Step::MoveCounters { .. } => {
            assert(after.core == before.core && after.incoming() == before.incoming());
            assert(after.consistent());
            lemma_quiet_step_is_safe(before, after);
            None
        },
        Step::Start(_) => None,
    }
}

/// A step of a core is one of that core, and leaves all schedulers in place.
pub proof fn lemma_step_keeps_core<C>(before: System<C>, step: Step<C>)
    requires
        before.consistent(),
        before.can_do(step),
    ensures
        before.after(step).core.same_core(before.core),
        before.after(step).shared.same_schedulers(before.shared),
{
    let sent = lemma_step_is_safe(before, step);
}

/// A core stays consistent as long as its queues, and what they depend on in the tasks,
/// stay the same.
proof fn lemma_same_queues<C>(core: CoreView<C>, after: CoreView<C>)
    requires
        core.consistent(),
        after.valid(),
        after.current == core.current,
        after.idle == core.idle,
        after.ready == core.ready,
        after.blocked == core.blocked,
        after.finished == core.finished,
        after.tasks.dom() == core.tasks.dom(),
        forall|r: TaskRef| #[trigger]
            core.tasks.contains_key(r) ==> after.tasks[r].id == core.tasks[r].id
                && after.tasks[r].status == core.tasks[r].status,
    ensures
        after.consistent(),
        forall|r: TaskRef| #[trigger] after.live(r) ==> core.live(r),
{
    assert forall|r: TaskRef| #[trigger] after.tasks.contains_key(r) <==> core.tasks.contains_key(
        r,
    ) by {
        assert(after.tasks.dom().contains(r) <==> core.tasks.dom().contains(r));
    }
    assert forall|r: TaskRef| #[trigger] after.queued(r) <==> core.queued(r) by {}
    assert forall|r: TaskRef| #[trigger] after.waiting(r) <==> core.waiting(r) by {}
    assert forall|r: TaskRef| #[trigger] after.live(r) <==> core.live(r) by {
        assert(after.tasks.contains_key(r) <==> core.tasks.contains_key(r));
    }
    assert(core.live(core.current));
}

/// A system stays consistent when its core does, as long as the core gets no new tasks
/// and no more finished ones.
proof fn lemma_core_step_is_consistent<C>(before: System<C>, core: CoreView<C>)
    requires
        before.consistent(),
        core.consistent(),
        core.same_core(before.core),
        core.finished == before.core.finished,
        forall|r: TaskRef| #[trigger]
            core.live(r) ==> before.core.live(r) && core.tasks[r].id == before.core.tasks[r].id,
    ensures
        (System { core, ..before }).consistent(),
{
    let after = System { core, ..before };
    assert(after.incoming() == before.incoming());
}

proof fn lemma_schedule_step<C>(before: System<C>, slice_ticks: u64, switch_ticks: u64)
    requires
        before.consistent(),
        before.core.scheduled(slice_ticks, switch_ticks).consistent(),
    ensures
        step_is_safe(
            before,
            System { core: before.core.scheduled(slice_ticks, switch_ticks), ..before },
            None,
        ),
{
    let core = before.core.scheduled(slice_ticks, switch_ticks);
    let after = System { core, ..before };
    lemma_scheduled_ids(before.core, slice_ticks, switch_ticks);
    assert(after.incoming() == before.incoming());
    assert(before.core.live(before.core.current));
    assert(before.owns(before.core.current_task().id));
    assert forall|i: int| 0 <= i < core.finished.len() implies before.owns(
        #[trigger] core.finished[i],
    ) by {
        if i < before.core.finished.len() {
            assert(core.finished[i] == before.core.finished[i]);
            assert(before.core.finished.contains(before.core.finished[i]));
        }
    }
    assert forall|id: TaskId| #[trigger] core.finished.contains(id) implies before.owns(id) by {
        let k = choose|k: int| 0 <= k < core.finished.len() && core.finished[k] == id;
        assert(before.owns(core.finished[k]));
    }
    assert forall|i: int| 0 <= i < core.finished.len() implies after.shared.tasks.contains_key(
        #[trigger] core.finished[i],
    ) by {
        lemma_owned_is_known(before, core.finished[i]);
    }
    assert forall|r: TaskRef| #[trigger] core.live(r) implies before.core.live(r)
        && core.tasks[r].id == before.core.tasks[r].id by {}
    assert forall|i: int, j: int|
        #![trigger after.incoming()[i], core.finished[j]]
        0 <= i < after.incoming().len() && 0 <= j
            < core.finished.len() implies after.incoming()[i].id != core.finished[j] by {
        assert(after.incoming()[i] == before.incoming()[i]);
        if j < before.core.finished.len() {
            assert(core.finished[j] == before.core.finished[j]);
        }
    }
    assert(after.consistent());
    lemma_quiet_step_is_safe(before, after);
}

proof fn lemma_spawn_step<C>(before: System<C>, task: Task<C>)
    requires
        before.consistent(),
        before.can_do(Step::Spawn(task)),
        before.spawned(task).consistent(),
    ensures
        step_is_safe(
            before,
            before.spawned(task),
            if task.core_id == before.core.core_id {
                None
            } else {
                Some(task)
            },
        ),
{
    let after = before.spawned(task);
    let local = task.core_id == before.core.core_id;
    assert(after.incoming() == before.incoming());
    if local {
        lemma_next_ref(before.core.tasks);
    }
    let r = free_ref(before.core.tasks);
    assert forall|id: TaskId| #[trigger] after.owns(id) implies before.owns(id) || (local && id
        == task.id) by {
        if exists|q: TaskRef| #[trigger] after.core.live(q) && after.core.tasks[q].id == id {
            let q = choose|q: TaskRef| #[trigger]
                after.core.live(q) && after.core.tasks[q].id == id;
            if q != r || !local {
                assert(before.core.live(q));
            }
        }
    }
    if before.owns(task.id) {
        lemma_owned_is_known(before, task.id);
    }
}

proof fn lemma_input_step<C>(before: System<C>)
    requires
        before.consistent(),
        before.can_do(Step::Input),
        before.after(Step::Input).consistent(),
    ensures
        step_is_safe(before, before.after(Step::Input), None),
{
    let after = before.after(Step::Input);
    let input = before.shared.inputs[before.core.input];
    let woken = before.core.wake_all(input.wakeup_tasks);
    lemma_core_wake_all(before.core, input.wakeup_tasks);
    lemma_live_unchanged(before.core, woken);
    lemma_adopted_all_ids(woken, input.new_tasks);
    assert(after.incoming().len() == 0);
    assert forall|id: TaskId| #[trigger] after.owns(id) implies before.owns(id) by {
        if after.core.finished.contains(id) {
            assert(before.core.finished.contains(id));
        } else {
            let r = choose|r: TaskRef| #[trigger]
                after.core.live(r) && after.core.tasks[r].id == id;
            if exists|i: int|
                0 <= i < input.new_tasks.len() && (#[trigger] input.new_tasks[i]).id == id {
                let i = choose|i: int|
                    0 <= i < input.new_tasks.len() && (#[trigger] input.new_tasks[i]).id == id;
                assert(before.incoming()[i].id == id);
            } else {
                assert(woken.live(r) && woken.tasks[r].id == id);
                assert(before.core.live(r));
            }
        }
    }
}

/// New tasks bring their own identifiers, and no other ones.
pub proof fn lemma_adopted_all_ids<C>(core: CoreView<C>, tasks: Seq<Task<C>>)
    ensures
        core.adopted_all(tasks).same_core(core),
        core.adopted_all(tasks).finished == core.finished,
        forall|r: TaskRef| #[trigger]
            core.adopted_all(tasks).live(r) ==> {
                ||| core.live(r) && core.tasks[r].id == core.adopted_all(tasks).tasks[r].id
                ||| exists|i: int|
                    0 <= i < tasks.len() && (#[trigger] tasks[i]).id == core.adopted_all(
                        tasks,
                    ).tasks[r].id
            },
    decreases tasks.len(),
{
    if tasks.len() > 0 {
        let next = core.adopted(tasks[0]);
        let rest = tasks.drop_first();
        let after = core.adopted_all(tasks);
        lemma_adopted_all_ids(next, rest);
        assert forall|r: TaskRef| #[trigger] after.live(r) implies {
            ||| core.live(r) && core.tasks[r].id == after.tasks[r].id
            ||| exists|i: int| 0 <= i < tasks.len() && (#[trigger] tasks[i]).id == after.tasks[r].id
        } by {
            let id = after.tasks[r].id;
            if exists|i: int| 0 <= i < rest.len() && (#[trigger] rest[i]).id == id {
                let i = choose|i: int| 0 <= i < rest.len() && (#[trigger] rest[i]).id == id;
                assert(tasks[i + 1].id == id);
            } else {
                assert(next.live(r) && next.tasks[r].id == id);
                if r == free_ref(core.tasks) {
                    assert(tasks[0].id == id);
                } else {
                    assert(core.live(r));
                }
            }
        }
    }
}

/// Whatever one core does, all cores stay consistent: every task is where its status
/// says, and no identifier belongs to two tasks.
pub proof fn law_every_step_keeps_machine_consistent<C>(
    machine: Machine<C>,
    core_id: CoreId,
    step: Step<C>,
)
    requires
        machine.consistent(),
        machine.can_do(core_id, step),
    ensures
        machine.after(core_id, step).consistent(),
{
    match step {
        Step::Start(idle_task) => {
            law_new_core_keeps_machine_consistent(machine, core_id, idle_task);
        },
        _ => {
            assert(machine.at(core_id).consistent());
            let sent = lemma_step_is_safe(machine.at(core_id), step);
            lemma_safe_step(machine, machine.at(core_id).after(step), sent);
        },
    }
}

/// Whatever the cores do one after the other, all cores stay consistent.
pub proof fn law_every_run_keeps_machine_consistent<C>(
    machine: Machine<C>,
    run: Seq<(CoreId, Step<C>)>,
)
    requires
        machine.consistent(),
        machine.can_do_all(run),
    ensures
        machine.after_all(run).consistent(),
    decreases run.len(),
{
    if run.len() > 0 {
        law_every_step_keeps_machine_consistent(machine, run[0].0, run[0].1);
        law_every_run_keeps_machine_consistent(
            machine.after(run[0].0, run[0].1),
            run.drop_first(),
        );
    }
}

/// No two tasks of a machine that are alive have the same identifier, be they on one core
/// or on two.
pub proof fn law_identifiers_are_unique<C>(
    machine: Machine<C>,
    c: CoreId,
    d: CoreId,
    q: TaskRef,
    r: TaskRef,
)
    requires
        machine.consistent(),
        machine.cores.contains_key(c),
        machine.cores.contains_key(d),
        machine.cores[c].live(q),
        machine.cores[d].live(r),
        machine.cores[c].tasks[q].id == machine.cores[d].tasks[r].id,
    ensures
        c == d,
        q == r,
{
    let id = machine.cores[c].tasks[q].id;
    assert(machine.at(c).core.live(q) && machine.at(d).core.live(r));
    assert(machine.at(c).owns(id) && machine.at(d).owns(id));
    assert(machine.at(c).consistent());
}

/// A machine without cores is consistent.
pub proof fn law_empty_machine_is_consistent<C>(shared: SharedView<C>)
    requires
        shared.valid(),
        shared.schedulers == Map::<CoreId, int>::empty(),
    ensures
        (Machine { cores: Map::<CoreId, CoreView<C>>::empty(), shared }).consistent(),
{
    let machine = Machine { cores: Map::<CoreId, CoreView<C>>::empty(), shared };
    assert(machine.shared.schedulers.dom() =~= machine.cores.dom());
}

impl<C> Machine<C> {
    /// A machine before its first core is added.
    pub open spec fn boot() -> Machine<C> {
        Machine { cores: Map::empty(), shared: new_shared() }
    }
}

/// From boot on, whatever the cores do, and whenever they are added, all cores are
/// consistent.
pub proof fn law_machine_is_consistent_from_boot<C>(run: Seq<(CoreId, Step<C>)>)
    requires
        Machine::<C>::boot().can_do_all(run),
    ensures
        Machine::<C>::boot().after_all(run).consistent(),
{
    law_empty_machine_is_consistent(Machine::<C>::boot().shared);
    law_every_run_keeps_machine_consistent(Machine::<C>::boot(), run);
}

/// A core that is added to a machine, with an idle task that has an unused identifier,
/// keeps the machine consistent.
pub proof fn law_new_core_keeps_machine_consistent<C>(
    machine: Machine<C>,
    core_id: CoreId,
    idle_task: Task<C>,
)
    requires
        machine.consistent(),
        machine.can_do(core_id, Step::Start(idle_task)),
    ensures
        machine.after(core_id, Step::Start(idle_task)).consistent(),
{
    let after = system(
        idle_core(core_id, machine.shared.inputs.len() as int, idle_task),
        machine.shared.with_task(idle_task.id).with_scheduler(core_id),
    );
    let next = machine.after(core_id, Step::Start(idle_task));
    law_new_system_is_consistent(core_id, idle_task, machine.shared);
    assert(next.shared.schedulers.dom() =~= next.cores.dom());
    assert(next.at(core_id) == after);
    assert forall|d: CoreId| #[trigger] next.cores.contains_key(d) implies next.cores[d].core_id == d
        && next.at(d).consistent() by {
        if d != core_id {
            let here = machine.at(d);
            let there = next.at(d);
            assert(machine.cores.contains_key(d));
            assert(here.consistent());
            assert(there.core == here.core && there.incoming() == here.incoming());
        }
    }
    assert forall|id: TaskId| #[trigger] after.owns(id) implies id == idle_task.id by {
        assert(after.incoming().len() == 0);
        assert(after.core.finished.len() == 0);
    }
    assert forall|d: CoreId, id: TaskId|
        machine.cores.contains_key(d) && #[trigger] next.at(d).owns(id) implies machine.at(d).owns(
        id,
    ) && id != idle_task.id by {
        let here = machine.at(d);
        let there = next.at(d);
        assert(d != core_id && here.consistent());
        assert(there.core == here.core && there.incoming() == here.incoming());
        assert(here.owns(id));
        lemma_owned_is_known(here, id);
    }
    assert forall|d: CoreId, e: CoreId, id: TaskId|
        #![trigger next.at(d).owns(id), next.at(e).owns(id)]
        next.cores.contains_key(d) && next.cores.contains_key(e) && next.at(d).owns(id)
            && next.at(e).owns(id) implies d == e by {
        if d == core_id {
            assert(after.owns(id));
        }
        if e == core_id {
            assert(after.owns(id));
        }
    }
}

/// The operations of a scheduler that consist of several parts are runs of steps: a run of
/// the scheduler, the exit of the current task, a join, a new task, and what the idle task
/// does when it enters and when it continues.
pub proof fn law_operations_are_runs_of_steps<C>(
    before: System<C>,
    slice_ticks: u64,
    switch_ticks: u64,
    id: TaskId,
    task: Task<C>,
    next_core_id: u32,
)
    ensures
        before.scheduled(slice_ticks, switch_ticks) == before.after(Step::Cleanup).after(
            Step::Schedule { slice_ticks, switch_ticks },
        ),
        before.current_finished().scheduled(slice_ticks, switch_ticks) == before.after(
            Step::Finish,
        ).after(Step::Cleanup).after(Step::Schedule { slice_ticks, switch_ticks }),
        (System {
            core: before.core.current_blocked(None),
            shared: before.shared.with_waiting(id, before.core.current_task().handle()),
            ..before
        }).scheduled(slice_ticks, switch_ticks) == before.after(Step::Join(id)).after(
            Step::Cleanup,
        ).after(Step::Schedule { slice_ticks, switch_ticks }),
        (System {
            shared: SharedView { next_core_id, ..before.shared.after_get_tid() },
            ..before
        }).spawned(task) == before.after(
            Step::MoveCounters {
                tid_counter: wrapping_succ(before.shared.next_tid().0),
                next_core_id,
            },
        ).after(Step::Spawn(task)),
        idle_step(before, IdleEvent::Enter { slice_ticks, switch_ticks }) == (if before.switch(
            slice_ticks,
        ) is Some {
            before.after(Step::Cleanup).after(Step::Schedule { slice_ticks, switch_ticks })
        } else {
            before.after(Step::Cleanup).after(Step::Schedule { slice_ticks, switch_ticks }).after(
                Step::Cleanup,
            )
        }),
        idle_step(before, IdleEvent::Resumed) == before.after(Step::Cleanup),
{
}

} // verus!
