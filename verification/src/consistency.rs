//! What it means that every task is where its status says, and that the operations
//! of a scheduler keep it so.

use crate::blocked::{
    elapsed_count, first_with_id, holds_id, lemma_elapsed_count_exists, lemma_first_exists,
    lemma_place_exists, place, BlockedEntry,
};
use crate::model::{idle_core, lemma_one_more_woken, system, Choice, CoreView, System};
use crate::ready::{lemma_next_exists, next_entry, next_index, ReadyEntry};
use crate::shared::{
    lemma_new_task_keeps_valid, lemma_wakeup_keeps_valid, InputView, SharedView,
};
use crate::store::{free_ref, lemma_next_ref, lemma_one_more_ref};
use crate::task::{CoreId, Task, TaskHandle, TaskId, TaskRef, TaskStatus, WakeupReason};
use vstd::prelude::*;

verus! {

impl<C> CoreView<C> {
    /// Says that a task is alive: it is not waiting for its release.
    pub open spec fn live(self, r: TaskRef) -> bool {
        self.tasks.contains_key(r) && self.tasks[r].status != TaskStatus::TaskInvalid
    }

    /// Says that a task is in the ready queue.
    pub open spec fn queued(self, r: TaskRef) -> bool {
        exists|i: int| 0 <= i < self.ready.len() && (#[trigger] self.ready[i]).task == r
    }

    /// Says that a task is among the blocked tasks.
    pub open spec fn waiting(self, r: TaskRef) -> bool {
        exists|i: int| 0 <= i < self.blocked.len() && (#[trigger] self.blocked[i]).task == r
    }

    /// Says that every task is where its status says:
    /// - the idle task, and no other one, is idle,
    /// - exactly the ready tasks are in the ready queue, each of them once,
    /// - exactly the blocked tasks are among the blocked tasks, each of them once,
    /// - only the current task can be running or finished, and it is alive,
    /// - no two tasks that are alive have the same identifier, and none has that of a
    ///   task that waits for cleanup.
    pub open spec fn consistent(self) -> bool {
        &&& self.valid()
        &&& forall|r: TaskRef| #[trigger]
            self.tasks.contains_key(r) ==> (self.tasks[r].status == TaskStatus::TaskIdle <==> r
                == self.idle)
        &&& forall|r: TaskRef| #[trigger]
            self.tasks.contains_key(r) ==> (self.tasks[r].status == TaskStatus::TaskReady
                <==> self.queued(r))
        &&& forall|r: TaskRef| #[trigger]
            self.tasks.contains_key(r) ==> (self.tasks[r].status == TaskStatus::TaskBlocked
                <==> self.waiting(r))
        &&& forall|i: int, j: int|
            0 <= i < j < self.ready.len() ==> (#[trigger] self.ready[i]).task != (
            #[trigger] self.ready[j]).task
        &&& forall|i: int, j: int|
            0 <= i < j < self.blocked.len() ==> (#[trigger] self.blocked[i]).task != (
            #[trigger] self.blocked[j]).task
        &&& forall|r: TaskRef| #[trigger]
            self.tasks.contains_key(r) && (self.tasks[r].status == TaskStatus::TaskRunning
                || self.tasks[r].status == TaskStatus::TaskFinished) ==> r == self.current
        &&& self.live(self.current)
        &&& forall|q: TaskRef, r: TaskRef|
            #![trigger self.live(q), self.live(r)]
            self.live(q) && self.live(r) && self.tasks[q].id == self.tasks[r].id ==> q == r
        &&& forall|r: TaskRef, i: int|
            #![trigger self.live(r), self.finished[i]]
            self.live(r) && 0 <= i < self.finished.len() ==> self.tasks[r].id != self.finished[i]
    }
}

/// A core that was just added is consistent.
pub proof fn law_new_core_is_consistent<C>(core_id: CoreId, input: int, idle_task: Task<C>)
    requires
        idle_task.core_id == core_id,
        idle_task.status == TaskStatus::TaskIdle,
    ensures
        idle_core(core_id, input, idle_task).consistent(),
{
}

/// The scheduler leaves every task where its status says.
pub proof fn law_scheduling_keeps_consistent<C>(
    core: CoreView<C>,
    slice_ticks: u64,
    switch_ticks: u64,
)
    requires
        core.consistent(),
    ensures
        core.scheduled(slice_ticks, switch_ticks).consistent(),
{
    let after = core.scheduled(slice_ticks, switch_ticks);
    let c = core.current;
    match core.choice(slice_ticks) {
        Choice::Stay => {
            assert(after == core);
        },
        Choice::NextReady => {
            lemma_next_exists(core.ready);
            let n = next_index(core.ready);
            let r = core.ready[n].task;
            let rest = core.ready.remove(n);
            assert(core.queued(r));
            assert(core.live(r) && core.live(c));
            assert forall|i: int| 0 <= i < rest.len() implies (#[trigger] rest[i]).task != r by {
                let k = if i < n { i } else { i + 1 };
                assert(rest[i] == core.ready[k]);
            }
            assert forall|q: TaskRef| q != r implies ((exists|i: int|
                0 <= i < rest.len() && (#[trigger] rest[i]).task == q) <==> core.queued(q)) by {
                if core.queued(q) {
                    let k = choose|k: int|
                        0 <= k < core.ready.len() && (#[trigger] core.ready[k]).task == q;
                    let i = if k < n { k } else { k - 1 };
                    assert(rest[i] == core.ready[k]);
                }
                if exists|i: int| 0 <= i < rest.len() && (#[trigger] rest[i]).task == q {
                    let i = choose|i: int| 0 <= i < rest.len() && (#[trigger] rest[i]).task == q;
                    let k = if i < n { i } else { i + 1 };
                    assert(rest[i] == core.ready[k]);
                }
            }
            if core.tasks[c].status == TaskStatus::TaskRunning {
                assert(after.ready == rest.push(ReadyEntry { task: c, prio: core.tasks[c].prio }));
                assert(after.ready[rest.len() as int].task == c);
                assert forall|q: TaskRef| q != r && q != c implies (after.queued(q)
                    <==> core.queued(q)) by {
                    if core.queued(q) {
                        let i = choose|i: int|
                            0 <= i < rest.len() && (#[trigger] rest[i]).task == q;
                        assert(after.ready[i] == rest[i]);
                    }
                    if after.queued(q) {
                        let i = choose|i: int|
                            0 <= i < after.ready.len() && (#[trigger] after.ready[i]).task == q;
                        assert(after.ready[i] == rest[i]);
                    }
                }
            } else {
                assert(after.ready == rest);
            }
        },
        Choice::Idle => {
            assert(!core.queued(c));
            assert(core.live(core.idle) && core.live(c));
        },
    }
    assert forall|q: TaskRef| #[trigger] after.live(q) implies core.live(q) && after.tasks[q].id
        == core.tasks[q].id by {}
    assert forall|q: TaskRef, i: int|
        #![trigger after.live(q), after.finished[i]]
        after.live(q) && 0 <= i < after.finished.len() implies after.tasks[q].id
        != after.finished[i] by {
        if i < core.finished.len() {
            assert(after.finished[i] == core.finished[i]);
        } else {
            assert(after.finished[i] == core.tasks[c].id && core.live(c));
        }
    }
}

impl<C> CoreView<C> {
    /// Says that `after` differs only by wakeups for the given reason: some blocked
    /// tasks are ready, and nothing else has changed.
    pub open spec fn only_woken(self, reason: WakeupReason, after: CoreView<C>) -> bool {
        &&& after.same_core(self)
        &&& after.same_roles(self)
        &&& after.tasks.dom() == self.tasks.dom()
        &&& self.ready.is_prefix_of(after.ready)
        &&& forall|i: int|
            0 <= i < after.blocked.len() ==> self.blocked.contains(#[trigger] after.blocked[i])
        &&& forall|r: TaskRef| #[trigger]
            self.tasks.contains_key(r) ==> {
                ||| after.tasks[r] == self.tasks[r]
                ||| {
                    &&& self.tasks[r].status == TaskStatus::TaskBlocked
                    &&& after.queued(r)
                    &&& after.tasks[r] == CoreView::<C>::woken_task(self.tasks[r], reason)
                }
            }
    }
}

/// The state in which the blocked task at position `n` was woken up.
spec fn woken_at<C>(core: CoreView<C>, n: int, reason: WakeupReason) -> CoreView<C> {
    (CoreView { blocked: core.blocked.remove(n), ..core }).woken(core.blocked[n].task, reason)
}

proof fn lemma_woken_at<C>(core: CoreView<C>, n: int, reason: WakeupReason)
    requires
        core.consistent(),
        0 <= n < core.blocked.len(),
    ensures
        woken_at(core, n, reason).consistent(),
        core.only_woken(reason, woken_at(core, n, reason)),
{
    let after = woken_at(core, n, reason);
    let r = core.blocked[n].task;
    let rest = core.blocked.remove(n);
    assert(core.waiting(r));
    crate::blocked::lemma_remove_keeps_sorted(core.blocked, n);
    assert(after.blocked == rest);
    assert forall|i: int| 0 <= i < rest.len() implies (#[trigger] rest[i]).task != r by {
        let k = if i < n { i } else { i + 1 };
        assert(rest[i] == core.blocked[k]);
    }
    assert forall|q: TaskRef| q != r implies (#[trigger] after.waiting(q) <==> core.waiting(q)) by {
        if core.waiting(q) {
            let k = choose|k: int|
                0 <= k < core.blocked.len() && (#[trigger] core.blocked[k]).task == q;
            let i = if k < n { k } else { k - 1 };
            assert(rest[i] == core.blocked[k]);
        }
        if after.waiting(q) {
            let i = choose|i: int| 0 <= i < rest.len() && (#[trigger] rest[i]).task == q;
            let k = if i < n { i } else { i + 1 };
            assert(rest[i] == core.blocked[k]);
        }
    }
    assert(!core.queued(r));
    assert(after.ready[core.ready.len() as int].task == r);
    assert forall|q: TaskRef| q != r implies (#[trigger] after.queued(q) <==> core.queued(q)) by {
        if core.queued(q) {
            let k = choose|k: int|
                0 <= k < core.ready.len() && (#[trigger] core.ready[k]).task == q;
            assert(after.ready[k] == core.ready[k]);
        }
        if after.queued(q) {
            let i = choose|i: int|
                0 <= i < after.ready.len() && (#[trigger] after.ready[i]).task == q;
            assert(after.ready[i] == core.ready[i]);
        }
    }
    assert forall|i: int, j: int| 0 <= i < j < after.ready.len() implies (
    #[trigger] after.ready[i]).task != (#[trigger] after.ready[j]).task by {
        assert(after.ready[i] == core.ready[i]);
        if j < core.ready.len() {
            assert(after.ready[j] == core.ready[j]);
        } else {
            assert(after.ready[j].task == r);
            if core.ready[i].task == r {
                assert(core.queued(r));
            }
        }
    }
    assert forall|i: int, j: int| 0 <= i < j < rest.len() implies (#[trigger] rest[i]).task != (
    #[trigger] rest[j]).task by {
        let a = if i < n { i } else { i + 1 };
        let b = if j < n { j } else { j + 1 };
        assert(rest[i] == core.blocked[a] && rest[j] == core.blocked[b]);
    }
    assert forall|q: TaskRef| #[trigger] after.live(q) implies core.live(q)
        && after.tasks[q].id == core.tasks[q].id by {}
    assert(core.live(core.current));
    assert forall|i: int| 0 <= i < after.blocked.len() implies core.blocked.contains(
        #[trigger] after.blocked[i],
    ) by {
        let k = if i < n { i } else { i + 1 };
        assert(rest[i] == core.blocked[k]);
    }
    assert(after.tasks.dom() =~= core.tasks.dom());
    assert(after.tasks[r] == CoreView::<C>::woken_task(core.tasks[r], reason));
}

/// A wakeup leaves every task where its status says, and changes at most the task
/// that it is meant for.
pub proof fn law_wakeup_keeps_consistent<C>(core: CoreView<C>, id: TaskId)
    requires
        core.consistent(),
    ensures
        core.wake(id).consistent(),
        core.only_woken(WakeupReason::Custom, core.wake(id)),
        forall|r: TaskRef| #[trigger]
            core.tasks.contains_key(r) && core.tasks[r].id != id ==> core.wake(id).tasks[r]
                == core.tasks[r],
{
    if holds_id(core.blocked, id) {
        lemma_first_exists(core.blocked, id);
        lemma_woken_at(core, first_with_id(core.blocked, id), WakeupReason::Custom);
    }
}

proof fn lemma_only_woken_is_transitive<C>(
    reason: WakeupReason,
    a: CoreView<C>,
    b: CoreView<C>,
    c: CoreView<C>,
)
    requires
        a.only_woken(reason, b),
        b.only_woken(reason, c),
    ensures
        a.only_woken(reason, c),
{
    assert forall|r: TaskRef| #[trigger] a.tasks.contains_key(r) implies {
        ||| c.tasks[r] == a.tasks[r]
        ||| {
            &&& a.tasks[r].status == TaskStatus::TaskBlocked
            &&& c.queued(r)
            &&& c.tasks[r] == CoreView::<C>::woken_task(a.tasks[r], reason)
        }
    } by {
        assert(b.tasks.contains_key(r));
        if b.queued(r) {
            let i = choose|i: int| 0 <= i < b.ready.len() && (#[trigger] b.ready[i]).task == r;
            assert(c.ready[i] == b.ready[i]);
        }
    }
}

/// The wakeup of all tasks whose wakeup time has elapsed leaves every task where its
/// status says.
pub proof fn law_timer_keeps_consistent<C>(core: CoreView<C>, now: u64)
    requires
        core.consistent(),
    ensures
        core.elapsed_woken(now).consistent(),
        core.only_woken(WakeupReason::Timer, core.elapsed_woken(now)),
{
    lemma_elapsed_count_exists(core.blocked, now);
    lemma_first_blocked_woken(core, elapsed_count(core.blocked, now));
}

proof fn lemma_first_blocked_woken<C>(core: CoreView<C>, n: int)
    requires
        core.consistent(),
        0 <= n <= core.blocked.len(),
    ensures
        core.first_blocked_woken(n).consistent(),
        core.only_woken(WakeupReason::Timer, core.first_blocked_woken(n)),
    decreases n,
{
    if n == 0 {
        assert(core.first_blocked_woken(0) =~= core);
    } else {
        let before = core.first_blocked_woken(n - 1);
        lemma_first_blocked_woken(core, n - 1);
        lemma_one_more_woken(core, n - 1);
        lemma_woken_at(before, 0, WakeupReason::Timer);
        lemma_only_woken_is_transitive(
            WakeupReason::Timer,
            core,
            before,
            core.first_blocked_woken(n),
        );
    }
}

/// A running task that blocks is afterwards among the blocked tasks, and every other
/// task stays where it was.
pub proof fn law_blocking_keeps_consistent<C>(core: CoreView<C>, wakeup_time: Option<u64>)
    requires
        core.consistent(),
        core.current_task().status == TaskStatus::TaskRunning,
    ensures
        core.current_blocked(wakeup_time).consistent(),
{
    let after = core.current_blocked(wakeup_time);
    let c = core.current;
    let p = place(core.blocked, wakeup_time);
    lemma_place_exists(core.blocked, wakeup_time);
    let entry = BlockedEntry { task: c, id: core.current_task().id, wakeup_time };
    crate::blocked::lemma_place_keeps_sorted(core.blocked, entry, p);
    assert(!core.waiting(c) && !core.queued(c));
    assert(after.blocked[p] == entry);
    assert forall|q: TaskRef| q != c implies (#[trigger] after.waiting(q) <==> core.waiting(q)) by {
        if core.waiting(q) {
            let k = choose|k: int|
                0 <= k < core.blocked.len() && (#[trigger] core.blocked[k]).task == q;
            let i = if k < p { k } else { k + 1 };
            assert(after.blocked[i] == core.blocked[k]);
        }
        if after.waiting(q) {
            let i = choose|i: int|
                0 <= i < after.blocked.len() && (#[trigger] after.blocked[i]).task == q;
            let k = if i < p { i } else { i - 1 };
            assert(after.blocked[i] == core.blocked[k]);
        }
    }
    assert forall|i: int, j: int| 0 <= i < j < after.blocked.len() implies (
    #[trigger] after.blocked[i]).task != (#[trigger] after.blocked[j]).task by {
        if i == p {
            assert(after.blocked[j] == core.blocked[j - 1]);
        } else if j == p {
            assert(after.blocked[i] == core.blocked[i]);
        } else {
            let a = if i < p { i } else { i - 1 };
            let b = if j < p { j } else { j - 1 };
            assert(after.blocked[i] == core.blocked[a] && after.blocked[j] == core.blocked[b]);
        }
    }
    assert forall|i: int| 0 <= i < after.blocked.len() implies after.tasks.contains_key(
        (#[trigger] after.blocked[i]).task,
    ) && after.tasks[after.blocked[i].task].id == after.blocked[i].id by {
        if i != p {
            let k = if i < p { i } else { i - 1 };
            assert(after.blocked[i] == core.blocked[k]);
        }
    }
    assert forall|q: TaskRef| #[trigger] after.live(q) implies core.live(q) && after.tasks[q].id
        == core.tasks[q].id by {}
}

/// A new task with an identifier of its own leaves every task where its status says.
pub proof fn law_new_task_keeps_consistent<C>(core: CoreView<C>, task: Task<C>)
    requires
        core.consistent(),
        core.has_room(1),
        task.core_id == core.core_id,
        task.status == TaskStatus::TaskReady,
        forall|r: TaskRef| #[trigger] core.live(r) ==> core.tasks[r].id != task.id,
        forall|i: int| 0 <= i < core.finished.len() ==> #[trigger] core.finished[i] != task.id,
    ensures
        core.adopted(task).consistent(),
        core.adopted(task).queued(free_ref(core.tasks)),
        core.adopted(task).tasks == core.tasks.insert(free_ref(core.tasks), task),
        !core.tasks.contains_key(free_ref(core.tasks)),
{
    let after = core.adopted(task);
    let r = free_ref(core.tasks);
    lemma_next_ref(core.tasks);
    assert(!core.waiting(r) && !core.queued(r));
    assert(after.ready[core.ready.len() as int].task == r);
    assert forall|q: TaskRef| q != r implies (#[trigger] after.queued(q) <==> core.queued(q)) by {
        if core.queued(q) {
            let k = choose|k: int|
                0 <= k < core.ready.len() && (#[trigger] core.ready[k]).task == q;
            assert(after.ready[k] == core.ready[k]);
        }
        if after.queued(q) {
            let i = choose|i: int|
                0 <= i < after.ready.len() && (#[trigger] after.ready[i]).task == q;
            assert(after.ready[i] == core.ready[i]);
        }
    }
    assert forall|q: TaskRef| #[trigger] after.waiting(q) <==> core.waiting(q) by {}
    assert forall|i: int, j: int| 0 <= i < j < after.ready.len() implies (
    #[trigger] after.ready[i]).task != (#[trigger] after.ready[j]).task by {
        assert(after.ready[i] == core.ready[i]);
        if j < core.ready.len() {
            assert(after.ready[j] == core.ready[j]);
        }
    }
    assert forall|q: TaskRef| #[trigger] after.live(q) && q != r implies core.live(q)
        && after.tasks[q].id == core.tasks[q].id by {}
    assert(core.live(core.current));
}

/// The release of the tasks to which nothing refers keeps every task that is alive.
pub proof fn law_release_keeps_live_tasks<C>(core: CoreView<C>)
    requires
        core.consistent(),
    ensures
        core.released().consistent(),
        forall|r: TaskRef| #[trigger] core.live(r) ==> core.released().live(r)
            && core.released().tasks[r] == core.tasks[r],
        forall|r: TaskRef| #[trigger] core.released().tasks.contains_key(r)
            ==> core.tasks.contains_key(r) && core.released().tasks[r] == core.tasks[r],
{
    let after = core.released();
    assert forall|r: TaskRef| #[trigger] core.live(r) implies core.refers_to(r) by {
        assert(core.tasks.contains_key(r));
        assert(core.queued(r) ==> core.refers_to(r));
        assert(core.waiting(r) ==> core.refers_to(r));
    }
    assert(core.live(core.current) && core.live(core.idle));
    assert forall|i: int| 0 <= i < core.ready.len() implies core.refers_to(
        (#[trigger] core.ready[i]).task,
    ) by {}
    assert forall|i: int| 0 <= i < core.blocked.len() implies core.refers_to(
        (#[trigger] core.blocked[i]).task,
    ) by {}
    assert(after.ready == core.ready && after.blocked == core.blocked);
    assert forall|r: TaskRef| #[trigger] after.queued(r) <==> core.queued(r) by {}
    assert forall|r: TaskRef| #[trigger] after.waiting(r) <==> core.waiting(r) by {}
    assert forall|r: TaskRef| #[trigger] after.live(r) implies core.live(r) && after.tasks[r]
        == core.tasks[r] by {}
}

impl<C> System<C> {
    /// The tasks on their way to the core.
    pub open spec fn incoming(self) -> Seq<Task<C>> {
        self.shared.inputs[self.core.input].new_tasks
    }

    /// Says that the core is consistent and has a scheduler that other cores find, that
    /// every task of it and on its way to it is known under its identifier, and that no
    /// two of them share one.
    pub open spec fn consistent(self) -> bool {
        &&& self.core.consistent()
        &&& self.shared.valid()
        &&& self.shared.schedulers.contains_key(self.core.core_id)
        &&& self.shared.schedulers[self.core.core_id] == self.core.input
        &&& forall|r: TaskRef| #[trigger]
            self.core.live(r) ==> self.shared.tasks.contains_key(self.core.tasks[r].id)
        &&& forall|i: int|
            0 <= i < self.core.finished.len() ==> self.shared.tasks.contains_key(
                #[trigger] self.core.finished[i],
            )
        &&& forall|i: int|
            0 <= i < self.incoming().len() ==> {
                &&& (#[trigger] self.incoming()[i]).status == TaskStatus::TaskReady
                &&& self.shared.tasks.contains_key(self.incoming()[i].id)
            }
        &&& forall|i: int, j: int|
            0 <= i < j < self.incoming().len() ==> (#[trigger] self.incoming()[i]).id != (
            #[trigger] self.incoming()[j]).id
        &&& forall|i: int, r: TaskRef|
            #![trigger self.incoming()[i], self.core.live(r)]
            0 <= i < self.incoming().len() && self.core.live(r) ==> self.incoming()[i].id
                != self.core.tasks[r].id
        &&& forall|i: int, j: int|
            #![trigger self.incoming()[i], self.core.finished[j]]
            0 <= i < self.incoming().len() && 0 <= j < self.core.finished.len()
                ==> self.incoming()[i].id != self.core.finished[j]
    }
}

/// A scheduler that was just added forms a consistent system.
pub proof fn law_new_system_is_consistent<C>(
    core_id: CoreId,
    idle_task: Task<C>,
    shared: SharedView<C>,
)
    requires
        shared.valid(),
        idle_task.core_id == core_id,
        idle_task.status == TaskStatus::TaskIdle,
    ensures
        system(
            idle_core(core_id, shared.inputs.len() as int, idle_task),
            shared.with_task(idle_task.id).with_scheduler(core_id),
        ).consistent(),
{
    let after = system(
        idle_core(core_id, shared.inputs.len() as int, idle_task),
        shared.with_task(idle_task.id).with_scheduler(core_id),
    );
    lemma_new_scheduler_keeps_valid(shared, core_id, idle_task.id);
    assert(after.incoming() =~= Seq::empty());
}

/// A new scheduler together with its idle task keeps the shared state valid.
proof fn lemma_new_scheduler_keeps_valid<C>(
    shared: SharedView<C>,
    core_id: CoreId,
    id: TaskId,
)
    requires
        shared.valid(),
    ensures
        shared.with_task(id).with_scheduler(core_id).valid(),
{
    let after = shared.with_task(id).with_scheduler(core_id);
    assert forall|k: int, i: int|
        0 <= k < after.inputs.len() && 0 <= i < after.inputs[k].new_tasks.len() implies (
    #[trigger] after.inputs[k].new_tasks[i]).core_id == after.owners[k] by {
        assert(after.inputs[k].new_tasks[i] == shared.inputs[k].new_tasks[i]);
    }
}

impl<C> System<C> {
    /// Says that at most wakeups have been carried out since then: tasks of the core may
    /// have become ready, and inputs of other cores may have got more wakeup requests.
    /// It leaves open which tasks are known.
    pub open spec fn only_wakeups_since(self, before: System<C>) -> bool {
        &&& self.core.same_core(before.core)
        &&& self.core.same_roles(before.core)
        &&& self.shared.same_schedulers(before.shared)
        &&& self.shared.no_tasks == before.shared.no_tasks
        &&& self.shared.tid_counter == before.shared.tid_counter
        &&& self.shared.next_core_id == before.shared.next_core_id
        &&& self.shared.inputs.len() == before.shared.inputs.len()
        &&& forall|k: int|
            #![trigger self.shared.inputs[k]]
            #![trigger before.shared.inputs[k]]
            0 <= k < before.shared.inputs.len() ==> {
                &&& self.shared.inputs[k].new_tasks == before.shared.inputs[k].new_tasks
                &&& before.shared.inputs[k].wakeup_tasks.is_prefix_of(
                    self.shared.inputs[k].wakeup_tasks,
                )
                &&& before.shared.owners[k] == before.core.core_id ==> self.shared.inputs[k]
                    == before.shared.inputs[k]
            }
        &&& before.notified.is_prefix_of(self.notified)
    }
}

/// A wakeup changes at most a blocked task of the core or the requests for another core.
pub proof fn lemma_wake_frame<C>(before: System<C>, handle: TaskHandle)
    requires
        before.shared.valid(),
        before.shared.schedulers.contains_key(handle.core_id),
    ensures
        before.wake(handle).only_wakeups_since(before),
        before.wake(handle).shared.tasks == before.shared.tasks,
        before.wake(handle).shared.valid(),
{
    if handle.core_id != before.core.core_id {
        lemma_wakeup_keeps_valid(before.shared, handle.core_id, handle);
    }
}

/// Wakeups change at most blocked tasks of the core and the requests for other cores.
pub proof fn lemma_wake_all_frame<C>(before: System<C>, handles: Seq<TaskHandle>)
    requires
        before.shared.valid(),
        forall|i: int|
            0 <= i < handles.len() ==> before.shared.schedulers.contains_key(
                (#[trigger] handles[i]).core_id,
            ),
    ensures
        before.wake_all(handles).only_wakeups_since(before),
        before.wake_all(handles).shared.tasks == before.shared.tasks,
        before.wake_all(handles).shared.valid(),
    decreases handles.len(),
{
    if handles.len() > 0 {
        let next = before.wake(handles[0]);
        lemma_wake_frame(before, handles[0]);
        lemma_wake_all_frame(next, handles.drop_first());
        lemma_only_wakeups_is_transitive(before, next, before.wake_all(handles));
    }
}

proof fn lemma_only_wakeups_is_transitive<C>(a: System<C>, b: System<C>, c: System<C>)
    requires
        b.only_wakeups_since(a),
        c.only_wakeups_since(b),
    ensures
        c.only_wakeups_since(a),
{
    assert forall|k: int|
        #![trigger c.shared.inputs[k]]
        #![trigger a.shared.inputs[k]]
        0 <= k < a.shared.inputs.len() implies {
        &&& c.shared.inputs[k].new_tasks == a.shared.inputs[k].new_tasks
        &&& a.shared.inputs[k].wakeup_tasks.is_prefix_of(c.shared.inputs[k].wakeup_tasks)
        &&& a.shared.owners[k] == a.core.core_id ==> c.shared.inputs[k] == a.shared.inputs[k]
    } by {
        assert(b.shared.inputs[k].new_tasks == a.shared.inputs[k].new_tasks);
    }
}

/// Those who wait for a task belong to cores with schedulers.
pub proof fn lemma_waiting_is_valid<C>(shared: SharedView<C>, id: TaskId)
    requires
        shared.valid(),
    ensures
        shared.without_task(id).valid(),
        forall|i: int|
            0 <= i < shared.waiting(id).len() ==> shared.schedulers.contains_key(
                (#[trigger] shared.waiting(id)[i]).core_id,
            ),
{
    assert forall|i: int| 0 <= i < shared.waiting(id).len() implies shared.schedulers.contains_key(
        (#[trigger] shared.waiting(id)[i]).core_id,
    ) by {
        assert(shared.tasks[id][i] == shared.waiting(id)[i]);
    }
}

/// To forget tasks and to wake up those who wait for them changes nothing else.
proof fn lemma_forgotten_all_frame<C>(before: System<C>, ids: Seq<TaskId>)
    requires
        before.shared.valid(),
    ensures
        before.forgotten_all(ids).only_wakeups_since(before),
        before.forgotten_all(ids).shared.tasks == before.shared.tasks.remove_keys(ids.to_set()),
        before.forgotten_all(ids).shared.valid(),
    decreases ids.len(),
{
    let after = before.forgotten_all(ids);
    if ids.len() > 0 {
        let id = ids[0];
        let rest = ids.drop_first();
        let forgotten = System { shared: before.shared.without_task(id), ..before };
        lemma_waiting_is_valid(before.shared, id);
        lemma_wake_all_frame(forgotten, before.shared.waiting(id));
        let next = forgotten.wake_all(before.shared.waiting(id));
        assert(forgotten.only_wakeups_since(before));
        lemma_only_wakeups_is_transitive(before, forgotten, next);
        lemma_forgotten_all_frame(next, rest);
        lemma_only_wakeups_is_transitive(before, next, after);
        assert forall|other: TaskId| ids.contains(other) <==> other == id || rest.contains(
            other,
        ) by {
            lemma_contains_first_or_rest(ids, other);
        }
        assert(after.shared.tasks =~= before.shared.tasks.remove_keys(ids.to_set()));
    } else {
        assert(after.shared.tasks =~= before.shared.tasks.remove_keys(ids.to_set()));
    }
}

/// An identifier is the first one or among the rest.
pub proof fn lemma_contains_first_or_rest(ids: Seq<TaskId>, id: TaskId)
    requires
        ids.len() > 0,
    ensures
        ids.contains(id) <==> id == ids[0] || ids.drop_first().contains(id),
{
    let rest = ids.drop_first();
    if ids.contains(id) && id != ids[0] {
        let k = choose|k: int| 0 <= k < ids.len() && ids[k] == id;
        assert(rest[k - 1] == id);
    }
    if rest.contains(id) {
        let k = choose|k: int| 0 <= k < rest.len() && rest[k] == id;
        assert(ids[k + 1] == id);
    }
}

/// The cleanup forgets exactly the finished tasks, and leaves none to clean up. Those
/// who wait for other tasks still do. It does not change how many tasks are counted, who
/// owns the FPU, which task has the core, and which tasks are on their way to a core. The
/// requests for the core itself stay as they are.
pub proof fn law_cleanup_forgets_exactly_finished_tasks<C>(before: System<C>)
    requires
        before.shared.valid(),
    ensures
        before.cleaned().shared.tasks == before.shared.tasks.remove_keys(
            before.core.finished.to_set(),
        ),
        before.cleaned().core.finished.len() == 0,
        before.cleaned().only_wakeups_since(cleanup_start(before)),
        before.cleaned().shared.no_tasks == before.shared.no_tasks,
        before.cleaned().core.fpu_owner == before.core.fpu_owner,
        before.cleaned().core.current == before.core.current,
        before.core.attached_to(before.shared) ==> before.cleaned().shared.inputs[before.core.input]
            == before.shared.inputs[before.core.input],
        before.cleaned().shared.valid(),
{
    let start = cleanup_start(before);
    lemma_forgotten_all_frame(start, before.core.finished);
    if before.core.finished.len() == 0 {
        assert(start == before) by {
            assert(before.core.finished =~= Seq::empty());
        }
    }
}

/// A second cleanup has nothing to do: as long as no further task has finished, it changes
/// nothing, wakes up nobody, and notifies no core.
pub proof fn law_second_cleanup_does_nothing<C>(before: System<C>)
    requires
        before.shared.valid(),
    ensures
        before.cleaned().cleaned() == before.cleaned(),
        !before.cleaned().finished_awaited(),
{
    law_cleanup_forgets_exactly_finished_tasks(before);
}

/// A wakeup keeps a system consistent, whether it is for this core or for another
/// one.
pub proof fn law_custom_wakeup_keeps_consistent<C>(before: System<C>, handle: TaskHandle)
    requires
        before.consistent(),
        before.shared.schedulers.contains_key(handle.core_id),
    ensures
        before.wake(handle).consistent(),
        before.core.only_woken(WakeupReason::Custom, before.wake(handle).core),
        before.wake(handle).shared.tasks == before.shared.tasks,
        before.wake(handle).only_wakeups_since(before),
{
    let after = before.wake(handle);
    law_wakeup_keeps_consistent(before.core, handle.id);
    lemma_wake_frame(before, handle);
    lemma_live_unchanged(before.core, after.core);
    assert(after.incoming() == before.incoming());
}

/// Wakeups bring no task to life, and end the life of none.
pub proof fn lemma_live_unchanged<C>(core: CoreView<C>, after: CoreView<C>)
    requires
        core.only_woken(WakeupReason::Custom, after),
    ensures
        forall|r: TaskRef| #[trigger] after.live(r) ==> core.live(r),
        forall|r: TaskRef| #[trigger] core.live(r) ==> after.live(r),
        forall|r: TaskRef|
            core.tasks.contains_key(r) ==> (#[trigger] after.tasks[r]).id == core.tasks[r].id,
{
    assert forall|r: TaskRef| core.tasks.contains_key(r) implies (#[trigger] after.tasks[r]).id
        == core.tasks[r].id by {}
}

pub proof fn lemma_wake_all_keeps_consistent<C>(before: System<C>, handles: Seq<TaskHandle>)
    requires
        before.consistent(),
        forall|i: int|
            0 <= i < handles.len() ==> before.shared.schedulers.contains_key(
                (#[trigger] handles[i]).core_id,
            ),
    ensures
        before.wake_all(handles).consistent(),
        before.core.only_woken(WakeupReason::Custom, before.wake_all(handles).core),
        before.wake_all(handles).shared.tasks == before.shared.tasks,
        before.wake_all(handles).only_wakeups_since(before),
    decreases handles.len(),
{
    lemma_wake_all_frame(before, handles);
    if handles.len() > 0 {
        law_custom_wakeup_keeps_consistent(before, handles[0]);
        let next = before.wake(handles[0]);
        lemma_wake_all_keeps_consistent(next, handles.drop_first());
        lemma_only_woken_is_transitive(
            WakeupReason::Custom,
            before.core,
            next.core,
            before.wake_all(handles).core,
        );
    }
}

pub proof fn lemma_forgotten_all_keeps_consistent<C>(before: System<C>, ids: Seq<TaskId>)
    requires
        before.consistent(),
        before.core.finished.len() == 0,
        forall|i: int, r: TaskRef|
            #![trigger ids[i], before.core.live(r)]
            0 <= i < ids.len() && before.core.live(r) ==> ids[i] != before.core.tasks[r].id,
        forall|i: int, j: int|
            #![trigger ids[i], before.incoming()[j]]
            0 <= i < ids.len() && 0 <= j < before.incoming().len() ==> ids[i]
                != before.incoming()[j].id,
    ensures
        before.forgotten_all(ids).consistent(),
        before.core.only_woken(WakeupReason::Custom, before.forgotten_all(ids).core),
        before.forgotten_all(ids).only_wakeups_since(before),
        before.forgotten_all(ids).shared.tasks == before.shared.tasks.remove_keys(ids.to_set()),
    decreases ids.len(),
{
    lemma_forgotten_all_frame(before, ids);
    if ids.len() > 0 {
        let id = ids[0];
        let forgotten = System { shared: before.shared.without_task(id), ..before };
        let waiting = before.shared.waiting(id);
        assert(forgotten.incoming() == before.incoming());
        lemma_waiting_is_valid(before.shared, id);
        assert(forgotten.consistent());
        lemma_wake_all_keeps_consistent(forgotten, waiting);
        let next = forgotten.wake_all(waiting);
        lemma_live_unchanged(before.core, next.core);
        let rest = ids.drop_first();
        assert forall|i: int, r: TaskRef|
            #![trigger rest[i], next.core.live(r)]
            0 <= i < rest.len() && next.core.live(r) implies rest[i] != next.core.tasks[r].id by {
            assert(rest[i] == ids[i + 1]);
            assert(before.core.live(r));
        }
        assert forall|i: int, j: int|
            #![trigger rest[i], next.incoming()[j]]
            0 <= i < rest.len() && 0 <= j < next.incoming().len() implies rest[i]
            != next.incoming()[j].id by {
            assert(rest[i] == ids[i + 1]);
            assert(before.incoming()[j] == next.incoming()[j]);
        }
        lemma_forgotten_all_keeps_consistent(next, rest);
        lemma_only_woken_is_transitive(
            WakeupReason::Custom,
            before.core,
            next.core,
            before.forgotten_all(ids).core,
        );
    }
}

/// The system at the start of a cleanup, which has taken over the finished tasks.
pub open spec fn cleanup_start<C>(before: System<C>) -> System<C> {
    System { core: CoreView { finished: Seq::empty(), ..before.core }, ..before }
}

pub proof fn lemma_cleanup_start<C>(before: System<C>)
    requires
        before.consistent(),
    ensures
        cleanup_start(before).consistent(),
        cleanup_start(before).forgotten_all(before.core.finished).consistent(),
        cleanup_start(before).core.only_woken(
            WakeupReason::Custom,
            cleanup_start(before).forgotten_all(before.core.finished).core,
        ),
        cleanup_start(before).forgotten_all(before.core.finished).only_wakeups_since(
            cleanup_start(before),
        ),
        cleanup_start(before).forgotten_all(before.core.finished).shared.tasks
            == before.shared.tasks.remove_keys(before.core.finished.to_set()),
{
    let start = cleanup_start(before);
    assert(start.core.ready == before.core.ready && start.core.blocked == before.core.blocked);
    assert forall|r: TaskRef| #[trigger] start.core.live(r) <==> before.core.live(r) by {}
    assert forall|r: TaskRef| #[trigger] start.core.queued(r) <==> before.core.queued(r) by {}
    assert forall|r: TaskRef| #[trigger] start.core.waiting(r) <==> before.core.waiting(r) by {}
    assert(start.core.valid());
    assert(start.core.consistent());
    assert(start.incoming() == before.incoming());
    assert(start.consistent());
    lemma_forgotten_all_keeps_consistent(start, before.core.finished);
}

/// The cleanup forgets exactly the finished tasks of the core, keeps every task that
/// is alive, and leaves no task to clean up.
pub proof fn law_cleanup_keeps_consistent<C>(before: System<C>)
    requires
        before.consistent(),
    ensures
        before.cleaned().consistent(),
        before.cleaned().core.finished.len() == 0,
        before.cleaned().only_wakeups_since(cleanup_start(before)),
        before.cleaned().shared.tasks == before.shared.tasks.remove_keys(
            before.core.finished.to_set(),
        ),
        before.cleaned().incoming() == before.incoming(),
        forall|r: TaskRef| #[trigger] before.core.live(r) <==> before.cleaned().core.live(r),
        forall|r: TaskRef| #[trigger]
            before.core.live(r) ==> before.cleaned().core.tasks[r].id == before.core.tasks[r].id
                && before.cleaned().core.tasks[r].prio == before.core.tasks[r].prio,
        before.cleaned().core.current == before.core.current,
        before.cleaned().core.idle == before.core.idle,
        before.cleaned().core.fpu_owner == before.core.fpu_owner,
        before.cleaned().shared.no_tasks == before.shared.no_tasks,
        before.cleaned().shared.inputs[before.core.input]
            == before.shared.inputs[before.core.input],
{
    law_cleanup_forgets_exactly_finished_tasks(before);
    let finished = before.core.finished;
    if finished.len() > 0 {
        let start = cleanup_start(before);
        lemma_cleanup_start(before);
        assert forall|r: TaskRef| #[trigger] start.core.live(r) <==> before.core.live(r) by {}
        assert(start.incoming() == before.incoming());
        let after = start.forgotten_all(finished);
        lemma_live_unchanged(start.core, after.core);
        law_release_keeps_live_tasks(after.core);
        let end = before.cleaned();
        assert(end.incoming() == after.incoming());
        assert forall|r: TaskRef| #[trigger] end.core.live(r) <==> after.core.live(r) by {}
        assert forall|r: TaskRef| #[trigger] before.core.live(r) implies end.core.tasks[r].id
            == before.core.tasks[r].id && end.core.tasks[r].prio == before.core.tasks[r].prio by {
            assert(start.core.tasks.contains_key(r));
            assert(after.core.live(r));
        }
        assert(end.consistent());
    }
}

/// The scheduler keeps a system consistent.
pub proof fn law_scheduler_keeps_consistent<C>(
    before: System<C>,
    slice_ticks: u64,
    switch_ticks: u64,
)
    requires
        before.consistent(),
    ensures
        before.scheduled(slice_ticks, switch_ticks).consistent(),
{
    law_cleanup_keeps_consistent(before);
    let cleaned = before.cleaned();
    let after = before.scheduled(slice_ticks, switch_ticks);
    law_scheduling_keeps_consistent(cleaned.core, slice_ticks, switch_ticks);
    lemma_scheduled_ids(cleaned.core, slice_ticks, switch_ticks);
    assert(after.incoming() == cleaned.incoming());
}

/// The scheduler gives no task another identifier, brings none to life, and at most
/// moves the current one to those that wait for cleanup.
pub proof fn lemma_scheduled_ids<C>(core: CoreView<C>, slice_ticks: u64, switch_ticks: u64)
    requires
        core.consistent(),
    ensures
        ({
            let after = core.scheduled(slice_ticks, switch_ticks);
            &&& after.core_id == core.core_id
            &&& after.tasks.dom() == core.tasks.dom()
            &&& forall|r: TaskRef| #[trigger] after.live(r) ==> core.live(r)
            &&& forall|r: TaskRef|
                core.tasks.contains_key(r) ==> (#[trigger] after.tasks[r]).id == core.tasks[r].id
            &&& after.finished == core.finished || (core.current_task().status
                == TaskStatus::TaskFinished && after.finished == core.finished.push(
                core.current_task().id,
            ))
        }),
{
    let after = core.scheduled(slice_ticks, switch_ticks);
    if core.ready.len() > 0 {
        lemma_next_exists(core.ready);
        assert(core.queued(next_entry(core.ready).task));
    }
    assert(core.live(core.current));
    assert(after.tasks.dom() =~= core.tasks.dom());
}

/// A running task that exits keeps its system consistent.
pub proof fn law_finish_keeps_consistent<C>(before: System<C>)
    requires
        before.consistent(),
        before.core.current_task().status == TaskStatus::TaskRunning,
    ensures
        before.current_finished().consistent(),
{
    let after = before.current_finished();
    let c = before.core.current;
    assert(!before.core.queued(c) && !before.core.waiting(c));
    assert(after.core.ready == before.core.ready && after.core.blocked == before.core.blocked);
    assert forall|r: TaskRef| #[trigger] after.core.queued(r) <==> before.core.queued(r) by {}
    assert forall|r: TaskRef| #[trigger] after.core.waiting(r) <==> before.core.waiting(r) by {}
    assert forall|r: TaskRef| #[trigger] after.core.live(r) <==> before.core.live(r) by {}
    assert(after.incoming() == before.incoming());
}

/// A new task with a free identifier keeps a system consistent.
pub proof fn law_spawn_keeps_consistent<C>(before: System<C>, task: Task<C>)
    requires
        before.consistent(),
        task.status == TaskStatus::TaskReady,
        !before.shared.tasks.contains_key(task.id),
        before.shared.schedulers.contains_key(task.core_id),
        task.core_id == before.core.core_id ==> before.core.has_room(1),
    ensures
        before.spawned(task).consistent(),
{
    let after = before.spawned(task);
    let known = before.shared.with_task(task.id).with_one_more();
    assert(known.valid());
    lemma_new_task_keeps_valid(known, task);
    assert(after.incoming() == before.incoming());
    if task.core_id == before.core.core_id {
        law_new_task_keeps_consistent(before.core, task);
        let r = free_ref(before.core.tasks);
        assert forall|q: TaskRef| #[trigger] after.core.live(q) && q != r implies before.core.live(
            q,
        ) by {}
    }
}

/// The tasks that a core takes in keep its system consistent, and leave nothing on
/// the way.
pub proof fn law_input_keeps_consistent<C>(before: System<C>)
    requires
        before.consistent(),
        before.core.has_room(before.incoming().len() as int),
    ensures
        (System {
            core: before.core.after_input(before.shared.inputs[before.core.input]),
            shared: before.shared.with_empty_input(before.core.input),
            ..before
        }).consistent(),
{
    let input = before.shared.inputs[before.core.input];
    let woken = before.core.wake_all(input.wakeup_tasks);
    lemma_core_wake_all(before.core, input.wakeup_tasks);
    lemma_live_unchanged(before.core, woken);
    let middle = System { core: woken, ..before };
    assert(middle.incoming() == before.incoming());
    assert(middle.consistent());
    lemma_adopted_all(middle);
}

pub proof fn lemma_core_wake_all<C>(core: CoreView<C>, handles: Seq<TaskHandle>)
    requires
        core.consistent(),
    ensures
        core.wake_all(handles).consistent(),
        core.only_woken(WakeupReason::Custom, core.wake_all(handles)),
    decreases handles.len(),
{
    if handles.len() > 0 {
        law_wakeup_keeps_consistent(core, handles[0].id);
        let next = core.wake(handles[0].id);
        lemma_core_wake_all(next, handles.drop_first());
        lemma_only_woken_is_transitive(
            WakeupReason::Custom,
            core,
            next,
            core.wake_all(handles),
        );
    }
}

/// The system after the core has taken in the first task on its way to it.
spec fn first_adopted<C>(before: System<C>) -> System<C> {
    let input = before.shared.inputs[before.core.input];
    System {
        core: before.core.adopted(input.new_tasks[0]),
        shared: SharedView {
            inputs: before.shared.inputs.update(
                before.core.input,
                InputView { new_tasks: input.new_tasks.drop_first(), ..input },
            ),
            ..before.shared
        },
        ..before
    }
}

proof fn lemma_adopted_all<C>(before: System<C>)
    requires
        before.consistent(),
        before.core.has_room(before.incoming().len() as int),
    ensures
        (System {
            core: before.core.adopted_all(before.incoming()),
            shared: before.shared.with_empty_input(before.core.input),
            ..before
        }).consistent(),
    decreases before.incoming().len(),
{
    let place = before.core.input;
    let incoming = before.incoming();
    let end = System {
        core: before.core.adopted_all(incoming),
        shared: before.shared.with_empty_input(place),
        ..before
    };
    if incoming.len() == 0 {
        assert(end.incoming() =~= Seq::empty());
    } else {
        let task = incoming[0];
        let next = first_adopted(before);
        let rest = incoming.drop_first();
        assert(before.shared.inputs[place].new_tasks[0].core_id == before.core.core_id);
        law_new_task_keeps_consistent(before.core, task);
        let r = free_ref(before.core.tasks);
        assert(next.incoming() == rest);
        assert forall|q: TaskRef| #[trigger] next.core.live(q) && q != r implies before.core.live(
            q,
        ) by {}
        assert forall|i: int| 0 <= i < rest.len() implies #[trigger] rest[i] == incoming[i + 1] by {}
        assert(next.shared.valid()) by {
            assert forall|k: int, i: int|
                0 <= k < next.shared.inputs.len() && 0 <= i
                    < next.shared.inputs[k].new_tasks.len() implies (
            #[trigger] next.shared.inputs[k].new_tasks[i]).core_id == next.shared.owners[k] by {
                let n = if k == place { i + 1 } else { i };
                assert(next.shared.inputs[k].new_tasks[i] == before.shared.inputs[k].new_tasks[n]);
            }
        }
        assert(next.consistent());
        lemma_next_ref(before.core.tasks);
        lemma_one_more_ref(before.core.tasks, r, task);
        lemma_adopted_all(next);
        assert(next.shared.with_empty_input(place).inputs =~= before.shared.with_empty_input(
            place,
        ).inputs);
    }
}

/// A running task that joins another one keeps its system consistent.
pub proof fn law_join_keeps_consistent<C>(before: System<C>, id: TaskId)
    requires
        before.consistent(),
        before.core.current_task().status == TaskStatus::TaskRunning,
        before.shared.tasks.contains_key(id),
    ensures
        (System {
            core: before.core.current_blocked(None),
            shared: before.shared.with_waiting(id, before.core.current_task().handle()),
            ..before
        }).consistent(),
{
    let handle = before.core.current_task().handle();
    let after = System {
        core: before.core.current_blocked(None),
        shared: before.shared.with_waiting(id, handle),
        ..before
    };
    law_blocking_keeps_consistent(before.core, None);
    assert forall|r: TaskRef| #[trigger] after.core.live(r) implies before.core.live(r)
        && after.core.tasks[r].id == before.core.tasks[r].id by {}
    assert(after.incoming() == before.incoming());
    assert forall|other: TaskId, i: int|
        after.shared.tasks.contains_key(other) && 0 <= i
            < after.shared.tasks[other].len() implies after.shared.schedulers.contains_key(
        (#[trigger] after.shared.tasks[other][i]).core_id,
    ) by {
        if other == id && i == before.shared.tasks[id].len() {
        } else {
            assert(after.shared.tasks[other][i] == before.shared.tasks[other][i]);
        }
    }
}

} // verus!
