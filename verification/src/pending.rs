//! Laws on the wakeups that a task has to expect: as long as nobody else asks for its
//! wakeup, a task is woken up exactly by the end of the task that it has joined.

use crate::consistency::{
    cleanup_start, law_cleanup_forgets_exactly_finished_tasks, lemma_contains_first_or_rest,
    lemma_waiting_is_valid, lemma_wake_all_frame, lemma_wake_frame,
};
use crate::joining::{
    law_join_returns_only_after_the_end, law_join_waits_for_the_end, lemma_own_core_keeps_waiting,
    never_creates, never_wakes,
};
use crate::machine::{
    law_empty_machine_is_consistent, law_every_step_keeps_machine_consistent,
    law_identifiers_are_unique, law_machine_is_consistent_from_boot, lemma_step_keeps_core,
    Machine, Step,
};
use crate::model::System;
use crate::shared::SharedView;
use crate::task::{CoreId, TaskHandle, TaskId, TaskRef, TaskStatus};
use vstd::prelude::*;

verus! {

/// Where the wakeup of a task is to come from.
pub enum Due {
    /// None is to come.
    Nothing,
    /// It comes with the end of the task with the given identifier.
    End(TaskId),
    /// It has been requested, and is in the input at the given place.
    Request(int),
}

/// Says that no handle is that of the given task.
pub open spec fn never(handles: Seq<TaskHandle>, waiter: TaskId) -> bool {
    forall|i: int| 0 <= i < handles.len() ==> (#[trigger] handles[i]).id != waiter
}

/// Says that exactly the handle at `i` is that of the given task.
pub open spec fn only_at(handles: Seq<TaskHandle>, waiter: TaskId, i: int) -> bool {
    &&& 0 <= i < handles.len()
    &&& handles[i].id == waiter
    &&& forall|j: int| 0 <= j < handles.len() && j != i ==> (#[trigger] handles[j]).id != waiter
}

/// Says that exactly one handle is that of the given task.
pub open spec fn once(handles: Seq<TaskHandle>, waiter: TaskId) -> bool {
    exists|i: int| only_at(handles, waiter, i)
}

impl<C> SharedView<C> {
    /// Says that the wakeup of a task is to come from where `due` says, and from nowhere
    /// else.
    pub open spec fn expects(self, waiter: TaskId, due: Due) -> bool {
        &&& forall|p: int|
            #![trigger self.inputs[p]]
            0 <= p < self.inputs.len() ==> if due == Due::Request(p) {
                once(self.inputs[p].wakeup_tasks, waiter)
            } else {
                never(self.inputs[p].wakeup_tasks, waiter)
            }
        &&& forall|id: TaskId|
            #![trigger self.waiting(id)]
            if due == Due::End(id) {
                once(self.waiting(id), waiter)
            } else {
                never(self.waiting(id), waiter)
            }
    }

    /// Says that the handles of a task among those who wait for another one are for the
    /// given core.
    pub open spec fn waits_from(self, id: TaskId, waiter: TaskId, core_id: CoreId) -> bool {
        forall|i: int|
            0 <= i < self.waiting(id).len() && (#[trigger] self.waiting(id)[i]).id == waiter
                ==> self.waiting(id)[i].core_id == core_id
    }
}

impl<C> Machine<C> {
    /// Says that a task with the given identifier is blocked, and that its wakeup is to come
    /// from where `due` says.
    pub open spec fn is_due(self, c: CoreId, r: TaskRef, waiter: TaskId, due: Due) -> bool {
        &&& self.cores.contains_key(c)
        &&& self.cores[c].waits_untimed(r)
        &&& self.cores[c].tasks[r].id == waiter
        &&& match due {
            Due::Nothing => true,
            Due::End(id) => self.shared.waits_from(id, waiter, c),
            Due::Request(p) => p == self.cores[c].input,
        }
    }

    /// Says that the wakeup of a task is to come from where `due` says and from nowhere
    /// else, and that the task is blocked if one is to come.
    pub open spec fn expects(self, waiter: TaskId, due: Due) -> bool {
        &&& self.shared.expects(waiter, due)
        &&& due is Nothing || exists|c: CoreId, r: TaskRef| self.is_due(c, r, waiter, due)
    }
}

proof fn lemma_push_never(handles: Seq<TaskHandle>, handle: TaskHandle, waiter: TaskId)
    requires
        never(handles, waiter),
    ensures
        handle.id != waiter ==> never(handles.push(handle), waiter),
        handle.id == waiter ==> once(handles.push(handle), waiter),
{
    let after = handles.push(handle);
    assert forall|j: int| 0 <= j < handles.len() implies (#[trigger] after[j]).id != waiter by {
        assert(handles[j].id != waiter);
    }
    if handle.id == waiter {
        assert(only_at(after, waiter, handles.len() as int));
    }
}

proof fn lemma_push_once(handles: Seq<TaskHandle>, handle: TaskHandle, waiter: TaskId)
    requires
        once(handles, waiter),
        handle.id != waiter,
    ensures
        once(handles.push(handle), waiter),
{
    let i = choose|i: int| only_at(handles, waiter, i);
    let after = handles.push(handle);
    assert forall|j: int| 0 <= j < after.len() && j != i implies (#[trigger] after[j]).id
        != waiter by {
        if j < handles.len() {
            assert(handles[j].id != waiter);
        }
    }
    assert(only_at(after, waiter, i));
}

/// The wakeup of another task does not change what a task has to expect.
proof fn lemma_wake_keeps_due<C>(before: System<C>, handle: TaskHandle, waiter: TaskId, due: Due)
    requires
        before.shared.valid(),
        before.shared.schedulers.contains_key(handle.core_id),
        handle.id != waiter,
        before.shared.expects(waiter, due),
    ensures
        before.wake(handle).shared.expects(waiter, due),
{
    let after = before.wake(handle);
    lemma_wake_frame(before, handle);
    if handle.core_id != before.core.core_id {
        let place = before.shared.schedulers[handle.core_id];
        let requests = before.shared.inputs[place].wakeup_tasks;
        if due == Due::Request(place) {
            lemma_push_once(requests, handle, waiter);
        } else {
            lemma_push_never(requests, handle, waiter);
        }
        assert forall|id: TaskId| #[trigger] after.shared.waiting(id) == before.shared.waiting(
            id,
        ) by {}
    }
}

proof fn lemma_wake_all_keeps_due<C>(
    before: System<C>,
    handles: Seq<TaskHandle>,
    waiter: TaskId,
    due: Due,
)
    requires
        before.shared.valid(),
        forall|i: int|
            0 <= i < handles.len() ==> before.shared.schedulers.contains_key(
                (#[trigger] handles[i]).core_id,
            ),
        never(handles, waiter),
        before.shared.expects(waiter, due),
    ensures
        before.wake_all(handles).shared.expects(waiter, due),
    decreases handles.len(),
{
    if handles.len() > 0 {
        lemma_wake_frame(before, handles[0]);
        lemma_wake_keeps_due(before, handles[0], waiter, due);
        lemma_wake_all_keeps_due(before.wake(handles[0]), handles.drop_first(), waiter, due);
    }
}

/// What a task of core `c` has to expect when it has been woken up from another core.
spec fn after_wakeup<C>(before: System<C>, c: CoreId) -> Due {
    if c == before.core.core_id {
        Due::Nothing
    } else {
        Due::Request(before.shared.schedulers[c])
    }
}

/// Wakeups among which is one of a task, which has nothing else to expect.
proof fn lemma_wake_all_moves_due<C>(
    before: System<C>,
    handles: Seq<TaskHandle>,
    waiter: TaskId,
    c: CoreId,
)
    requires
        before.shared.valid(),
        forall|i: int|
            0 <= i < handles.len() ==> before.shared.schedulers.contains_key(
                (#[trigger] handles[i]).core_id,
            ),
        once(handles, waiter),
        forall|i: int|
            0 <= i < handles.len() && (#[trigger] handles[i]).id == waiter ==> handles[i].core_id
                == c,
        before.shared.expects(waiter, Due::Nothing),
    ensures
        before.wake_all(handles).shared.expects(waiter, after_wakeup(before, c)),
    decreases handles.len(),
{
    let i = choose|i: int| only_at(handles, waiter, i);
    let next = before.wake(handles[0]);
    let rest = handles.drop_first();
    lemma_wake_frame(before, handles[0]);
    assert forall|j: int| 0 <= j < rest.len() implies #[trigger] rest[j] == handles[j + 1] by {}
    if i == 0 {
        if c != before.core.core_id {
            let place = before.shared.schedulers[c];
            lemma_push_never(before.shared.inputs[place].wakeup_tasks, handles[0], waiter);
            assert forall|id: TaskId| #[trigger] next.shared.waiting(id) == before.shared.waiting(
                id,
            ) by {}
        }
        assert(next.shared.expects(waiter, after_wakeup(before, c)));
        lemma_wake_all_keeps_due(next, rest, waiter, after_wakeup(before, c));
    } else {
        assert(handles[0].id != waiter);
        lemma_wake_keeps_due(before, handles[0], waiter, Due::Nothing);
        assert(only_at(rest, waiter, i - 1));
        lemma_wake_all_moves_due(next, rest, waiter, c);
    }
}

/// Once a task is forgotten, nobody has to expect anything from its end.
proof fn lemma_without_task_expects<C>(
    shared: SharedView<C>,
    id: TaskId,
    waiter: TaskId,
    due: Due,
)
    requires
        shared.expects(waiter, due),
    ensures
        shared.without_task(id).expects(
            waiter,
            if due == Due::End(id) {
                Due::Nothing
            } else {
                due
            },
        ),
{
    let after = shared.without_task(id);
    assert forall|other: TaskId| #![trigger after.waiting(other)]
        after.waiting(other) == (if other == id {
            Seq::empty()
        } else {
            shared.waiting(other)
        }) by {}
    assert forall|p: int| #![trigger after.inputs[p]] after.inputs[p] == shared.inputs[p] by {}
}

/// What a task of core `c` has to expect after the given tasks were forgotten.
spec fn after_forgotten<C>(before: System<C>, ids: Seq<TaskId>, due: Due, c: CoreId) -> Due {
    match due {
        Due::End(id) => if ids.contains(id) {
            after_wakeup(before, c)
        } else {
            due
        },
        _ => due,
    }
}

proof fn lemma_forgotten_all_due<C>(
    before: System<C>,
    ids: Seq<TaskId>,
    waiter: TaskId,
    due: Due,
    c: CoreId,
)
    requires
        before.shared.valid(),
        before.shared.expects(waiter, due),
        due matches Due::End(id) ==> before.shared.waits_from(id, waiter, c),
    ensures
        before.forgotten_all(ids).shared.expects(waiter, after_forgotten(before, ids, due, c)),
    decreases ids.len(),
{
    if ids.len() > 0 {
        let id = ids[0];
        let rest = ids.drop_first();
        let forgotten = System { shared: before.shared.without_task(id), ..before };
        let waiting = before.shared.waiting(id);
        let next = forgotten.wake_all(waiting);
        lemma_waiting_is_valid(before.shared, id);
        lemma_without_task_expects(before.shared, id, waiter, due);
        lemma_wake_all_frame(forgotten, waiting);
        assert forall|other: TaskId| ids.contains(other) <==> other == id || rest.contains(
            other,
        ) by {
            lemma_contains_first_or_rest(ids, other);
        }
        if due == Due::End(id) {
            assert(once(waiting, waiter));
            lemma_wake_all_moves_due(forgotten, waiting, waiter, c);
            lemma_forgotten_all_due(next, rest, waiter, after_wakeup(before, c), c);
        } else {
            assert(never(waiting, waiter));
            lemma_wake_all_keeps_due(forgotten, waiting, waiter, due);
            if let Due::End(other) = due {
                assert(next.shared.waiting(other) == before.shared.waiting(other));
                assert(next.shared.waits_from(other, waiter, c)) by {
                    assert forall|i: int|
                        0 <= i < next.shared.waiting(other).len() && (
                        #[trigger] next.shared.waiting(other)[i]).id
                            == waiter implies next.shared.waiting(other)[i].core_id == c by {
                        assert(before.shared.waiting(other)[i].id == waiter);
                    }
                }
            }
            lemma_forgotten_all_due(next, rest, waiter, due, c);
        }
    }
}

/// Where requests and those who wait stay the same, so does what a task has to expect.
proof fn lemma_same_expectation<C>(
    before: SharedView<C>,
    after: SharedView<C>,
    waiter: TaskId,
    due: Due,
)
    requires
        before.expects(waiter, due),
        after.inputs.len() == before.inputs.len(),
        forall|p: int|
            0 <= p < after.inputs.len() ==> (#[trigger] after.inputs[p]).wakeup_tasks
                == before.inputs[p].wakeup_tasks,
        forall|id: TaskId| #[trigger] after.waiting(id) == before.waiting(id),
    ensures
        after.expects(waiter, due),
{
}

/// Those who wait for a task wait from the same cores as long as they stay the same.
proof fn lemma_same_waiting<C>(
    before: SharedView<C>,
    after: SharedView<C>,
    id: TaskId,
    waiter: TaskId,
    c: CoreId,
)
    requires
        before.waits_from(id, waiter, c),
        after.waiting(id) == before.waiting(id),
    ensures
        after.waits_from(id, waiter, c),
{
    assert forall|i: int|
        0 <= i < after.waiting(id).len() && (#[trigger] after.waiting(id)[i]).id
            == waiter implies after.waiting(id)[i].core_id == c by {
        assert(before.waiting(id)[i].id == waiter);
    }
}

/// A task that waits goes on waiting unless its own core wakes it up.
proof fn lemma_waiter_stays<C>(
    machine: Machine<C>,
    d: CoreId,
    step: Step<C>,
    c: CoreId,
    r: TaskRef,
)
    requires
        machine.consistent(),
        machine.can_do(d, step),
        machine.cores.contains_key(c),
        machine.cores[c].waits_untimed(r),
        step matches Step::Wake(handle) ==> handle.id != machine.cores[c].tasks[r].id,
        c == d && step is Input ==> never(
            machine.shared.inputs[machine.cores[c].input].wakeup_tasks,
            machine.cores[c].tasks[r].id,
        ),
        c == d && step is Cleanup ==> forall|k: int|
            0 <= k < machine.cores[c].finished.len() ==> never(
                machine.shared.waiting(#[trigger] machine.cores[c].finished[k]),
                machine.cores[c].tasks[r].id,
            ),
    ensures
        machine.after(d, step).cores.contains_key(c),
        machine.after(d, step).cores[c].waits_untimed(r),
        machine.after(d, step).cores[c].tasks[r].id == machine.cores[c].tasks[r].id,
        machine.after(d, step).cores[c].input == machine.cores[c].input,
{
    let before = machine.at(d);
    if !(step is Start) {
        assert(before.consistent());
        lemma_step_keeps_core(before, step);
        if c == d {
            let waiter = before.core.tasks[r].id;
            let finished = before.core.finished;
            if step is Cleanup {
                assert forall|k: int|
                    0 <= k < finished.len() implies #[trigger] before.shared.not_waiting_for(
                    finished[k],
                    waiter,
                ) by {
                    assert(never(machine.shared.waiting(finished[k]), waiter));
                }
            }
            lemma_own_core_keeps_waiting(before, step, r);
        }
    }
}

/// A task that is not blocked has no wakeup to expect.
proof fn lemma_unblocked_expects_nothing<C>(
    machine: Machine<C>,
    c: CoreId,
    r: TaskRef,
    due: Due,
)
    requires
        machine.consistent(),
        machine.cores.contains_key(c),
        machine.cores[c].live(r),
        machine.cores[c].tasks[r].status != TaskStatus::TaskBlocked,
        machine.expects(machine.cores[c].tasks[r].id, due),
    ensures
        due is Nothing,
{
    let waiter = machine.cores[c].tasks[r].id;
    if !(due is Nothing) {
        let (d, q) = choose|d: CoreId, q: TaskRef| machine.is_due(d, q, waiter, due);
        law_identifiers_are_unique(machine, c, d, r, q);
    }
}

/// A running task that has no wakeup to expect and joins a task has to expect its wakeup
/// from the end of that task.
proof fn lemma_join_is_due<C>(machine: Machine<C>, d: CoreId, id: TaskId)
    requires
        machine.consistent(),
        machine.can_do(d, Step::Join(id)),
        machine.shared.expects(machine.cores[d].current_task().id, Due::Nothing),
    ensures
        machine.after(d, Step::Join(id)).expects(
            machine.cores[d].current_task().id,
            Due::End(id),
        ),
{
    let before = machine.at(d);
    let next = machine.after(d, Step::Join(id));
    let handle = machine.cores[d].current_task().handle();
    let waiter = handle.id;
    let r = machine.cores[d].current;
    assert(before.consistent());
    lemma_nothing_is_due(machine.shared, waiter);
    law_join_waits_for_the_end(machine, d, id);
    lemma_push_never(machine.shared.waiting(id), handle, waiter);
    assert(next.shared.waiting(id) == machine.shared.waiting(id).push(handle));
    assert forall|other: TaskId| other != id implies #[trigger] next.shared.waiting(other)
        == machine.shared.waiting(other) by {}
    assert(next.shared.expects(waiter, Due::End(id)));
    assert(next.shared.waits_from(id, waiter, d)) by {
        assert forall|i: int|
            0 <= i < next.shared.waiting(id).len() && (#[trigger] next.shared.waiting(id)[i]).id
                == waiter implies next.shared.waiting(id)[i].core_id == d by {
            if i < machine.shared.waiting(id).len() {
                assert(machine.shared.waiting(id)[i].id != waiter);
            }
        }
    }
    assert(next.is_due(d, r, waiter, Due::End(id)));
}

/// What a task has to expect after a step, as long as nobody asks for its wakeup.
proof fn lemma_step_moves_due<C>(
    machine: Machine<C>,
    d: CoreId,
    step: Step<C>,
    waiter: TaskId,
    due: Due,
) -> (after: Due)
    requires
        machine.consistent(),
        machine.can_do(d, step),
        machine.expects(waiter, due),
        step matches Step::Wake(handle) ==> handle.id != waiter,
    ensures
        machine.after(d, step).expects(waiter, after),
{
    let before = machine.at(d);
    let next = machine.after(d, step);
    let (c, r) = choose|c: CoreId, r: TaskRef| machine.is_due(c, r, waiter, due);
    law_every_step_keeps_machine_consistent(machine, d, step);
    if !(due is Nothing) {
        assert(machine.at(c).consistent());
    }
    match step {
        Step::Start(idle_task) => {
            assert forall|id: TaskId| #[trigger] next.shared.waiting(id) == machine.shared.waiting(
                id,
            ) by {
                assert(next.shared.waiting(id) =~= machine.shared.waiting(id));
            }
            assert(next.shared.expects(waiter, due));
            if !(due is Nothing) {
                lemma_waiter_stays(machine, d, step, c, r);
                if let Due::End(id) = due {
                    lemma_same_waiting(machine.shared, next.shared, id, waiter, c);
                }
                assert(next.is_due(c, r, waiter, due));
            }
            due
        },
        Step::Join(id) => {
            assert(before.consistent());
            let current = machine.cores[d].current;
            assert(machine.cores[d].live(current));
            if machine.cores[d].tasks[current].id == waiter {
                lemma_unblocked_expects_nothing(machine, d, current, due);
                lemma_join_is_due(machine, d, id);
                Due::End(id)
            } else {
                let handle = machine.cores[d].current_task().handle();
                let waiting = machine.shared.waiting(id);
                if due == Due::End(id) {
                    lemma_push_once(waiting, handle, waiter);
                } else {
                    lemma_push_never(waiting, handle, waiter);
                }
                assert(next.shared.waiting(id) == waiting.push(handle));
                assert forall|other: TaskId| other != id implies #[trigger] next.shared.waiting(
                    other,
                ) == machine.shared.waiting(other) by {}
                assert(next.shared.expects(waiter, due));
                if !(due is Nothing) {
                    lemma_waiter_stays(machine, d, step, c, r);
                    if let Due::End(other) = due {
                        if other != id {
                            lemma_same_waiting(machine.shared, next.shared, other, waiter, c);
                        } else {
                            assert forall|i: int|
                                0 <= i < next.shared.waiting(id).len() && (
                                #[trigger] next.shared.waiting(id)[i]).id
                                    == waiter implies next.shared.waiting(id)[i].core_id == c by {
                                assert(waiting[i].id == waiter);
                            }
                        }
                    }
                    assert(next.is_due(c, r, waiter, due));
                }
                due
            }
        },
        Step::Cleanup => {
            assert(before.consistent());
            let start = cleanup_start(before);
            let finished = before.core.finished;
            let after = after_forgotten(start, finished, due, c);
            lemma_forgotten_all_due(start, finished, waiter, due, c);
            law_cleanup_forgets_exactly_finished_tasks(before);
            assert(next.shared == before.cleaned().shared);
            if finished.len() == 0 {
                assert(start == before) by {
                    assert(finished =~= Seq::empty());
                }
            }
            assert(next.shared.expects(waiter, after));
            if !(after is Nothing) {
                if c == d {
                    assert(after == due);
                    assert forall|k: int| 0 <= k < finished.len() implies never(
                        machine.shared.waiting(#[trigger] finished[k]),
                        waiter,
                    ) by {
                        assert(finished.contains(finished[k]));
                    }
                }
                lemma_waiter_stays(machine, d, step, c, r);
                if let Due::End(id) = after {
                    assert(next.shared.waiting(id) == machine.shared.waiting(id));
                    lemma_same_waiting(machine.shared, next.shared, id, waiter, c);
                }
                assert(next.is_due(c, r, waiter, after));
            }
            after
        },
        Step::Input => {
            assert(before.consistent());
            let place = before.core.input;
            assert forall|id: TaskId| #[trigger] next.shared.waiting(id) == machine.shared.waiting(
                id,
            ) by {}
            let after = if due == Due::Request(place) { Due::Nothing } else { due };
            assert(next.shared.expects(waiter, after));
            if !(after is Nothing) {
                lemma_waiter_stays(machine, d, step, c, r);
                if let Due::End(id) = after {
                    lemma_same_waiting(machine.shared, next.shared, id, waiter, c);
                }
                assert(next.is_due(c, r, waiter, after));
            }
            after
        },
        _ => {
            assert(before.consistent());
            if let Step::Wake(handle) = step {
                lemma_wake_keeps_due(before, handle, waiter, due);
                lemma_wake_frame(before, handle);
            }
            assert forall|id: TaskId| #[trigger] next.shared.waiting(id) == machine.shared.waiting(
                id,
            ) by {
                assert(next.shared.waiting(id) =~= machine.shared.waiting(id));
            }
            if !(step is Wake) {
                lemma_same_expectation(machine.shared, next.shared, waiter, due);
            }
            if !(due is Nothing) {
                lemma_waiter_stays(machine, d, step, c, r);
                if let Due::End(id) = due {
                    lemma_same_waiting(machine.shared, next.shared, id, waiter, c);
                }
                assert(next.is_due(c, r, waiter, due));
            }
            due
        },
    }
}

/// What a task has to expect after a run in which nobody asks for its wakeup.
proof fn lemma_run_moves_due<C>(
    machine: Machine<C>,
    run: Seq<(CoreId, Step<C>)>,
    waiter: TaskId,
    due: Due,
) -> (after: Due)
    requires
        machine.consistent(),
        machine.can_do_all(run),
        machine.expects(waiter, due),
        never_wakes(run, waiter),
    ensures
        machine.after_all(run).expects(waiter, after),
    decreases run.len(),
{
    if run.len() == 0 {
        due
    } else {
        let rest = run.drop_first();
        assert(run[0].1 matches Step::Wake(handle) ==> handle.id != waiter);
        let next = lemma_step_moves_due(machine, run[0].0, run[0].1, waiter, due);
        law_every_step_keeps_machine_consistent(machine, run[0].0, run[0].1);
        assert(never_wakes(rest, waiter)) by {
            assert(forall|i: int| 0 <= i < rest.len() ==> #[trigger] rest[i] == run[i + 1]);
        }
        lemma_run_moves_due(machine.after(run[0].0, run[0].1), rest, waiter, next)
    }
}

/// From boot on, as long as nobody asks for the wakeup of a task, at most one wakeup of it
/// is to come, and only while it is blocked: from the end of the one task that it waits
/// for, or from the one request in the input of its core.
pub proof fn law_at_most_one_wakeup_is_due<C>(
    run: Seq<(CoreId, Step<C>)>,
    waiter: TaskId,
) -> (due: Due)
    requires
        Machine::<C>::boot().can_do_all(run),
        never_wakes(run, waiter),
    ensures
        Machine::<C>::boot().after_all(run).expects(waiter, due),
{
    let boot = Machine::<C>::boot();
    law_empty_machine_is_consistent(boot.shared);
    lemma_run_moves_due(boot, run, waiter, Due::Nothing)
}

/// From boot on, a join returns only when the other task has been cleaned up. Where a
/// running task joins a known task, and nobody ever asks for its wakeup, then after any
/// run, in which the identifier of the other task is not used again, the task is still
/// blocked and waits for the other task and for nothing else, or nobody knows the other
/// task any more.
pub proof fn law_join_from_boot_returns_only_after_the_end<C>(
    past: Seq<(CoreId, Step<C>)>,
    core_id: CoreId,
    id: TaskId,
    run: Seq<(CoreId, Step<C>)>,
)
    requires
        Machine::<C>::boot().can_do_all(past),
        ({
            let machine = Machine::<C>::boot().after_all(past);
            let waiter = machine.cores[core_id].current_task().id;
            &&& never_wakes(past, waiter)
            &&& machine.can_do(core_id, Step::Join(id))
            &&& machine.after(core_id, Step::Join(id)).can_do_all(run)
            &&& never_wakes(run, waiter)
            &&& never_creates(run, id)
        }),
    ensures
        ({
            let machine = Machine::<C>::boot().after_all(past);
            let r = machine.cores[core_id].current;
            let end = machine.after(core_id, Step::Join(id)).after_all(run);
            ||| !end.shared.tasks.contains_key(id)
            ||| {
                &&& end.waits_only_for(core_id, r, id)
                &&& end.cores[core_id].tasks[r].handle()
                    == machine.cores[core_id].current_task().handle()
            }
        }),
{
    let boot = Machine::<C>::boot();
    let machine = boot.after_all(past);
    let core = machine.cores[core_id];
    let waiter = core.current_task().id;
    law_machine_is_consistent_from_boot(past);
    assert(machine.at(core_id).consistent());
    let due = law_at_most_one_wakeup_is_due(past, waiter);
    assert(core.live(core.current));
    lemma_unblocked_expects_nothing(machine, core_id, core.current, due);
    lemma_nothing_is_due(machine.shared, waiter);
    law_join_returns_only_after_the_end(machine, core_id, id, run);
}

/// Who has no wakeup to expect waits for no task, and no wakeup of it is requested.
proof fn lemma_nothing_is_due<C>(shared: SharedView<C>, waiter: TaskId)
    requires
        shared.expects(waiter, Due::Nothing),
    ensures
        forall|p: int| 0 <= p < shared.inputs.len() ==> #[trigger] shared.no_wakeup_at(p, waiter),
        forall|id: TaskId| #[trigger] shared.not_waiting_for(id, waiter),
{
    assert forall|p: int| 0 <= p < shared.inputs.len() implies #[trigger] shared.no_wakeup_at(
        p,
        waiter,
    ) by {
        assert(never(shared.inputs[p].wakeup_tasks, waiter));
    }
    assert forall|id: TaskId| #[trigger] shared.not_waiting_for(id, waiter) by {
        assert(never(shared.waiting(id), waiter));
    }
}

} // verus!
