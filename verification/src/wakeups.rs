//! Laws on tasks that block, wait for each other, and are woken up.

use crate::blocked::{
    earlier, elapsed, elapsed_count, first_with_id, holds_id, is_first_with_id,
    lemma_elapsed_count_exists, lemma_first_exists, lemma_first_with_id_is_unique,
    lemma_place_exists, lemma_remove_keeps_sorted, place,
};
use crate::consistency::{
    cleanup_start, law_cleanup_keeps_consistent, law_custom_wakeup_keeps_consistent,
    law_release_keeps_live_tasks, law_wakeup_keeps_consistent, lemma_cleanup_start,
    lemma_forgotten_all_keeps_consistent, lemma_live_unchanged, lemma_waiting_is_valid,
    lemma_wake_all_keeps_consistent,
};
use crate::laws::law_new_tasks_are_queued_in_order;
use crate::model::{any_awaited, idle_action, idle_step, CoreView, IdleAction, IdleEvent, System};
use crate::ready::{lemma_next_exists, next_entry, ReadyEntry};
use crate::shared::{InputView, SharedView};
use crate::task::{Task, TaskHandle, TaskId, TaskRef, TaskStatus, WakeupReason};
use vstd::prelude::*;

verus! {

/// A wakeup of a blocked task makes it ready. It is queued, and it learns that somebody
/// has woken it up.
pub proof fn law_wakeup_reaches_blocked_task<C>(core: CoreView<C>, r: TaskRef)
    requires
        core.consistent(),
        core.live(r),
        core.tasks[r].status == TaskStatus::TaskBlocked,
    ensures
        ({
            let after = core.wake(core.tasks[r].id);
            &&& after.tasks[r] == CoreView::<C>::woken_task(core.tasks[r], WakeupReason::Custom)
            &&& after.queued(r)
            &&& !after.waiting(r)
        }),
{
    let id = core.tasks[r].id;
    assert(core.tasks.contains_key(r));
    assert(core.waiting(r));
    let k = choose|k: int| 0 <= k < core.blocked.len() && (#[trigger] core.blocked[k]).task == r;
    assert(core.blocked[k].id == id);
    lemma_first_exists(core.blocked, id);
    let n = first_with_id(core.blocked, id);
    let q = core.blocked[n].task;
    assert(core.waiting(q));
    assert(core.live(q));
    assert(q == r);
    law_wakeup_keeps_consistent(core, id);
    let after = core.wake(id);
    assert(after.tasks.contains_key(r));
}

/// A wakeup of a task that is alive and not blocked does nothing.
pub proof fn law_wakeup_of_unblocked_task_does_nothing<C>(core: CoreView<C>, r: TaskRef)
    requires
        core.consistent(),
        core.live(r),
        core.tasks[r].status != TaskStatus::TaskBlocked,
    ensures
        core.wake(core.tasks[r].id) == core,
{
    let id = core.tasks[r].id;
    if holds_id(core.blocked, id) {
        let k = choose|k: int| 0 <= k < core.blocked.len() && (#[trigger] core.blocked[k]).id == id;
        let q = core.blocked[k].task;
        assert(core.waiting(q));
        assert(core.live(q));
    }
}

/// A wakeup undoes a block: the blocked tasks are those from before, and the task is
/// ready again, at the end of the ready queue.
pub proof fn law_wakeup_undoes_blocking<C>(core: CoreView<C>, wakeup_time: Option<u64>)
    requires
        core.consistent(),
        core.current_task().status == TaskStatus::TaskRunning,
    ensures
        core.current_blocked(wakeup_time).wake(core.current_task().id) == core.woken(
            core.current,
            WakeupReason::Custom,
        ),
{
    let id = core.current_task().id;
    let c = core.current;
    let blocked = core.current_blocked(wakeup_time);
    lemma_place_exists(core.blocked, wakeup_time);
    let p = place(core.blocked, wakeup_time);
    assert(blocked.blocked[p].id == id);
    assert forall|j: int| 0 <= j < p implies (#[trigger] blocked.blocked[j]).id != id by {
        assert(blocked.blocked[j] == core.blocked[j]);
        let q = core.blocked[j].task;
        assert(core.waiting(q));
        assert(core.live(q) && core.live(c));
    }
    assert(is_first_with_id(blocked.blocked, id, p));
    lemma_first_with_id_is_unique(blocked.blocked, id, p);
    assert(blocked.blocked.remove(p) =~= core.blocked);
    assert(blocked.wake(id).tasks =~= core.woken(c, WakeupReason::Custom).tasks);
}

/// When the timer has been handled, no task is left blocked whose wakeup time has
/// elapsed. Exactly the tasks with an elapsed wakeup time were made ready, in the order
/// of their wakeup times.
pub proof fn law_timer_wakes_exactly_elapsed_tasks<C>(core: CoreView<C>, now: u64)
    requires
        core.consistent(),
    ensures
        ({
            let after = core.elapsed_woken(now);
            &&& forall|i: int|
                0 <= i < after.blocked.len() ==> !elapsed(#[trigger] after.blocked[i], now)
            &&& forall|i: int|
                0 <= i < core.blocked.len() && elapsed(#[trigger] core.blocked[i], now) ==> {
                    let r = core.blocked[i].task;
                    &&& after.tasks[r] == CoreView::<C>::woken_task(
                        core.tasks[r],
                        WakeupReason::Timer,
                    )
                    &&& after.ready[core.ready.len() + i] == (ReadyEntry {
                        task: r,
                        prio: core.tasks[r].prio,
                    })
                }
            &&& forall|i: int|
                0 <= i < core.blocked.len() && !elapsed(#[trigger] core.blocked[i], now) ==> {
                    let r = core.blocked[i].task;
                    &&& after.tasks[r] == core.tasks[r]
                    &&& after.waiting(r)
                }
        }),
{
    lemma_elapsed_count_exists(core.blocked, now);
    let n = elapsed_count(core.blocked, now);
    let after = core.elapsed_woken(now);
    assert forall|i: int| 0 <= i < core.blocked.len() implies (elapsed(
        #[trigger] core.blocked[i],
        now,
    ) <==> i < n) by {
        if i > n {
            assert(!earlier(core.blocked[i].wakeup_time, core.blocked[n].wakeup_time));
        }
    }
    assert forall|i: int| 0 <= i < core.blocked.len() implies core.tasks.contains_key(
        (#[trigger] core.blocked[i]).task,
    ) && (core.among_first_blocked(core.blocked[i].task, n) <==> i < n) by {
        if core.among_first_blocked(core.blocked[i].task, n) {
            let j = choose|j: int|
                0 <= j < n && (#[trigger] core.blocked[j]).task == core.blocked[i].task;
            assert(j == i);
        }
    }
    assert forall|i: int|
        0 <= i < core.blocked.len() && !elapsed(#[trigger] core.blocked[i], now) implies {
        let r = core.blocked[i].task;
        &&& after.tasks[r] == core.tasks[r]
        &&& after.waiting(r)
    } by {
        assert(after.blocked[i - n] == core.blocked[i]);
    }
    assert forall|i: int| 0 <= i < after.blocked.len() implies !elapsed(
        #[trigger] after.blocked[i],
        now,
    ) by {
        assert(after.blocked[i] == core.blocked[i + n]);
    }
}

/// A wakeup that another core has sent has the same effect, once this core takes in its
/// requests, as one on this core after all earlier wakeups.
pub proof fn law_remote_wakeup_equals_local_one<C>(
    core: CoreView<C>,
    shared: SharedView<C>,
    handle: TaskHandle,
)
    requires
        shared.valid(),
        shared.schedulers.contains_key(core.core_id),
        shared.schedulers[core.core_id] == core.input,
    ensures
        ({
            let input = shared.inputs[core.input];
            core.after_input(shared.with_wakeup(core.core_id, handle).inputs[core.input])
                == core.wake_all(input.wakeup_tasks).wake(handle.id).adopted_all(input.new_tasks)
        }),
{
    lemma_wake_all_push(core, shared.inputs[core.input].wakeup_tasks, handle);
}

proof fn lemma_wake_all_push<C>(core: CoreView<C>, handles: Seq<TaskHandle>, handle: TaskHandle)
    ensures
        core.wake_all(handles.push(handle)) == core.wake_all(handles).wake(handle.id),
    decreases handles.len(),
{
    let longer = handles.push(handle);
    if handles.len() == 0 {
        assert(longer.drop_first() =~= Seq::empty());
        assert(core.wake(handle.id).wake_all(longer.drop_first()) == core.wake(handle.id));
    } else {
        assert(longer.drop_first() =~= handles.drop_first().push(handle));
        lemma_wake_all_push(core.wake(handles[0].id), handles.drop_first(), handle);
    }
}

/// A wakeup keeps a core valid, makes no further task wait, and leaves all tasks but the
/// one that it is meant for alone.
proof fn lemma_wake_keeps_tasks<C>(core: CoreView<C>, id: TaskId)
    requires
        core.valid(),
    ensures
        core.wake(id).valid(),
        core.wake(id).tasks.dom() == core.tasks.dom(),
        core.wake(id).same_roles(core),
        core.wake(id).keeps_tasks_of(core),
        forall|i: int|
            0 <= i < core.wake(id).blocked.len() ==> core.blocked.contains(
                #[trigger] core.wake(id).blocked[i],
            ),
{
    let after = core.wake(id);
    if holds_id(core.blocked, id) {
        lemma_first_exists(core.blocked, id);
        let n = first_with_id(core.blocked, id);
        lemma_remove_keeps_sorted(core.blocked, n);
        assert forall|i: int| 0 <= i < after.blocked.len() implies core.blocked.contains(
            #[trigger] after.blocked[i],
        ) by {
            let k = if i < n { i } else { i + 1 };
            assert(after.blocked[i] == core.blocked[k]);
        }
        assert(core.tasks.contains_key(core.blocked[n].task));
        assert(after.tasks.dom() =~= core.tasks.dom());
        assert forall|i: int| 0 <= i < after.blocked.len() implies after.tasks.contains_key(
            (#[trigger] after.blocked[i]).task,
        ) && after.tasks[after.blocked[i].task].id == after.blocked[i].id by {
            let k = if i < n { i } else { i + 1 };
            assert(after.blocked[i] == core.blocked[k]);
        }
    } else {
        assert forall|i: int| 0 <= i < after.blocked.len() implies core.blocked.contains(
            #[trigger] after.blocked[i],
        ) by {}
    }
}

proof fn lemma_wake_all_keeps_tasks<C>(core: CoreView<C>, handles: Seq<TaskHandle>)
    requires
        core.valid(),
    ensures
        core.wake_all(handles).tasks.dom() == core.tasks.dom(),
        core.wake_all(handles).same_roles(core),
        core.wake_all(handles).keeps_tasks_of(core),
    decreases handles.len(),
{
    if handles.len() > 0 {
        let next = core.wake(handles[0].id);
        let after = core.wake_all(handles);
        lemma_wake_keeps_tasks(core, handles[0].id);
        lemma_wake_all_keeps_tasks(next, handles.drop_first());
        assert forall|r: TaskRef| #[trigger]
            core.tasks.contains_key(r) && after.tasks[r] != core.tasks[r] implies core.waiting(r)
            && after.tasks[r] == CoreView::<C>::woken_task(core.tasks[r], WakeupReason::Custom) by {
            assert(next.tasks.contains_key(r));
            if after.tasks[r] != next.tasks[r] {
                let i = choose|i: int|
                    0 <= i < next.blocked.len() && (#[trigger] next.blocked[i]).task == r;
                let k = choose|k: int|
                    0 <= k < core.blocked.len() && core.blocked[k] == next.blocked[i];
                assert(core.blocked[k].task == r);
            }
        }
    }
}

/// A core that takes in its requests keeps all its tasks. They are as before unless they
/// were blocked and have been woken up. The new tasks get references of their own.
pub proof fn law_input_displaces_no_task<C>(core: CoreView<C>, input: InputView<C>)
    requires
        core.valid(),
        core.has_room(input.new_tasks.len() as int),
    ensures
        core.after_input(input).keeps_tasks_of(core),
        core.after_input(input).same_roles(core),
        core.wake_all(input.wakeup_tasks).tasks.dom() == core.tasks.dom(),
        core.after_input(input).has_got(core.wake_all(input.wakeup_tasks), input.new_tasks),
{
    let woken = core.wake_all(input.wakeup_tasks);
    lemma_wake_all_keeps_tasks(core, input.wakeup_tasks);
    law_new_tasks_are_queued_in_order(woken, input.new_tasks);
    assert forall|r: TaskRef| core.tasks.contains_key(r) implies woken.tasks.contains_key(r) by {
        assert(woken.tasks.dom().contains(r));
    }
}

/// A task that another core has sent becomes a ready task of this core, once this core
/// takes in its requests, just as one that this core spawns itself after all earlier
/// requests.
pub proof fn law_remote_spawn_equals_local_one<C>(
    core: CoreView<C>,
    shared: SharedView<C>,
    task: Task<C>,
)
    requires
        shared.valid(),
        shared.schedulers.contains_key(core.core_id),
        shared.schedulers[core.core_id] == core.input,
    ensures
        core.after_input(shared.with_new_task(core.core_id, task).inputs[core.input])
            == core.after_input(shared.inputs[core.input]).adopted(task),
{
    let input = shared.inputs[core.input];
    lemma_adopted_all_push(core.wake_all(input.wakeup_tasks), input.new_tasks, task);
}

proof fn lemma_adopted_all_push<C>(core: CoreView<C>, tasks: Seq<Task<C>>, task: Task<C>)
    ensures
        core.adopted_all(tasks.push(task)) == core.adopted_all(tasks).adopted(task),
    decreases tasks.len(),
{
    let longer = tasks.push(task);
    if tasks.len() == 0 {
        assert(longer.drop_first() =~= Seq::empty());
        assert(core.adopted(task).adopted_all(longer.drop_first()) == core.adopted(task));
    } else {
        assert(longer.drop_first() =~= tasks.drop_first().push(task));
        lemma_adopted_all_push(core.adopted(tasks[0]), tasks.drop_first(), task);
    }
}

/// Says that a wakeup has been carried out between two states: a task of this core is
/// no longer blocked, and if it was, it is ready and queued. For a task of another core
/// that core has got the request and has been notified.
pub open spec fn wakeup_done<C>(before: System<C>, after: System<C>, handle: TaskHandle) -> bool {
    if handle.core_id == before.core.core_id {
        forall|r: TaskRef| #[trigger]
            before.core.live(r) && before.core.tasks[r].id == handle.id ==> {
                &&& after.core.tasks[r].status != TaskStatus::TaskBlocked
                &&& before.core.tasks[r].status == TaskStatus::TaskBlocked ==> after.core.queued(r)
                    && after.core.tasks[r] == CoreView::<C>::woken_task(
                    before.core.tasks[r],
                    WakeupReason::Custom,
                )
            }
    } else {
        &&& after.shared.input_of(handle.core_id).wakeup_tasks.contains(handle)
        &&& after.notified.contains(handle.core_id)
    }
}

/// What has been carried out stays so while other tasks are woken up.
proof fn lemma_wakeup_stays_done<C>(
    before: System<C>,
    middle: System<C>,
    after: System<C>,
    handle: TaskHandle,
)
    requires
        wakeup_done(before, middle, handle),
        before.core.only_woken(WakeupReason::Custom, middle.core),
        middle.core.only_woken(WakeupReason::Custom, after.core),
        after.only_wakeups_since(middle),
        middle.shared.valid(),
        middle.shared.schedulers.contains_key(handle.core_id),
    ensures
        wakeup_done(before, after, handle),
{
    if handle.core_id == before.core.core_id {
        assert forall|r: TaskRef| #[trigger]
            before.core.live(r) && before.core.tasks[r].id == handle.id implies {
            &&& after.core.tasks[r].status != TaskStatus::TaskBlocked
            &&& before.core.tasks[r].status == TaskStatus::TaskBlocked ==> after.core.queued(r)
                && after.core.tasks[r] == CoreView::<C>::woken_task(
                before.core.tasks[r],
                WakeupReason::Custom,
            )
        } by {
            assert(middle.core.tasks.contains_key(r));
            assert(after.core.tasks[r] == middle.core.tasks[r]);
            if middle.core.queued(r) {
                let i = choose|i: int|
                    0 <= i < middle.core.ready.len() && (#[trigger] middle.core.ready[i]).task == r;
                assert(after.core.ready[i] == middle.core.ready[i]);
            }
        }
    } else {
        let place = middle.shared.schedulers[handle.core_id];
        let old_tasks = middle.shared.inputs[place].wakeup_tasks;
        let new_tasks = after.shared.inputs[place].wakeup_tasks;
        let k = choose|k: int| 0 <= k < old_tasks.len() && old_tasks[k] == handle;
        assert(new_tasks[k] == handle);
        let n = choose|n: int|
            0 <= n < middle.notified.len() && middle.notified[n] == handle.core_id;
        assert(after.notified[n] == handle.core_id);
    }
}

proof fn lemma_wake_is_done<C>(before: System<C>, handle: TaskHandle)
    requires
        before.consistent(),
        before.shared.schedulers.contains_key(handle.core_id),
    ensures
        wakeup_done(before, before.wake(handle), handle),
{
    let after = before.wake(handle);
    if handle.core_id == before.core.core_id {
        assert forall|r: TaskRef| #[trigger]
            before.core.live(r) && before.core.tasks[r].id == handle.id implies {
            &&& after.core.tasks[r].status != TaskStatus::TaskBlocked
            &&& before.core.tasks[r].status == TaskStatus::TaskBlocked ==> after.core.queued(r)
                && after.core.tasks[r] == CoreView::<C>::woken_task(
                before.core.tasks[r],
                WakeupReason::Custom,
            )
        } by {
            if before.core.tasks[r].status == TaskStatus::TaskBlocked {
                law_wakeup_reaches_blocked_task(before.core, r);
            } else {
                law_wakeup_of_unblocked_task_does_nothing(before.core, r);
            }
        }
    } else {
        let requests = after.shared.input_of(handle.core_id).wakeup_tasks;
        assert(requests[requests.len() - 1] == handle);
        assert(after.notified[after.notified.len() - 1] == handle.core_id);
    }
}

/// Where only wakeups lie between two states, a wakeup that is carried out from the
/// second one on is carried out from the first one on.
proof fn lemma_wakeup_done_from_start<C>(
    before: System<C>,
    middle: System<C>,
    after: System<C>,
    handle: TaskHandle,
)
    requires
        before.core.consistent(),
        middle.core.consistent(),
        before.core.only_woken(WakeupReason::Custom, middle.core),
        middle.core.only_woken(WakeupReason::Custom, after.core),
        wakeup_done(middle, after, handle),
    ensures
        wakeup_done(before, after, handle),
{
    lemma_live_unchanged(before.core, middle.core);
    if handle.core_id == before.core.core_id {
        assert forall|r: TaskRef| #[trigger]
            before.core.live(r) && before.core.tasks[r].id == handle.id implies {
            &&& after.core.tasks[r].status != TaskStatus::TaskBlocked
            &&& before.core.tasks[r].status == TaskStatus::TaskBlocked ==> after.core.queued(r)
                && after.core.tasks[r] == CoreView::<C>::woken_task(
                before.core.tasks[r],
                WakeupReason::Custom,
            )
        } by {
            assert(middle.core.live(r));
            assert(middle.core.tasks.contains_key(r) && before.core.tasks.contains_key(r));
            if middle.core.queued(r) {
                let i = choose|i: int|
                    0 <= i < middle.core.ready.len() && (#[trigger] middle.core.ready[i]).task == r;
                assert(after.core.ready[i] == middle.core.ready[i]);
            }
        }
    }
}

proof fn lemma_wake_all_is_done<C>(before: System<C>, handles: Seq<TaskHandle>, k: int)
    requires
        before.consistent(),
        0 <= k < handles.len(),
        forall|i: int|
            0 <= i < handles.len() ==> before.shared.schedulers.contains_key(
                (#[trigger] handles[i]).core_id,
            ),
    ensures
        wakeup_done(before, before.wake_all(handles), handles[k]),
    decreases handles.len(),
{
    let next = before.wake(handles[0]);
    let rest = handles.drop_first();
    let after = before.wake_all(handles);
    law_custom_wakeup_keeps_consistent(before, handles[0]);
    lemma_wake_all_keeps_consistent(next, rest);
    if k == 0 {
        lemma_wake_is_done(before, handles[0]);
        lemma_wakeup_stays_done(before, next, after, handles[0]);
    } else {
        lemma_wake_all_is_done(next, rest, k - 1);
        assert(rest[k - 1] == handles[k]);
        lemma_wakeup_done_from_start(before, next, after, handles[k]);
    }
}

/// Says that a cleanup can go through the given identifiers: they belong to no task of
/// the core that is alive, and to none on its way to it.
spec fn can_forget<C>(before: System<C>, ids: Seq<TaskId>) -> bool {
    &&& before.consistent()
    &&& before.core.finished.len() == 0
    &&& forall|i: int, r: TaskRef|
        #![trigger ids[i], before.core.live(r)]
        0 <= i < ids.len() && before.core.live(r) ==> ids[i] != before.core.tasks[r].id
    &&& forall|i: int, j: int|
        #![trigger ids[i], before.incoming()[j]]
        0 <= i < ids.len() && 0 <= j < before.incoming().len() ==> ids[i]
            != before.incoming()[j].id
}

/// The system after the first of the given tasks was forgotten and those who waited for
/// it were woken up.
spec fn first_forgotten<C>(before: System<C>, ids: Seq<TaskId>) -> System<C> {
    System { shared: before.shared.without_task(ids[0]), ..before }.wake_all(
        before.shared.waiting(ids[0]),
    )
}

/// One step of a cleanup.
proof fn lemma_first_forgotten<C>(before: System<C>, ids: Seq<TaskId>)
    requires
        can_forget(before, ids),
        ids.len() > 0,
    ensures
        ({
            let forgotten = System { shared: before.shared.without_task(ids[0]), ..before };
            let next = first_forgotten(before, ids);
            let waiting = before.shared.waiting(ids[0]);
            &&& forgotten.consistent()
            &&& can_forget(next, ids.drop_first())
            &&& before.forgotten_all(ids) == next.forgotten_all(ids.drop_first())
            &&& before.core.only_woken(WakeupReason::Custom, next.core)
            &&& next.only_wakeups_since(before)
            &&& next.shared.tasks == before.shared.tasks.remove(ids[0])
            &&& forall|i: int|
                0 <= i < waiting.len() ==> before.shared.schedulers.contains_key(
                    (#[trigger] waiting[i]).core_id,
                )
        }),
{
    let id = ids[0];
    let rest = ids.drop_first();
    let forgotten = System { shared: before.shared.without_task(id), ..before };
    let waiting = before.shared.waiting(id);
    let next = first_forgotten(before, ids);
    assert(forgotten.incoming() == before.incoming());
    lemma_waiting_is_valid(before.shared, id);
    assert(forgotten.consistent());
    lemma_wake_all_keeps_consistent(forgotten, waiting);
    lemma_live_unchanged(before.core, next.core);
    assert forall|i: int| 0 <= i < rest.len() implies #[trigger] rest[i] == ids[i + 1] by {}
    assert forall|i: int, r: TaskRef|
        #![trigger rest[i], next.core.live(r)]
        0 <= i < rest.len() && next.core.live(r) implies rest[i] != next.core.tasks[r].id by {
        assert(rest[i] == ids[i + 1]);
        assert(before.core.live(r));
    }
    assert forall|i: int, j: int|
        #![trigger rest[i], next.incoming()[j]]
        0 <= i < rest.len() && 0 <= j < next.incoming().len() implies rest[i]
        != next.incoming()[j].id by {
        assert(rest[i] == ids[i + 1]);
        assert(before.incoming()[j] == next.incoming()[j]);
    }
    assert(forgotten.only_wakeups_since(before));
}

proof fn lemma_forgotten_all_wakes<C>(before: System<C>, ids: Seq<TaskId>, k: int, m: int)
    requires
        can_forget(before, ids),
        0 <= k < ids.len(),
        0 <= m < before.shared.waiting(ids[k]).len(),
    ensures
        wakeup_done(before, before.forgotten_all(ids), before.shared.waiting(ids[k])[m]),
    decreases ids.len(),
{
    let id = ids[k];
    let handle = before.shared.waiting(id)[m];
    let forgotten = System { shared: before.shared.without_task(ids[0]), ..before };
    let next = first_forgotten(before, ids);
    let rest = ids.drop_first();
    let after = before.forgotten_all(ids);
    lemma_first_forgotten(before, ids);
    lemma_forgotten_all_keeps_consistent(next, rest);
    if id == ids[0] {
        lemma_wake_all_is_done(forgotten, before.shared.waiting(id), m);
        assert(wakeup_done(before, next, handle)) by {
            assert(wakeup_done(forgotten, next, handle));
        }
        lemma_wakeup_stays_done(before, next, after, handle);
    } else {
        assert(next.shared.waiting(id) == before.shared.waiting(id));
        assert(rest[k - 1] == id);
        lemma_forgotten_all_wakes(next, rest, k - 1, m);
        lemma_wakeup_done_from_start(before, next, after, handle);
    }
}

/// The end of a task wakes up everybody who waits for it: when a finished task is
/// cleaned up, each task that has joined it is ready again if it lives on this core;
/// otherwise its core has got a request to wake it up, and has been notified.
pub proof fn law_end_of_task_wakes_all_who_wait<C>(before: System<C>, id: TaskId, m: int)
    requires
        before.consistent(),
        before.core.finished.contains(id),
        0 <= m < before.shared.waiting(id).len(),
    ensures
        wakeup_done(before, before.cleaned(), before.shared.waiting(id)[m]),
{
    let finished = before.core.finished;
    let handle = before.shared.waiting(id)[m];
    let k = choose|k: int| 0 <= k < finished.len() && finished[k] == id;
    let start = cleanup_start(before);
    lemma_cleanup_start(before);
    assert forall|r: TaskRef| #[trigger] start.core.live(r) <==> before.core.live(r) by {}
    assert(start.incoming() == before.incoming());
    assert(can_forget(start, finished));
    lemma_forgotten_all_wakes(start, finished, k, m);
    let after = start.forgotten_all(finished);
    law_release_keeps_live_tasks(after.core);
    lemma_live_unchanged(start.core, after.core);
    if handle.core_id == before.core.core_id {
        assert forall|r: TaskRef| #[trigger]
            before.core.live(r) && before.core.tasks[r].id == handle.id implies {
            let end = before.cleaned();
            &&& end.core.tasks[r].status != TaskStatus::TaskBlocked
            &&& before.core.tasks[r].status == TaskStatus::TaskBlocked ==> end.core.queued(r)
                && end.core.tasks[r] == CoreView::<C>::woken_task(
                before.core.tasks[r],
                WakeupReason::Custom,
            )
        } by {
            assert(start.core.live(r));
            assert(after.core.live(r));
            assert(before.cleaned().core.ready == after.core.ready);
        }
    }
}

/// Says that none of the given wakeups is for the given task of the core.
spec fn not_among<C>(core: CoreView<C>, handles: Seq<TaskHandle>, r: TaskRef) -> bool {
    forall|i: int|
        0 <= i < handles.len() ==> (#[trigger] handles[i]).core_id != core.core_id || handles[i].id
            != core.tasks[r].id
}

proof fn lemma_wake_all_spares_others<C>(before: System<C>, handles: Seq<TaskHandle>, r: TaskRef)
    requires
        before.consistent(),
        before.core.tasks.contains_key(r),
        not_among(before.core, handles, r),
        forall|i: int|
            0 <= i < handles.len() ==> before.shared.schedulers.contains_key(
                (#[trigger] handles[i]).core_id,
            ),
    ensures
        before.wake_all(handles).core.tasks[r] == before.core.tasks[r],
    decreases handles.len(),
{
    if handles.len() > 0 {
        let next = before.wake(handles[0]);
        law_custom_wakeup_keeps_consistent(before, handles[0]);
        law_wakeup_keeps_consistent(before.core, handles[0].id);
        assert(next.core.tasks[r] == before.core.tasks[r]);
        lemma_wake_all_spares_others(next, handles.drop_first(), r);
    }
}

proof fn lemma_forgotten_all_spares_others<C>(before: System<C>, ids: Seq<TaskId>, r: TaskRef)
    requires
        can_forget(before, ids),
        before.core.tasks.contains_key(r),
        forall|k: int|
            0 <= k < ids.len() ==> not_among(
                before.core,
                before.shared.waiting(#[trigger] ids[k]),
                r,
            ),
    ensures
        before.forgotten_all(ids).core.tasks[r] == before.core.tasks[r],
    decreases ids.len(),
{
    if ids.len() > 0 {
        let forgotten = System { shared: before.shared.without_task(ids[0]), ..before };
        let next = first_forgotten(before, ids);
        let rest = ids.drop_first();
        lemma_first_forgotten(before, ids);
        assert(not_among(forgotten.core, before.shared.waiting(ids[0]), r));
        lemma_wake_all_spares_others(forgotten, before.shared.waiting(ids[0]), r);
        assert forall|k: int| 0 <= k < rest.len() implies not_among(
            next.core,
            next.shared.waiting(#[trigger] rest[k]),
            r,
        ) by {
            assert(rest[k] == ids[k + 1]);
            assert(not_among(before.core, before.shared.waiting(ids[k + 1]), r));
        }
        lemma_forgotten_all_spares_others(next, rest, r);
    }
}

/// The end of a task wakes up nobody else: a task of the core that waits for none of the
/// finished tasks stays as it is when they are cleaned up.
pub proof fn law_end_of_task_wakes_nobody_else<C>(before: System<C>, r: TaskRef)
    requires
        before.consistent(),
        before.core.live(r),
        forall|k: int, m: int|
            0 <= k < before.core.finished.len() && 0 <= m < before.shared.waiting(
                before.core.finished[k],
            ).len() ==> {
                let handle = #[trigger] before.shared.waiting(before.core.finished[k])[m];
                handle.core_id != before.core.core_id || handle.id != before.core.tasks[r].id
            },
    ensures
        before.cleaned().core.tasks[r] == before.core.tasks[r],
{
    let finished = before.core.finished;
    if finished.len() > 0 {
        let start = cleanup_start(before);
        lemma_cleanup_start(before);
        assert forall|q: TaskRef| #[trigger] start.core.live(q) <==> before.core.live(q) by {}
        assert(start.incoming() == before.incoming());
        assert(can_forget(start, finished));
        assert forall|k: int| 0 <= k < finished.len() implies not_among(
            start.core,
            start.shared.waiting(#[trigger] finished[k]),
            r,
        ) by {}
        lemma_forgotten_all_spares_others(start, finished, r);
        let after = start.forgotten_all(finished);
        law_release_keeps_live_tasks(after.core);
        lemma_live_unchanged(start.core, after.core);
        assert(start.core.live(r));
        assert(after.core.live(r));
    }
}

proof fn lemma_forgotten_all_unawaited<C>(before: System<C>, ids: Seq<TaskId>)
    requires
        !any_awaited(before.shared, ids),
    ensures
        before.forgotten_all(ids).core == before.core,
        before.forgotten_all(ids).notified == before.notified,
    decreases ids.len(),
{
    if ids.len() > 0 {
        let rest = ids.drop_first();
        let next = System { shared: before.shared.without_task(ids[0]), ..before };
        assert(before.shared.waiting(ids[0]).len() == 0);
        assert(next.wake_all(before.shared.waiting(ids[0])) == next);
        assert forall|i: int| 0 <= i < rest.len() implies next.shared.waiting(
            #[trigger] rest[i],
        ).len() == 0 by {
            assert(rest[i] == ids[i + 1]);
            assert(before.shared.waiting(ids[i + 1]).len() == 0);
        }
        assert(!any_awaited(next.shared, rest));
        lemma_forgotten_all_unawaited(next, rest);
    }
}

/// Where nobody waits for a finished task, a cleanup makes no task ready and notifies no
/// core.
pub proof fn law_unawaited_cleanup_wakes_nobody<C>(before: System<C>)
    requires
        !before.finished_awaited(),
    ensures
        before.cleaned().core.ready == before.core.ready,
        before.cleaned().core.blocked == before.core.blocked,
        before.cleaned().notified == before.notified,
{
    if before.core.finished.len() > 0 {
        lemma_forgotten_all_unawaited(cleanup_start(before), before.core.finished);
    }
}

/// An idle task that asks what comes next never waits while a task is ready: either it
/// switches to a task, or no task is ready and it waits.
pub proof fn law_idle_task_waits_only_without_ready_tasks<C>(
    before: System<C>,
    slice_ticks: u64,
    switch_ticks: u64,
)
    requires
        before.consistent(),
        before.core.current == before.core.idle,
    ensures
        ({
            let event = IdleEvent::Enter { slice_ticks, switch_ticks };
            let after = idle_step(before, event);
            match idle_action(before, event) {
                IdleAction::Switch(switch) => after.core.current == switch.to && switch.to
                    != before.core.idle,
                IdleAction::Enable => false,
                IdleAction::EnableAndWait => after.core.ready.len() == 0 && after.core.current
                    == before.core.idle,
            }
        }),
{
    law_cleanup_keeps_consistent(before);
    let core = before.cleaned().core;
    assert(core.live(core.idle));
    if core.ready.len() > 0 {
        lemma_next_exists(core.ready);
        let r = next_entry(core.ready).task;
        assert(core.queued(r));
        assert(core.live(r));
    }
}

/// An idle task that continues after a switch waits only if the cleanup has made no task
/// ready.
pub proof fn law_resumed_idle_task_waits_only_if_nobody_was_woken<C>(before: System<C>)
    requires
        before.consistent(),
    ensures
        idle_action(before, IdleEvent::Resumed) == IdleAction::EnableAndWait ==> idle_step(
            before,
            IdleEvent::Resumed,
        ).core.ready == before.core.ready,
        idle_action(before, IdleEvent::Resumed) == IdleAction::EnableAndWait || idle_action(
            before,
            IdleEvent::Resumed,
        ) == IdleAction::Enable,
{
    if !before.finished_awaited() {
        law_unawaited_cleanup_wakes_nobody(before);
    }
}

} // verus!
