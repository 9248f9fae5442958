use percore_scheduler::lifecycle::{abort, add_current_core, init, join};
use percore_scheduler::model::{FpuSwitch, IdleAction, IdleEvent, Switch, TASK_TIME_SLICE};
use percore_scheduler::percore::{KernelEntryStacks, PerCoreScheduler};
use percore_scheduler::shared::SharedState;
use percore_scheduler::task::{
    Priority, TaskHandle, TaskId, TaskSeed, TaskStacks, WakeupReason,
};

fn seed(stack_pointer: usize) -> TaskSeed<u32> {
    TaskSeed {
        stacks: TaskStacks {
            kernel_stack: 0x1000,
            kernel_stack_size: 0x2000,
            interrupt_stack: 0x8000,
            interrupt_stack_size: 0x1000,
        },
        stack_pointer,
        context: 0,
    }
}

fn boot() -> (SharedState<u32>, PerCoreScheduler<u32>) {
    let mut shared = SharedState::new();
    init(&mut shared);
    let scheduler = add_current_core(&mut shared, 0, seed(1));
    (shared, scheduler)
}

fn spawn(shared: &mut SharedState<u32>, core: &mut PerCoreScheduler<u32>, prio: u8) -> TaskId {
    let here = core.get_core_id();
    let (id, notified) = core.spawn(shared, Priority(prio), here, seed(100 + prio as usize));
    assert_eq!(notified, None);
    id
}

#[test]
fn a_new_core_runs_its_idle_task() {
    let (shared, core) = boot();
    assert_eq!(core.get_core_id(), 0);
    assert_eq!(core.get_current_task_id(), TaskId(0));
    assert!(core.is_idle());
    assert!(!core.is_scheduling());
    assert_eq!(shared.number_of_tasks(), 0);
    assert!(shared.has_free_tid());
    assert!(shared.get_scheduler(0).is_some());
    assert!(shared.get_scheduler(1).is_none());
}

#[test]
fn a_spawned_task_gets_an_idle_core() {
    let (mut shared, mut core) = boot();
    let id = spawn(&mut shared, &mut core, 3);
    assert_eq!(id, TaskId(1));
    assert_eq!(shared.number_of_tasks(), 1);
    assert!(core.is_scheduling());
    let out = core.scheduler(&mut shared, 50, 51);
    assert!(out.notified.is_empty());
    assert_eq!(out.switch, Some(Switch { from: 0, to: 1, new_stack_pointer: 103 }));
    assert_eq!(core.get_current_task_id(), id);
    assert!(!core.is_idle());
    assert!(!core.is_scheduling());
    assert_eq!(
        core.get_current_task_handle(),
        TaskHandle { id, prio: Priority(3), core_id: 0 }
    );
}

#[test]
fn without_ready_tasks_the_idle_task_goes_on() {
    let (mut shared, mut core) = boot();
    let out = core.reschedule(&mut shared, 5, 6);
    assert_eq!(out.switch, None);
    assert!(core.is_idle());
}

#[test]
fn a_more_urgent_task_preempts_within_the_time_slice() {
    let (mut shared, mut core) = boot();
    let low = spawn(&mut shared, &mut core, 1);
    core.scheduler(&mut shared, 0, 0);
    let high = spawn(&mut shared, &mut core, 2);
    assert!(core.is_scheduling());
    let out = core.scheduler(&mut shared, 1, 1);
    assert_eq!(out.switch, Some(Switch { from: 1, to: 2, new_stack_pointer: 102 }));
    assert_eq!(core.get_current_task_id(), high);
    core.exit(&mut shared, 0, 2);
    assert_eq!(core.get_current_task_id(), low);
}

#[test]
fn a_less_urgent_task_has_to_wait_however_long() {
    let (mut shared, mut core) = boot();
    let high = spawn(&mut shared, &mut core, 2);
    core.scheduler(&mut shared, 0, 0);
    spawn(&mut shared, &mut core, 1);
    let out = core.scheduler(&mut shared, u64::MAX, u64::MAX);
    assert_eq!(out.switch, None);
    assert_eq!(core.get_current_task_id(), high);
}

#[test]
fn equally_urgent_tasks_take_turns_after_a_time_slice() {
    let (mut shared, mut core) = boot();
    let a = spawn(&mut shared, &mut core, 2);
    let b = spawn(&mut shared, &mut core, 2);
    let c = spawn(&mut shared, &mut core, 2);
    core.scheduler(&mut shared, 1000, 1000);
    assert_eq!(core.get_current_task_id(), a);

    // The time slice has to be exceeded, not just reached.
    let slice = TASK_TIME_SLICE;
    assert_eq!(slice, 10_000);
    assert_eq!(core.scheduler(&mut shared, 1000 + slice, 0).switch, None);
    assert_eq!(core.get_current_task_id(), a);

    core.scheduler(&mut shared, 1001 + slice, 20_000);
    assert_eq!(core.get_current_task_id(), b);
    core.scheduler(&mut shared, 30_001, 40_000);
    assert_eq!(core.get_current_task_id(), c);
    core.scheduler(&mut shared, 50_001, 60_000);
    assert_eq!(core.get_current_task_id(), a);
}

#[test]
fn the_most_urgent_priority_takes_turns_too() {
    let (mut shared, mut core) = boot();
    let a = spawn(&mut shared, &mut core, 255);
    let b = spawn(&mut shared, &mut core, 255);
    core.scheduler(&mut shared, 0, 0);
    assert_eq!(core.get_current_task_id(), a);
    core.scheduler(&mut shared, 10_000, 10_000);
    assert_eq!(core.get_current_task_id(), a);
    core.scheduler(&mut shared, 10_001, 10_001);
    assert_eq!(core.get_current_task_id(), b);
}

#[test]
fn an_exit_hands_over_the_core_and_uncounts_the_task() {
    let (mut shared, mut core) = boot();
    spawn(&mut shared, &mut core, 1);
    core.scheduler(&mut shared, 0, 0);
    assert_eq!(shared.number_of_tasks(), 1);
    let out = core.exit(&mut shared, 7, 10);
    assert_eq!(out.switch, Some(Switch { from: 1, to: 0, new_stack_pointer: 1 }));
    assert!(core.is_idle());
    assert_eq!(shared.number_of_tasks(), 0);
}

#[test]
fn an_abort_is_an_exit() {
    let (mut shared, mut core) = boot();
    spawn(&mut shared, &mut core, 1);
    core.scheduler(&mut shared, 0, 0);
    let out = abort(&mut core, &mut shared, 10);
    assert!(out.switch.is_some());
    assert!(core.is_idle());
    assert_eq!(shared.number_of_tasks(), 0);
}

#[test]
fn a_finished_task_is_known_until_its_cleanup() {
    let (mut shared, mut core) = boot();
    let id = spawn(&mut shared, &mut core, 1);
    core.scheduler(&mut shared, 0, 0);
    core.exit(&mut shared, 0, 1);
    let next = spawn(&mut shared, &mut core, 1);
    assert_ne!(id, next);
    core.scheduler(&mut shared, 2, 2);
    assert_eq!(core.get_current_task_id(), next);

    // After the cleanup nobody can wait for the finished task any more.
    let out = join(&mut core, &mut shared, id, 3).unwrap();
    assert_eq!(out.switch, None);
    assert_eq!(core.get_current_task_id(), next);
}

#[test]
fn the_slot_of_a_cleaned_up_task_is_used_again() {
    let (mut shared, mut core) = boot();
    spawn(&mut shared, &mut core, 1);
    core.scheduler(&mut shared, 0, 0);
    core.exit(&mut shared, 0, 1);
    core.scheduler(&mut shared, 2, 2);
    spawn(&mut shared, &mut core, 4);
    let out = core.scheduler(&mut shared, 3, 3);
    assert_eq!(out.switch, Some(Switch { from: 0, to: 1, new_stack_pointer: 104 }));
}

#[test]
fn a_joined_task_wakes_the_one_that_waits() {
    let (mut shared, mut core) = boot();
    let waiter = spawn(&mut shared, &mut core, 2);
    let worker = spawn(&mut shared, &mut core, 1);
    core.scheduler(&mut shared, 0, 0);
    assert_eq!(core.get_current_task_id(), waiter);
    core.set_current_task_wakeup_reason(WakeupReason::Timer);
    let out = join(&mut core, &mut shared, worker, 1).unwrap();
    assert_eq!(out.switch, Some(Switch { from: 1, to: 2, new_stack_pointer: 101 }));
    assert_eq!(core.get_current_task_id(), worker);

    core.exit(&mut shared, 0, 2);
    assert!(core.is_idle());
    let (notified, action) = core.reschedule_and_wait(&mut shared, IdleEvent::Resumed);
    assert!(notified.is_empty());
    assert_eq!(action, IdleAction::Enable);
    core.scheduler(&mut shared, 3, 3);
    assert_eq!(core.get_current_task_id(), waiter);
    assert_eq!(core.get_current_task_wakeup_reason(), WakeupReason::Custom);
}

#[test]
fn a_join_with_an_unknown_task_returns_at_once() {
    let (mut shared, mut core) = boot();
    let id = spawn(&mut shared, &mut core, 2);
    core.scheduler(&mut shared, 0, 0);
    let out = join(&mut core, &mut shared, TaskId(99), 1).unwrap();
    assert!(out.notified.is_empty());
    assert_eq!(out.switch, None);
    assert_eq!(core.get_current_task_id(), id);
}

#[test]
fn the_idle_task_waits_when_nothing_is_ready() {
    let (mut shared, mut core) = boot();
    let enter = IdleEvent::Enter { slice_ticks: 1, switch_ticks: 2 };
    let (_, action) = core.reschedule_and_wait(&mut shared, enter);
    assert_eq!(action, IdleAction::EnableAndWait);
    let (_, action) = core.reschedule_and_wait(&mut shared, IdleEvent::Resumed);
    assert_eq!(action, IdleAction::EnableAndWait);
}

#[test]
fn the_idle_task_switches_to_a_ready_task() {
    let (mut shared, mut core) = boot();
    spawn(&mut shared, &mut core, 6);
    let enter = IdleEvent::Enter { slice_ticks: 1, switch_ticks: 2 };
    let (_, action) = core.reschedule_and_wait(&mut shared, enter);
    assert_eq!(
        action,
        IdleAction::Switch(Switch { from: 0, to: 1, new_stack_pointer: 106 })
    );
}

#[test]
fn a_blocked_task_wakes_up_when_its_time_has_come() {
    let (mut shared, mut core) = boot();
    let id = spawn(&mut shared, &mut core, 2);
    core.scheduler(&mut shared, 0, 0);
    core.block_current_task(Some(500));
    core.scheduler(&mut shared, 1, 1);
    assert!(core.is_idle());
    core.handle_waiting_tasks(499);
    assert!(!core.is_scheduling());
    core.handle_waiting_tasks(500);
    assert!(core.is_scheduling());
    core.scheduler(&mut shared, 501, 501);
    assert_eq!(core.get_current_task_id(), id);
    assert_eq!(core.get_current_task_wakeup_reason(), WakeupReason::Timer);
}

#[test]
fn elapsed_tasks_become_ready_in_the_order_of_their_times() {
    let (mut shared, mut core) = boot();
    let a = spawn(&mut shared, &mut core, 2);
    let b = spawn(&mut shared, &mut core, 2);
    core.scheduler(&mut shared, 0, 0);
    core.block_current_task(Some(900));
    core.scheduler(&mut shared, 1, 1);
    core.block_current_task(Some(800));
    core.scheduler(&mut shared, 2, 2);
    core.handle_waiting_tasks(1000);
    core.scheduler(&mut shared, 3, 3);
    assert_eq!(core.get_current_task_id(), b);
    core.exit(&mut shared, 0, 4);
    assert_eq!(core.get_current_task_id(), a);
}

#[test]
fn a_task_woken_before_it_leaves_goes_on_without_a_switch() {
    let (mut shared, mut core) = boot();
    let id = spawn(&mut shared, &mut core, 2);
    core.scheduler(&mut shared, 0, 0);
    core.block_current_task(None);
    let handle = core.get_current_task_handle();
    assert_eq!(core.custom_wakeup(&mut shared, handle), None);
    let out = core.scheduler(&mut shared, 1, 1);
    assert_eq!(out.switch, None);
    assert_eq!(core.get_current_task_id(), id);
    assert!(!core.is_scheduling());
}

#[test]
fn a_wakeup_of_a_running_task_does_nothing() {
    let (mut shared, mut core) = boot();
    spawn(&mut shared, &mut core, 2);
    core.scheduler(&mut shared, 0, 0);
    let handle = core.get_current_task_handle();
    assert_eq!(core.custom_wakeup(&mut shared, handle), None);
    assert_eq!(core.scheduler(&mut shared, 20_000, 20_000).switch, None);
}

#[test]
fn the_current_task_keeps_what_is_written() {
    let (mut shared, mut core) = boot();
    spawn(&mut shared, &mut core, 2);
    core.scheduler(&mut shared, 0, 0);
    assert_eq!(core.get_lwip_errno(), 0);
    core.set_lwip_errno(-11);
    assert_eq!(core.get_lwip_errno(), -11);
    assert_eq!(core.get_current_user_stack(), 0);
    core.set_current_user_stack(0xbeef);
    assert_eq!(core.get_current_user_stack(), 0xbeef);
    core.set_current_task_wakeup_reason(WakeupReason::Timer);
    assert_eq!(core.get_current_task_wakeup_reason(), WakeupReason::Timer);
    core.exit(&mut shared, 0, 1);
    assert_eq!(core.get_lwip_errno(), 0);
}

#[test]
fn the_stacks_end_below_their_tops() {
    let (_, core) = boot();
    assert_eq!(core.get_current_stacks().kernel_stack, 0x1000);
    assert_eq!(core.get_current_kernel_stack(0x4000), 0x4ff0);
    assert_eq!(
        core.set_current_kernel_stack(),
        KernelEntryStacks { rsp0: 0x2ff0, ist0: 0x8ff0 }
    );
}

#[test]
fn the_fpu_changes_its_owner_once() {
    let (mut shared, mut core) = boot();
    assert_eq!(core.fpu_switch(), None);
    spawn(&mut shared, &mut core, 2);
    core.scheduler(&mut shared, 0, 0);
    assert_eq!(core.fpu_switch(), Some(FpuSwitch { save: 0, restore: 1 }));
    assert_eq!(core.fpu_switch(), None);
}

#[test]
fn the_fpu_owner_outlives_its_end() {
    let (mut shared, mut core) = boot();
    spawn(&mut shared, &mut core, 2);
    core.scheduler(&mut shared, 0, 0);
    core.fpu_switch();
    core.exit(&mut shared, 0, 1);
    core.scheduler(&mut shared, 2, 2);
    assert_eq!(core.fpu_switch(), Some(FpuSwitch { save: 1, restore: 0 }));
    *core.context_mut(1) = 9;
    assert_eq!(*core.context_mut(1), 9);
}

#[test]
fn a_saved_stack_pointer_is_used_for_the_next_switch() {
    let (mut shared, mut core) = boot();
    spawn(&mut shared, &mut core, 2);
    let out = core.scheduler(&mut shared, 0, 0);
    *core.last_stack_pointer_mut(out.switch.unwrap().from) = 0x777;
    let out = core.exit(&mut shared, 0, 1);
    assert_eq!(out.switch, Some(Switch { from: 1, to: 0, new_stack_pointer: 0x777 }));
}

#[test]
fn a_new_core_has_no_requests() {
    let (mut shared, mut core) = boot();
    core.check_input(&mut shared);
    assert!(core.is_idle());
    assert!(!core.is_scheduling());
    assert_eq!(core.scheduler(&mut shared, 0, 0).switch, None);
    assert_eq!(spawn(&mut shared, &mut core, 1), TaskId(1));
    core.scheduler(&mut shared, 0, 0);
    core.check_input(&mut shared);
    assert_eq!(core.get_current_task_id(), TaskId(1));
}

#[test]
fn an_end_that_nobody_awaits_wakes_nobody() {
    let (mut shared, mut core) = boot();
    let sleeper = spawn(&mut shared, &mut core, 3);
    core.scheduler(&mut shared, 0, 0);
    assert_eq!(core.get_current_task_id(), sleeper);
    core.block_current_task(None);
    spawn(&mut shared, &mut core, 1);
    core.scheduler(&mut shared, 1, 1);
    core.exit(&mut shared, 0, 2);
    assert!(core.is_idle());
    let (notified, action) = core.reschedule_and_wait(&mut shared, IdleEvent::Resumed);
    assert!(notified.is_empty());
    assert_eq!(action, IdleAction::EnableAndWait);
    assert!(!core.is_scheduling());
}

#[test]
fn a_second_cleanup_does_nothing() {
    let (mut shared, mut core) = boot();
    let waiter = spawn(&mut shared, &mut core, 2);
    let worker = spawn(&mut shared, &mut core, 1);
    core.scheduler(&mut shared, 0, 0);
    join(&mut core, &mut shared, worker, 1).unwrap();
    core.exit(&mut shared, 0, 2);
    let (_, action) = core.reschedule_and_wait(&mut shared, IdleEvent::Resumed);
    assert_eq!(action, IdleAction::Enable);
    let (notified, action) = core.reschedule_and_wait(&mut shared, IdleEvent::Resumed);
    assert!(notified.is_empty());
    assert_eq!(action, IdleAction::EnableAndWait);
    assert!(!shared.has_task(worker));
    assert!(shared.has_task(waiter));
    core.scheduler(&mut shared, 3, 3);
    assert_eq!(core.get_current_task_id(), waiter);
}

#[test]
fn a_preempted_task_is_not_lost() {
    let (mut shared, mut core) = boot();
    let mut left = Vec::new();
    for prio in 1..6 {
        left.push(spawn(&mut shared, &mut core, prio));
        core.scheduler(&mut shared, 0, 0);
        assert_eq!(core.get_current_task_id(), left[left.len() - 1]);
    }
    while let Some(id) = left.pop() {
        assert_eq!(core.get_current_task_id(), id);
        core.exit(&mut shared, 0, 0);
    }
    assert!(core.is_idle());
    assert_eq!(shared.number_of_tasks(), 0);
}

#[test]
fn everybody_who_joined_is_woken_in_order() {
    let (mut shared, mut core) = boot();
    let first = spawn(&mut shared, &mut core, 5);
    let second = spawn(&mut shared, &mut core, 5);
    let worker = spawn(&mut shared, &mut core, 1);
    core.scheduler(&mut shared, 0, 0);
    join(&mut core, &mut shared, worker, 1).unwrap();
    join(&mut core, &mut shared, worker, 2).unwrap();
    assert_eq!(core.get_current_task_id(), worker);
    core.exit(&mut shared, 0, 3);
    core.scheduler(&mut shared, 4, 4);
    assert_eq!(core.get_current_task_id(), first);
    core.exit(&mut shared, 0, 5);
    assert_eq!(core.get_current_task_id(), second);
}
