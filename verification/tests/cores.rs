use percore_scheduler::lifecycle::{add_current_core, init, join};
use percore_scheduler::model::Switch;
use percore_scheduler::percore::PerCoreScheduler;
use percore_scheduler::shared::SharedState;
use percore_scheduler::task::{Priority, TaskHandle, TaskId, TaskSeed, TaskStacks};

fn seed(stack_pointer: usize) -> TaskSeed<u32> {
    TaskSeed {
        stacks: TaskStacks {
            kernel_stack: 0x1000,
            kernel_stack_size: 0x2000,
            interrupt_stack: 0x8000,
            interrupt_stack_size: 0x1000,
        },
        stack_pointer,
        context: 0,
    }
}

fn boot(count: u32) -> (SharedState<u32>, Vec<PerCoreScheduler<u32>>) {
    let mut shared = SharedState::new();
    init(&mut shared);
    let mut cores = Vec::new();
    for core_id in 0..count {
        cores.push(add_current_core(&mut shared, core_id, seed(core_id as usize)));
    }
    (shared, cores)
}

#[test]
fn every_core_has_an_idle_task_of_its_own() {
    let (_, cores) = boot(3);
    assert_eq!(cores[0].get_current_task_id(), TaskId(0));
    assert_eq!(cores[1].get_current_task_id(), TaskId(1));
    assert_eq!(cores[2].get_current_task_id(), TaskId(2));
}

#[test]
fn a_task_for_another_core_goes_through_its_input() {
    let (mut shared, mut cores) = boot(2);
    let (id, notified) = cores[0].spawn(&mut shared, Priority(2), 1, seed(70));
    assert_eq!(id, TaskId(2));
    assert_eq!(notified, Some(1));
    assert!(!cores[0].is_scheduling());
    assert!(!cores[1].is_scheduling());
    cores[1].check_input(&mut shared);
    assert!(cores[1].is_scheduling());
    let out = cores[1].scheduler(&mut shared, 0, 0);
    assert_eq!(out.switch, Some(Switch { from: 0, to: 1, new_stack_pointer: 70 }));
    assert_eq!(
        cores[1].get_current_task_handle(),
        TaskHandle { id, prio: Priority(2), core_id: 1 }
    );
}

#[test]
fn new_tasks_from_another_core_keep_their_order() {
    let (mut shared, mut cores) = boot(2);
    let (a, _) = cores[0].spawn(&mut shared, Priority(2), 1, seed(70));
    let (b, _) = cores[0].spawn(&mut shared, Priority(2), 1, seed(71));
    cores[1].check_input(&mut shared);
    cores[1].check_input(&mut shared);
    cores[1].scheduler(&mut shared, 0, 0);
    assert_eq!(cores[1].get_current_task_id(), a);
    cores[1].exit(&mut shared, 0, 0);
    assert_eq!(cores[1].get_current_task_id(), b);
    cores[1].exit(&mut shared, 0, 0);
    assert!(cores[1].is_idle());
}

#[test]
fn a_wakeup_for_another_core_goes_through_its_input() {
    let (mut shared, mut cores) = boot(2);
    let (id, _) = cores[1].spawn(&mut shared, Priority(2), 1, seed(70));
    cores[1].scheduler(&mut shared, 0, 0);
    let handle = cores[1].get_current_task_handle();
    cores[1].block_current_task(None);
    cores[1].scheduler(&mut shared, 0, 0);
    assert!(cores[1].is_idle());

    assert_eq!(cores[0].custom_wakeup(&mut shared, handle), Some(1));
    assert!(!cores[1].is_scheduling());
    cores[1].check_input(&mut shared);
    cores[1].scheduler(&mut shared, 0, 0);
    assert_eq!(cores[1].get_current_task_id(), id);
}

#[test]
fn a_join_across_cores_notifies_the_core_that_waits() {
    let (mut shared, mut cores) = boot(2);
    let (worker, _) = cores[0].spawn(&mut shared, Priority(2), 0, seed(70));
    let (waiter, _) = cores[1].spawn(&mut shared, Priority(2), 1, seed(71));
    cores[0].scheduler(&mut shared, 0, 0);
    cores[1].scheduler(&mut shared, 0, 0);
    join(&mut cores[1], &mut shared, worker, 1).unwrap();
    assert!(cores[1].is_idle());

    let out = cores[0].exit(&mut shared, 0, 2);
    assert!(out.notified.is_empty());
    let out = cores[0].scheduler(&mut shared, 3, 3);
    assert_eq!(out.notified, vec![1]);
    cores[1].check_input(&mut shared);
    cores[1].scheduler(&mut shared, 4, 4);
    assert_eq!(cores[1].get_current_task_id(), waiter);
}

#[test]
fn clones_are_spread_over_all_cores() {
    let (mut shared, mut cores) = boot(2);
    assert_eq!(shared.peek_next_core(2), 1);
    let (a, notified) = cores[0].clone(&mut shared, 2, seed(80));
    assert_eq!((a, notified), (TaskId(2), Some(1)));
    assert_eq!(shared.peek_next_core(2), 0);
    let (b, notified) = cores[0].clone(&mut shared, 2, seed(81));
    assert_eq!((b, notified), (TaskId(3), None));
    let (c, notified) = cores[0].clone(&mut shared, 2, seed(82));
    assert_eq!((c, notified), (TaskId(4), None));
    let (d, notified) = cores[0].clone(&mut shared, 2, seed(83));
    assert_eq!((d, notified), (TaskId(5), Some(1)));
    assert_eq!(shared.number_of_tasks(), 4);
}

#[test]
fn a_clone_has_the_priority_of_its_parent() {
    let (mut shared, mut cores) = boot(2);
    cores[0].spawn(&mut shared, Priority(9), 0, seed(70));
    cores[0].scheduler(&mut shared, 0, 0);
    let (id, _) = cores[0].clone(&mut shared, 2, seed(80));
    cores[1].check_input(&mut shared);
    cores[1].scheduler(&mut shared, 0, 0);
    assert_eq!(
        cores[1].get_current_task_handle(),
        TaskHandle { id, prio: Priority(9), core_id: 1 }
    );
}

#[test]
fn new_tasks_displace_no_task_of_the_core() {
    let (mut shared, mut cores) = boot(2);
    let (own, _) = cores[1].spawn(&mut shared, Priority(5), 1, seed(70));
    cores[1].scheduler(&mut shared, 0, 0);
    cores[1].set_lwip_errno(7);
    let (waiting, _) = cores[1].spawn(&mut shared, Priority(4), 1, seed(71));
    let mut sent = Vec::new();
    for k in 0..5 {
        sent.push(cores[0].spawn(&mut shared, Priority(3), 1, seed(80 + k)).0);
    }
    cores[1].check_input(&mut shared);
    assert_eq!(cores[1].get_current_task_id(), own);
    assert_eq!(cores[1].get_lwip_errno(), 7);
    let mut expected = vec![waiting];
    expected.extend(sent);
    for id in expected {
        cores[1].exit(&mut shared, 0, 1);
        assert_eq!(cores[1].get_current_task_id(), id);
        assert_eq!(cores[1].get_lwip_errno(), 0);
    }
    cores[1].exit(&mut shared, 0, 2);
    assert!(cores[1].is_idle());
}

#[test]
fn a_fresh_start_keeps_the_counters() {
    let (mut shared, mut cores) = boot(1);
    cores[0].spawn(&mut shared, Priority(1), 0, seed(70));
    init(&mut shared);
    assert!(shared.get_scheduler(0).is_none());
    assert_eq!(shared.number_of_tasks(), 1);
    let core = add_current_core(&mut shared, 0, seed(0));
    assert_eq!(core.get_current_task_id(), TaskId(2));
}

#[test]
fn a_fresh_start_keeps_the_requests_of_a_core() {
    let (mut shared, mut cores) = boot(2);
    let (sleeper, _) = cores[1].spawn(&mut shared, Priority(3), 1, seed(70));
    cores[1].scheduler(&mut shared, 0, 0);
    let handle = cores[1].get_current_task_handle();
    cores[1].block_current_task(None);
    cores[1].scheduler(&mut shared, 0, 0);
    let (id, _) = cores[0].spawn(&mut shared, Priority(2), 1, seed(71));
    cores[0].custom_wakeup(&mut shared, handle);

    init(&mut shared);
    assert!(shared.get_scheduler(1).is_none());
    assert!(!shared.has_task(id));
    cores[1].check_input(&mut shared);
    cores[1].scheduler(&mut shared, 1, 1);
    assert_eq!(cores[1].get_current_task_id(), sleeper);
    cores[1].exit(&mut shared, 0, 2);
    assert_eq!(cores[1].get_current_task_id(), id);
}

#[test]
fn a_core_that_is_added_again_starts_without_requests() {
    let (mut shared, mut cores) = boot(2);
    let (old, _) = cores[0].spawn(&mut shared, Priority(2), 1, seed(70));
    let mut again = add_current_core(&mut shared, 1, seed(1));
    let (new, _) = cores[0].spawn(&mut shared, Priority(2), 1, seed(71));
    again.check_input(&mut shared);
    again.scheduler(&mut shared, 0, 0);
    assert_eq!(again.get_current_task_id(), new);
    again.exit(&mut shared, 0, 1);
    assert!(again.is_idle());

    cores[1].check_input(&mut shared);
    cores[1].scheduler(&mut shared, 0, 0);
    assert_eq!(cores[1].get_current_task_id(), old);
    cores[1].exit(&mut shared, 0, 1);
    assert!(cores[1].is_idle());
}

#[test]
fn a_forgotten_core_can_join_an_unknown_task() {
    let (mut shared, mut cores) = boot(1);
    cores[0].spawn(&mut shared, Priority(2), 0, seed(70));
    cores[0].scheduler(&mut shared, 0, 0);
    init(&mut shared);
    let out = join(&mut cores[0], &mut shared, TaskId(0), 1).unwrap();
    assert_eq!(out.switch, None);
    assert!(!cores[0].is_idle());
}

#[test]
fn an_exit_and_a_cleanup_undo_a_spawn() {
    let (mut shared, mut cores) = boot(2);
    assert_eq!(shared.number_of_tasks(), 0);
    let (id, _) = cores[0].spawn(&mut shared, Priority(2), 1, seed(70));
    assert_eq!(shared.number_of_tasks(), 1);
    assert!(shared.has_task(id));
    cores[1].check_input(&mut shared);
    cores[1].scheduler(&mut shared, 0, 0);
    assert_eq!(cores[1].get_current_task_id(), id);
    cores[1].exit(&mut shared, 0, 1);
    assert_eq!(shared.number_of_tasks(), 0);
    assert!(shared.has_task(id));
    cores[1].scheduler(&mut shared, 2, 2);
    assert!(!shared.has_task(id));
    assert!(shared.has_task(TaskId(0)));
    assert!(shared.has_task(TaskId(1)));
}

#[test]
fn a_join_lasts_until_the_other_task_is_forgotten() {
    let (mut shared, mut cores) = boot(2);
    let (worker, _) = cores[0].spawn(&mut shared, Priority(2), 0, seed(70));
    let (waiter, _) = cores[1].spawn(&mut shared, Priority(2), 1, seed(71));
    cores[0].scheduler(&mut shared, 0, 0);
    cores[1].scheduler(&mut shared, 0, 0);
    join(&mut cores[1], &mut shared, worker, 1).unwrap();
    for step in 2..50 {
        let (other, _) = cores[0].spawn(&mut shared, Priority(5), 1, seed(72));
        cores[0].reschedule(&mut shared, step, step);
        cores[1].check_input(&mut shared);
        cores[1].handle_waiting_tasks(u64::MAX);
        cores[1].scheduler(&mut shared, step, step);
        assert_eq!(cores[1].get_current_task_id(), other);
        cores[1].exit(&mut shared, 0, step);
        assert!(cores[1].is_idle());
        assert!(shared.has_task(worker));
    }
    cores[0].exit(&mut shared, 0, 50);
    cores[1].check_input(&mut shared);
    cores[1].scheduler(&mut shared, 51, 51);
    assert!(cores[1].is_idle());
    cores[0].scheduler(&mut shared, 52, 52);
    assert!(!shared.has_task(worker));
    cores[1].check_input(&mut shared);
    cores[1].scheduler(&mut shared, 53, 53);
    assert_eq!(cores[1].get_current_task_id(), waiter);
}

#[test]
fn every_task_of_a_mixed_run_comes_to_its_end() {
    let (mut shared, mut cores) = boot(2);
    let mut ids = Vec::new();
    let mut alive = 0;
    let mut state: u32 = 12345;
    for step in 0..400u64 {
        state = state.wrapping_mul(1_103_515_245).wrapping_add(12_345);
        let choice = state >> 16;
        let here = (choice % 2) as usize;
        let ticks = step * 7_000;
        match choice / 2 % 6 {
            0 => {
                let prio = Priority((choice / 12 % 4) as u8 + 1);
                let (id, _) = cores[here].spawn(&mut shared, prio, choice / 48 % 2, seed(1));
                assert!(!ids.contains(&id));
                ids.push(id);
                alive += 1;
            }
            1 => cores[here].check_input(&mut shared),
            2 => cores[here].handle_waiting_tasks(ticks),
            3 if !cores[here].is_idle() => {
                cores[here].block_current_task(Some(ticks + 20_000));
            }
            4 if !cores[here].is_idle() => {
                cores[here].exit(&mut shared, 0, ticks);
                alive -= 1;
            }
            _ => {}
        }
        assert_eq!(shared.number_of_tasks(), alive);
        cores[here].scheduler(&mut shared, ticks, ticks);
        assert!(!cores[here].is_scheduling());
    }
    for here in 0..2 {
        cores[here].check_input(&mut shared);
        cores[here].handle_waiting_tasks(u64::MAX);
        cores[here].scheduler(&mut shared, u64::MAX, u64::MAX);
        while !cores[here].is_idle() {
            cores[here].exit(&mut shared, 0, u64::MAX);
        }
    }
    assert!(ids.len() > 20);
    assert_eq!(shared.number_of_tasks(), 0);
}
