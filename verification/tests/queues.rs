use percore_scheduler::blocked::BlockedTaskQueue;
use percore_scheduler::ready::PriorityTaskQueue;
use percore_scheduler::store::TaskStore;
use percore_scheduler::task::{
    CoreId, Priority, Task, TaskHandle, TaskId, TaskSeed, TaskStacks, TaskStatus, WakeupReason,
};

fn seed(context: u32) -> TaskSeed<u32> {
    TaskSeed {
        stacks: TaskStacks {
            kernel_stack: 0x1000,
            kernel_stack_size: 0x2000,
            interrupt_stack: 0x8000,
            interrupt_stack_size: 0x1000,
        },
        stack_pointer: 0x2ff0,
        context,
    }
}

fn task(id: u32, core_id: CoreId) -> Task<u32> {
    Task::new(TaskId(id), core_id, TaskStatus::TaskReady, Priority(2), seed(id))
}

#[test]
fn ready_queue_orders_by_priority_then_arrival() {
    let mut queue = PriorityTaskQueue::new();
    queue.push(10, Priority(1));
    queue.push(11, Priority(3));
    queue.push(12, Priority(3));
    assert_eq!(queue.pop(), Some(11));
    assert_eq!(queue.pop(), Some(12));
    assert_eq!(queue.pop(), Some(10));
    assert_eq!(queue.pop(), None);
}

#[test]
fn ready_queue_pops_only_from_a_priority_on() {
    let mut queue = PriorityTaskQueue::new();
    assert_eq!(queue.pop_with_prio(Priority(0)), None);
    queue.push(10, Priority(2));
    assert_eq!(queue.pop_with_prio(Priority(3)), None);
    queue.push(11, Priority(5));
    assert_eq!(queue.pop_with_prio(Priority(3)), Some(11));
    assert_eq!(queue.pop_with_prio(Priority(2)), Some(10));
}

#[test]
fn ready_queue_without_tasks_has_idle_priority() {
    let mut queue = PriorityTaskQueue::new();
    assert_eq!(queue.get_highest_priority(), Priority(0));
    queue.push(1, Priority(4));
    queue.push(2, Priority(7));
    assert_eq!(queue.get_highest_priority(), Priority(7));
}

#[test]
fn blocked_queue_is_sorted_by_wakeup_time() {
    let mut queue = BlockedTaskQueue::new();
    queue.add(1, TaskId(1), None);
    queue.add(2, TaskId(2), Some(300));
    queue.add(3, TaskId(3), Some(100));
    queue.add(4, TaskId(4), Some(300));
    assert_eq!(queue.pop_elapsed(99), None);
    assert_eq!(queue.pop_elapsed(100), Some(3));
    assert_eq!(queue.pop_elapsed(299), None);
    assert_eq!(queue.pop_elapsed(1000), Some(2));
    assert_eq!(queue.pop_elapsed(1000), Some(4));
    assert_eq!(queue.pop_elapsed(u64::MAX), None);
}

#[test]
fn blocked_queue_finds_tasks_by_identifier() {
    let mut queue = BlockedTaskQueue::new();
    queue.add(1, TaskId(11), None);
    queue.add(2, TaskId(12), Some(5));
    assert_eq!(queue.remove_id(TaskId(13)), None);
    assert_eq!(queue.remove_id(TaskId(11)), Some(1));
    assert_eq!(queue.remove_id(TaskId(11)), None);
    assert_eq!(queue.remove_id(TaskId(12)), Some(2));
}

#[test]
fn store_gives_out_the_smallest_free_reference() {
    let mut store: TaskStore<u32> = TaskStore::new();
    assert_eq!(store.insert(task(7, 0)), 0);
    assert_eq!(store.insert(task(8, 0)), 1);
    assert_eq!(store.insert(task(9, 0)), 2);
    store.retain(&vec![2, 0]);
    assert_eq!(store.get(2).id, TaskId(9));
    assert_eq!(store.insert(task(10, 0)), 1);
    store.get_mut(1).status = TaskStatus::TaskRunning;
    assert_eq!(store.get(1).status, TaskStatus::TaskRunning);
    assert_eq!(store.get(0).id, TaskId(7));
}

#[test]
fn a_clone_inherits_priority_and_wakeup_reason() {
    let mut parent = task(3, 1);
    parent.last_wakeup_reason = WakeupReason::Timer;
    parent.lwip_errno = 5;
    let clone = Task::clone(TaskId(4), 2, &parent, seed(40));
    assert_eq!(clone.id, TaskId(4));
    assert_eq!(clone.core_id, 2);
    assert_eq!(clone.status, TaskStatus::TaskReady);
    assert_eq!(clone.prio, Priority(2));
    assert_eq!(clone.last_wakeup_reason, WakeupReason::Timer);
    assert_eq!(clone.lwip_errno, 0);
    assert_eq!(clone.context, 40);
}

#[test]
fn a_handle_names_task_and_core() {
    let handle = TaskHandle::new(TaskId(3), Priority(1), 2);
    assert_eq!(handle.get_id(), TaskId::from(3));
    assert_eq!(handle.get_core_id(), 2);
    assert_eq!(TaskId(9).into(), 9);
    assert_eq!(Priority::from(4).into(), 4);
}
