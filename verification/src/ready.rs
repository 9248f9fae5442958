//! The queue of ready tasks.

use crate::task::{Priority, TaskRef, IDLE_PRIO};
use vstd::prelude::*;

verus! {

/// A task in the ready queue, with its priority.
#[derive(Clone, Copy, Debug, PartialEq, Eq, Structural)]
pub struct ReadyEntry {
    pub task: TaskRef,
    pub prio: Priority,
}

/// Says that the entry at `i` is the one that has to leave the queue next: no
/// entry is more urgent, and every earlier entry is less urgent.
pub open spec fn is_next(queue: Seq<ReadyEntry>, i: int) -> bool {
    &&& 0 <= i < queue.len()
    &&& forall|j: int| 0 <= j < queue.len() ==> (#[trigger] queue[j]).prio.0 <= queue[i].prio.0
    &&& forall|j: int| 0 <= j < i ==> (#[trigger] queue[j]).prio.0 < queue[i].prio.0
}

/// The position of the entry that has to leave a queue next.
pub open spec fn next_index(queue: Seq<ReadyEntry>) -> int {
    choose|i: int| is_next(queue, i)
}

/// The entry that has to leave a queue next.
pub open spec fn next_entry(queue: Seq<ReadyEntry>) -> ReadyEntry {
    queue[next_index(queue)]
}

/// A queue without the entry that has to leave it next.
pub open spec fn without_next(queue: Seq<ReadyEntry>) -> Seq<ReadyEntry> {
    queue.remove(next_index(queue))
}

/// The priority of the most urgent entry, or that of an idle task where there is none.
pub open spec fn highest_priority(queue: Seq<ReadyEntry>) -> Priority {
    if queue.len() == 0 {
        Priority(IDLE_PRIO)
    } else {
        next_entry(queue).prio
    }
}

/// At most one entry has to leave a queue next.
pub proof fn lemma_next_is_unique(queue: Seq<ReadyEntry>, i: int)
    requires
        is_next(queue, i),
    ensures
        next_index(queue) == i,
{
    let k = next_index(queue);
    assert(is_next(queue, k));
    assert(queue[k].prio.0 <= queue[i].prio.0 && queue[i].prio.0 <= queue[k].prio.0);
}

/// In a queue that is not empty, some entry has to leave it next.
pub proof fn lemma_next_exists(queue: Seq<ReadyEntry>)
    requires
        queue.len() > 0,
    ensures
        is_next(queue, next_index(queue)),
    decreases queue.len(),
{
    if queue.len() == 1 {
        assert(is_next(queue, 0));
    } else {
        let front = queue.drop_last();
        lemma_next_exists(front);
        let k = next_index(front);
        let last = queue.len() - 1;
        assert(forall|j: int| 0 <= j < last ==> front[j] == queue[j]);
        if queue[last].prio.0 > queue[k].prio.0 {
            assert forall|j: int| 0 <= j < last implies (#[trigger] queue[j]).prio.0
                < queue[last].prio.0 by {
                assert(front[j].prio.0 <= front[k].prio.0);
            }
            assert(is_next(queue, last));
        } else {
            assert forall|j: int| 0 <= j < queue.len() implies (#[trigger] queue[j]).prio.0
                <= queue[k].prio.0 by {
                if j < last {
                    assert(front[j].prio.0 <= front[k].prio.0);
                }
            }
            assert forall|j: int| 0 <= j < k implies (#[trigger] queue[j]).prio.0
                < queue[k].prio.0 by {
                assert(front[j].prio.0 < front[k].prio.0);
            }
            assert(is_next(queue, k));
        }
    }
}

/// Ready tasks, most urgent first, and first come first served among equals.
pub struct PriorityTaskQueue {
    entries: Vec<ReadyEntry>,
}

impl View for PriorityTaskQueue {
    type V = Seq<ReadyEntry>;

    /// The entries in the order in which they came.
    closed spec fn view(&self) -> Seq<ReadyEntry> {
        self.entries@
    }
}

impl PriorityTaskQueue {
    /// Creates an empty queue.
    pub fn new() -> (queue: Self)
        ensures
            queue@ == Seq::<ReadyEntry>::empty(),
    {
        PriorityTaskQueue { entries: Vec::new() }
    }

    /// Adds a task with its priority.
    pub fn push(&mut self, task: TaskRef, prio: Priority)
        ensures
            final(self)@ == old(self)@.push(ReadyEntry { task, prio }),
    {
        self.entries.push(ReadyEntry { task, prio });
    }

    fn find_next(&self) -> (found: Option<usize>)
        ensures
            match found {
                Some(i) => is_next(self@, i as int) && i == next_index(self@),
                None => self@.len() == 0,
            },
    {
        if self.entries.len() == 0 {
            return None;
        }
        let mut best: usize = 0;
        let mut i: usize = 1;
        while i < self.entries.len()
            invariant
                best < i <= self.entries.len(),
                forall|j: int| 0 <= j < i ==> (#[trigger] self.entries@[j]).prio.0
                    <= self.entries@[best as int].prio.0,
                forall|j: int| 0 <= j < best ==> (#[trigger] self.entries@[j]).prio.0
                    < self.entries@[best as int].prio.0,
            decreases self.entries.len() - i,
        {
            if self.entries[i].prio.0 > self.entries[best].prio.0 {
                best = i;
            }
            i = i + 1;
        }
        proof {
            assert(is_next(self@, best as int));
            lemma_next_is_unique(self@, best as int);
        }
        Some(best)
    }

    /// Removes the first of the tasks with the highest priority.
    pub fn pop(&mut self) -> (task: Option<TaskRef>)
        ensures
            old(self)@.len() == 0 ==> task is None && final(self)@ == old(self)@,
            old(self)@.len() > 0 ==> is_next(old(self)@, next_index(old(self)@)),
            old(self)@.len() > 0 ==> task == Some(next_entry(old(self)@).task) && final(self)@
                == without_next(old(self)@),
    {
        match self.find_next() {
            Some(i) => Some(self.entries.remove(i).task),
            None => None,
        }
    }

    /// Removes the first of the tasks with the highest priority, if that
    /// priority is at least `prio`.
    pub fn pop_with_prio(&mut self, prio: Priority) -> (task: Option<TaskRef>)
        ensures
            old(self)@.len() > 0 ==> is_next(old(self)@, next_index(old(self)@)),
            old(self)@.len() > 0 && next_entry(old(self)@).prio.0 >= prio.0 ==> task == Some(
                next_entry(old(self)@).task,
            ) && final(self)@ == without_next(old(self)@),
            old(self)@.len() == 0 || next_entry(old(self)@).prio.0 < prio.0 ==> task is None
                && final(self)@ == old(self)@,
    {
        match self.find_next() {
            Some(i) => {
                if self.entries[i].prio.0 >= prio.0 {
                    Some(self.entries.remove(i).task)
                } else {
                    None
                }
            },
            None => None,
        }
    }

    /// Returns the highest priority of all ready tasks.
    pub fn get_highest_priority(&self) -> (prio: Priority)
        ensures
            self@.len() > 0 ==> is_next(self@, next_index(self@)),
            prio == highest_priority(self@),
    {
        match self.find_next() {
            Some(i) => self.entries[i].prio,
            None => Priority(IDLE_PRIO),
        }
    }

    /// Appends the references of the queued tasks to `refs`.
    pub(crate) fn collect_refs(&self, refs: &mut Vec<TaskRef>)
        ensures
            forall|r: TaskRef| #[trigger]
                final(refs)@.contains(r) <==> old(refs)@.contains(r) || exists|i: int|
                    0 <= i < self@.len() && (#[trigger] self@[i]).task == r,
    {
        let mut i: usize = 0;
        while i < self.entries.len()
            invariant
                i <= self.entries.len(),
                refs@ == old(refs)@ + self.entries@.take(i as int).map_values(
                    |e: ReadyEntry| e.task,
                ),
            decreases self.entries.len() - i,
        {
            refs.push(self.entries[i].task);
            i = i + 1;
            assert(refs@ =~= old(refs)@ + self.entries@.take(i as int).map_values(
                |e: ReadyEntry| e.task,
            ));
        }
        proof {
            let added = self@.map_values(|e: ReadyEntry| e.task);
            assert(self.entries@.take(i as int) =~= self@);
            assert(refs@ == old(refs)@ + added);
            assert forall|r: TaskRef| #[trigger]
                refs@.contains(r) <==> old(refs)@.contains(r) || exists|i: int|
                    0 <= i < self@.len() && (#[trigger] self@[i]).task == r by {
                if old(refs)@.contains(r) {
                    let k = choose|k: int| 0 <= k < old(refs)@.len() && old(refs)@[k] == r;
                    assert(refs@[k] == r);
                }
                if exists|i: int| 0 <= i < self@.len() && (#[trigger] self@[i]).task == r {
                    let k = choose|i: int| 0 <= i < self@.len() && (#[trigger] self@[i]).task == r;
                    assert(refs@[old(refs)@.len() + k] == r);
                }
                if refs@.contains(r) {
                    let k = choose|k: int| 0 <= k < refs@.len() && refs@[k] == r;
                    if k < old(refs)@.len() {
                        assert(old(refs)@[k] == r);
                    } else {
                        assert(self@[k - old(refs)@.len()].task == r);
                    }
                }
            }
        }
    }
}

} // verus!
