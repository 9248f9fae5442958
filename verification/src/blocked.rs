//! The queue of blocked tasks.

use crate::task::{TaskId, TaskRef};
use vstd::prelude::*;

verus! {

/// A blocked task, with its identifier and the time at which it has to be woken
/// up. Without a wakeup time it stays blocked until somebody wakes it up.
#[derive(Clone, Copy, Debug, PartialEq, Eq, Structural)]
pub struct BlockedEntry {
    pub task: TaskRef,
    pub id: TaskId,
    pub wakeup_time: Option<u64>,
}

/// Says that a wakeup at `first` comes strictly before one at `second`. To have no
/// wakeup time is the latest of all.
pub open spec fn earlier(first: Option<u64>, second: Option<u64>) -> bool {
    match (first, second) {
        (Some(a), Some(b)) => a < b,
        (Some(_), None) => true,
        (None, _) => false,
    }
}

/// Says that the queue is sorted by wakeup time.
pub open spec fn sorted(queue: Seq<BlockedEntry>) -> bool {
    forall|i: int, j: int|
        0 <= i < j < queue.len() ==> !earlier(
            (#[trigger] queue[j]).wakeup_time,
            (#[trigger] queue[i]).wakeup_time,
        )
}

/// Says that `p` is the place for a task with the given wakeup time: behind all
/// tasks up to the first one that has to be woken up later.
pub open spec fn is_place(queue: Seq<BlockedEntry>, wakeup_time: Option<u64>, p: int) -> bool {
    &&& 0 <= p <= queue.len()
    &&& forall|j: int| 0 <= j < p ==> !earlier(wakeup_time, (#[trigger] queue[j]).wakeup_time)
    &&& p < queue.len() ==> earlier(wakeup_time, queue[p].wakeup_time)
}

/// The place for a task with the given wakeup time.
pub open spec fn place(queue: Seq<BlockedEntry>, wakeup_time: Option<u64>) -> int {
    choose|p: int| is_place(queue, wakeup_time, p)
}

/// Says that the queue holds a task with the given identifier.
pub open spec fn holds_id(queue: Seq<BlockedEntry>, id: TaskId) -> bool {
    exists|i: int| 0 <= i < queue.len() && (#[trigger] queue[i]).id == id
}

/// Says that the entry at `i` is the first one with the given identifier.
pub open spec fn is_first_with_id(queue: Seq<BlockedEntry>, id: TaskId, i: int) -> bool {
    &&& 0 <= i < queue.len()
    &&& queue[i].id == id
    &&& forall|j: int| 0 <= j < i ==> (#[trigger] queue[j]).id != id
}

/// The position of the first entry with the given identifier.
pub open spec fn first_with_id(queue: Seq<BlockedEntry>, id: TaskId) -> int {
    choose|i: int| is_first_with_id(queue, id, i)
}

/// Says that the wakeup time of an entry has come.
pub open spec fn elapsed(entry: BlockedEntry, now: u64) -> bool {
    entry.wakeup_time matches Some(time) && time <= now
}

/// Says that exactly the first `n` entries up to one that has to wait have elapsed.
pub open spec fn is_elapsed_count(queue: Seq<BlockedEntry>, now: u64, n: int) -> bool {
    &&& 0 <= n <= queue.len()
    &&& forall|j: int| 0 <= j < n ==> elapsed(#[trigger] queue[j], now)
    &&& n < queue.len() ==> !elapsed(queue[n], now)
}

/// How many entries at the front of the queue have elapsed.
pub open spec fn elapsed_count(queue: Seq<BlockedEntry>, now: u64) -> int {
    choose|n: int| is_elapsed_count(queue, now, n)
}

pub proof fn lemma_place_is_unique(queue: Seq<BlockedEntry>, wakeup_time: Option<u64>, p: int)
    requires
        is_place(queue, wakeup_time, p),
    ensures
        place(queue, wakeup_time) == p,
{
    let q = place(queue, wakeup_time);
    assert(is_place(queue, wakeup_time, q));
    if q < p {
        assert(!earlier(wakeup_time, queue[q].wakeup_time));
    }
    if p < q {
        assert(!earlier(wakeup_time, queue[p].wakeup_time));
    }
}

pub proof fn lemma_first_with_id_is_unique(queue: Seq<BlockedEntry>, id: TaskId, i: int)
    requires
        is_first_with_id(queue, id, i),
    ensures
        holds_id(queue, id),
        first_with_id(queue, id) == i,
{
    let k = first_with_id(queue, id);
    assert(is_first_with_id(queue, id, k));
}

pub proof fn lemma_elapsed_count_is_unique(queue: Seq<BlockedEntry>, now: u64, n: int)
    requires
        is_elapsed_count(queue, now, n),
    ensures
        elapsed_count(queue, now) == n,
{
    let m = elapsed_count(queue, now);
    assert(is_elapsed_count(queue, now, m));
    if m < n {
        assert(elapsed(queue[m], now));
    }
    if n < m {
        assert(elapsed(queue[n], now));
    }
}

/// A task put in its place leaves a sorted queue sorted.
pub proof fn lemma_place_keeps_sorted(queue: Seq<BlockedEntry>, entry: BlockedEntry, p: int)
    requires
        sorted(queue),
        is_place(queue, entry.wakeup_time, p),
    ensures
        sorted(queue.insert(p, entry)),
{
    let after = queue.insert(p, entry);
    assert forall|i: int, j: int| 0 <= i < j < after.len() implies !earlier(
        (#[trigger] after[j]).wakeup_time,
        (#[trigger] after[i]).wakeup_time,
    ) by {
        if i == p {
            assert(after[j] == queue[j - 1]);
            assert(earlier(entry.wakeup_time, queue[p].wakeup_time));
            if j - 1 > p {
                assert(!earlier(queue[j - 1].wakeup_time, queue[p].wakeup_time));
            }
        } else if j == p {
            assert(after[i] == queue[i]);
        } else {
            let a = if i < p { i } else { i - 1 };
            let b = if j < p { j } else { j - 1 };
            assert(after[i] == queue[a] && after[j] == queue[b]);
        }
    }
}

/// A sorted queue stays sorted when an entry leaves it.
pub proof fn lemma_remove_keeps_sorted(queue: Seq<BlockedEntry>, k: int)
    requires
        sorted(queue),
        0 <= k < queue.len(),
    ensures
        sorted(queue.remove(k)),
{
    let after = queue.remove(k);
    assert forall|i: int, j: int| 0 <= i < j < after.len() implies !earlier(
        (#[trigger] after[j]).wakeup_time,
        (#[trigger] after[i]).wakeup_time,
    ) by {
        let a = if i < k { i } else { i + 1 };
        let b = if j < k { j } else { j + 1 };
        assert(after[i] == queue[a] && after[j] == queue[b]);
    }
}

/// Where some entry has the identifier, one of them is the first.
pub proof fn lemma_first_exists(queue: Seq<BlockedEntry>, id: TaskId)
    requires
        holds_id(queue, id),
    ensures
        is_first_with_id(queue, id, first_with_id(queue, id)),
{
    let k = choose|k: int| 0 <= k < queue.len() && (#[trigger] queue[k]).id == id;
    lemma_first_exists_up_to(queue, id, k);
}

proof fn lemma_first_exists_up_to(queue: Seq<BlockedEntry>, id: TaskId, k: int)
    requires
        0 <= k < queue.len(),
        queue[k].id == id,
    ensures
        exists|i: int| is_first_with_id(queue, id, i),
    decreases k,
{
    if exists|j: int| 0 <= j < k && (#[trigger] queue[j]).id == id {
        let j = choose|j: int| 0 <= j < k && (#[trigger] queue[j]).id == id;
        lemma_first_exists_up_to(queue, id, j);
    } else {
        assert(is_first_with_id(queue, id, k));
    }
}

/// Every task has a place in the queue.
pub proof fn lemma_place_exists(queue: Seq<BlockedEntry>, wakeup_time: Option<u64>)
    ensures
        is_place(queue, wakeup_time, place(queue, wakeup_time)),
{
    lemma_place_exists_from(queue, wakeup_time, 0);
}

proof fn lemma_place_exists_from(queue: Seq<BlockedEntry>, wakeup_time: Option<u64>, from: int)
    requires
        0 <= from <= queue.len(),
        forall|j: int|
            0 <= j < from ==> !earlier(
                wakeup_time,
                (#[trigger] queue[j]).wakeup_time,
            ),
    ensures
        exists|p: int| is_place(queue, wakeup_time, p),
    decreases queue.len() - from,
{
    if from < queue.len() && !earlier(wakeup_time, queue[from].wakeup_time) {
        lemma_place_exists_from(queue, wakeup_time, from + 1);
    } else {
        assert(is_place(queue, wakeup_time, from));
    }
}

/// Some number of entries at the front has elapsed.
pub proof fn lemma_elapsed_count_exists(queue: Seq<BlockedEntry>, now: u64)
    ensures
        is_elapsed_count(queue, now, elapsed_count(queue, now)),
{
    lemma_elapsed_count_exists_from(queue, now, 0);
}

proof fn lemma_elapsed_count_exists_from(queue: Seq<BlockedEntry>, now: u64, from: int)
    requires
        0 <= from <= queue.len(),
        forall|j: int| 0 <= j < from ==> elapsed(#[trigger] queue[j], now),
    ensures
        exists|n: int| is_elapsed_count(queue, now, n),
    decreases queue.len() - from,
{
    if from < queue.len() && elapsed(queue[from], now) {
        lemma_elapsed_count_exists_from(queue, now, from + 1);
    } else {
        assert(is_elapsed_count(queue, now, from));
    }
}

/// Blocked tasks, sorted by wakeup time.
pub struct BlockedTaskQueue {
    entries: Vec<BlockedEntry>,
}

impl View for BlockedTaskQueue {
    type V = Seq<BlockedEntry>;

    closed spec fn view(&self) -> Seq<BlockedEntry> {
        self.entries@
    }
}

impl BlockedTaskQueue {
    /// Creates an empty queue.
    pub fn new() -> (queue: Self)
        ensures
            queue@ == Seq::<BlockedEntry>::empty(),
    {
        BlockedTaskQueue { entries: Vec::new() }
    }

    /// Adds a task behind all tasks that have to be woken up no later.
    pub fn add(&mut self, task: TaskRef, id: TaskId, wakeup_time: Option<u64>)
        ensures
            is_place(old(self)@, wakeup_time, place(old(self)@, wakeup_time)),
            final(self)@ == old(self)@.insert(
                place(old(self)@, wakeup_time),
                BlockedEntry { task, id, wakeup_time },
            ),
            sorted(old(self)@) ==> sorted(final(self)@),
    {
        let mut p: usize = 0;
        let mut found: bool = false;
        while p < self.entries.len() && !found
            invariant
                p <= self.entries.len(),
                self.entries@ == old(self).entries@,
                forall|j: int| 0 <= j < p ==> !earlier(
                    wakeup_time,
                    (#[trigger] self.entries@[j]).wakeup_time,
                ),
                found ==> p < self.entries.len() && earlier(
                    wakeup_time,
                    self.entries@[p as int].wakeup_time,
                ),
            decreases self.entries.len() - p + (if found { 0int } else { 1int }),
        {
            let is_later: bool = match (wakeup_time, self.entries[p].wakeup_time) {
                (Some(time), Some(other)) => time < other,
                (Some(_), None) => true,
                (None, _) => false,
            };
            if is_later {
                found = true;
            } else {
                p = p + 1;
            }
        }
        self.entries.insert(p, BlockedEntry { task, id, wakeup_time });
        proof {
            assert(is_place(old(self)@, wakeup_time, p as int));
            lemma_place_is_unique(old(self)@, wakeup_time, p as int);
            if sorted(old(self)@) {
                lemma_place_keeps_sorted(
                    old(self)@,
                    BlockedEntry { task, id, wakeup_time },
                    p as int,
                );
            }
        }
    }

    /// Removes the first task with the given identifier.
    pub fn remove_id(&mut self, id: TaskId) -> (task: Option<TaskRef>)
        ensures
            holds_id(old(self)@, id) ==> {
                &&& is_first_with_id(old(self)@, id, first_with_id(old(self)@, id))
                &&& task == Some(old(self)@[first_with_id(old(self)@, id)].task)
                &&& final(self)@ == old(self)@.remove(first_with_id(old(self)@, id))
            },
            !holds_id(old(self)@, id) ==> task is None && final(self)@ == old(self)@,
            sorted(old(self)@) ==> sorted(final(self)@),
    {
        let mut i: usize = 0;
        while i < self.entries.len()
            invariant
                i <= self.entries.len(),
                self.entries@ == old(self).entries@,
                forall|j: int| 0 <= j < i ==> (#[trigger] self.entries@[j]).id != id,
            decreases self.entries.len() - i,
        {
            if self.entries[i].id == id {
                proof {
                    lemma_first_with_id_is_unique(self@, id, i as int);
                    if sorted(self@) {
                        lemma_remove_keeps_sorted(self@, i as int);
                    }
                }
                return Some(self.entries.remove(i).task);
            }
            i = i + 1;
        }
        None
    }

    /// Removes the first task if its wakeup time has come.
    pub fn pop_elapsed(&mut self, now: u64) -> (task: Option<TaskRef>)
        ensures
            old(self)@.len() > 0 && elapsed(old(self)@[0], now) ==> task == Some(
                old(self)@[0].task,
            ) && final(self)@ == old(self)@.remove(0),
            old(self)@.len() == 0 || !elapsed(old(self)@[0], now) ==> task is None && final(self)@
                == old(self)@,
            sorted(old(self)@) ==> sorted(final(self)@),
    {
        if self.entries.len() == 0 {
            return None;
        }
        proof {
            if sorted(self@) {
                lemma_remove_keeps_sorted(self@, 0);
            }
        }
        match self.entries[0].wakeup_time {
            Some(time) => {
                if time <= now {
                    Some(self.entries.remove(0).task)
                } else {
                    None
                }
            },
            None => None,
        }
    }

    /// Appends the references of the queued tasks to `refs`.
    pub(crate) fn collect_refs(&self, refs: &mut Vec<TaskRef>)
        ensures
            forall|r: TaskRef| #[trigger]
                final(refs)@.contains(r) <==> old(refs)@.contains(r) || exists|i: int|
                    0 <= i < self@.len() && (#[trigger] self@[i]).task == r,
    {
        let mut i: usize = 0;
        while i < self.entries.len()
            invariant
                i <= self.entries.len(),
                refs@ == old(refs)@ + self.entries@.take(i as int).map_values(
                    |e: BlockedEntry| e.task,
                ),
            decreases self.entries.len() - i,
        {
            refs.push(self.entries[i].task);
            i = i + 1;
            assert(refs@ =~= old(refs)@ + self.entries@.take(i as int).map_values(
                |e: BlockedEntry| e.task,
            ));
        }
        proof {
            assert(self.entries@.take(i as int) =~= self@);
            assert(refs@ == old(refs)@ + self@.map_values(|e: BlockedEntry| e.task));
            assert forall|r: TaskRef| #[trigger]
                refs@.contains(r) <==> old(refs)@.contains(r) || exists|i: int|
                    0 <= i < self@.len() && (#[trigger] self@[i]).task == r by {
                if old(refs)@.contains(r) {
                    let k = choose|k: int| 0 <= k < old(refs)@.len() && old(refs)@[k] == r;
                    assert(refs@[k] == r);
                }
                if exists|i: int| 0 <= i < self@.len() && (#[trigger] self@[i]).task == r {
                    let k = choose|i: int| 0 <= i < self@.len() && (#[trigger] self@[i]).task == r;
                    assert(refs@[old(refs)@.len() + k] == r);
                }
                if refs@.contains(r) {
                    let k = choose|k: int| 0 <= k < refs@.len() && refs@[k] == r;
                    if k < old(refs)@.len() {
                        assert(old(refs)@[k] == r);
                    } else {
                        assert(self@[k - old(refs)@.len()].task == r);
                    }
                }
            }
        }
    }
}

} // verus!
