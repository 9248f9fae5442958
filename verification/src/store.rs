//! The task control blocks of one core.

use crate::task::{Task, TaskRef};
use vstd::prelude::*;
use vstd::set_lib::{lemma_int_range, lemma_len_subset, lemma_map_size, set_int_range};

verus! {

/// Holds the tasks of one core, each under a reference of its own.
pub struct TaskStore<C> {
    slots: Vec<Option<Task<C>>>,
}

/// Says that `r` is the smallest reference without a task.
pub open spec fn is_free_ref<C>(tasks: Map<TaskRef, Task<C>>, r: TaskRef) -> bool {
    &&& !tasks.contains_key(r)
    &&& forall|q: TaskRef| q < r ==> #[trigger] tasks.contains_key(q)
}

/// The reference that the next task gets.
pub open spec fn free_ref<C>(tasks: Map<TaskRef, Task<C>>) -> TaskRef {
    choose|r: TaskRef| is_free_ref(tasks, r)
}

pub proof fn lemma_free_ref_is_unique<C>(tasks: Map<TaskRef, Task<C>>, r: TaskRef)
    requires
        is_free_ref(tasks, r),
    ensures
        free_ref(tasks) == r,
{
    let q = free_ref(tasks);
    assert(is_free_ref(tasks, q));
    if q < r {
        assert(tasks.contains_key(q));
    }
    if r < q {
        assert(tasks.contains_key(r));
    }
}

/// References are finitely many.
proof fn lemma_refs_are_finite(refs: Set<TaskRef>)
    ensures
        refs.finite(),
{
    let all = set_int_range(0, usize::MAX + 1);
    lemma_int_range(0, usize::MAX + 1);
    let narrow = all.map(|i: int| i as usize);
    all.lemma_map_finite(|i: int| i as usize);
    assert forall|r: TaskRef| refs.contains(r) implies narrow.contains(r) by {
        assert(all.contains(r as int));
    }
    vstd::set_lib::lemma_set_subset_finite(narrow, refs);
}

/// At most `usize::MAX` references differ from the largest one.
pub proof fn lemma_count_of_refs(refs: Set<TaskRef>)
    requires
        !refs.contains(usize::MAX),
    ensures
        refs.len() <= usize::MAX,
{
    lemma_refs_are_finite(refs);
    let all = set_int_range(0, usize::MAX as int);
    lemma_int_range(0, usize::MAX as int);
    let wide = refs.map(|r: TaskRef| r as int);
    lemma_map_size(refs, wide, |r: TaskRef| r as int);
    assert forall|i: int| wide.contains(i) implies all.contains(i) by {
        let r = choose|r: TaskRef| refs.contains(r) && r as int == i;
        assert(r != usize::MAX);
    }
    lemma_len_subset(wide, all);
}

/// A set of references with fewer than `usize::MAX` members leaves one free below the
/// largest one.
proof fn lemma_room(refs: Set<TaskRef>)
    requires
        refs.len() < usize::MAX,
    ensures
        exists|r: TaskRef| r < usize::MAX && !refs.contains(r),
{
    lemma_refs_are_finite(refs);
    if forall|r: TaskRef| r < usize::MAX ==> refs.contains(r) {
        let all = set_int_range(0, usize::MAX as int);
        lemma_int_range(0, usize::MAX as int);
        let wide = refs.map(|r: TaskRef| r as int);
        lemma_map_size(refs, wide, |r: TaskRef| r as int);
        assert forall|i: int| all.contains(i) implies wide.contains(i) by {
            assert(refs.contains(i as usize));
            assert((i as usize) as int == i);
        }
        lemma_len_subset(all, wide);
    }
}

/// Where room is left, the next task gets a free reference, which is not the largest one.
pub proof fn lemma_next_ref<C>(tasks: Map<TaskRef, Task<C>>)
    requires
        tasks.dom().len() < usize::MAX,
    ensures
        is_free_ref(tasks, free_ref(tasks)),
        free_ref(tasks) < usize::MAX,
{
    lemma_room(tasks.dom());
    let r = choose|r: TaskRef| r < usize::MAX && !tasks.dom().contains(r);
    lemma_free_ref_exists_up_to(tasks, r);
    if r < free_ref(tasks) {
        assert(tasks.contains_key(r));
    }
}

proof fn lemma_free_ref_exists_up_to<C>(tasks: Map<TaskRef, Task<C>>, r: TaskRef)
    requires
        !tasks.contains_key(r),
    ensures
        exists|q: TaskRef| is_free_ref(tasks, q),
    decreases r,
{
    if exists|q: TaskRef| q < r && !#[trigger] tasks.contains_key(q) {
        let q = choose|q: TaskRef| q < r && !#[trigger] tasks.contains_key(q);
        lemma_free_ref_exists_up_to(tasks, q);
    } else {
        assert(is_free_ref(tasks, r));
    }
}

/// A task under a free reference is one more task.
pub proof fn lemma_one_more_ref<C>(tasks: Map<TaskRef, Task<C>>, r: TaskRef, task: Task<C>)
    requires
        !tasks.contains_key(r),
    ensures
        tasks.insert(r, task).dom().len() == tasks.dom().len() + 1,
{
    lemma_refs_are_finite(tasks.dom());
    assert(tasks.insert(r, task).dom() =~= tasks.dom().insert(r));
}

impl<C> View for TaskStore<C> {
    type V = Map<TaskRef, Task<C>>;

    closed spec fn view(&self) -> Map<TaskRef, Task<C>> {
        Map::new(
            |r: TaskRef| r < self.slots@.len() && self.slots@[r as int] is Some,
            |r: TaskRef| self.slots@[r as int]->0,
        )
    }
}

impl<C> TaskStore<C> {
    pub fn new() -> (store: Self)
        ensures
            store@ == Map::<TaskRef, Task<C>>::empty(),
    {
        let store = TaskStore { slots: Vec::new() };
        assert(store@ =~= Map::empty());
        store
    }

    /// Stores a task under the smallest reference that is free.
    pub fn insert(&mut self, task: Task<C>) -> (r: TaskRef)
        ensures
            r == free_ref(old(self)@),
            is_free_ref(old(self)@, r),
            final(self)@ == old(self)@.insert(r, task),
            !final(self)@.contains_key(usize::MAX),
    {
        let mut i: usize = 0;
        while i < self.slots.len()
            invariant
                i <= self.slots.len(),
                self.slots@ == old(self).slots@,
                forall|q: TaskRef| q < i ==> #[trigger] old(self)@.contains_key(q),
            decreases self.slots.len() - i,
        {
            if self.slots[i].is_none() {
                self.slots.set(i, Some(task));
                proof { lemma_free_ref_is_unique(old(self)@, i); }
                assert(self@ =~= old(self)@.insert(i, task));
                assert(self.slots.len() <= usize::MAX);
                return i;
            }
            i = i + 1;
        }
        self.slots.push(Some(task));
        proof { lemma_free_ref_is_unique(old(self)@, i); }
        assert(self@ =~= old(self)@.insert(i, task));
        assert(self.slots.len() <= usize::MAX);
        i
    }

    pub fn get(&self, r: TaskRef) -> (task: &Task<C>)
        requires
            self@.contains_key(r),
        ensures
            *task == self@[r],
    {
        self.slots[r].as_ref().unwrap()
    }

    pub fn get_mut(&mut self, r: TaskRef) -> (task: &mut Task<C>)
        requires
            old(self)@.contains_key(r),
        ensures
            *task == old(self)@[r],
            final(self)@ == old(self)@.insert(r, *final(task)),
    {
        let slot = &mut self.slots[r];
        slot.as_mut().unwrap()
    }

    /// Drops every task whose reference is not in `keep`.
    pub fn retain(&mut self, keep: &Vec<TaskRef>)
        ensures
            final(self)@ == old(self)@.restrict(Set::new(|r: TaskRef| keep@.contains(r))),
    {
        let mut i: usize = 0;
        while i < self.slots.len()
            invariant
                i <= self.slots.len(),
                self.slots.len() == old(self).slots.len(),
                forall|j: int| i <= j < self.slots.len() ==> self.slots@[j] == old(self).slots@[j],
                forall|j: int|
                    #![trigger self.slots@[j]]
                    0 <= j < i ==> self.slots@[j] == (if keep@.contains(j as usize) {
                        old(self).slots@[j]
                    } else {
                        None
                    }),
            decreases self.slots.len() - i,
        {
            if !contains(keep, i) {
                self.slots.set(i, None);
            }
            i = i + 1;
        }
        assert(self@ =~= old(self)@.restrict(Set::new(|r: TaskRef| keep@.contains(r))));
    }
}

/// Tells whether `r` is among `refs`.
fn contains(refs: &Vec<TaskRef>, r: TaskRef) -> (found: bool)
    ensures
        found == refs@.contains(r),
{
    let mut i: usize = 0;
    while i < refs.len()
        invariant
            i <= refs.len(),
            forall|j: int| 0 <= j < i ==> refs@[j] != r,
        decreases refs.len() - i,
    {
        if refs[i] == r {
            return true;
        }
        i = i + 1;
    }
    false
}

} // verus!
