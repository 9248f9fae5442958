//! What all cores share: the tasks by identifier with those who wait for them,
//! and the requests that a core has for another one.

use crate::task::{CoreId, Task, TaskHandle, TaskId};
use std::collections::{BTreeMap, VecDeque};
use vstd::prelude::*;
use vstd::set_lib::{lemma_int_range, lemma_map_size, set_int_range};

verus! {

broadcast use vstd::std_specs::btree::group_btree_axioms;

/// Queues to handle incoming requests from the other cores
pub struct SchedulerInput<C> {
    /// Queue of new tasks
    new_tasks: VecDeque<Task<C>>,
    /// Queue of tasks that are woken up by another core
    wakeup_tasks: VecDeque<TaskHandle>,
}

/// The requests in a [`SchedulerInput`], in the order in which they came.
#[verifier::ext_equal]
pub struct InputView<C> {
    pub new_tasks: Seq<Task<C>>,
    pub wakeup_tasks: Seq<TaskHandle>,
}

/// An input without requests.
pub open spec fn empty_input<C>() -> InputView<C> {
    InputView { new_tasks: Seq::empty(), wakeup_tasks: Seq::empty() }
}

impl<C> View for SchedulerInput<C> {
    type V = InputView<C>;

    closed spec fn view(&self) -> InputView<C> {
        InputView { new_tasks: self.new_tasks@, wakeup_tasks: self.wakeup_tasks@ }
    }
}

impl<C> SchedulerInput<C> {
    /// Creates queues without requests.
    pub fn new() -> (input: Self)
        ensures
            input@ == empty_input::<C>(),
    {
        SchedulerInput { new_tasks: VecDeque::new(), wakeup_tasks: VecDeque::new() }
    }

    /// Removes the oldest wakeup request.
    pub(crate) fn pop_wakeup_task(&mut self) -> (task: Option<TaskHandle>)
        ensures
            old(self)@.wakeup_tasks.len() == 0 ==> task is None && final(self)@ == old(self)@,
            old(self)@.wakeup_tasks.len() > 0 ==> task == Some(old(self)@.wakeup_tasks[0])
                && final(self)@ == (InputView {
                wakeup_tasks: old(self)@.wakeup_tasks.drop_first(),
                ..old(self)@
            }),
    {
        self.wakeup_tasks.pop_front()
    }

    /// Removes the oldest new task.
    pub(crate) fn pop_new_task(&mut self) -> (task: Option<Task<C>>)
        ensures
            old(self)@.new_tasks.len() == 0 ==> task is None && final(self)@ == old(self)@,
            old(self)@.new_tasks.len() > 0 ==> task == Some(old(self)@.new_tasks[0])
                && final(self)@ == (InputView {
                new_tasks: old(self)@.new_tasks.drop_first(),
                ..old(self)@
            }),
    {
        self.new_tasks.pop_front()
    }
}

/// The state that all cores share.
pub struct SharedState<C> {
    /// Number of spawned tasks that have not exited
    no_tasks: u32,
    /// Map between Core ID and per-core scheduler, denoted by the place of its input
    schedulers: BTreeMap<CoreId, usize>,
    /// Inputs of all schedulers that have been added
    inputs: Vec<SchedulerInput<C>>,
    /// Cores of the schedulers to which the inputs belong
    owners: Ghost<Seq<CoreId>>,
    /// Map between Task ID and the tasks that wait for the end of that task
    tasks: BTreeMap<u32, VecDeque<TaskHandle>>,
    /// Where the search for a free Task ID starts
    tid_counter: u32,
    /// The core that gets the next cloned task
    next_core_id: u32,
}

/// What a [`SharedState`] holds.
#[verifier::ext_equal]
pub struct SharedView<C> {
    pub no_tasks: u32,
    pub schedulers: Map<CoreId, int>,
    pub inputs: Seq<InputView<C>>,
    pub owners: Seq<CoreId>,
    pub tasks: Map<TaskId, Seq<TaskHandle>>,
    pub tid_counter: u32,
    pub next_core_id: u32,
}

/// The state before anything was started.
pub open spec fn new_shared<C>() -> SharedView<C> {
    SharedView {
        no_tasks: 0,
        schedulers: Map::empty(),
        inputs: Seq::empty(),
        owners: Seq::empty(),
        tasks: Map::empty(),
        tid_counter: 0,
        next_core_id: 1,
    }
}

/// The successor of a counter that starts again at zero.
pub open spec fn wrapping_succ(x: u32) -> u32 {
    if x == u32::MAX {
        0
    } else {
        (x + 1) as u32
    }
}

/// The predecessor of a counter that continues at its maximum.
pub open spec fn wrapping_pred(x: u32) -> u32 {
    if x == 0 {
        u32::MAX
    } else {
        (x - 1) as u32
    }
}

/// The identifier `k` steps after `counter`.
pub open spec fn tid_at(counter: u32, k: int) -> TaskId {
    TaskId(((counter + k) % 0x1_0000_0000) as u32)
}

/// The core that gets a cloned task.
pub open spec fn picked_core(next_core_id: u32, processor_count: u32) -> CoreId {
    if next_core_id == processor_count {
        0
    } else {
        next_core_id
    }
}

/// The counter after a core was picked.
pub open spec fn after_pick(next_core_id: u32, processor_count: u32) -> u32 {
    if next_core_id == processor_count {
        0
    } else {
        wrapping_succ(next_core_id)
    }
}

impl<C> SharedView<C> {
    /// Says that every scheduler has an input that belongs to its core, that every
    /// task on its way to a core belongs to that core, and that every task that waits
    /// for another one belongs to a core with a scheduler.
    pub open spec fn valid(self) -> bool {
        &&& self.owners.len() == self.inputs.len()
        &&& forall|core_id: CoreId| #[trigger]
            self.schedulers.contains_key(core_id) ==> 0 <= self.schedulers[core_id]
                < self.inputs.len() && self.owners[self.schedulers[core_id]] == core_id
        &&& forall|k: int, i: int|
            0 <= k < self.inputs.len() && 0 <= i < self.inputs[k].new_tasks.len() ==> (
            #[trigger] self.inputs[k].new_tasks[i]).core_id == self.owners[k]
        &&& forall|id: TaskId, i: int|
            self.tasks.contains_key(id) && 0 <= i < self.tasks[id].len()
                ==> self.schedulers.contains_key((#[trigger] self.tasks[id][i]).core_id)
    }

    /// The requests for the scheduler of the given core.
    pub open spec fn input_of(self, core_id: CoreId) -> InputView<C> {
        self.inputs[self.schedulers[core_id]]
    }

    /// Says that both states have the same schedulers, and that every input belongs to
    /// the same core in both.
    pub open spec fn same_schedulers(self, other: SharedView<C>) -> bool {
        self.schedulers == other.schedulers && self.owners == other.owners
    }

    /// Says that some identifier is not in use.
    pub open spec fn has_free_tid(self) -> bool {
        exists|id: TaskId| !self.tasks.contains_key(id)
    }

    /// Says that the first free identifier, from the counter on, is `k` steps away.
    pub open spec fn is_free_tid_offset(self, k: int) -> bool {
        &&& 0 <= k < 0x1_0000_0000
        &&& !self.tasks.contains_key(tid_at(self.tid_counter, k))
        &&& forall|j: int| 0 <= j < k ==> self.tasks.contains_key(
            #[trigger] tid_at(self.tid_counter, j),
        )
    }

    /// How far the first free identifier is from the counter.
    pub open spec fn free_tid_offset(self) -> int {
        choose|k: int| self.is_free_tid_offset(k)
    }

    /// The identifier that the next task gets.
    pub open spec fn next_tid(self) -> TaskId {
        tid_at(self.tid_counter, self.free_tid_offset())
    }

    /// The state after an identifier was taken. It is not in use yet.
    pub open spec fn after_get_tid(self) -> SharedView<C> {
        SharedView { tid_counter: wrapping_succ(self.next_tid().0), ..self }
    }

    /// The state after a task with the given identifier was made known.
    pub open spec fn with_task(self, id: TaskId) -> SharedView<C> {
        SharedView { tasks: self.tasks.insert(id, Seq::empty()), ..self }
    }

    /// The state after one more task was counted.
    pub open spec fn with_one_more(self) -> SharedView<C> {
        SharedView { no_tasks: wrapping_succ(self.no_tasks), ..self }
    }

    /// The state after one task less was counted.
    pub open spec fn with_one_less(self) -> SharedView<C> {
        SharedView { no_tasks: wrapping_pred(self.no_tasks), ..self }
    }

    /// The state after a task was sent to the given core.
    pub open spec fn with_new_task(self, core_id: CoreId, task: Task<C>) -> SharedView<C> {
        let input = self.input_of(core_id);
        SharedView {
            inputs: self.inputs.update(
                self.schedulers[core_id],
                InputView { new_tasks: input.new_tasks.push(task), ..input },
            ),
            ..self
        }
    }

    /// The state after a wakeup request was sent to the given core.
    pub open spec fn with_wakeup(self, core_id: CoreId, handle: TaskHandle) -> SharedView<C> {
        let input = self.input_of(core_id);
        SharedView {
            inputs: self.inputs.update(
                self.schedulers[core_id],
                InputView { wakeup_tasks: input.wakeup_tasks.push(handle), ..input },
            ),
            ..self
        }
    }

    /// The state in which the input at the given place is empty.
    pub open spec fn with_empty_input(self, place: int) -> SharedView<C> {
        SharedView { inputs: self.inputs.update(place, empty_input()), ..self }
    }

    /// The state with a new scheduler for the given core, which has an input without
    /// requests. An earlier scheduler of the core keeps its input, and nobody finds it
    /// any more.
    pub open spec fn with_scheduler(self, core_id: CoreId) -> SharedView<C> {
        SharedView {
            schedulers: self.schedulers.insert(core_id, self.inputs.len() as int),
            inputs: self.inputs.push(empty_input()),
            owners: self.owners.push(core_id),
            ..self
        }
    }

    /// The state in which no task has the given identifier.
    pub open spec fn without_task(self, id: TaskId) -> SharedView<C> {
        SharedView { tasks: self.tasks.remove(id), ..self }
    }

    /// The state in which one more task waits for the task with the given identifier.
    pub open spec fn with_waiting(self, id: TaskId, handle: TaskHandle) -> SharedView<C> {
        SharedView { tasks: self.tasks.insert(id, self.tasks[id].push(handle)), ..self }
    }

    /// The tasks that wait for the end of the task with the given identifier.
    pub open spec fn waiting(self, id: TaskId) -> Seq<TaskHandle> {
        if self.tasks.contains_key(id) {
            self.tasks[id]
        } else {
            Seq::empty()
        }
    }
}

/// Where some identifier is free, the search from the counter on finds one, and
/// only one offset is the first.
pub proof fn lemma_free_tid_offset<C>(shared: SharedView<C>)
    requires
        shared.has_free_tid(),
    ensures
        shared.is_free_tid_offset(shared.free_tid_offset()),
        !shared.tasks.contains_key(shared.next_tid()),
        forall|k: int| shared.is_free_tid_offset(k) ==> k == shared.free_tid_offset(),
{
    let id = choose|id: TaskId| !shared.tasks.contains_key(id);
    let c = shared.tid_counter;
    let f = if id.0 >= c { id.0 - c } else { id.0 - c + 0x1_0000_0000 };
    assert(tid_at(c, f) == id);
    lemma_some_offset_is_first(shared, f);
    let found = shared.free_tid_offset();
    assert(shared.is_free_tid_offset(found));
    assert forall|k: int| shared.is_free_tid_offset(k) implies k == found by {
        if k < found {
            assert(shared.tasks.contains_key(tid_at(c, k)));
        }
        if found < k {
            assert(shared.tasks.contains_key(tid_at(c, found)));
        }
    }
}

proof fn lemma_some_offset_is_first<C>(shared: SharedView<C>, f: int)
    requires
        0 <= f < 0x1_0000_0000,
        !shared.tasks.contains_key(tid_at(shared.tid_counter, f)),
    ensures
        exists|k: int| shared.is_free_tid_offset(k),
    decreases f,
{
    if exists|j: int|
        0 <= j < f && !shared.tasks.contains_key(#[trigger] tid_at(shared.tid_counter, j)) {
        let j = choose|j: int|
            0 <= j < f && !shared.tasks.contains_key(#[trigger] tid_at(shared.tid_counter, j));
        lemma_some_offset_is_first(shared, j);
    } else {
        assert(shared.is_free_tid_offset(f));
    }
}

/// A task that is sent to its core keeps the shared state valid.
pub proof fn lemma_new_task_keeps_valid<C>(shared: SharedView<C>, task: Task<C>)
    requires
        shared.valid(),
        shared.schedulers.contains_key(task.core_id),
    ensures
        shared.with_new_task(task.core_id, task).valid(),
{
    let after = shared.with_new_task(task.core_id, task);
    let place = shared.schedulers[task.core_id];
    assert forall|k: int, i: int|
        0 <= k < after.inputs.len() && 0 <= i < after.inputs[k].new_tasks.len() implies (
    #[trigger] after.inputs[k].new_tasks[i]).core_id == after.owners[k] by {
        if k != place || i < shared.inputs[place].new_tasks.len() {
            assert(after.inputs[k].new_tasks[i] == shared.inputs[k].new_tasks[i]);
        }
    }
}

/// A wakeup request that is sent to a core keeps the shared state valid.
pub proof fn lemma_wakeup_keeps_valid<C>(
    shared: SharedView<C>,
    core_id: CoreId,
    handle: TaskHandle,
)
    requires
        shared.valid(),
        shared.schedulers.contains_key(core_id),
    ensures
        shared.with_wakeup(core_id, handle).valid(),
{
    let after = shared.with_wakeup(core_id, handle);
    assert forall|k: int, i: int|
        0 <= k < after.inputs.len() && 0 <= i < after.inputs[k].new_tasks.len() implies (
    #[trigger] after.inputs[k].new_tasks[i]).core_id == after.owners[k] by {
        assert(after.inputs[k].new_tasks[i] == shared.inputs[k].new_tasks[i]);
    }
}

impl<C> View for SharedState<C> {
    type V = SharedView<C>;

    closed spec fn view(&self) -> SharedView<C> {
        SharedView {
            no_tasks: self.no_tasks,
            schedulers: self.schedulers@.map_values(|place: usize| place as int),
            inputs: self.inputs@.map_values(|input: SchedulerInput<C>| input@),
            owners: self.owners@,
            tasks: Map::new(
                |id: TaskId| self.tasks@.contains_key(id.0),
                |id: TaskId| self.tasks@[id.0]@,
            ),
            tid_counter: self.tid_counter,
            next_core_id: self.next_core_id,
        }
    }
}

impl<C> SharedState<C> {
    /// The state before anything was started. Cloned tasks begin with the core
    /// after the boot core.
    pub fn new() -> (shared: Self)
        ensures
            shared@ == (SharedView::<C> {
                no_tasks: 0,
                schedulers: Map::empty(),
                inputs: Seq::empty(),
                owners: Seq::empty(),
                tasks: Map::empty(),
                tid_counter: 0,
                next_core_id: 1,
            }),
            shared@ == new_shared::<C>(),
            shared@.valid(),
    {
        let shared = SharedState {
            no_tasks: 0,
            schedulers: BTreeMap::new(),
            inputs: Vec::new(),
            owners: Ghost(Seq::empty()),
            tasks: BTreeMap::new(),
            tid_counter: 0,
            next_core_id: 1,
        };
        assert(shared@.schedulers =~= Map::empty());
        assert(shared@.inputs =~= Seq::empty());
        assert(shared@.tasks =~= Map::empty());
        shared
    }

    /// The input of the scheduler of the given core, where that core has one.
    pub fn get_scheduler(&self, core_id: CoreId) -> (input: Option<&SchedulerInput<C>>)
        requires
            self@.valid(),
        ensures
            input is Some <==> self@.schedulers.contains_key(core_id),
            input matches Some(found) ==> found@ == self@.input_of(core_id),
    {
        match self.schedulers.get(&core_id) {
            Some(place) => {
                assert(self@.schedulers.contains_key(core_id));
                Some(&self.inputs[*place])
            },
            None => None,
        }
    }

    /// Tells whether an identifier is left for a new task.
    pub fn has_free_tid(&self) -> (free: bool)
        ensures
            free == self@.has_free_tid(),
    {
        let count: u64 = self.tasks.len() as u64;
        proof {
            lemma_free_tid_by_count(self.tasks@.dom());
            if exists|x: u32| !self.tasks@.contains_key(x) {
                let x = choose|x: u32| !self.tasks@.contains_key(x);
                assert(!self@.tasks.contains_key(TaskId(x)));
            }
            if self@.has_free_tid() {
                let id = choose|id: TaskId| !self@.tasks.contains_key(id);
                assert(!self.tasks@.contains_key(id.0));
            }
        }
        count < 0x1_0000_0000
    }

    /// Takes the first identifier, from the counter on, that no task has.
    pub(crate) fn get_tid(&mut self) -> (id: TaskId)
        requires
            old(self)@.has_free_tid(),
        ensures
            id == old(self)@.next_tid(),
            !old(self)@.tasks.contains_key(id),
            final(self)@ == old(self)@.after_get_tid(),
    {
        let ghost offset = old(self)@.free_tid_offset();
        let ghost mut k: int = 0;
        proof {
            lemma_free_tid_offset(old(self)@);
        }
        loop
            invariant
                0 <= k <= offset,
                offset == old(self)@.free_tid_offset(),
                old(self)@.is_free_tid_offset(offset),
                tid_at(old(self)@.tid_counter, k) == TaskId(self.tid_counter),
                self@ == (SharedView { tid_counter: self.tid_counter, ..old(self)@ }),
                self.tasks@ == old(self).tasks@,
            decreases offset - k,
        {
            let id: u32 = self.tid_counter;
            self.tid_counter = self.tid_counter.wrapping_add(1);
            proof {
                assert(self@.schedulers =~= old(self)@.schedulers);
                assert(self@.tasks =~= old(self)@.tasks);
            }
            if !self.tasks.contains_key(&id) {
                proof {
                    assert(!old(self)@.tasks.contains_key(TaskId(id)));
                    if k < offset {
                        assert(old(self)@.tasks.contains_key(tid_at(old(self)@.tid_counter, k)));
                    }
                }
                return TaskId::from(id);
            }
            proof {
                assert(old(self)@.tasks.contains_key(TaskId(id)));
                k = k + 1;
            }
        }
    }

    /// Makes a task known under its identifier. Nobody waits for it yet.
    pub(crate) fn insert_task(&mut self, id: TaskId)
        ensures
            final(self)@ == old(self)@.with_task(id),
            old(self)@.valid() ==> final(self)@.valid(),
    {
        self.tasks.insert(id.into(), VecDeque::with_capacity(1));
        proof {
            assert(self@.schedulers =~= old(self)@.schedulers);
            assert(self@.tasks =~= old(self)@.tasks.insert(id, Seq::empty()));
        }
    }

    /// Counts one more task.
    pub(crate) fn count_up(&mut self)
        ensures
            final(self)@ == old(self)@.with_one_more(),
    {
        self.no_tasks = self.no_tasks.wrapping_add(1);
    }

    /// Counts one task less.
    pub(crate) fn count_down(&mut self)
        ensures
            final(self)@ == old(self)@.with_one_less(),
    {
        self.no_tasks = self.no_tasks.wrapping_sub(1);
    }

    /// Adds a scheduler without requests for the given core. Returns the place of its
    /// input.
    pub(crate) fn insert_scheduler(&mut self, core_id: CoreId) -> (place: usize)
        ensures
            place == old(self)@.inputs.len(),
            final(self)@ == old(self)@.with_scheduler(core_id),
            old(self)@.valid() ==> final(self)@.valid(),
    {
        let place: usize = self.inputs.len();
        self.inputs.push(SchedulerInput::new());
        self.owners = Ghost(self.owners@.push(core_id));
        self.schedulers.insert(core_id, place);
        proof {
            assert(self@.tasks =~= old(self)@.tasks);
            assert(self@.inputs =~= old(self)@.inputs.push(empty_input()));
            assert(self@.schedulers =~= old(self)@.with_scheduler(core_id).schedulers);
        }
        place
    }

    /// Where the requests for the scheduler of the given core are.
    fn input_mut(&mut self, core_id: CoreId) -> (input: &mut SchedulerInput<C>)
        requires
            old(self)@.valid(),
            old(self)@.schedulers.contains_key(core_id),
        ensures
            input@ == old(self)@.input_of(core_id),
            final(self)@ == (SharedView {
                inputs: old(self)@.inputs.update(
                    old(self)@.schedulers[core_id],
                    final(input)@,
                ),
                ..old(self)@
            }),
    {
        let place: usize = *self.schedulers.get(&core_id).unwrap();
        &mut self.inputs[place]
    }

    /// Sends a new task to the given core.
    pub(crate) fn send_new_task(&mut self, core_id: CoreId, task: Task<C>)
        requires
            old(self)@.valid(),
            old(self)@.schedulers.contains_key(core_id),
        ensures
            final(self)@ == old(self)@.with_new_task(core_id, task),
            task.core_id == core_id ==> final(self)@.valid(),
    {
        proof {
            if task.core_id == core_id {
                lemma_new_task_keeps_valid(self@, task);
            }
        }
        self.input_mut(core_id).new_tasks.push_back(task);
    }

    /// Sends a wakeup request to the given core.
    pub(crate) fn send_wakeup(&mut self, core_id: CoreId, handle: TaskHandle)
        requires
            old(self)@.valid(),
            old(self)@.schedulers.contains_key(core_id),
        ensures
            final(self)@ == old(self)@.with_wakeup(core_id, handle),
            final(self)@.valid(),
    {
        proof {
            lemma_wakeup_keeps_valid(self@, core_id, handle);
        }
        self.input_mut(core_id).wakeup_tasks.push_back(handle);
    }

    /// Takes all requests from the input at the given place.
    pub(crate) fn take_input(&mut self, place: usize) -> (input: SchedulerInput<C>)
        requires
            place < old(self)@.inputs.len(),
        ensures
            input@ == old(self)@.inputs[place as int],
            final(self)@ == old(self)@.with_empty_input(place as int),
            old(self)@.valid() ==> final(self)@.valid(),
    {
        let mut input = SchedulerInput::new();
        std::mem::swap(&mut input, &mut self.inputs[place]);
        proof {
            assert(self@.tasks =~= old(self)@.tasks);
            assert(self@.schedulers =~= old(self)@.schedulers);
            assert(self@.inputs =~= old(self)@.inputs.update(place as int, empty_input()));
        }
        input
    }

    /// Forgets a task, and hands over those who wait for it.
    pub(crate) fn remove_task(&mut self, id: TaskId) -> (waiting: VecDeque<TaskHandle>)
        ensures
            waiting@ == old(self)@.waiting(id),
            final(self)@ == old(self)@.without_task(id),
            old(self)@.valid() ==> final(self)@.valid(),
    {
        let removed = self.tasks.remove(&id.into());
        proof {
            assert(self@.schedulers =~= old(self)@.schedulers);
            assert(self@.tasks =~= old(self)@.tasks.remove(id));
        }
        match removed {
            Some(waiting) => waiting,
            None => VecDeque::new(),
        }
    }

    /// Lets one more task wait for the task with the given identifier, if there is one.
    pub(crate) fn wait_for(&mut self, id: TaskId, handle: TaskHandle) -> (known: bool)
        ensures
            known == old(self)@.tasks.contains_key(id),
            known ==> final(self)@ == old(self)@.with_waiting(id, handle),
            !known ==> final(self)@ == old(self)@,
            old(self)@.valid() && old(self)@.schedulers.contains_key(handle.core_id)
                ==> final(self)@.valid(),
    {
        let ghost before = self@;
        match self.tasks.remove(&id.into()) {
            Some(mut waiting) => {
                waiting.push_back(handle);
                self.tasks.insert(id.into(), waiting);
                proof {
                    assert(self@.schedulers =~= before.schedulers);
                    assert(self@.tasks =~= before.with_waiting(id, handle).tasks);
                    if before.valid() && before.schedulers.contains_key(handle.core_id) {
                        assert forall|other: TaskId, i: int|
                            self@.tasks.contains_key(other) && 0 <= i
                                < self@.tasks[other].len() implies self@.schedulers.contains_key(
                            (#[trigger] self@.tasks[other][i]).core_id,
                        ) by {
                            if other == id && i == before.tasks[id].len() {
                            } else {
                                assert(self@.tasks[other][i] == before.tasks[other][i]);
                            }
                        }
                    }
                }
                true
            },
            None => {
                proof {
                    assert(self@.schedulers =~= before.schedulers);
                    assert(self@.tasks =~= before.tasks);
                }
                false
            },
        }
    }

    /// Tells whether a task is known under the given identifier.
    pub fn has_task(&self, id: TaskId) -> (known: bool)
        ensures
            known == self@.tasks.contains_key(id),
    {
        self.tasks.contains_key(&id.into())
    }

    /// The core that gets the next cloned task.
    pub fn peek_next_core(&self, processor_count: u32) -> (core_id: CoreId)
        ensures
            core_id == picked_core(self@.next_core_id, processor_count),
    {
        if self.next_core_id == processor_count {
            0
        } else {
            self.next_core_id
        }
    }

    /// Picks the core for a cloned task and moves on to the next core.
    pub(crate) fn next_core(&mut self, processor_count: u32) -> (core_id: CoreId)
        ensures
            core_id == picked_core(old(self)@.next_core_id, processor_count),
            final(self)@ == (SharedView {
                next_core_id: after_pick(old(self)@.next_core_id, processor_count),
                ..old(self)@
            }),
    {
        let id: u32 = self.next_core_id;
        self.next_core_id = self.next_core_id.wrapping_add(1);
        if id == processor_count {
            self.next_core_id = 0;
            0
        } else {
            id
        }
    }

    /// Forgets all schedulers and all tasks. The schedulers keep their requests.
    pub(crate) fn clear(&mut self)
        ensures
            final(self)@ == (SharedView {
                schedulers: Map::empty(),
                tasks: Map::empty(),
                ..old(self)@
            }),
            old(self)@.valid() ==> final(self)@.valid(),
    {
        self.schedulers = BTreeMap::new();
        self.tasks = BTreeMap::new();
        proof {
            assert(self@.schedulers =~= Map::empty());
            assert(self@.tasks =~= Map::empty());
        }
    }

    /// Number of spawned tasks that have not exited.
    pub fn number_of_tasks(&self) -> (n: u32)
        ensures
            n == self@.no_tasks,
    {
        self.no_tasks
    }
}

/// A set of identifiers leaves one free exactly when it has fewer than 2^32 members.
proof fn lemma_free_tid_by_count(ids: Set<u32>)
    requires
        ids.finite(),
    ensures
        ids.len() < 0x1_0000_0000 <==> exists|x: u32| !ids.contains(x),
{
    let all = set_int_range(0, 0x1_0000_0000);
    lemma_int_range(0, 0x1_0000_0000);
    let wide = ids.map(|x: u32| x as int);
    lemma_map_size(ids, wide, |x: u32| x as int);
    assert(wide.subset_of(all));
    if exists|x: u32| !ids.contains(x) {
        let x = choose|x: u32| !ids.contains(x);
        assert(!wide.contains(x as int));
        assert(wide.subset_of(all.remove(x as int)));
        vstd::set_lib::lemma_len_subset(wide, all.remove(x as int));
    } else {
        assert forall|i: int| all.contains(i) implies wide.contains(i) by {
            assert(ids.contains(i as u32));
            assert((i as u32) as int == i);
        }
        assert(wide =~= all);
    }
}

} // verus!
