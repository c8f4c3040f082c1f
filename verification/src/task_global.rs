//! The kernel's global state: the task table, the task lists and the
//! scheduler's counters, held in one `Kernel` value.
use vstd::prelude::*;
use crate::port::{BaseType, TickType, UBaseType, CONFIG_MAX_PRIORITIES, PORT_MAX_DELAY};
use crate::list::{
    ListArena, ListItem, ListLink, ItemLink, cursor_after_insert, cursor_after_remove, insert_position,
    list_insert, list_insert_end, list_remove, set_list_item_value, ascending,
};
use crate::task_control::{TaskHandle, TCB};

verus! {

/// Number of ready lists; ready list `p` holds the ready tasks of priority `p`
/// and is named `p` in the kernel's list arena.
pub const NUM_READY_LISTS: ListLink = 5usize;
/// One of the two delayed task lists.
pub const DELAYED_TASK_LIST_1: ListLink = 5usize;
/// The other delayed task list.
pub const DELAYED_TASK_LIST_2: ListLink = 6usize;
/// Tasks readied while the scheduler was suspended.
pub const PENDING_READY_LIST: ListLink = 7usize;
/// Tasks that are suspended, or blocked with no time out.
pub const SUSPENDED_TASK_LIST: ListLink = 8usize;
/// Tasks that have been deleted but not yet cleaned up.
pub const TASKS_WAITING_TERMINATION: ListLink = 9usize;
/// The first list name that is free for the event lists of queues.
pub const FIRST_EVENT_LIST: ListLink = 10usize;

/// Lists that hold the state items of tasks.
pub open spec fn is_state_list(l: int) -> bool {
    0 <= l < FIRST_EVENT_LIST && l != PENDING_READY_LIST
}

/// Lists that hold the event items of tasks.
pub open spec fn is_event_list(l: int) -> bool {
    l == PENDING_READY_LIST || l >= FIRST_EVENT_LIST
}

/// The item that records the state of task `t`.
pub open spec fn state_item(t: int) -> int {
    2 * t
}

/// The item that places task `t` in event lists.
pub open spec fn event_item(t: int) -> int {
    2 * t + 1
}

/// The kernel: tasks, task lists and scheduler state.
pub struct Kernel {
    /// All list items and lists.
    pub lists: ListArena,
    /// All tasks ever created, by handle.
    pub tasks: Vec<TCB>,
    /// The delayed task list currently in use.
    pub delayed_task_list: ListLink,
    /// The delayed task list for wake times that have overflowed the tick count.
    pub overflow_delayed_task_list: ListLink,
    /// The running task.
    pub current_tcb: Option<TaskHandle>,
    /// The idle task, once the scheduler has been started.
    pub idle_task_handle: Option<TaskHandle>,
    pub tick_count: TickType,
    /// No ready list above this priority holds a task.
    pub top_ready_priority: UBaseType,
    /// Ticks that occurred while the scheduler was suspended.
    pub pended_ticks: UBaseType,
    pub scheduler_running: bool,
    pub yield_pending: bool,
    pub num_of_overflows: BaseType,
    pub task_number: UBaseType,
    pub next_task_unblock_time: TickType,
    pub current_number_of_tasks: UBaseType,
    /// Nesting depth of scheduler suspension; zero when the scheduler runs.
    pub scheduler_suspended: UBaseType,
    pub deleted_tasks_waiting_clean_up: UBaseType,
    /// The run time counter's value at the last context switch.
    pub total_run_time: u32,
    /// The run time counter's value when the running task was switched in.
    pub task_switched_in_time: u32,
}

impl Kernel {
    pub open spec fn num_tasks(&self) -> nat {
        self.tasks@.len()
    }

    pub open spec fn task(&self, t: int) -> TCB {
        self.tasks@[t]
    }

    /// The tasks of list `l`, in list order.
    pub open spec fn list(&self, l: int) -> Seq<usize> {
        self.lists.list(l)
    }

    /// The list that holds the state item of task `t`, if any.
    pub open spec fn state_container(&self, t: int) -> Option<ListLink> {
        self.lists.item(state_item(t)).container
    }

    /// The list that holds the event item of task `t`, if any.
    pub open spec fn event_container(&self, t: int) -> Option<ListLink> {
        self.lists.item(event_item(t)).container
    }

    /// A valid handle of this kernel.
    pub open spec fn valid_handle(&self, h: TaskHandle) -> bool {
        h.0 < self.num_tasks()
    }

    /// The running task's handle is valid.
    pub open spec fn has_current(&self) -> bool {
        self.current_tcb is Some && self.valid_handle(self.current_tcb->0)
    }

    /// The running task's priority.
    pub open spec fn current_priority(&self) -> UBaseType {
        self.task(self.current_tcb.unwrap().0 as int).task_priority
    }

    /// The kernel's invariant.
    pub open spec fn wf(&self) -> bool {
        &&& self.lists.wf()
        &&& self.lists.num_lists() >= FIRST_EVENT_LIST
        &&& self.lists.num_items() == 2 * self.num_tasks()
        &&& forall|t: int| 0 <= t < self.num_tasks() ==> {
            &&& (#[trigger] self.task(t)).state_list_item == state_item(t)
            &&& self.task(t).event_list_item == event_item(t)
            &&& self.task(t).task_priority < CONFIG_MAX_PRIORITIES
            &&& self.task(t).base_priority < CONFIG_MAX_PRIORITIES
            &&& self.lists.item(state_item(t)).owner == Some(TaskHandle(t as usize))
            &&& self.lists.item(event_item(t)).owner == Some(TaskHandle(t as usize))
            &&& self.state_container(t) is Some ==> is_state_list(self.state_container(t)->0 as int)
            &&& self.event_container(t) is Some ==> is_event_list(self.event_container(t)->0 as int)
        }
        &&& (self.delayed_task_list == DELAYED_TASK_LIST_1 && self.overflow_delayed_task_list == DELAYED_TASK_LIST_2)
            || (self.delayed_task_list == DELAYED_TASK_LIST_2 && self.overflow_delayed_task_list == DELAYED_TASK_LIST_1)
        &&& self.current_tcb is Some ==> self.valid_handle(self.current_tcb->0)
        &&& self.idle_task_handle is Some ==> self.valid_handle(self.idle_task_handle->0)
        &&& self.top_ready_priority < CONFIG_MAX_PRIORITIES
        &&& forall|p: int| self.top_ready_priority < p < CONFIG_MAX_PRIORITIES ==> #[trigger] self.list(p).len() == 0
        &&& self.delayed_in_order()
    }

    /// Both delayed lists are in order of wake time.
    pub open spec fn delayed_in_order(&self) -> bool {
        &&& ascending(self.lists.list_values(DELAYED_TASK_LIST_1 as int))
        &&& ascending(self.lists.list_values(DELAYED_TASK_LIST_2 as int))
    }

    /// The delayed lists stay in order when they and the values of all
    /// items are unchanged.
    pub proof fn lemma_delayed_order_kept(old_k: &Kernel, new_k: &Kernel)
        requires
            old_k.wf(),
            new_k.list(DELAYED_TASK_LIST_1 as int) == old_k.list(DELAYED_TASK_LIST_1 as int),
            new_k.list(DELAYED_TASK_LIST_2 as int) == old_k.list(DELAYED_TASK_LIST_2 as int),
            forall|i: int| 0 <= i < old_k.lists.num_items() ==>
                #[trigger] new_k.lists.item(i).item_value == old_k.lists.item(i).item_value,
        ensures
            new_k.delayed_in_order(),
    {
        Kernel::lemma_list_values_kept(old_k, new_k, DELAYED_TASK_LIST_1 as int);
        Kernel::lemma_list_values_kept(old_k, new_k, DELAYED_TASK_LIST_2 as int);
    }

    /// A list keeps its values when it and the values of all items are unchanged.
    pub proof fn lemma_list_values_kept(old_k: &Kernel, new_k: &Kernel, l: int)
        requires
            old_k.wf(),
            0 <= l < old_k.lists.num_lists(),
            new_k.list(l) == old_k.list(l),
            forall|i: int| 0 <= i < old_k.lists.num_items() ==>
                #[trigger] new_k.lists.item(i).item_value == old_k.lists.item(i).item_value,
        ensures
            new_k.lists.list_values(l) == old_k.lists.list_values(l),
    {
        assert forall|m: int| 0 <= m < old_k.list(l).len() implies
            #[trigger] new_k.lists.list_values(l)[m] == old_k.lists.list_values(l)[m] by {
            assert(old_k.list(l)[m] < old_k.lists.num_items());
        }
        assert(new_k.lists.list_values(l) =~= old_k.lists.list_values(l));
    }

    /// Every item of the kernel belongs to one task: item `i` is the state
    /// item (even) or the event item (odd) of task `i / 2`.
    pub proof fn lemma_item_owner(&self, i: int)
        requires
            self.wf(),
            0 <= i < self.lists.num_items(),
        ensures
            0 <= i / 2 < self.num_tasks(),
            i % 2 == 0 ==> i == state_item(i / 2),
            i % 2 == 1 ==> i == event_item(i / 2),
            self.lists.item(i).owner == Some(TaskHandle((i / 2) as usize)),
    {
        let t = i / 2;
        assert(self.task(t).state_list_item == state_item(t));
    }

    /// An item that names a list as its container is in that list.
    pub proof fn lemma_contained_in_list(&self, i: int)
        requires
            self.wf(),
            0 <= i < self.lists.num_items(),
            self.lists.item(i).container is Some,
        ensures
            self.list(self.lists.item(i).container->0 as int).contains(i as ItemLink),
            self.list(self.lists.item(i).container->0 as int).len() > 0,
    {
        self.lists.lemma_contained_item(i);
    }

    /// An item of a state list is the state item of its owner; an item of an
    /// event list is the event item of its owner.
    pub proof fn lemma_list_item_kind(&self, l: int, k: int)
        requires
            self.wf(),
            0 <= l < self.lists.num_lists(),
            0 <= k < self.list(l).len(),
        ensures
            ({
                let i = self.list(l)[k] as int;
                let t = i / 2;
                &&& 0 <= i < self.lists.num_items()
                &&& 0 <= t < self.num_tasks()
                &&& self.lists.item(i).owner == Some(TaskHandle(t as usize))
                &&& self.lists.item(i).container == Some(l as ListLink)
                &&& is_state_list(l) ==> i == state_item(t)
                &&& is_event_list(l) ==> i == event_item(t)
            }),
    {
        let i = self.list(l)[k] as int;
        assert(self.list(l)[k] < self.lists.num_items());
        self.lemma_item_owner(i);
        let t = i / 2;
        assert(self.task(t).state_list_item == state_item(t));
    }
}

impl Kernel {
    /// Every field but the list arena is the same in `self` and `other`.
    pub open spec fn same_but_lists(&self, other: &Kernel) -> bool {
        &&& self.tasks == other.tasks
        &&& self.same_sched(other)
    }

    /// The scheduler's scalar state (every field but the lists and the task
    /// table) is the same in `self` and `other`.
    pub open spec fn same_sched(&self, other: &Kernel) -> bool {
        &&& self.delayed_task_list == other.delayed_task_list
        &&& self.overflow_delayed_task_list == other.overflow_delayed_task_list
        &&& self.current_tcb == other.current_tcb
        &&& self.idle_task_handle == other.idle_task_handle
        &&& self.tick_count == other.tick_count
        &&& self.top_ready_priority == other.top_ready_priority
        &&& self.pended_ticks == other.pended_ticks
        &&& self.scheduler_running == other.scheduler_running
        &&& self.yield_pending == other.yield_pending
        &&& self.num_of_overflows == other.num_of_overflows
        &&& self.task_number == other.task_number
        &&& self.next_task_unblock_time == other.next_task_unblock_time
        &&& self.current_number_of_tasks == other.current_number_of_tasks
        &&& self.scheduler_suspended == other.scheduler_suspended
        &&& self.deleted_tasks_waiting_clean_up == other.deleted_tasks_waiting_clean_up
        &&& self.total_run_time == other.total_run_time
        &&& self.task_switched_in_time == other.task_switched_in_time
    }

    /// The kernel stays well formed after a change of its task table that
    /// keeps every task's list items and keeps priorities in range.
    pub proof fn lemma_wf_after_task_change(old_k: &Kernel, new_k: &Kernel)
        requires
            old_k.wf(),
            new_k.same_sched(old_k),
            new_k.lists == old_k.lists,
            new_k.num_tasks() == old_k.num_tasks(),
            forall|t: int| 0 <= t < new_k.num_tasks() ==> {
                &&& (#[trigger] new_k.task(t)).state_list_item == old_k.task(t).state_list_item
                &&& new_k.task(t).event_list_item == old_k.task(t).event_list_item
                &&& new_k.task(t).task_priority < CONFIG_MAX_PRIORITIES
                &&& new_k.task(t).base_priority < CONFIG_MAX_PRIORITIES
            },
        ensures
            new_k.wf(),
    {
        assert forall|t: int| 0 <= t < new_k.num_tasks() implies {
            &&& (#[trigger] new_k.task(t)).state_list_item == state_item(t)
            &&& new_k.task(t).event_list_item == event_item(t)
            &&& new_k.task(t).task_priority < CONFIG_MAX_PRIORITIES
            &&& new_k.task(t).base_priority < CONFIG_MAX_PRIORITIES
            &&& new_k.lists.item(state_item(t)).owner == Some(TaskHandle(t as usize))
            &&& new_k.lists.item(event_item(t)).owner == Some(TaskHandle(t as usize))
            &&& new_k.state_container(t) is Some ==> is_state_list(new_k.state_container(t)->0 as int)
            &&& new_k.event_container(t) is Some ==> is_event_list(new_k.event_container(t)->0 as int)
        } by {
            assert(old_k.task(t).state_list_item == state_item(t));
        }
        assert forall|p: int| new_k.top_ready_priority < p < CONFIG_MAX_PRIORITIES implies #[trigger] new_k.list(p).len() == 0 by {
            assert(old_k.list(p).len() == 0);
        }
    }

    /// Sets the priority of task `t`, which must be valid.
    pub fn set_task_priority(&mut self, t: usize, priority: UBaseType)
        requires
            old(self).wf(),
            t < old(self).num_tasks(),
            priority < CONFIG_MAX_PRIORITIES,
        ensures
            final(self).wf(),
            final(self).same_sched(old(self)),
            final(self).lists == old(self).lists,
            final(self).tasks@ == old(self).tasks@.update(t as int, TCB { task_priority: priority, ..old(self).task(t as int) }),
    {
        self.tasks[t].task_priority = priority;
        proof { Kernel::lemma_wf_after_task_change(old(self), self); }
    }

    /// Sets the base priority of task `t`, which must be valid.
    pub fn set_task_base_priority(&mut self, t: usize, priority: UBaseType)
        requires
            old(self).wf(),
            t < old(self).num_tasks(),
            priority < CONFIG_MAX_PRIORITIES,
        ensures
            final(self).wf(),
            final(self).same_sched(old(self)),
            final(self).lists == old(self).lists,
            final(self).tasks@ == old(self).tasks@.update(t as int, TCB { base_priority: priority, ..old(self).task(t as int) }),
    {
        self.tasks[t].base_priority = priority;
        proof { Kernel::lemma_wf_after_task_change(old(self), self); }
    }

    /// Raises the highest ready priority to `priority` if it is below it.
    pub fn record_ready_priority(&mut self, priority: UBaseType)
        requires
            old(self).wf(),
            priority < CONFIG_MAX_PRIORITIES,
        ensures
            final(self).wf(),
            *final(self) == (Kernel {
                top_ready_priority: if priority > old(self).top_ready_priority { priority } else { old(self).top_ready_priority },
                ..*old(self)
            }),
    {
        if priority > self.top_ready_priority {
            self.top_ready_priority = priority;
        }
        proof {
            assert forall|p: int| self.top_ready_priority < p < CONFIG_MAX_PRIORITIES implies #[trigger] self.list(p).len() == 0 by {
                assert(old(self).list(p).len() == 0);
            }
            Kernel::lemma_wf_scalar_change(old(self), self);
        }
    }

    /// The kernel stays well formed after a change of its scalar state that
    /// keeps the delayed lists a pair, keeps handles valid and does not lower
    /// the highest ready priority below a non-empty ready list.
    pub proof fn lemma_wf_scalar_change(old_k: &Kernel, new_k: &Kernel)
        requires
            old_k.wf(),
            new_k.tasks@ == old_k.tasks@,
            new_k.lists == old_k.lists,
            (new_k.delayed_task_list == DELAYED_TASK_LIST_1 && new_k.overflow_delayed_task_list == DELAYED_TASK_LIST_2)
                || (new_k.delayed_task_list == DELAYED_TASK_LIST_2 && new_k.overflow_delayed_task_list == DELAYED_TASK_LIST_1),
            new_k.current_tcb is Some ==> new_k.valid_handle(new_k.current_tcb->0),
            new_k.idle_task_handle is Some ==> new_k.valid_handle(new_k.idle_task_handle->0),
            new_k.top_ready_priority < CONFIG_MAX_PRIORITIES,
            forall|p: int| new_k.top_ready_priority < p < CONFIG_MAX_PRIORITIES ==> #[trigger] new_k.list(p).len() == 0,
        ensures
            new_k.wf(),
    {
        assert forall|t: int| 0 <= t < new_k.num_tasks() implies {
            &&& (#[trigger] new_k.task(t)).state_list_item == state_item(t)
            &&& new_k.task(t).event_list_item == event_item(t)
            &&& new_k.task(t).task_priority < CONFIG_MAX_PRIORITIES
            &&& new_k.task(t).base_priority < CONFIG_MAX_PRIORITIES
            &&& new_k.lists.item(state_item(t)).owner == Some(TaskHandle(t as usize))
            &&& new_k.lists.item(event_item(t)).owner == Some(TaskHandle(t as usize))
            &&& new_k.state_container(t) is Some ==> is_state_list(new_k.state_container(t)->0 as int)
            &&& new_k.event_container(t) is Some ==> is_event_list(new_k.event_container(t)->0 as int)
        } by {
            assert(old_k.task(t) == new_k.task(t));
        }
    }

    /// Adds a task to the kernel's task table, with a state item and an event
    /// item that are in no list and carry the largest value; returns its handle.
    pub fn register_task(&mut self, tcb: TCB) -> (h: TaskHandle)
        requires
            old(self).wf(),
            old(self).lists.num_items() + 2 <= usize::MAX,
            tcb.task_priority < CONFIG_MAX_PRIORITIES,
            tcb.base_priority < CONFIG_MAX_PRIORITIES,
        ensures
            final(self).wf(),
            h.0 == old(self).num_tasks(),
            final(self).same_sched(old(self)),
            final(self).tasks@ == old(self).tasks@.push(TCB {
                state_list_item: state_item(h.0 as int) as ItemLink,
                event_list_item: event_item(h.0 as int) as ItemLink,
                ..tcb
            }),
            final(self).lists.items_view() == old(self).lists.items_view()
                .push(ListItem { item_value: PORT_MAX_DELAY, owner: Some(h), container: None })
                .push(ListItem { item_value: PORT_MAX_DELAY, owner: Some(h), container: None }),
            final(self).lists.lists_view() == old(self).lists.lists_view(),
            final(self).lists.cursors() == old(self).lists.cursors(),
    {
        let n = self.tasks.len();
        let h = TaskHandle(n);
        let s = self.lists.create_item(ListItem { item_value: PORT_MAX_DELAY, owner: Some(h), container: None });
        let e = self.lists.create_item(ListItem { item_value: PORT_MAX_DELAY, owner: Some(h), container: None });
        let mut tcb = tcb;
        tcb.state_list_item = s;
        tcb.event_list_item = e;
        self.tasks.push(tcb);
        proof {
            assert forall|t: int| 0 <= t < self.num_tasks() implies {
                &&& (#[trigger] self.task(t)).state_list_item == state_item(t)
                &&& self.task(t).event_list_item == event_item(t)
                &&& self.task(t).task_priority < CONFIG_MAX_PRIORITIES
                &&& self.task(t).base_priority < CONFIG_MAX_PRIORITIES
                &&& self.lists.item(state_item(t)).owner == Some(TaskHandle(t as usize))
                &&& self.lists.item(event_item(t)).owner == Some(TaskHandle(t as usize))
                &&& self.state_container(t) is Some ==> is_state_list(self.state_container(t)->0 as int)
                &&& self.event_container(t) is Some ==> is_event_list(self.event_container(t)->0 as int)
            } by {
                if t < n {
                    assert(old(self).task(t) == self.task(t));
                    assert(self.lists.item(state_item(t)) == old(self).lists.item(state_item(t)));
                    assert(self.lists.item(event_item(t)) == old(self).lists.item(event_item(t)));
                }
            }
            assert forall|p: int| self.top_ready_priority < p < CONFIG_MAX_PRIORITIES implies #[trigger] self.list(p).len() == 0 by {
                assert(old(self).list(p).len() == 0);
            }
            Kernel::lemma_delayed_order_kept(old(self), self);
        }
        h
    }

    /// The kernel stays well formed after a change of its lists that keeps
    /// every item's owner, keeps state items in state lists and event items in
    /// event lists, and leaves the ready lists above the top priority empty.
    pub proof fn lemma_wf_after_list_change(old_k: &Kernel, new_k: &Kernel)
        requires
            old_k.wf(),
            new_k.same_but_lists(old_k),
            new_k.lists.wf(),
            new_k.lists.num_lists() == old_k.lists.num_lists(),
            new_k.lists.num_items() == old_k.lists.num_items(),
            forall|i: int| 0 <= i < new_k.lists.num_items() ==>
                (#[trigger] new_k.lists.item(i)).owner == old_k.lists.item(i).owner,
            forall|t: int| 0 <= t < new_k.num_tasks() && (#[trigger] new_k.state_container(t)) is Some ==>
                is_state_list(new_k.state_container(t)->0 as int),
            forall|t: int| 0 <= t < new_k.num_tasks() && (#[trigger] new_k.event_container(t)) is Some ==>
                is_event_list(new_k.event_container(t)->0 as int),
            forall|p: int| new_k.top_ready_priority < p < CONFIG_MAX_PRIORITIES ==> #[trigger] new_k.list(p).len() == 0,
            new_k.delayed_in_order(),
        ensures
            new_k.wf(),
    {
        assert forall|t: int| 0 <= t < new_k.num_tasks() implies {
            &&& (#[trigger] new_k.task(t)).state_list_item == state_item(t)
            &&& new_k.task(t).event_list_item == event_item(t)
            &&& new_k.task(t).task_priority < CONFIG_MAX_PRIORITIES
            &&& new_k.task(t).base_priority < CONFIG_MAX_PRIORITIES
            &&& new_k.lists.item(state_item(t)).owner == Some(TaskHandle(t as usize))
            &&& new_k.lists.item(event_item(t)).owner == Some(TaskHandle(t as usize))
            &&& new_k.state_container(t) is Some ==> is_state_list(new_k.state_container(t)->0 as int)
            &&& new_k.event_container(t) is Some ==> is_event_list(new_k.event_container(t)->0 as int)
        } by {
            assert(old_k.task(t) == new_k.task(t));
            assert(new_k.lists.item(state_item(t)).owner == old_k.lists.item(state_item(t)).owner);
            assert(new_k.lists.item(event_item(t)).owner == old_k.lists.item(event_item(t)).owner);
        }
    }

    /// Appends the state item of task `t` to state list `l`, just before the
    /// list's walking index.
    pub fn insert_state_end(&mut self, l: ListLink, t: usize)
        requires
            old(self).wf(),
            t < old(self).num_tasks(),
            is_state_list(l as int),
            (l as int) < CONFIG_MAX_PRIORITIES ==> l as int <= old(self).top_ready_priority,
            l != DELAYED_TASK_LIST_1 && l != DELAYED_TASK_LIST_2,
            old(self).state_container(t as int) is None,
        ensures
            final(self).wf(),
            final(self).same_but_lists(old(self)),
            final(self).lists.items_view() == old(self).lists.items_view().update(
                state_item(t as int),
                ListItem { container: Some(l), ..old(self).lists.item(state_item(t as int)) },
            ),
            final(self).lists.lists_view() == old(self).lists.lists_view().update(
                l as int,
                old(self).list(l as int).insert(old(self).lists.cursor(l as int) as int, state_item(t as int) as ItemLink),
            ),
            final(self).lists.cursors() == old(self).lists.cursors().update(
                l as int,
                old(self).lists.cursor(l as int) + 1,
            ),
    {
        proof { assert(old(self).task(t as int).state_list_item == state_item(t as int)); }
        let i = self.tasks[t].state_list_item;
        list_insert_end(&mut self.lists, l, i);
        proof {
            assert forall|i2: int| 0 <= i2 < old(self).lists.num_items() implies
                #[trigger] self.lists.item(i2).item_value == old(self).lists.item(i2).item_value by {}
            Kernel::lemma_delayed_order_kept(old(self), self);
        }
        proof { Kernel::lemma_after_insert(old(self), self, t as int, l as int, false); }
    }

    /// Inserts the state item of task `t` into state list `l`, sorted by value.
    pub fn insert_state_sorted(&mut self, l: ListLink, t: usize)
        requires
            old(self).wf(),
            t < old(self).num_tasks(),
            is_state_list(l as int),
            (l as int) < CONFIG_MAX_PRIORITIES ==> l as int <= old(self).top_ready_priority,
            old(self).state_container(t as int) is None,
        ensures
            final(self).wf(),
            final(self).same_but_lists(old(self)),
            final(self).lists.items_view() == old(self).lists.items_view().update(
                state_item(t as int),
                ListItem { container: Some(l), ..old(self).lists.item(state_item(t as int)) },
            ),
            ({
                let p = insert_position(old(self).lists.list_values(l as int), old(self).lists.item(state_item(t as int)).item_value);
                &&& p <= old(self).list(l as int).len()
                &&& final(self).lists.lists_view() == old(self).lists.lists_view().update(
                    l as int,
                    old(self).list(l as int).insert(p as int, state_item(t as int) as ItemLink),
                )
                &&& final(self).lists.cursors() == old(self).lists.cursors().update(
                    l as int,
                    cursor_after_insert(old(self).lists.cursor(l as int), p),
                )
            }),
    {
        proof { assert(old(self).task(t as int).state_list_item == state_item(t as int)); }
        let i = self.tasks[t].state_list_item;
        list_insert(&mut self.lists, l, i);
        proof {
            let d1 = DELAYED_TASK_LIST_1 as int;
            let d2 = DELAYED_TASK_LIST_2 as int;
            assert forall|i2: int| 0 <= i2 < old(self).lists.num_items() implies
                #[trigger] self.lists.item(i2).item_value == old(self).lists.item(i2).item_value by {}
            if l as int == d1 {
                crate::list::lemma_list_insert_keeps_order(&old(self).lists, &self.lists, d1, state_item(t as int));
                Kernel::lemma_list_values_kept(old(self), self, d2);
            } else if l as int == d2 {
                crate::list::lemma_list_insert_keeps_order(&old(self).lists, &self.lists, d2, state_item(t as int));
                Kernel::lemma_list_values_kept(old(self), self, d1);
            } else {
                Kernel::lemma_delayed_order_kept(old(self), self);
            }
        }
        proof { Kernel::lemma_after_insert(old(self), self, t as int, l as int, false); }
    }

    /// Appends the event item of task `t` to event list `l`, just before the
    /// list's walking index.
    pub fn insert_event_end(&mut self, l: ListLink, t: usize)
        requires
            old(self).wf(),
            t < old(self).num_tasks(),
            l < old(self).lists.num_lists(),
            is_event_list(l as int),
            old(self).event_container(t as int) is None,
        ensures
            final(self).wf(),
            final(self).same_but_lists(old(self)),
            final(self).lists.items_view() == old(self).lists.items_view().update(
                event_item(t as int),
                ListItem { container: Some(l), ..old(self).lists.item(event_item(t as int)) },
            ),
            final(self).lists.lists_view() == old(self).lists.lists_view().update(
                l as int,
                old(self).list(l as int).insert(old(self).lists.cursor(l as int) as int, event_item(t as int) as ItemLink),
            ),
            final(self).lists.cursors() == old(self).lists.cursors().update(
                l as int,
                old(self).lists.cursor(l as int) + 1,
            ),
    {
        proof { assert(old(self).task(t as int).event_list_item == event_item(t as int)); }
        let i = self.tasks[t].event_list_item;
        list_insert_end(&mut self.lists, l, i);
        proof {
            assert forall|i2: int| 0 <= i2 < old(self).lists.num_items() implies
                #[trigger] self.lists.item(i2).item_value == old(self).lists.item(i2).item_value by {}
            Kernel::lemma_delayed_order_kept(old(self), self);
        }
        proof { Kernel::lemma_after_insert(old(self), self, t as int, l as int, true); }
    }

    /// Inserts the event item of task `t` into event list `l`, sorted by value.
    pub fn insert_event_sorted(&mut self, l: ListLink, t: usize)
        requires
            old(self).wf(),
            t < old(self).num_tasks(),
            l < old(self).lists.num_lists(),
            is_event_list(l as int),
            old(self).event_container(t as int) is None,
        ensures
            final(self).wf(),
            final(self).same_but_lists(old(self)),
            final(self).lists.items_view() == old(self).lists.items_view().update(
                event_item(t as int),
                ListItem { container: Some(l), ..old(self).lists.item(event_item(t as int)) },
            ),
            ({
                let p = insert_position(old(self).lists.list_values(l as int), old(self).lists.item(event_item(t as int)).item_value);
                &&& p <= old(self).list(l as int).len()
                &&& final(self).lists.lists_view() == old(self).lists.lists_view().update(
                    l as int,
                    old(self).list(l as int).insert(p as int, event_item(t as int) as ItemLink),
                )
                &&& final(self).lists.cursors() == old(self).lists.cursors().update(
                    l as int,
                    cursor_after_insert(old(self).lists.cursor(l as int), p),
                )
            }),
    {
        proof { assert(old(self).task(t as int).event_list_item == event_item(t as int)); }
        let i = self.tasks[t].event_list_item;
        list_insert(&mut self.lists, l, i);
        proof {
            assert forall|i2: int| 0 <= i2 < old(self).lists.num_items() implies
                #[trigger] self.lists.item(i2).item_value == old(self).lists.item(i2).item_value by {}
            Kernel::lemma_delayed_order_kept(old(self), self);
        }
        proof { Kernel::lemma_after_insert(old(self), self, t as int, l as int, true); }
    }

    proof fn lemma_after_insert(old_k: &Kernel, new_k: &Kernel, t: int, l: int, event: bool)
        requires
            old_k.wf(),
            0 <= t < old_k.num_tasks(),
            new_k.same_but_lists(old_k),
            new_k.lists.wf(),
            event ==> is_event_list(l),
            !event ==> is_state_list(l),
            (!event && l < CONFIG_MAX_PRIORITIES) ==> l <= old_k.top_ready_priority,
            0 <= l < old_k.lists.num_lists(),
            new_k.lists.items_view() == old_k.lists.items_view().update(
                if event { event_item(t) } else { state_item(t) },
                ListItem { container: Some(l as ListLink), ..old_k.lists.item(if event { event_item(t) } else { state_item(t) }) },
            ),
            new_k.lists.lists_view().len() == old_k.lists.lists_view().len(),
            forall|l2: int| 0 <= l2 < old_k.lists.num_lists() && l2 != l ==>
                #[trigger] new_k.list(l2) == old_k.list(l2),
            new_k.delayed_in_order(),
        ensures
            new_k.wf(),
    {
        assert forall|p: int| new_k.top_ready_priority < p < CONFIG_MAX_PRIORITIES implies #[trigger] new_k.list(p).len() == 0 by {
            assert(old_k.list(p).len() == 0);
            assert(p != l);
        }
        assert forall|t2: int| 0 <= t2 < new_k.num_tasks() && (#[trigger] new_k.state_container(t2)) is Some implies
            is_state_list(new_k.state_container(t2)->0 as int) by {
            assert(old_k.task(t2).state_list_item == state_item(t2));
        }
        assert forall|t2: int| 0 <= t2 < new_k.num_tasks() && (#[trigger] new_k.event_container(t2)) is Some implies
            is_event_list(new_k.event_container(t2)->0 as int) by {
            assert(old_k.task(t2).state_list_item == state_item(t2));
        }
        Kernel::lemma_wf_after_list_change(old_k, new_k);
    }

    /// Removes item `i` from the list that it is in; returns the number of
    /// items left in that list.
    pub fn remove_item(&mut self, i: ItemLink) -> (left: UBaseType)
        requires
            old(self).wf(),
            i < old(self).lists.num_items(),
            old(self).lists.item(i as int).container is Some,
        ensures
            final(self).wf(),
            final(self).same_but_lists(old(self)),
            ({
                let l = old(self).lists.item(i as int).container->0 as int;
                let r = old(self).list(l).index_of(i);
                &&& 0 <= r < old(self).list(l).len()
                &&& old(self).list(l)[r] == i
                &&& final(self).lists.lists_view() == old(self).lists.lists_view().update(l, old(self).list(l).remove(r))
                &&& final(self).lists.cursors() == old(self).lists.cursors().update(
                    l,
                    cursor_after_remove(old(self).lists.cursor(l), r as nat, (old(self).list(l).len() - 1) as nat),
                )
            }),
            final(self).lists.items_view() == old(self).lists.items_view().update(
                i as int,
                ListItem { container: None, ..old(self).lists.item(i as int) },
            ),
            left == old(self).list(old(self).lists.item(i as int).container->0 as int).len() - 1,
    {
        let left = list_remove(&mut self.lists, i);
        proof {
            let l = old(self).lists.item(i as int).container->0 as int;
            let r = old(self).list(l).index_of(i);
            crate::list::lemma_seq_remove(old(self).list(l), r);
            assert forall|p: int| self.top_ready_priority < p < CONFIG_MAX_PRIORITIES implies #[trigger] self.list(p).len() == 0 by {
                assert(old(self).list(p).len() == 0);
                if p == l {
                    assert(old(self).list(l).len() > 0);
                }
                assert(p != l);
                assert(self.list(p) == old(self).list(p));
            }
            assert forall|t2: int| 0 <= t2 < self.num_tasks() && (#[trigger] self.state_container(t2)) is Some implies
                is_state_list(self.state_container(t2)->0 as int) by {
                assert(old(self).task(t2).state_list_item == state_item(t2));
            }
            assert forall|t2: int| 0 <= t2 < self.num_tasks() && (#[trigger] self.event_container(t2)) is Some implies
                is_event_list(self.event_container(t2)->0 as int) by {
                assert(old(self).task(t2).state_list_item == state_item(t2));
            }
            assert forall|i2: int| 0 <= i2 < old(self).lists.num_items() implies
                #[trigger] self.lists.item(i2).item_value == old(self).lists.item(i2).item_value by {}
            let d1 = DELAYED_TASK_LIST_1 as int;
            let d2 = DELAYED_TASK_LIST_2 as int;
            if l == d1 || l == d2 {
                let vals = old(self).lists.list_values(l);
                crate::list::lemma_ascending_remove(vals, r);
                assert forall|m: int| 0 <= m < self.list(l).len() implies
                    #[trigger] self.lists.list_values(l)[m] == vals.remove(r)[m] by {
                    assert(old(self).list(l)[if m < r { m } else { m + 1 }] < old(self).lists.num_items());
                }
                assert(self.lists.list_values(l) =~= vals.remove(r));
                let other = if l == d1 { d2 } else { d1 };
                Kernel::lemma_list_values_kept(old(self), self, other);
            } else {
                Kernel::lemma_delayed_order_kept(old(self), self);
            }
            Kernel::lemma_wf_after_list_change(old(self), self);
        }
        left
    }

    /// Sets the value of item `i`; no list is reordered.
    pub fn set_item_value(&mut self, i: ItemLink, v: TickType)
        requires
            old(self).wf(),
            i < old(self).lists.num_items(),
            old(self).lists.item(i as int).container != Some(DELAYED_TASK_LIST_1),
            old(self).lists.item(i as int).container != Some(DELAYED_TASK_LIST_2),
        ensures
            final(self).wf(),
            final(self).same_but_lists(old(self)),
            final(self).lists.items_view() == old(self).lists.items_view().update(
                i as int,
                ListItem { item_value: v, ..old(self).lists.item(i as int) },
            ),
            final(self).lists.lists_view() == old(self).lists.lists_view(),
            final(self).lists.cursors() == old(self).lists.cursors(),
    {
        set_list_item_value(&mut self.lists, i, v);
        proof {
            assert forall|p: int| self.top_ready_priority < p < CONFIG_MAX_PRIORITIES implies #[trigger] self.list(p).len() == 0 by {
                assert(old(self).list(p).len() == 0);
            }
            assert forall|t2: int| 0 <= t2 < self.num_tasks() && (#[trigger] self.state_container(t2)) is Some implies
                is_state_list(self.state_container(t2)->0 as int) by {
                assert(old(self).task(t2).state_list_item == state_item(t2));
            }
            assert forall|t2: int| 0 <= t2 < self.num_tasks() && (#[trigger] self.event_container(t2)) is Some implies
                is_event_list(self.event_container(t2)->0 as int) by {
                assert(old(self).task(t2).state_list_item == state_item(t2));
            }
            assert forall|d: int| d == DELAYED_TASK_LIST_1 || d == DELAYED_TASK_LIST_2 implies
                #[trigger] self.lists.list_values(d) == old(self).lists.list_values(d) by {
                assert forall|m: int| 0 <= m < old(self).list(d).len() implies
                    #[trigger] self.lists.list_values(d)[m] == old(self).lists.list_values(d)[m] by {
                    old(self).lemma_list_item_kind(d, m);
                }
                assert(self.lists.list_values(d) =~= old(self).lists.list_values(d));
            }
            assert(self.lists.list_values(DELAYED_TASK_LIST_1 as int) == old(self).lists.list_values(DELAYED_TASK_LIST_1 as int));
            assert(self.lists.list_values(DELAYED_TASK_LIST_2 as int) == old(self).lists.list_values(DELAYED_TASK_LIST_2 as int));
            Kernel::lemma_wf_after_list_change(old(self), self);
        }
    }
}

impl Kernel {
    /// Items other than `a` and `b` are the same in `self` and `old_k`.
    pub open spec fn items_same_except(&self, old_k: &Kernel, a: int, b: int) -> bool {
        &&& self.lists.num_items() == old_k.lists.num_items()
        &&& forall|i: int| 0 <= i < self.lists.num_items() && i != a && i != b ==>
            #[trigger] self.lists.item(i) == old_k.lists.item(i)
    }

    /// Takes task `t` out of whatever state list and event list it is in and
    /// places it at the end of the ready list of its priority.
    pub fn unblock_task(&mut self, t: usize)
        requires
            old(self).wf(),
            t < old(self).num_tasks(),
        ensures
            final(self).wf(),
            ({
                let p = old(self).task(t as int).task_priority;
                let s = state_item(t as int);
                let e = event_item(t as int);
                &&& *final(self) == (Kernel {
                    lists: final(self).lists,
                    top_ready_priority: if p > old(self).top_ready_priority { p } else { old(self).top_ready_priority },
                    ..*old(self)
                })
                &&& final(self).lists.num_lists() == old(self).lists.num_lists()
                &&& final(self).items_same_except(old(self), s, e)
                &&& final(self).lists.item(s) == (ListItem { container: Some(p as usize), ..old(self).lists.item(s) })
                &&& final(self).lists.item(e) == (ListItem { container: None, ..old(self).lists.item(e) })
                &&& forall|l: int| 0 <= l < old(self).lists.num_lists() && l != p
                    && old(self).state_container(t as int) != Some(l as ListLink)
                    && old(self).event_container(t as int) != Some(l as ListLink) ==>
                    #[trigger] final(self).list(l) == old(self).list(l)
                &&& (old(self).state_container(t as int) is Some && old(self).state_container(t as int)->0 != p as ListLink ==> {
                    let l = old(self).state_container(t as int)->0 as int;
                    final(self).list(l) == old(self).list(l).remove(old(self).list(l).index_of(s as ItemLink))
                })
                &&& (old(self).event_container(t as int) is Some ==> {
                    let l = old(self).event_container(t as int)->0 as int;
                    final(self).list(l) == old(self).list(l).remove(old(self).list(l).index_of(e as ItemLink))
                })
            }),
    {
        proof {
            assert(self.task(t as int).state_list_item == state_item(t as int));
        }
        let s = self.tasks[t].state_list_item;
        let e = self.tasks[t].event_list_item;
        let ghost k0 = *self;
        if self.lists.get_item(s).container.is_some() {
            self.remove_item(s);
        }
        let ghost k1 = *self;
        if self.lists.get_item(e).container.is_some() {
            proof {
                if k0.event_container(t as int) is Some {
                    assert(k1.lists.item(e as int) == k0.lists.item(e as int));
                }
            }
            self.remove_item(e);
        }
        let ghost k2 = *self;
        proof {
            assert(k2.state_container(t as int) is None);
        }
        let _ = TaskHandle(t).add_task_to_ready_list(self);
        proof {
            let p = old(self).task(t as int).task_priority;
            assert forall|i: int| 0 <= i < self.lists.num_items() && i != s && i != e implies
                #[trigger] self.lists.item(i) == old(self).lists.item(i) by {
                assert(self.lists.item(i) == k2.lists.item(i));
                assert(k2.lists.item(i) == k1.lists.item(i));
                assert(k1.lists.item(i) == k0.lists.item(i));
            }
            if old(self).state_container(t as int) is Some {
                let l = old(self).state_container(t as int)->0 as int;
                assert(is_state_list(l));
                assert(is_event_list(PENDING_READY_LIST as int));
                if old(self).event_container(t as int) is Some {
                    assert(is_event_list(old(self).event_container(t as int)->0 as int));
                }
            }
            assert forall|l: int| 0 <= l < old(self).lists.num_lists() && l != p
                && old(self).state_container(t as int) != Some(l as ListLink)
                && old(self).event_container(t as int) != Some(l as ListLink) implies
                #[trigger] self.list(l) == old(self).list(l) by {
                assert(self.list(l) == k2.list(l));
                assert(k2.list(l) == k1.list(l));
                assert(k1.list(l) == k0.list(l));
            }
        }
    }
}

impl Kernel {
    /// Creates an empty list for tasks waiting on an event; returns its name.
    pub fn create_event_list(&mut self) -> (l: ListLink)
        requires
            old(self).wf(),
            old(self).lists.num_lists() < usize::MAX,
        ensures
            final(self).wf(),
            l == old(self).lists.num_lists(),
            l >= FIRST_EVENT_LIST,
            final(self).lists.num_lists() == old(self).lists.num_lists() + 1,
            final(self).list(l as int).len() == 0,
            final(self).same_but_lists(old(self)),
            final(self).lists.items_view() == old(self).lists.items_view(),
            forall|l2: int| 0 <= l2 < old(self).lists.num_lists() ==> #[trigger] final(self).list(l2) == old(self).list(l2),
    {
        let l = self.lists.create_list();
        proof {
            assert forall|l2: int| 0 <= l2 < old(self).lists.num_lists() implies #[trigger] self.list(l2) == old(self).list(l2) by {}
            assert forall|p: int| self.top_ready_priority < p < CONFIG_MAX_PRIORITIES implies #[trigger] self.list(p).len() == 0 by {
                assert(old(self).list(p).len() == 0);
            }
            assert forall|t: int| 0 <= t < self.num_tasks() implies {
                &&& (#[trigger] self.task(t)).state_list_item == state_item(t)
                &&& self.task(t).event_list_item == event_item(t)
                &&& self.task(t).task_priority < CONFIG_MAX_PRIORITIES
                &&& self.task(t).base_priority < CONFIG_MAX_PRIORITIES
                &&& self.lists.item(state_item(t)).owner == Some(TaskHandle(t as usize))
                &&& self.lists.item(event_item(t)).owner == Some(TaskHandle(t as usize))
                &&& self.state_container(t) is Some ==> is_state_list(self.state_container(t)->0 as int)
                &&& self.event_container(t) is Some ==> is_event_list(self.event_container(t)->0 as int)
            } by {
                assert(old(self).task(t) == self.task(t));
            }
            Kernel::lemma_delayed_order_kept(old(self), self);
        }
        l
    }
}

/// The kernel as it starts: no task, every task list empty and no other
/// list, the scheduler not running, and every count at zero.
pub open spec fn kernel_at_start(k: &Kernel) -> bool {
    &&& k.wf()
    &&& k.num_tasks() == 0
    &&& k.lists.num_lists() == FIRST_EVENT_LIST
    &&& forall|l: int| 0 <= l < FIRST_EVENT_LIST ==> #[trigger] k.list(l).len() == 0
    &&& k.delayed_task_list == DELAYED_TASK_LIST_1
    &&& k.overflow_delayed_task_list == DELAYED_TASK_LIST_2
    &&& k.current_tcb is None
    &&& k.idle_task_handle is None
    &&& k.tick_count == 0
    &&& k.top_ready_priority == 0
    &&& k.pended_ticks == 0
    &&& !k.scheduler_running
    &&& !k.yield_pending
    &&& k.num_of_overflows == 0
    &&& k.task_number == 0
    &&& k.next_task_unblock_time == 0
    &&& k.current_number_of_tasks == 0
    &&& k.scheduler_suspended == 0
    &&& k.deleted_tasks_waiting_clean_up == 0
    &&& k.total_run_time == 0
    &&& k.task_switched_in_time == 0
}

/// Creates the kernel with every task list empty: ready lists for each
/// priority, two delayed lists (the first one in use), the pending ready list,
/// the suspended list and the termination list.
pub fn initialize_task_list() -> (k: Kernel)
    ensures
        kernel_at_start(&k),
{
    let mut lists = ListArena::new();
    let mut n: usize = 0;
    while n < FIRST_EVENT_LIST
        invariant
            lists.wf(),
            n <= FIRST_EVENT_LIST,
            lists.num_lists() == n,
            lists.num_items() == 0,
            forall|l: int| 0 <= l < n ==> #[trigger] lists.list(l).len() == 0,
        decreases FIRST_EVENT_LIST - n,
    {
        let ghost before = lists;
        let _ = lists.create_list();
        proof {
            assert forall|l: int| 0 <= l < n + 1 implies #[trigger] lists.list(l).len() == 0 by {
                if l < n {
                    assert(before.list(l).len() == 0);
                    assert(lists.list(l) == before.list(l));
                } else {
                    assert(lists.list(l) == Seq::<usize>::empty());
                }
            }
        }
        n = n + 1;
    }
    Kernel {
        lists,
        tasks: Vec::new(),
        delayed_task_list: DELAYED_TASK_LIST_1,
        overflow_delayed_task_list: DELAYED_TASK_LIST_2,
        current_tcb: None,
        idle_task_handle: None,
        tick_count: 0,
        top_ready_priority: 0,
        pended_ticks: 0,
        scheduler_running: false,
        yield_pending: false,
        num_of_overflows: 0,
        task_number: 0,
        next_task_unblock_time: 0,
        current_number_of_tasks: 0,
        scheduler_suspended: 0,
        deleted_tasks_waiting_clean_up: 0,
        total_run_time: 0,
        task_switched_in_time: 0,
    }
}

} // verus!
