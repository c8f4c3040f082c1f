//! Task control blocks, task handles and task creation.
use vstd::prelude::*;
use crate::port::{StackType, TickType, UBaseType, CONFIG_MAX_PRIORITIES, CONFIG_MINIMAL_STACK_SIZE};
use crate::list::{ItemLink, ListItem};
use crate::port::{PORT_BYTE_ALIGNMENT_MASK};
use crate::task_global::{
    Kernel, state_item, event_item, is_state_list, is_event_list, SUSPENDED_TASK_LIST, TASKS_WAITING_TERMINATION};
use crate::port::{BaseType, PD_PASS, ERR_COULD_NOT_ALLOCATE_REQUIRED_MEMORY};
use crate::list::{insert_position, next_cursor};
use crate::kernel::highest_ready_priority;

verus! {

/// Errors of the kernel's task and queue services.
#[derive(Clone, Copy, Debug, PartialEq, Eq, Structural)]
pub enum FreeRtosError {
    OutOfMemory,
    QueueSendTimeout,
    QueueReceiveTimeout,
    MutexTimeout,
    Timeout,
    QueueFull,
    StringConversionError,
    TaskNotFound,
    InvalidQueueSize,
    ProcessorHasShutDown,
}

/// The states of a task.
#[allow(non_camel_case_types)]
#[derive(Clone, Copy, Debug, PartialEq, Eq, Structural)]
pub enum task_state {
    running,
    ready,
    blocked,
    suspended,
    deleted,
}

/// Whether the highest ready priority was changed.
#[allow(non_camel_case_types)]
#[derive(Clone, Copy, Debug, PartialEq, Eq, Structural)]
pub enum updated_top_priority {
    Updated,
    Notupdated,
}

/// Names a task of a `Kernel`: its position in the kernel's task table.
#[derive(Clone, Copy, Debug, PartialEq, Eq, Structural)]
pub struct TaskHandle(pub usize);

/// The largest valid priority.
pub open spec fn max_priority() -> UBaseType {
    (CONFIG_MAX_PRIORITIES - 1) as UBaseType
}

/// A priority asked for, brought into the valid range.
pub open spec fn clamp_priority(priority: UBaseType) -> UBaseType {
    if priority >= CONFIG_MAX_PRIORITIES { max_priority() } else { priority }
}

/// A priority asked for always becomes a valid one, a valid one is kept,
/// and bringing it into range twice changes nothing more.
pub proof fn lemma_clamp_priority(priority: UBaseType)
    ensures
        clamp_priority(priority) < CONFIG_MAX_PRIORITIES,
        priority < CONFIG_MAX_PRIORITIES ==> clamp_priority(priority) == priority,
        clamp_priority(clamp_priority(priority)) == clamp_priority(priority),
{
}

/// The task control block: what the kernel records of one task.
#[allow(non_camel_case_types)]
pub struct task_control_block {
    pub state_list_item: ItemLink,
    pub event_list_item: ItemLink,
    pub task_priority: UBaseType,
    pub task_stacksize: UBaseType,
    pub task_name: String,
    pub stack_pos: StackType,
    pub base_priority: UBaseType,
    pub mutexes_held: UBaseType,
    pub runtime_counter: TickType,
    pub delay_aborted: bool,
    /// A value that the application attaches to the task.
    pub task_tag: UBaseType,
}

/// Another name of the task control block.
pub type TCB = task_control_block;

impl task_control_block {
    /// A task control block with the default settings: priority 1, the
    /// minimal stack size and the name "Unnamed".
    pub fn new() -> (tcb: Self)
        ensures
            tcb.task_priority == 1,
            tcb.task_stacksize == CONFIG_MINIMAL_STACK_SIZE,
            tcb.task_name@ == "Unnamed"@,
            tcb.stack_pos == 0,
            tcb.base_priority == 0,
            tcb.mutexes_held == 0,
            tcb.runtime_counter == 0,
            tcb.delay_aborted == false,
            tcb.task_tag == 0,
    {
        task_control_block {
            state_list_item: 0,
            event_list_item: 0,
            task_priority: 1,
            task_stacksize: CONFIG_MINIMAL_STACK_SIZE,
            task_name: "Unnamed".to_owned(),
            stack_pos: 0,
            base_priority: 0,
            mutexes_held: 0,
            runtime_counter: 0,
            delay_aborted: false,
            task_tag: 0,
        }
    }

    /// The same block with another name.
    pub fn name(self, name: &str) -> (tcb: Self)
        ensures
            tcb.task_name@ == name@,
            tcb.task_priority == self.task_priority,
            tcb.task_stacksize == self.task_stacksize,
            tcb.stack_pos == self.stack_pos,
            tcb.base_priority == self.base_priority,
            tcb.mutexes_held == self.mutexes_held,
            tcb.runtime_counter == self.runtime_counter,
            tcb.delay_aborted == self.delay_aborted,
            tcb.task_tag == self.task_tag,
    {
        let mut tcb = self;
        tcb.task_name = name.to_owned();
        tcb
    }

    /// The same block with another stack size (in words).
    pub fn stacksize(self, stacksize: UBaseType) -> (tcb: Self)
        ensures
            tcb.task_stacksize == stacksize,
            tcb.task_name@ == self.task_name@,
            tcb.task_priority == self.task_priority,
            tcb.stack_pos == self.stack_pos,
            tcb.base_priority == self.base_priority,
            tcb.mutexes_held == self.mutexes_held,
            tcb.runtime_counter == self.runtime_counter,
            tcb.delay_aborted == self.delay_aborted,
            tcb.task_tag == self.task_tag,
    {
        let mut tcb = self;
        tcb.task_stacksize = stacksize;
        tcb
    }

    /// The same block with another priority; a priority at or above
    /// `CONFIG_MAX_PRIORITIES` is reduced to the largest valid one.
    pub fn priority(self, priority: UBaseType) -> (tcb: Self)
        ensures
            tcb.task_priority == clamp_priority(priority),
            tcb.task_name@ == self.task_name@,
            tcb.task_stacksize == self.task_stacksize,
            tcb.stack_pos == self.stack_pos,
            tcb.base_priority == self.base_priority,
            tcb.mutexes_held == self.mutexes_held,
            tcb.runtime_counter == self.runtime_counter,
            tcb.delay_aborted == self.delay_aborted,
            tcb.task_tag == self.task_tag,
    {
        let mut tcb = self;
        if priority >= CONFIG_MAX_PRIORITIES {
            tcb.task_priority = CONFIG_MAX_PRIORITIES - 1;
        } else {
            tcb.task_priority = priority;
        }
        tcb
    }

    /// Changes the name in place; returns the block, so that changes chain.
    pub fn modify_name(&mut self, name: &str) -> (r: &mut Self)
        ensures
            r.task_name@ == name@,
            r.task_priority == old(self).task_priority,
            r.task_stacksize == old(self).task_stacksize,
            r.stack_pos == old(self).stack_pos,
            r.base_priority == old(self).base_priority,
            r.mutexes_held == old(self).mutexes_held,
            r.runtime_counter == old(self).runtime_counter,
            r.delay_aborted == old(self).delay_aborted,
            r.task_tag == old(self).task_tag,
            r.state_list_item == old(self).state_list_item,
            r.event_list_item == old(self).event_list_item,
            *final(self) == *final(r),
    {
        self.task_name = name.to_owned();
        self
    }

    /// Changes the stack size in place; returns the block, so that changes chain.
    pub fn modify_stacksize(&mut self, stacksize: UBaseType) -> (r: &mut Self)
        ensures
            *r == (task_control_block { task_stacksize: stacksize, ..*old(self) }),
            *final(self) == *final(r),
    {
        self.task_stacksize = stacksize;
        self
    }

    /// Changes the priority in place, without bringing it into the valid
    /// range; returns the block, so that changes chain.
    pub fn modify_priority(&mut self, priority: UBaseType) -> (r: &mut Self)
        ensures
            *r == (task_control_block { task_priority: priority, ..*old(self) }),
            *final(self) == *final(r),
    {
        self.task_priority = priority;
        self
    }

    /// The list item that records the state of the task.
    pub fn get_state_list_item(&self) -> (i: ItemLink)
        ensures
            i == self.state_list_item,
    {
        self.state_list_item
    }

    /// The list item that places the task in event lists.
    pub fn get_event_list_item(&self) -> (i: ItemLink)
        ensures
            i == self.event_list_item,
    {
        self.event_list_item
    }

    /// The task's current priority.
    pub fn get_priority(&self) -> (p: UBaseType)
        ensures
            p == self.task_priority,
    {
        self.task_priority
    }

    /// Sets the task's current priority.
    pub fn set_priority(&mut self, new_priority: UBaseType)
        ensures
            *final(self) == (task_control_block { task_priority: new_priority, ..*old(self) }),
    {
        self.task_priority = new_priority;
    }

    /// The task's name.
    pub fn get_name(&self) -> (name: String)
        ensures
            name@ == self.task_name@,
    {
        self.task_name.clone()
    }

    /// The run time counted for the task.
    pub fn get_run_time(&self) -> (t: TickType)
        ensures
            t == self.runtime_counter,
    {
        self.runtime_counter
    }

    /// Sets the run time counted for the task; returns the previous value.
    pub fn set_run_time(&mut self, next_val: TickType) -> (prev: TickType)
        ensures
            prev == old(self).runtime_counter,
            *final(self) == (task_control_block { runtime_counter: next_val, ..*old(self) }),
    {
        let prev_val = self.runtime_counter;
        self.runtime_counter = next_val;
        prev_val
    }

    /// Whether a delay of the task was aborted.
    pub fn get_delay_aborted(&self) -> (b: bool)
        ensures
            b == self.delay_aborted,
    {
        self.delay_aborted
    }

    /// Sets whether a delay of the task was aborted; returns the previous value.
    pub fn set_delay_aborted(&mut self, next_val: bool) -> (prev: bool)
        ensures
            prev == old(self).delay_aborted,
            *final(self) == (task_control_block { delay_aborted: next_val, ..*old(self) }),
    {
        let prev_val = self.delay_aborted;
        self.delay_aborted = next_val;
        prev_val
    }

    /// The number of mutexes that the task holds.
    pub fn get_mutex_held_count(&self) -> (n: UBaseType)
        ensures
            n == self.mutexes_held,
    {
        self.mutexes_held
    }

    /// Sets the number of mutexes that the task holds.
    pub fn set_mutex_held_count(&mut self, new_count: UBaseType)
        ensures
            *final(self) == (task_control_block { mutexes_held: new_count, ..*old(self) }),
    {
        self.mutexes_held = new_count;
    }

    /// The priority that the task has when it inherits none.
    pub fn get_base_priority(&self) -> (p: UBaseType)
        ensures
            p == self.base_priority,
    {
        self.base_priority
    }

    /// Sets the priority that the task has when it inherits none.
    pub fn set_base_priority(&mut self, new_priority: UBaseType)
        ensures
            *final(self) == (task_control_block { base_priority: new_priority, ..*old(self) }),
    {
        self.base_priority = new_priority;
    }
}


impl TaskHandle {
    /// The handle of the task stored at position `index` of the task table.
    pub fn from_arc(index: usize) -> (h: TaskHandle)
        ensures
            h.0 == index,
    {
        TaskHandle(index)
    }

    /// Hands a task control block to the kernel and returns its handle.
    pub fn from(k: &mut Kernel, tcb: TCB) -> (h: TaskHandle)
        requires
            old(k).wf(),
            old(k).lists.num_items() + 2 <= usize::MAX,
            tcb.task_priority < CONFIG_MAX_PRIORITIES,
            tcb.base_priority < CONFIG_MAX_PRIORITIES,
        ensures
            final(k).wf(),
            h.0 == old(k).num_tasks(),
            final(k).same_sched(old(k)),
            final(k).tasks@ == old(k).tasks@.push(TCB {
                state_list_item: state_item(h.0 as int) as ItemLink,
                event_list_item: event_item(h.0 as int) as ItemLink,
                ..tcb
            }),
            final(k).lists.items_view() == old(k).lists.items_view()
                .push(ListItem { item_value: crate::port::PORT_MAX_DELAY, owner: Some(h), container: None })
                .push(ListItem { item_value: crate::port::PORT_MAX_DELAY, owner: Some(h), container: None }),
            final(k).lists.lists_view() == old(k).lists.lists_view(),
            final(k).lists.cursors() == old(k).lists.cursors(),
    {
        k.register_task(tcb)
    }

    /// The raw position of the task in the task table.
    pub fn as_raw(self) -> (index: usize)
        ensures
            index == self.0,
    {
        self.0
    }

    /// The task's priority.
    pub fn get_priority(&self, k: &Kernel) -> (p: UBaseType)
        requires
            k.valid_handle(*self),
        ensures
            p == k.task(self.0 as int).task_priority,
    {
        k.tasks[self.0].task_priority
    }

    /// Sets the task's priority.
    pub fn set_priority(&self, k: &mut Kernel, new_priority: UBaseType)
        requires
            old(k).wf(),
            old(k).valid_handle(*self),
            new_priority < CONFIG_MAX_PRIORITIES,
        ensures
            final(k).wf(),
            *final(k) == (Kernel { tasks: final(k).tasks, ..*old(k) }),
            final(k).tasks@ == old(k).tasks@.update(
                self.0 as int,
                TCB { task_priority: new_priority, ..old(k).task(self.0 as int) },
            ),
    {
        k.set_task_priority(self.0, new_priority);
    }

    /// The task's event list item.
    pub fn get_event_list_item(&self, k: &Kernel) -> (i: ItemLink)
        requires
            k.valid_handle(*self),
        ensures
            i == k.task(self.0 as int).event_list_item,
    {
        k.tasks[self.0].event_list_item
    }

    /// The task's state list item.
    pub fn get_state_list_item(&self, k: &Kernel) -> (i: ItemLink)
        requires
            k.valid_handle(*self),
        ensures
            i == k.task(self.0 as int).state_list_item,
    {
        k.tasks[self.0].state_list_item
    }

    /// The task's name.
    pub fn get_name(&self, k: &Kernel) -> (name: String)
        requires
            k.valid_handle(*self),
        ensures
            name@ == k.task(self.0 as int).task_name@,
    {
        k.tasks[self.0].get_name()
    }

    /// The run time counted for the task.
    pub fn get_run_time(&self, k: &Kernel) -> (t: TickType)
        requires
            k.valid_handle(*self),
        ensures
            t == k.task(self.0 as int).runtime_counter,
    {
        k.tasks[self.0].runtime_counter
    }

    /// Sets the run time counted for the task; returns the previous value.
    pub fn set_run_time(&self, k: &mut Kernel, next_val: TickType) -> (prev: TickType)
        requires
            old(k).wf(),
            old(k).valid_handle(*self),
        ensures
            final(k).wf(),
            prev == old(k).task(self.0 as int).runtime_counter,
            *final(k) == (Kernel { tasks: final(k).tasks, ..*old(k) }),
            final(k).tasks@ == old(k).tasks@.update(
                self.0 as int,
                TCB { runtime_counter: next_val, ..old(k).task(self.0 as int) },
            ),
    {
        let prev = k.tasks[self.0].set_run_time(next_val);
        proof { Kernel::lemma_wf_after_task_change(old(k), k); }
        prev
    }

    /// Whether a delay of the task was aborted.
    pub fn get_delay_aborted(&self, k: &Kernel) -> (b: bool)
        requires
            k.valid_handle(*self),
        ensures
            b == k.task(self.0 as int).delay_aborted,
    {
        k.tasks[self.0].delay_aborted
    }

    /// Sets whether a delay of the task was aborted; returns the previous value.
    pub fn set_delay_aborted(&self, k: &mut Kernel, next_val: bool) -> (prev: bool)
        requires
            old(k).wf(),
            old(k).valid_handle(*self),
        ensures
            final(k).wf(),
            prev == old(k).task(self.0 as int).delay_aborted,
            *final(k) == (Kernel { tasks: final(k).tasks, ..*old(k) }),
            final(k).tasks@ == old(k).tasks@.update(
                self.0 as int,
                TCB { delay_aborted: next_val, ..old(k).task(self.0 as int) },
            ),
    {
        let prev = k.tasks[self.0].set_delay_aborted(next_val);
        proof { Kernel::lemma_wf_after_task_change(old(k), k); }
        prev
    }

    /// The number of mutexes that the task holds.
    pub fn get_mutex_held_count(&self, k: &Kernel) -> (n: UBaseType)
        requires
            k.valid_handle(*self),
        ensures
            n == k.task(self.0 as int).mutexes_held,
    {
        k.tasks[self.0].mutexes_held
    }

    /// Sets the number of mutexes that the task holds.
    pub fn set_mutex_held_count(&self, k: &mut Kernel, new_count: UBaseType)
        requires
            old(k).wf(),
            old(k).valid_handle(*self),
        ensures
            final(k).wf(),
            *final(k) == (Kernel { tasks: final(k).tasks, ..*old(k) }),
            final(k).tasks@ == old(k).tasks@.update(
                self.0 as int,
                TCB { mutexes_held: new_count, ..old(k).task(self.0 as int) },
            ),
    {
        k.tasks[self.0].set_mutex_held_count(new_count);
        proof { Kernel::lemma_wf_after_task_change(old(k), k); }
    }

    /// The priority that the task has when it inherits none.
    pub fn get_base_priority(&self, k: &Kernel) -> (p: UBaseType)
        requires
            k.valid_handle(*self),
        ensures
            p == k.task(self.0 as int).base_priority,
    {
        k.tasks[self.0].base_priority
    }
}

impl TaskHandle {
    /// Places the task at the end of the ready list of its priority (just
    /// before the list's walking index, so that it runs after the other ready
    /// tasks of that priority) and records the priority as ready.
    pub fn add_task_to_ready_list(&self, k: &mut Kernel) -> (r: Result<(), FreeRtosError>)
        requires
            old(k).wf(),
            old(k).valid_handle(*self),
            old(k).state_container(self.0 as int) is None,
        ensures
            final(k).wf(),
            r is Ok,
            ({
                let t = self.0 as int;
                let p = old(k).task(t).task_priority;
                &&& *final(k) == (Kernel {
                    lists: final(k).lists,
                    top_ready_priority: if p > old(k).top_ready_priority { p } else { old(k).top_ready_priority },
                    ..*old(k)
                })
                &&& final(k).lists.items_view() == old(k).lists.items_view().update(
                    state_item(t),
                    ListItem { container: Some(p as usize), ..old(k).lists.item(state_item(t)) },
                )
                &&& final(k).lists.lists_view() == old(k).lists.lists_view().update(
                    p as int,
                    old(k).list(p as int).insert(old(k).lists.cursor(p as int) as int, state_item(t) as ItemLink),
                )
                &&& final(k).lists.cursors() == old(k).lists.cursors().update(
                    p as int,
                    old(k).lists.cursor(p as int) + 1,
                )
            }),
    {
        let priority = k.tasks[self.0].task_priority;
        k.record_ready_priority(priority);
        k.insert_state_end(priority as usize, self.0);
        Ok(())
    }

    /// Counts a newly created task and places it in its ready list.  Before
    /// the scheduler runs, the new task becomes the current task when there
    /// is none yet or when its priority is at least that of the current one.
    /// While the scheduler runs, returns whether the new task outranks the
    /// running one, so that the caller must yield to it.
    pub fn add_new_task_to_ready_list(&self, k: &mut Kernel) -> (r: Result<bool, FreeRtosError>)
        requires
            old(k).wf(),
            old(k).valid_handle(*self),
            old(k).state_container(self.0 as int) is None,
            old(k).current_number_of_tasks < UBaseType::MAX,
            old(k).task_number < UBaseType::MAX,
        ensures
            final(k).wf(),
            ({
                let t = self.0 as int;
                let p = old(k).task(t).task_priority;
                &&& r == Ok::<bool, FreeRtosError>(old(k).scheduler_running && old(k).current_tcb is Some
                    && old(k).current_priority() < p)
                &&& *final(k) == (Kernel {
                    lists: final(k).lists,
                    top_ready_priority: if p > old(k).top_ready_priority { p } else { old(k).top_ready_priority },
                    current_number_of_tasks: (old(k).current_number_of_tasks + 1) as UBaseType,
                    task_number: (old(k).task_number + 1) as UBaseType,
                    current_tcb: if old(k).current_tcb is None {
                        Some(*self)
                    } else if !old(k).scheduler_running && old(k).current_priority() <= p {
                        Some(*self)
                    } else {
                        old(k).current_tcb
                    },
                    ..*old(k)
                })
                &&& final(k).lists.items_view() == old(k).lists.items_view().update(
                    state_item(t),
                    ListItem { container: Some(p as usize), ..old(k).lists.item(state_item(t)) },
                )
                &&& final(k).lists.lists_view() == old(k).lists.lists_view().update(
                    p as int,
                    old(k).list(p as int).insert(old(k).lists.cursor(p as int) as int, state_item(t) as ItemLink),
                )
                &&& final(k).lists.cursors() == old(k).lists.cursors().update(
                    p as int,
                    old(k).lists.cursor(p as int) + 1,
                )
            }),
    {
        k.current_number_of_tasks = k.current_number_of_tasks + 1;
        match k.current_tcb {
            None => {
                k.current_tcb = Some(*self);
            },
            Some(cur) => {
                if !k.scheduler_running {
                    if k.tasks[cur.0].task_priority <= k.tasks[self.0].task_priority {
                        k.current_tcb = Some(*self);
                    }
                }
            },
        }
        k.task_number = k.task_number + 1;
        proof {
            assert forall|p: int| k.top_ready_priority < p < CONFIG_MAX_PRIORITIES implies #[trigger] k.list(p).len() == 0 by {
                assert(old(k).list(p).len() == 0);
            }
            Kernel::lemma_wf_scalar_change(old(k), k);
        }
        let yield_required = match k.current_tcb {
            Some(cur) => k.scheduler_running && k.tasks[cur.0].task_priority < k.tasks[self.0].task_priority,
            None => false,
        };
        match self.add_task_to_ready_list(k) {
            Ok(()) => Ok(yield_required),
            Err(e) => Err(e),
        }
    }
}

impl task_control_block {
    /// Gives the task the stack that was allocated for it (`None` when the
    /// allocation failed), hands it to the kernel and makes it ready.  Its
    /// base priority becomes its priority, it holds no mutex, and its list
    /// items carry the value `CONFIG_MAX_PRIORITIES - priority`.
    pub fn initialise(self, k: &mut Kernel, allocated_stack: Option<StackType>) -> (r: Result<TaskHandle, FreeRtosError>)
        requires
            old(k).wf(),
            self.task_priority < CONFIG_MAX_PRIORITIES,
            old(k).lists.num_items() + 2 <= usize::MAX,
            old(k).current_number_of_tasks < UBaseType::MAX,
            old(k).task_number < UBaseType::MAX,
        ensures
            final(k).wf(),
            allocated_stack is None ==> r == Err::<TaskHandle, FreeRtosError>(FreeRtosError::OutOfMemory) && *final(k) == *old(k),
            allocated_stack is Some ==> ({
                let h = TaskHandle(old(k).num_tasks() as usize);
                let t = h.0 as int;
                let p = self.task_priority;
                &&& r == Ok::<TaskHandle, FreeRtosError>(h)
                &&& final(k).num_tasks() == old(k).num_tasks() + 1
                &&& final(k).task(t) == (TCB {
                    state_list_item: state_item(t) as ItemLink,
                    event_list_item: event_item(t) as ItemLink,
                    stack_pos: allocated_stack->0,
                    base_priority: p,
                    mutexes_held: 0,
                    runtime_counter: 0,
                    ..self
                })
                &&& forall|t2: int| 0 <= t2 < t ==> #[trigger] final(k).task(t2) == old(k).task(t2)
                &&& final(k).lists.item(state_item(t)) == (ListItem {
                    item_value: (CONFIG_MAX_PRIORITIES - p) as TickType,
                    owner: Some(h),
                    container: Some(p as usize),
                })
                &&& final(k).lists.item(event_item(t)) == (ListItem {
                    item_value: (CONFIG_MAX_PRIORITIES - p) as TickType,
                    owner: Some(h),
                    container: None,
                })
                &&& final(k).lists.items_view().take(old(k).lists.num_items() as int) == old(k).lists.items_view()
                &&& final(k).lists.lists_view() == old(k).lists.lists_view().update(
                    p as int,
                    old(k).list(p as int).insert(old(k).lists.cursor(p as int) as int, state_item(t) as ItemLink),
                )
                &&& *final(k) == (Kernel {
                    lists: final(k).lists,
                    tasks: final(k).tasks,
                    top_ready_priority: if p > old(k).top_ready_priority { p } else { old(k).top_ready_priority },
                    current_number_of_tasks: (old(k).current_number_of_tasks + 1) as UBaseType,
                    task_number: (old(k).task_number + 1) as UBaseType,
                    current_tcb: if old(k).current_tcb is None {
                        Some(h)
                    } else if !old(k).scheduler_running && old(k).current_priority() <= p {
                        Some(h)
                    } else {
                        old(k).current_tcb
                    },
                    ..*old(k)
                })
            }),
    {
        match allocated_stack {
            None => Err(FreeRtosError::OutOfMemory),
            Some(stack_pos) => {
                let mut tcb = self;
                tcb.stack_pos = stack_pos;
                tcb.mutexes_held = 0;
                tcb.base_priority = tcb.task_priority;
                tcb.runtime_counter = 0;
                let priority = tcb.task_priority;
                let handle = TaskHandle::from(k, tcb);
                let ghost k1 = *k;
                let item_value = (CONFIG_MAX_PRIORITIES - priority) as TickType;
                let s = handle.get_state_list_item(k);
                let e = handle.get_event_list_item(k);
                k.set_item_value(s, item_value);
                k.set_item_value(e, item_value);
                let ghost k2 = *k;
                proof {
                    assert(k2.task(handle.0 as int) == k1.task(handle.0 as int));
                    assert(k2.lists.item(state_item(handle.0 as int)).container is None);
                    assert(k2.current_tcb is Some ==> k2.current_priority() == old(k).current_priority());
                }
                let _ = handle.add_new_task_to_ready_list(k);
                proof {
                    assert(k.tasks@ == k1.tasks@);
                    assert(k.lists.items_view().take(old(k).lists.num_items() as int) =~= old(k).lists.items_view());
                }
                Ok(handle)
            },
        }
    }
}

/// `a + b` in tick arithmetic, which wraps around at 2^32.
pub open spec fn tick_add(a: TickType, b: TickType) -> TickType {
    if a + b > TickType::MAX { (a + b - 0x1_0000_0000) as TickType } else { (a + b) as TickType }
}

/// The list that a running task enters when it blocks for `ticks_to_wait`
/// ticks from tick `tick`: the suspended list when it blocks for ever (and
/// may), else the overflow delayed list when the wake time wraps past zero,
/// else the current delayed list.
pub open spec fn blocking_list(k: &Kernel, ticks_to_wait: TickType, can_block_indefinitely: bool) -> usize {
    if ticks_to_wait == crate::port::PORT_MAX_DELAY && can_block_indefinitely {
        SUSPENDED_TASK_LIST
    } else if tick_add(k.tick_count, ticks_to_wait) < k.tick_count {
        k.overflow_delayed_task_list
    } else {
        k.delayed_task_list
    }
}

/// Blocks the running task: it leaves its ready list and enters the
/// suspended list (blocking for ever), or, with its state item's value set to
/// its wake time, the delayed list (or the overflow delayed list when the wake
/// time wraps past zero) in wake-time order.  The next wake time is lowered to
/// the new one when that comes earlier.
pub fn add_current_task_to_delayed_list(k: &mut Kernel, ticks_to_wait: TickType, can_block_indefinitely: bool)
    requires
        old(k).wf(),
        old(k).has_current(),
        old(k).state_container(old(k).current_tcb.unwrap().0 as int) is Some,
    ensures
        final(k).wf(),
        ({
            let t = old(k).current_tcb.unwrap().0 as int;
            let s = state_item(t);
            let wake = tick_add(old(k).tick_count, ticks_to_wait);
            let forever = ticks_to_wait == crate::port::PORT_MAX_DELAY && can_block_indefinitely;
            let d = blocking_list(old(k), ticks_to_wait, can_block_indefinitely);
            &&& final(k).tasks@ == old(k).tasks@.update(t, TCB { delay_aborted: false, ..old(k).task(t) })
            &&& *final(k) == (Kernel {
                lists: final(k).lists,
                tasks: final(k).tasks,
                next_task_unblock_time: final(k).next_task_unblock_time,
                ..*old(k)
            })
            &&& final(k).state_container(t) == Some(d)
            &&& final(k).items_same_except(old(k), s, s)
            &&& final(k).lists.num_lists() == old(k).lists.num_lists()
            &&& forall|l: int| 0 <= l < old(k).lists.num_lists() && old(k).state_container(t) != Some(l as usize)
                && l != d ==> #[trigger] final(k).list(l) == old(k).list(l)
            &&& final(k).lists.item(s).item_value == (if forever { old(k).lists.item(s).item_value } else { wake })
            &&& final(k).next_task_unblock_time == (
                if !forever && wake >= old(k).tick_count && wake < old(k).next_task_unblock_time {
                    wake
                } else {
                    old(k).next_task_unblock_time
                })
            &&& old(k).state_container(t) != Some(d) ==> final(k).list(d as int) == (
                if forever {
                    old(k).list(d as int).insert(old(k).lists.cursor(d as int) as int, s as ItemLink)
                } else {
                    old(k).list(d as int).insert(
                        insert_position(old(k).lists.list_values(d as int), wake) as int,
                        s as ItemLink,
                    )
                })
        }),
{
    let cur = k.current_tcb.unwrap();
    let t = cur.0;
    cur.set_delay_aborted(k, false);
    let ghost k1 = *k;
    let s = cur.get_state_list_item(k);
    proof {
        assert(k1.task(t as int).state_list_item == state_item(t as int));
        assert forall|l: int| #[trigger] k1.list(l) == old(k).list(l) by {}
        assert forall|l: int| #[trigger] k1.lists.list_values(l) == old(k).lists.list_values(l) by {}
    }
    k.remove_item(s);
    let ghost k2 = *k;
    let ghost d = blocking_list(old(k), ticks_to_wait, can_block_indefinitely);
    proof {
        let l0 = old(k).state_container(t as int)->0 as int;
        if old(k).state_container(t as int) != Some(d) {
            assert(k2.list(d as int) == k1.list(d as int));
            assert(k2.lists.cursor(d as int) == k1.lists.cursor(d as int));
        }
    }
    if ticks_to_wait == crate::port::PORT_MAX_DELAY && can_block_indefinitely {
        k.insert_state_end(SUSPENDED_TASK_LIST, t);
    } else {
        let time_to_wake = k.tick_count.wrapping_add(ticks_to_wait);
        k.set_item_value(s, time_to_wake);
        let ghost k3 = *k;
        proof {
            if old(k).state_container(t as int) != Some(d) {
                assert(k3.list(d as int) == k2.list(d as int));
                assert forall|m: int| 0 <= m < k3.list(d as int).len() implies
                    #[trigger] k3.lists.list_values(d as int)[m] == k2.lists.list_values(d as int)[m] by {
                    k2.lemma_list_item_kind(d as int, m);
                    assert(k2.list(d as int)[m] != s);
                }
                assert(k3.lists.list_values(d as int) =~= k2.lists.list_values(d as int));
                assert forall|m: int| 0 <= m < k2.list(d as int).len() implies
                    #[trigger] k2.lists.list_values(d as int)[m] == k1.lists.list_values(d as int)[m] by {
                    k1.lemma_list_item_kind(d as int, m);
                }
                assert(k2.lists.list_values(d as int) =~= k1.lists.list_values(d as int));
            }
        }
        if time_to_wake < k.tick_count {
            let l = k.overflow_delayed_task_list;
            k.insert_state_sorted(l, t);
        } else {
            let l = k.delayed_task_list;
            k.insert_state_sorted(l, t);
            if time_to_wake < k.next_task_unblock_time {
                let ghost kb = *k;
                k.next_task_unblock_time = time_to_wake;
                proof {
                    assert forall|p: int| k.top_ready_priority < p < CONFIG_MAX_PRIORITIES implies #[trigger] k.list(p).len() == 0 by {
                        assert(kb.list(p).len() == 0);
                    }
                    Kernel::lemma_wf_scalar_change(&kb, k);
                    assert forall|t2: int| #[trigger] k.state_container(t2) == kb.state_container(t2) by {}
                }
            }
        }
    }
    proof {
        assert forall|i: int| 0 <= i < k.lists.num_items() && i != s && i != s implies
            #[trigger] k.lists.item(i) == old(k).lists.item(i) by {
            assert(k1.lists.item(i) == old(k).lists.item(i));
        }
        assert forall|l: int| 0 <= l < old(k).lists.num_lists() && old(k).state_container(t as int) != Some(l as usize)
            && l != d implies #[trigger] k.list(l) == old(k).list(l) by {
            assert(k2.list(l) == k1.list(l));
        }
    }
}

impl task_control_block {
    /// Prepares the block of a new task: its name, its priority (reduced to
    /// the largest valid one when too high), which is also its base priority,
    /// no mutex held and no run time counted.
    pub fn initialize_new_task(&mut self, pcname: String, stack_depth: u16, priority: UBaseType)
        ensures
            *final(self) == (task_control_block {
                task_name: pcname,
                task_priority: clamp_priority(priority),
                base_priority: clamp_priority(priority),
                mutexes_held: 0,
                runtime_counter: 0,
                ..*old(self)
            }),
    {
        let mut priority = priority;
        self.task_name = pcname;
        if priority >= CONFIG_MAX_PRIORITIES {
            priority = CONFIG_MAX_PRIORITIES - 1;
        }
        self.task_priority = priority;
        self.mutexes_held = 0;
        self.base_priority = priority;
        self.runtime_counter = 0;
    }

    /// Creates a task named `pcname` of `stack_depth` words at `priority` on
    /// the stack allocated for it and makes it ready.  Returns `PD_PASS`, or
    /// `ERR_COULD_NOT_ALLOCATE_REQUIRED_MEMORY` when no stack was allocated
    /// (and then nothing changes).
    pub fn create_task(k: &mut Kernel, pcname: String, stack_depth: u16, priority: UBaseType,
        allocated_stack: Option<StackType>) -> (status: BaseType)
        requires
            old(k).wf(),
            old(k).lists.num_items() + 2 <= usize::MAX,
            old(k).current_number_of_tasks < UBaseType::MAX,
            old(k).task_number < UBaseType::MAX,
        ensures
            final(k).wf(),
            allocated_stack is None ==> status == ERR_COULD_NOT_ALLOCATE_REQUIRED_MEMORY && *final(k) == *old(k),
            allocated_stack is Some ==> {
                let t = old(k).num_tasks() as int;
                &&& status == PD_PASS
                &&& final(k).num_tasks() == old(k).num_tasks() + 1
                &&& final(k).task(t).task_name@ == pcname@
                &&& final(k).task(t).task_priority == clamp_priority(priority)
                &&& final(k).task(t).base_priority == clamp_priority(priority)
                &&& final(k).task(t).stack_pos == allocated_stack->0
                &&& final(k).task(t).task_stacksize == stack_depth
                &&& final(k).state_container(t) == Some(clamp_priority(priority) as usize)
                &&& final(k).current_number_of_tasks == old(k).current_number_of_tasks + 1
            },
    {
        match allocated_stack {
            None => ERR_COULD_NOT_ALLOCATE_REQUIRED_MEMORY,
            Some(_) => {
                let mut tcb = task_control_block::new().stacksize(stack_depth as UBaseType);
                tcb.initialize_new_task(pcname, stack_depth, priority);
                let _ = tcb.initialise(k, allocated_stack);
                PD_PASS
            },
        }
    }
}

impl task_control_block {
    /// Deletes a task: it leaves its state and event lists.  A task deleting
    /// itself waits in the termination list to be cleaned up (and a context
    /// switch is due when the scheduler runs); another task is gone at once,
    /// one task fewer, and the next wake time is recomputed.  Returns whether
    /// a context switch is due.
    pub fn task_delete(k: &mut Kernel, task_to_delete: TaskHandle) -> (yield_required: bool)
        requires
            old(k).wf(),
            old(k).valid_handle(task_to_delete),
            old(k).task_number < UBaseType::MAX,
            Some(task_to_delete) == old(k).current_tcb ==> old(k).deleted_tasks_waiting_clean_up < UBaseType::MAX,
            Some(task_to_delete) != old(k).current_tcb ==> old(k).current_number_of_tasks > 0,
            old(k).scheduler_running && Some(task_to_delete) == old(k).current_tcb ==> old(k).scheduler_suspended == 0,
        ensures
            final(k).wf(),
            ({
                let t = task_to_delete.0 as int;
                let is_current = Some(task_to_delete) == old(k).current_tcb;
                &&& yield_required == (old(k).scheduler_running && is_current)
                &&& final(k).event_container(t) is None
                &&& final(k).state_container(t) == (if is_current { Some(TASKS_WAITING_TERMINATION) } else { None })
                &&& final(k).task_number == old(k).task_number + 1
                &&& final(k).tasks == old(k).tasks
                &&& final(k).current_tcb == old(k).current_tcb
                &&& final(k).scheduler_suspended == old(k).scheduler_suspended
                &&& is_current ==> final(k).deleted_tasks_waiting_clean_up == old(k).deleted_tasks_waiting_clean_up + 1
                    && final(k).current_number_of_tasks == old(k).current_number_of_tasks
                &&& !is_current ==> final(k).current_number_of_tasks == old(k).current_number_of_tasks - 1
                    && final(k).deleted_tasks_waiting_clean_up == old(k).deleted_tasks_waiting_clean_up
                    && final(k).next_task_unblock_time == (
                        if final(k).list(final(k).delayed_task_list as int).len() == 0 {
                            crate::port::PORT_MAX_DELAY
                        } else {
                            final(k).lists.list_values(final(k).delayed_task_list as int)[0]
                        })
                &&& forall|t2: int| 0 <= t2 < old(k).num_tasks() && t2 != t ==>
                    #[trigger] final(k).state_container(t2) == old(k).state_container(t2)
                    && final(k).event_container(t2) == old(k).event_container(t2)
            }),
    {
        let t = task_to_delete.0;
        let s = task_to_delete.get_state_list_item(k);
        let e = task_to_delete.get_event_list_item(k);
        proof {
            assert(old(k).task(t as int).state_list_item == state_item(t as int));
        }
        if k.lists.get_item(s).container.is_some() {
            k.remove_item(s);
        }
        if k.lists.get_item(e).container.is_some() {
            k.remove_item(e);
        }
        let ghost k1 = *k;
        proof {
            assert(k1.event_container(t as int) is None);
            assert(k1.state_container(t as int) is None);
        }
        k.task_number = k.task_number + 1;
        let is_current = match k.current_tcb {
            Some(cur) => cur.0 == t,
            None => false,
        };
        if is_current {
            k.deleted_tasks_waiting_clean_up = k.deleted_tasks_waiting_clean_up + 1;
            proof { lemma_wf_scalars_only(&k1, k); }
            let ghost k2 = *k;
            k.insert_state_end(TASKS_WAITING_TERMINATION, t);
            proof {
                assert(k.lists.item(event_item(t as int)) == k2.lists.item(event_item(t as int)));
            }
        } else {
            k.current_number_of_tasks = k.current_number_of_tasks - 1;
            proof { lemma_wf_scalars_only(&k1, k); }
            crate::kernel::reset_next_task_unblock_time(k);
        }
        proof {
            assert forall|t2: int| 0 <= t2 < old(k).num_tasks() && t2 != t as int implies
                #[trigger] k.state_container(t2) == old(k).state_container(t2)
                && k.event_container(t2) == old(k).event_container(t2) by {
                assert(k.lists.item(state_item(t2)) == old(k).lists.item(state_item(t2)));
                assert(k.lists.item(event_item(t2)) == old(k).lists.item(event_item(t2)));
            }
        }
        k.scheduler_running && is_current
    }
}

/// Some ready list at or below the highest ready priority holds a task other than `t`.
pub open spec fn other_ready_task(k: &Kernel, t: int) -> bool {
    exists|p: int, m: int|
        0 <= p <= k.top_ready_priority && 0 <= m < k.list(p).len() && #[trigger] k.list(p)[m] != state_item(t) as ItemLink
}

/// How many tasks the suspended list holds once task `t` is in it.
pub open spec fn suspended_count_after(k: &Kernel, t: int) -> int {
    k.list(SUSPENDED_TASK_LIST as int).len() + if k.state_container(t) == Some(SUSPENDED_TASK_LIST) { 0int } else { 1int }
}

/// Suspends a task: it leaves its state and event lists and enters the
/// suspended list; while the scheduler runs the next wake time is
/// recomputed.  A running task that suspends itself needs a context switch
/// (returned as true while the scheduler runs); before the scheduler runs,
/// another task is chosen unless every task is suspended.
pub fn suspend_task(k: &mut Kernel, task_to_suspend: TaskHandle) -> (yield_required: bool)
    requires
        old(k).wf(),
        old(k).valid_handle(task_to_suspend),
        old(k).scheduler_running && Some(task_to_suspend) == old(k).current_tcb ==> old(k).scheduler_suspended == 0,
        !old(k).scheduler_running && Some(task_to_suspend) == old(k).current_tcb && old(k).scheduler_suspended == 0
            && suspended_count_after(old(k), task_to_suspend.0 as int) != old(k).current_number_of_tasks ==>
            other_ready_task(old(k), task_to_suspend.0 as int),
    ensures
        final(k).wf(),
        ({
            let t = task_to_suspend.0 as int;
            let is_current = Some(task_to_suspend) == old(k).current_tcb;
            &&& yield_required == (old(k).scheduler_running && is_current)
            &&& final(k).event_container(t) is None
            &&& final(k).state_container(t) == Some(SUSPENDED_TASK_LIST)
            &&& final(k).list(SUSPENDED_TASK_LIST as int).len() == suspended_count_after(old(k), t)
            &&& final(k).tasks == old(k).tasks
            &&& final(k).scheduler_suspended == old(k).scheduler_suspended
            &&& !is_current ==> final(k).current_tcb == old(k).current_tcb
            &&& is_current && !old(k).scheduler_running ==> {
                let all_suspended = final(k).list(SUSPENDED_TASK_LIST as int).len() == old(k).current_number_of_tasks;
                if all_suspended || old(k).scheduler_suspended != 0 {
                    &&& final(k).current_tcb == old(k).current_tcb
                    &&& final(k).yield_pending == (old(k).yield_pending || !all_suspended)
                } else {
                    &&& !final(k).yield_pending
                    &&& final(k).current_tcb matches Some(h)
                    &&& final(k).state_container(h.0 as int) matches Some(p)
                    &&& highest_ready_priority(&final(k).lists, old(k).top_ready_priority as int, p as int)
                }
            }
            &&& forall|t2: int| 0 <= t2 < old(k).num_tasks() && t2 != t ==>
                #[trigger] final(k).state_container(t2) == old(k).state_container(t2)
                && final(k).event_container(t2) == old(k).event_container(t2)
        }),
{
    let t = task_to_suspend.0;
    let s = task_to_suspend.get_state_list_item(k);
    let e = task_to_suspend.get_event_list_item(k);
    proof {
        assert(old(k).task(t as int).state_list_item == state_item(t as int));
    }
    if k.lists.get_item(s).container.is_some() {
        k.remove_item(s);
    }
    let ghost k1 = *k;
    if k.lists.get_item(e).container.is_some() {
        k.remove_item(e);
    }
    let ghost k2 = *k;
    k.insert_state_end(SUSPENDED_TASK_LIST, t);
    let ghost k3 = *k;
    proof {
        assert(k3.lists.item(event_item(t as int)) == k2.lists.item(event_item(t as int)));
    }
    if k.scheduler_running {
        crate::kernel::reset_next_task_unblock_time(k);
    }
    let ghost k4 = *k;
    proof {
        let sl = SUSPENDED_TASK_LIST as int;
        if old(k).state_container(t as int) != Some(SUSPENDED_TASK_LIST) {
            assert(k1.list(sl) == old(k).list(sl));
        } else {
            assert(k1.list(sl).len() == old(k).list(sl).len() - 1);
        }
        if old(k).event_container(t as int) is Some {
            assert(is_event_list(k1.event_container(t as int)->0 as int));
        }
        assert(k2.list(sl) == k1.list(sl));
        assert(k4.list(sl).len() == suspended_count_after(old(k), t as int));
        assert forall|t2: int| #[trigger] k4.state_container(t2) == k3.state_container(t2) by {}
        assert forall|t2: int| #[trigger] k4.event_container(t2) == k3.event_container(t2) by {}
        assert forall|t2: int| 0 <= t2 < old(k).num_tasks() && t2 != t as int implies
            #[trigger] k4.state_container(t2) == old(k).state_container(t2)
            && k4.event_container(t2) == old(k).event_container(t2) by {
            assert(k3.lists.item(state_item(t2)) == old(k).lists.item(state_item(t2)));
            assert(k3.lists.item(event_item(t2)) == old(k).lists.item(event_item(t2)));
        }
    }
    let is_current = match k.current_tcb {
        Some(cur) => cur.0 == t,
        None => false,
    };
    if is_current {
        if k.scheduler_running {
            return true;
        } else {
            proof {
                if k.scheduler_suspended == 0 && k.list(SUSPENDED_TASK_LIST as int).len() != k.current_number_of_tasks {
                    assert(k4.current_number_of_tasks == old(k).current_number_of_tasks);
                    let (p, m) = choose|p: int, m: int|
                        0 <= p <= old(k).top_ready_priority && 0 <= m < old(k).list(p).len()
                        && #[trigger] old(k).list(p)[m] != state_item(t as int) as ItemLink;
                    let i = old(k).list(p)[m];
                    old(k).lemma_list_item_kind(p, m);
                    assert(k4.top_ready_priority == old(k).top_ready_priority);
                    assert(is_state_list(p));
                    assert(old(k).lists.item(i as int).container == Some(p as usize));
                    assert(i != state_item(t as int));
                    assert(i != event_item(t as int));
                    assert(k4.lists.item(i as int) == old(k).lists.item(i as int));
                    k4.lemma_contained_in_list(i as int);
                    assert(k4.list(p).len() > 0);
                }
            }
            switch_after_self_suspend(k);
        }
    }
    false
}

/// After the running task suspended itself before the scheduler runs:
/// unless every task is suspended, another task is chosen (or, with the
/// scheduler suspended, the switch is held pending).
fn switch_after_self_suspend(k: &mut Kernel)
    requires
        old(k).wf(),
        old(k).scheduler_suspended == 0
            && old(k).list(SUSPENDED_TASK_LIST as int).len() != old(k).current_number_of_tasks ==>
            exists|p: int| 0 <= p <= old(k).top_ready_priority && #[trigger] old(k).list(p).len() > 0,
    ensures
        final(k).wf(),
        final(k).tasks == old(k).tasks,
        final(k).scheduler_suspended == old(k).scheduler_suspended,
        final(k).scheduler_running == old(k).scheduler_running,
        final(k).current_number_of_tasks == old(k).current_number_of_tasks,
        final(k).lists.lists_view() == old(k).lists.lists_view(),
        forall|t2: int| #[trigger] final(k).state_container(t2) == old(k).state_container(t2),
        forall|t2: int| #[trigger] final(k).event_container(t2) == old(k).event_container(t2),
        ({
            let all_suspended = old(k).list(SUSPENDED_TASK_LIST as int).len() == old(k).current_number_of_tasks;
            if all_suspended || old(k).scheduler_suspended != 0 {
                &&& final(k).current_tcb == old(k).current_tcb
                &&& final(k).yield_pending == (old(k).yield_pending || !all_suspended)
            } else {
                &&& !final(k).yield_pending
                &&& final(k).current_tcb matches Some(h)
                &&& final(k).state_container(h.0 as int) matches Some(p)
                &&& highest_ready_priority(&final(k).lists, old(k).top_ready_priority as int, p as int)
            }
        }),
{
    let n = crate::list::current_list_length(&k.lists, SUSPENDED_TASK_LIST);
    if n != k.current_number_of_tasks {
        crate::kernel::task_switch_context(k);
        proof {
            assert forall|t2: int| #[trigger] k.state_container(t2) == old(k).state_container(t2) by {
                assert(k.lists.item(state_item(t2)) == old(k).lists.item(state_item(t2)));
            }
            assert forall|t2: int| #[trigger] k.event_container(t2) == old(k).event_container(t2) by {
                assert(k.lists.item(event_item(t2)) == old(k).lists.item(event_item(t2)));
            }
            if old(k).scheduler_suspended == 0 {
                let p = k.top_ready_priority as int;
                let c = next_cursor(old(k).lists.cursor(p), old(k).list(p).len()) as int;
                old(k).lemma_list_item_kind(p, c);
                let i = old(k).list(p)[c] as int;
                assert(is_state_list(p));
                assert(i == state_item(i / 2));
                assert(k.current_tcb == Some(TaskHandle((i / 2) as usize)));
                assert(k.lists.item(i) == old(k).lists.item(i));
                assert(k.state_container(i / 2) == Some(p as usize));
                assert forall|q: int| p < q <= old(k).top_ready_priority implies #[trigger] k.lists.list(q).len() == 0 by {
                    assert(k.lists.list(q) == old(k).lists.list(q));
                }
                assert(k.lists.list(p) == old(k).lists.list(p));
            }
        }
    }
}

/// A change of counters and flags alone keeps the kernel well formed.
proof fn lemma_wf_scalars_only(old_k: &Kernel, new_k: &Kernel)
    requires
        old_k.wf(),
        new_k.tasks == old_k.tasks,
        new_k.lists == old_k.lists,
        new_k.delayed_task_list == old_k.delayed_task_list,
        new_k.overflow_delayed_task_list == old_k.overflow_delayed_task_list,
        new_k.current_tcb == old_k.current_tcb,
        new_k.idle_task_handle == old_k.idle_task_handle,
        new_k.top_ready_priority == old_k.top_ready_priority,
    ensures
        new_k.wf(),
        forall|t: int| #[trigger] new_k.state_container(t) == old_k.state_container(t),
        forall|t: int| #[trigger] new_k.event_container(t) == old_k.event_container(t),
{
    assert forall|p: int| new_k.top_ready_priority < p < CONFIG_MAX_PRIORITIES implies #[trigger] new_k.list(p).len() == 0 by {
        assert(old_k.list(p).len() == 0);
    }
    Kernel::lemma_wf_scalar_change(old_k, new_k);
}

/// The aligned top of a stack of `stacksize` words that starts at `stack_pos`.
pub fn top_of_stack(stack_pos: StackType, stacksize: UBaseType) -> (top: StackType)
    requires
        1 <= stacksize <= usize::MAX,
        stack_pos + stacksize - 1 <= usize::MAX,
    ensures
        top == ((stack_pos + stacksize - 1) as StackType) & !PORT_BYTE_ALIGNMENT_MASK,
{
    let size = stacksize as StackType;
    (stack_pos + (size - 1)) & !PORT_BYTE_ALIGNMENT_MASK
}

} // verus!
