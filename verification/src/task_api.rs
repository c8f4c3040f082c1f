//! Task services of the public interface: reading and changing priorities.
use vstd::prelude::*;
use crate::port::{StackType, TickType, UBaseType, CONFIG_MAX_PRIORITIES};
use crate::list::{ListLink, ItemLink};
use crate::task_control::{TaskHandle, clamp_priority, task_state};
use crate::task_global::{Kernel, state_item, event_item, is_state_list, SUSPENDED_TASK_LIST, TASKS_WAITING_TERMINATION,
    PENDING_READY_LIST};
use crate::task_queue::TASK_EVENT_LIST_ITEM_VALUE_IN_USE;

verus! {

/// The task that an optional handle names: the given task, or the running
/// task when no handle is given.
pub open spec fn handle_or_current(k: &Kernel, task: Option<TaskHandle>) -> TaskHandle {
    match task {
        Some(h) => h,
        None => k.current_tcb.unwrap(),
    }
}

/// The handle given, or the running task's.
pub fn get_tcb_from_handle(k: &Kernel, task: Option<TaskHandle>) -> (h: TaskHandle)
    requires
        task is None ==> k.current_tcb is Some,
    ensures
        h == handle_or_current(k, task),
{
    match task {
        Some(h) => h,
        None => k.current_tcb.unwrap(),
    }
}

/// The priority of a task (of the running task when no handle is given).
pub fn task_priority_get(k: &Kernel, task: Option<TaskHandle>) -> (priority: UBaseType)
    requires
        task is None ==> k.current_tcb is Some,
        k.valid_handle(handle_or_current(k, task)),
    ensures
        priority == k.task(handle_or_current(k, task).0 as int).task_priority,
{
    let h = get_tcb_from_handle(k, task);
    h.get_priority(k)
}

/// Sets the priority of a task (of the running task when no handle is given);
/// a priority at or above `CONFIG_MAX_PRIORITIES` is reduced to the largest
/// valid one.  The new priority becomes the task's base priority, and also its
/// current priority unless it runs at an inherited one.  Its event item's
/// value follows unless in use, and a ready task moves to the end of its
/// (new) ready list; this is done even when the priority does not change.
/// Returns whether the change calls for a context switch: another task is
/// raised to at least the running task's priority, the running task is
/// lowered, or the running task's priority is set to what it is.
pub fn task_priority_set(k: &mut Kernel, task: Option<TaskHandle>, new_priority: UBaseType) -> (yield_required: bool)
    requires
        old(k).wf(),
        old(k).has_current(),
        old(k).valid_handle(handle_or_current(old(k), task)),
    ensures
        final(k).wf(),
        final(k).current_tcb == old(k).current_tcb,
        final(k).num_tasks() == old(k).num_tasks(),
        ({
            let h = handle_or_current(old(k), task);
            let np = clamp_priority(new_priority);
            let base = old(k).task(h.0 as int).base_priority;
            let is_current = Some(h) == old(k).current_tcb;
            &&& yield_required == (if base != np {
                    if np > base { !is_current && np >= old(k).current_priority() } else { is_current }
                } else {
                    is_current
                })
            &&& priority_applied(old(k), final(k), h.0 as int, np)
        }),
{
    let mut new_priority = new_priority;
    if new_priority >= CONFIG_MAX_PRIORITIES {
        new_priority = CONFIG_MAX_PRIORITIES - 1;
    }
    let mut yield_required = false;
    let tcb = get_tcb_from_handle(k, task);
    let cur = k.current_tcb.unwrap();
    let current_base_priority = k.tasks[tcb.0].base_priority;
    if current_base_priority != new_priority {
        if new_priority > current_base_priority {
            if tcb.0 != cur.0 {
                if new_priority >= k.tasks[cur.0].task_priority {
                    yield_required = true;
                }
            }
        } else if tcb.0 == cur.0 {
            yield_required = true;
        }
    } else if tcb.0 == cur.0 {
        yield_required = true;
    }
    apply_priority(k, tcb, new_priority);
    yield_required
}

/// Task `t` of `k0` has priority `np` in `k1`: `np` is its base priority,
/// and its current one unless it ran at an inherited one; its event item's
/// value follows unless in use; a ready task is in the ready list of its
/// priority; nothing else changes.
pub open spec fn priority_applied(k0: &Kernel, k1: &Kernel, t: int, np: UBaseType) -> bool {
    let base = k0.task(t).base_priority;
    let prio = k0.task(t).task_priority;
    &&& k1.task(t).base_priority == np
    &&& k1.task(t).task_priority == (if base == prio { np } else { prio })
    &&& k1.task(t).mutexes_held == k0.task(t).mutexes_held
    &&& k1.lists.item(event_item(t)).item_value == (
        if k0.lists.item(event_item(t)).item_value & TASK_EVENT_LIST_ITEM_VALUE_IN_USE == 0 {
            (CONFIG_MAX_PRIORITIES - np) as TickType
        } else {
            k0.lists.item(event_item(t)).item_value
        })
    &&& k1.event_container(t) == k0.event_container(t)
    &&& k1.state_container(t) == (
        if k0.state_container(t) == Some(prio as ListLink) {
            Some(k1.task(t).task_priority as ListLink)
        } else {
            k0.state_container(t)
        })
    &&& forall|t2: int| 0 <= t2 < k0.num_tasks() && t2 != t ==>
        #[trigger] k1.task(t2) == k0.task(t2)
        && k1.state_container(t2) == k0.state_container(t2)
        && k1.event_container(t2) == k0.event_container(t2)
}

/// Gives task `tcb` the priority `new_priority` (see `priority_applied`).
fn apply_priority(k: &mut Kernel, tcb: TaskHandle, new_priority: UBaseType)
    requires
        old(k).wf(),
        old(k).valid_handle(tcb),
        new_priority < CONFIG_MAX_PRIORITIES,
    ensures
        final(k).wf(),
        final(k).current_tcb == old(k).current_tcb,
        final(k).num_tasks() == old(k).num_tasks(),
        priority_applied(old(k), final(k), tcb.0 as int, new_priority),
{
    let current_base_priority = k.tasks[tcb.0].base_priority;
    let priority_used_on_entry = k.tasks[tcb.0].task_priority;
    proof {
        assert(old(k).task(tcb.0 as int).state_list_item == state_item(tcb.0 as int));
        assert(old(k).task(tcb.0 as int).task_priority < CONFIG_MAX_PRIORITIES);
    }
    if current_base_priority == priority_used_on_entry {
        k.set_task_priority(tcb.0, new_priority);
    }
    k.set_task_base_priority(tcb.0, new_priority);
    let event_list_item = tcb.get_event_list_item(k);
    let state_list_item = tcb.get_state_list_item(k);
    let value = k.lists.get_item(event_list_item).item_value;
    if value & TASK_EVENT_LIST_ITEM_VALUE_IN_USE == 0 {
        k.set_item_value(event_list_item, (CONFIG_MAX_PRIORITIES - new_priority) as TickType);
    }
    let ghost k1 = *k;
    if crate::list::is_contained_within(&k.lists, priority_used_on_entry as usize, state_list_item) {
        k.remove_item(state_list_item);
        let _ = tcb.add_task_to_ready_list(k);
        proof {
            assert(k.lists.item(event_item(tcb.0 as int)) == k1.lists.item(event_item(tcb.0 as int)));
        }
    }
    proof {
        assert forall|t2: int| 0 <= t2 < old(k).num_tasks() && t2 != tcb.0 as int implies
            #[trigger] k.task(t2) == old(k).task(t2)
            && k.state_container(t2) == old(k).state_container(t2)
            && k.event_container(t2) == old(k).event_container(t2) by {
            assert(k.lists.item(state_item(t2)) == old(k).lists.item(state_item(t2)));
            assert(k.lists.item(event_item(t2)) == old(k).lists.item(event_item(t2)));
        }
    }
}

/// The handle of the running task, if there is one.
pub fn task_get_current_task_handle(k: &Kernel) -> (h: Option<TaskHandle>)
    ensures
        h == k.current_tcb,
{
    k.current_tcb
}

/// The handle of the idle task, which exists once the scheduler has started.
pub fn task_get_idle_task_handle(k: &Kernel) -> (h: TaskHandle)
    requires
        k.idle_task_handle is Some,
    ensures
        Some(h) == k.idle_task_handle,
{
    k.idle_task_handle.unwrap()
}

/// The `n`-th list searched for a task by name: the ready lists from the
/// highest priority down, then the delayed lists, the suspended list and the
/// list of deleted tasks.
pub open spec fn search_list(k: &Kernel, n: int) -> ListLink {
    if n < CONFIG_MAX_PRIORITIES {
        (CONFIG_MAX_PRIORITIES - 1 - n) as ListLink
    } else if n == CONFIG_MAX_PRIORITIES {
        k.delayed_task_list
    } else if n == CONFIG_MAX_PRIORITIES + 1 {
        k.overflow_delayed_task_list
    } else if n == CONFIG_MAX_PRIORITIES + 2 {
        SUSPENDED_TASK_LIST
    } else {
        TASKS_WAITING_TERMINATION
    }
}

/// The number of lists searched for a task by name.
pub open spec fn search_list_count() -> int {
    CONFIG_MAX_PRIORITIES + 4
}

/// The task named `name` in the `m`-th place of the `n`-th list searched.
pub open spec fn named_at(k: &Kernel, n: int, m: int, name: Seq<char>) -> bool {
    k.task(k.list(search_list(k, n) as int)[m] as int / 2).task_name@ == name
}

/// No task named `name` stands before the `m`-th place of the `n`-th list
/// searched, in search order.
pub open spec fn none_named_before(k: &Kernel, n: int, m: int, name: Seq<char>) -> bool {
    &&& forall|n2: int, m2: int| 0 <= n2 < n && 0 <= m2 < k.list(search_list(k, n2) as int).len()
        ==> !#[trigger] named_at(k, n2, m2, name)
    &&& forall|m2: int| 0 <= m2 < m ==> !#[trigger] named_at(k, n, m2, name)
}

/// Looks for a task called `name` in the ready lists (highest priority
/// first), the delayed lists, the suspended list and the list of deleted
/// tasks, in that order; returns the first one found.
pub fn task_get_handle(k: &Kernel, name: &str) -> (h: Option<TaskHandle>)
    requires
        k.wf(),
    ensures
        h is Some ==> {
            &&& k.valid_handle(h.unwrap())
            &&& k.task(h.unwrap().0 as int).task_name@ == name@
            &&& exists|n: int| #![trigger search_list(k, n)] 0 <= n < search_list_count()
                && k.state_container(h.unwrap().0 as int) == Some(search_list(k, n))
            &&& exists|n: int, m: int| #![trigger named_at(k, n, m, name@)]
                0 <= n < search_list_count() && 0 <= m < k.list(search_list(k, n) as int).len()
                && k.list(search_list(k, n) as int)[m] as int / 2 == h.unwrap().0
                && named_at(k, n, m, name@) && none_named_before(k, n, m, name@)
        },
        h is None ==> forall|n: int, m: int| 0 <= n < search_list_count() && 0 <= m < k.list(search_list(k, n) as int).len()
            ==> !#[trigger] named_at(k, n, m, name@),
        h is None ==> forall|t: int| 0 <= t < k.num_tasks() && #[trigger] k.state_container(t) is Some
            ==> k.task(t).task_name@ != name@,
        h is Some ==> k.state_container(h.unwrap().0 as int) is Some,
        h is Some ==> forall|t: int| 0 <= t < k.num_tasks() && k.task(t).task_name@ == name@
            && #[trigger] k.state_container(t) is Some && (k.state_container(t)->0 as int) < CONFIG_MAX_PRIORITIES ==>
            k.state_container(h.unwrap().0 as int) is Some
            && k.state_container(t)->0 <= k.state_container(h.unwrap().0 as int)->0
            && (k.state_container(h.unwrap().0 as int)->0 as int) < CONFIG_MAX_PRIORITIES,
{
    let target = name.to_owned();
    let mut n: usize = 0;
    let count = (CONFIG_MAX_PRIORITIES + 4) as usize;
    while n < count
        invariant
            k.wf(),
            count == search_list_count(),
            0 <= n <= count,
            target@ == name@,
            forall|n2: int, m: int| 0 <= n2 < n && 0 <= m < k.list(search_list(k, n2) as int).len()
                ==> !#[trigger] named_at(k, n2, m, name@),
        decreases count - n,
    {
        let max = CONFIG_MAX_PRIORITIES as usize;
        let l: ListLink = if n < max {
            max - 1 - n
        } else if n == max {
            k.delayed_task_list
        } else if n == max + 1 {
            k.overflow_delayed_task_list
        } else if n == max + 2 {
            SUSPENDED_TASK_LIST
        } else {
            TASKS_WAITING_TERMINATION
        };
        proof {
            assert(l == search_list(k, n as int));
            assert(is_state_list(l as int));
        }
        proof {
            k.lists.lemma_list_len_bound(l as int);
        }
        let len = crate::list::current_list_length(&k.lists, l) as usize;
        let mut m: usize = 0;
        while m < len
            invariant
                k.wf(),
                n < count,
                count == search_list_count(),
                l == search_list(k, n as int),
                is_state_list(l as int),
                len == k.list(l as int).len(),
                0 <= m <= len,
                target@ == name@,
                forall|m2: int| 0 <= m2 < m ==> !#[trigger] named_at(k, n as int, m2, name@),
                forall|n2: int, m2: int| 0 <= n2 < n && 0 <= m2 < k.list(search_list(k, n2) as int).len()
                    ==> !#[trigger] named_at(k, n2, m2, name@),
            decreases len - m,
        {
            let i = k.lists.list_item_at(l, m);
            proof {
                k.lemma_list_item_kind(l as int, m as int);
            }
            let owner = crate::list::get_list_item_owner(&k.lists, i);
            if k.tasks[owner.0].task_name == target {
                proof {
                    let t = i as int / 2;
                    assert(owner.0 as int == t);
                    assert(k.valid_handle(owner));
                    assert(k.task(owner.0 as int).task_name@ == name@);
                    assert(k.state_container(owner.0 as int) == Some(l));
                    assert(k.state_container(owner.0 as int) == Some(search_list(k, n as int)));
                    assert(named_at(k, n as int, m as int, name@));
                    assert(none_named_before(k, n as int, m as int, name@));
                    assert forall|t2: int| 0 <= t2 < k.num_tasks() && k.task(t2).task_name@ == name@
                        && #[trigger] k.state_container(t2) is Some
                        && (k.state_container(t2)->0 as int) < CONFIG_MAX_PRIORITIES implies
                        k.state_container(owner.0 as int)->0 >= k.state_container(t2)->0
                        && (k.state_container(owner.0 as int)->0 as int) < CONFIG_MAX_PRIORITIES by {
                        let p = k.state_container(t2)->0 as int;
                        assert(k.task(t2).state_list_item == state_item(t2));
                        k.lemma_contained_in_list(state_item(t2));
                        let m2 = choose|m2: int| 0 <= m2 < k.list(p).len() && k.list(p)[m2] == state_item(t2) as ItemLink;
                        let n2 = CONFIG_MAX_PRIORITIES - 1 - p;
                        assert(search_list(k, n2) == p);
                        assert(k.list(p)[m2] as int / 2 == t2);
                        assert(named_at(k, n2, m2, name@));
                        if n2 < n as int {
                            assert(!named_at(k, n2, m2, name@));
                        }
                        assert(n as int <= n2);
                    }
                }
                return Some(owner);
            }
            m = m + 1;
        }
        n = n + 1;
    }
    proof {
        assert forall|t: int| 0 <= t < k.num_tasks() && #[trigger] k.state_container(t) is Some
            implies k.task(t).task_name@ != name@ by {
            let c = k.state_container(t)->0 as int;
            assert(k.task(t).state_list_item == state_item(t));
            assert(is_state_list(c));
            k.lemma_contained_in_list(state_item(t));
            let m = choose|m: int| 0 <= m < k.list(c).len() && k.list(c)[m] == state_item(t) as ItemLink;
            let n: int = if c < CONFIG_MAX_PRIORITIES {
                CONFIG_MAX_PRIORITIES - 1 - c
            } else if c == k.delayed_task_list {
                CONFIG_MAX_PRIORITIES as int
            } else if c == k.overflow_delayed_task_list {
                CONFIG_MAX_PRIORITIES + 1
            } else if c == SUSPENDED_TASK_LIST {
                CONFIG_MAX_PRIORITIES + 2
            } else {
                CONFIG_MAX_PRIORITIES + 3
            };
            assert(search_list(k, n) == c);
            assert(k.list(c)[m] as int / 2 == t);
            assert(!named_at(k, n, m, name@));
        }
    }
    None
}


/// What a status query reports of a task.
pub struct TaskStatus {
    pub handle: TaskHandle,
    pub task_name: String,
    pub current_priority: UBaseType,
    pub base_priority: UBaseType,
    pub stack_base: StackType,
    pub run_time_counter: TickType,
    pub current_state: task_state,
    /// The fewest words of stack that were ever free (zero when not asked).
    pub stack_high_water_mark: UBaseType,
}

/// The state of task `t`: running when it is the running task; blocked in
/// a delayed list, or in the suspended list while it waits on an event;
/// suspended in the suspended list otherwise; deleted in the termination
/// list or in no list; ready in a ready list.
pub open spec fn state_of(k: &Kernel, t: int) -> task_state {
    if k.current_tcb == Some(TaskHandle(t as usize)) {
        task_state::running
    } else {
        match k.state_container(t) {
            Some(l) => {
                if l == k.delayed_task_list || l == k.overflow_delayed_task_list {
                    task_state::blocked
                } else if l == SUSPENDED_TASK_LIST {
                    if k.event_container(t) is Some { task_state::blocked } else { task_state::suspended }
                } else if l == TASKS_WAITING_TERMINATION {
                    task_state::deleted
                } else {
                    task_state::ready
                }
            },
            None => task_state::deleted,
        }
    }
}

/// The state of a task (see `state_of`).
pub fn task_get_state(k: &Kernel, h: TaskHandle) -> (st: task_state)
    requires
        k.wf(),
        k.valid_handle(h),
    ensures
        st == state_of(k, h.0 as int),
{
    proof {
        assert(k.task(h.0 as int).state_list_item == state_item(h.0 as int));
    }
    let is_current = match k.current_tcb {
        Some(c) => c.0 == h.0,
        None => false,
    };
    if is_current {
        return task_state::running;
    }
    let s = k.tasks[h.0].state_list_item;
    let e = k.tasks[h.0].event_list_item;
    match k.lists.get_item(s).container {
        Some(l) => {
            if l == k.delayed_task_list || l == k.overflow_delayed_task_list {
                task_state::blocked
            } else if l == SUSPENDED_TASK_LIST {
                if k.lists.get_item(e).container.is_some() { task_state::blocked } else { task_state::suspended }
            } else if l == TASKS_WAITING_TERMINATION {
                task_state::deleted
            } else {
                task_state::ready
            }
        },
        None => task_state::deleted,
    }
}

/// What each state means in terms of the kernel's lists, for task `t` that
/// is not running: it is blocked exactly when it waits in a delayed list, or
/// in the suspended list while also waiting on an event; suspended exactly
/// when it is in the suspended list and waits on no event; ready exactly when
/// it is in a ready list; deleted exactly when it is in the list of deleted
/// tasks or in no state list.  The running task is running.
pub proof fn lemma_state_of_meaning(k: &Kernel, t: int)
    requires
        k.wf(),
        0 <= t < k.num_tasks(),
    ensures
        k.current_tcb == Some(TaskHandle(t as usize)) ==> state_of(k, t) == task_state::running,
        k.current_tcb != Some(TaskHandle(t as usize)) ==> {
            &&& state_of(k, t) != task_state::running
            &&& (state_of(k, t) == task_state::blocked) == (
                k.state_container(t) == Some(k.delayed_task_list)
                || k.state_container(t) == Some(k.overflow_delayed_task_list)
                || (k.state_container(t) == Some(SUSPENDED_TASK_LIST) && k.event_container(t) is Some))
            &&& (state_of(k, t) == task_state::suspended) ==
                (k.state_container(t) == Some(SUSPENDED_TASK_LIST) && k.event_container(t) is None)
            &&& (state_of(k, t) == task_state::ready) ==
                (k.state_container(t) is Some && (k.state_container(t)->0 as int) < CONFIG_MAX_PRIORITIES)
            &&& (state_of(k, t) == task_state::deleted) ==
                (k.state_container(t) is None || k.state_container(t) == Some(TASKS_WAITING_TERMINATION))
        },
{
    assert(k.task(t).state_list_item == state_item(t));
    if k.state_container(t) is Some {
        assert(is_state_list(k.state_container(t)->0 as int));
    }
}

/// `s` reports task `h` of `k`: its handle, name, priorities, stack base and
/// run time; its state is the one given (`state`), except that the running
/// task is running and a task given as suspended that waits on an event is
/// blocked, or, with no state given, the task's own state; its high water
/// mark is the free stack words given, or zero.
pub open spec fn reports(k: &Kernel, s: TaskStatus, h: TaskHandle, state: Option<task_state>,
    free_stack_words: Option<UBaseType>) -> bool {
    let t = h.0 as int;
    &&& s.handle == h
    &&& s.task_name@ == k.task(t).task_name@
    &&& s.current_priority == k.task(t).task_priority
    &&& s.base_priority == k.task(t).base_priority
    &&& s.stack_base == k.task(t).stack_pos
    &&& s.run_time_counter == k.task(t).runtime_counter
    &&& s.current_state == (match state {
        Some(st) => {
            if Some(h) == k.current_tcb {
                task_state::running
            } else if st == task_state::suspended && k.event_container(t) is Some {
                task_state::blocked
            } else {
                st
            }
        },
        None => state_of(k, t),
    })
    &&& s.stack_high_water_mark == (match free_stack_words { Some(w) => w, None => 0 })
}

/// The status of a task (of the running task when no handle is given).  A
/// state may be given, which is then reported (but see `reports`); the free
/// stack words, counted from the task's stack memory, may be given.
pub fn task_test_info(k: &Kernel, task: Option<TaskHandle>, state: Option<task_state>,
    free_stack_words: Option<UBaseType>) -> (s: TaskStatus)
    requires
        k.wf(),
        task is None ==> k.current_tcb is Some,
        k.valid_handle(handle_or_current(k, task)),
    ensures
        reports(k, s, handle_or_current(k, task), state, free_stack_words),
{
    let h = get_tcb_from_handle(k, task);
    let is_current = match k.current_tcb {
        Some(c) => c.0 == h.0,
        None => false,
    };
    let current_state = match state {
        Some(st) => {
            if is_current {
                task_state::running
            } else if st == task_state::suspended
                && k.lists.get_item(k.tasks[h.0].event_list_item).container.is_some() {
                task_state::blocked
            } else {
                st
            }
        },
        None => task_get_state(k, h),
    };
    proof {
        assert(k.task(h.0 as int).event_list_item == event_item(h.0 as int));
    }
    TaskStatus {
        handle: h,
        task_name: k.tasks[h.0].task_name.clone(),
        current_priority: k.tasks[h.0].task_priority,
        base_priority: k.tasks[h.0].base_priority,
        stack_base: k.tasks[h.0].stack_pos,
        run_time_counter: k.tasks[h.0].runtime_counter,
        current_state,
        stack_high_water_mark: match free_stack_words { Some(w) => w, None => 0 },
    }
}

/// The `n`-th list that a system state query walks: the ready lists from the
/// highest priority down, the two delayed lists, the list of deleted tasks
/// and the suspended list.
pub open spec fn walked_list(k: &Kernel, n: int) -> ListLink {
    if n < CONFIG_MAX_PRIORITIES {
        (CONFIG_MAX_PRIORITIES - 1 - n) as ListLink
    } else if n == CONFIG_MAX_PRIORITIES {
        k.delayed_task_list
    } else if n == CONFIG_MAX_PRIORITIES + 1 {
        k.overflow_delayed_task_list
    } else if n == CONFIG_MAX_PRIORITIES + 2 {
        TASKS_WAITING_TERMINATION
    } else {
        SUSPENDED_TASK_LIST
    }
}

/// The number of lists that a system state query walks.
pub open spec fn walked_list_count() -> nat {
    (CONFIG_MAX_PRIORITIES + 4) as nat
}

/// The state reported for the tasks of the `n`-th list walked.
pub open spec fn walked_state(n: int) -> task_state {
    if n < CONFIG_MAX_PRIORITIES {
        task_state::ready
    } else if n <= CONFIG_MAX_PRIORITIES + 1 {
        task_state::blocked
    } else if n == CONFIG_MAX_PRIORITIES + 2 {
        task_state::deleted
    } else {
        task_state::suspended
    }
}

/// The items of the first `n` lists walked, in order, each with the state
/// reported for it.
pub open spec fn walked_items(k: &Kernel, n: nat) -> Seq<(ItemLink, task_state)>
    decreases n,
{
    if n == 0 {
        Seq::empty()
    } else {
        walked_items(k, (n - 1) as nat)
            + k.list(walked_list(k, n - 1) as int).map_values(|i: ItemLink| (i, walked_state(n - 1)))
    }
}

/// The items of the first `a` lists walked begin the items of the first `b`.
proof fn lemma_walked_prefix(k: &Kernel, a: nat, b: nat)
    requires
        a <= b,
    ensures
        walked_items(k, a).len() <= walked_items(k, b).len(),
        forall|i: int| 0 <= i < walked_items(k, a).len() ==> #[trigger] walked_items(k, b)[i] == walked_items(k, a)[i],
    decreases b - a,
{
    if a < b {
        lemma_walked_prefix(k, a, (b - 1) as nat);
    }
}

/// The status of every task, list by list (see `walked_list`), each list
/// from its head, with the state of its list (see `reports`; no high water
/// mark), and the total run time.  When `array_size` is below the number of
/// tasks nothing is reported.
pub fn task_get_system_state(k: &Kernel, array_size: UBaseType) -> (r: (Vec<TaskStatus>, Option<u32>))
    requires
        k.wf(),
    ensures
        array_size < k.current_number_of_tasks ==> r.0@.len() == 0 && r.1 is None,
        array_size >= k.current_number_of_tasks ==> {
            let w = walked_items(k, walked_list_count());
            &&& r.1 == Some(k.total_run_time)
            &&& r.0@.len() == w.len()
            &&& forall|i: int| 0 <= i < w.len() ==>
                reports(k, #[trigger] r.0@[i], TaskHandle((w[i].0 / 2) as usize), Some(w[i].1), None)
            &&& forall|i: int| 0 <= i < r.0@.len() ==>
                0 <= (#[trigger] r.0@[i]).handle.0 < k.num_tasks()
                && k.state_container(r.0@[i].handle.0 as int) is Some
                && r.0@[i].current_state == state_of(k, r.0@[i].handle.0 as int)
       
            &&& forall|t: int| 0 <= t < k.num_tasks() && #[trigger] k.state_container(t) is Some ==>
                exists|i: int| 0 <= i < r.0@.len() && r.0@[i].handle == TaskHandle(t as usize)
        },
{
    let mut out: Vec<TaskStatus> = Vec::new();
    if array_size < k.current_number_of_tasks {
        return (out, None);
    }
    let count = (CONFIG_MAX_PRIORITIES + 4) as usize;
    let max = CONFIG_MAX_PRIORITIES as usize;
    let mut n: usize = 0;
    while n < count
        invariant
            k.wf(),
            count == walked_list_count(),
            max == CONFIG_MAX_PRIORITIES,
            0 <= n <= count,
            out@.len() == walked_items(k, n as nat).len(),
            forall|i: int| 0 <= i < out@.len() ==>
                reports(k, #[trigger] out@[i], TaskHandle((walked_items(k, n as nat)[i].0 / 2) as usize),
                    Some(walked_items(k, n as nat)[i].1), None),
            forall|i: int| 0 <= i < out@.len() ==>
                0 <= (#[trigger] out@[i]).handle.0 < k.num_tasks()
                && k.state_container(out@[i].handle.0 as int) is Some
                && out@[i].current_state == state_of(k, out@[i].handle.0 as int),
        decreases count - n,
    {
        let l: ListLink = if n < max {
            max - 1 - n
        } else if n == max {
            k.delayed_task_list
        } else if n == max + 1 {
            k.overflow_delayed_task_list
        } else if n == max + 2 {
            TASKS_WAITING_TERMINATION
        } else {
            SUSPENDED_TASK_LIST
        };
        let st = if n < max {
            task_state::ready
        } else if n <= max + 1 {
            task_state::blocked
        } else if n == max + 2 {
            task_state::deleted
        } else {
            task_state::suspended
        };
        let ghost before = walked_items(k, n as nat);
        let ghost seg = k.list(l as int).map_values(|i: ItemLink| (i, walked_state(n as int)));
        proof {
            assert(l == walked_list(k, n as int));
            assert(st == walked_state(n as int));
            assert(is_state_list(l as int));
            k.lists.lemma_list_len_bound(l as int);
            assert(walked_items(k, (n + 1) as nat) == before + seg);
        }
        let len = crate::list::current_list_length(&k.lists, l) as usize;
        let mut m: usize = 0;
        while m < len
            invariant
                k.wf(),
                is_state_list(l as int),
                len == k.list(l as int).len(),
                seg == k.list(l as int).map_values(|i: ItemLink| (i, st)),
                0 <= m <= len,
                out@.len() == before.len() + m,
                forall|i: int| 0 <= i < out@.len() ==>
                    reports(k, #[trigger] out@[i], TaskHandle(((before + seg)[i].0 / 2) as usize),
                        Some((before + seg)[i].1), None),
                forall|i: int| 0 <= i < out@.len() ==>
                    0 <= (#[trigger] out@[i]).handle.0 < k.num_tasks()
                    && k.state_container(out@[i].handle.0 as int) is Some
                    && out@[i].current_state == state_of(k, out@[i].handle.0 as int),
                l == walked_list(k, n as int),
                st == walked_state(n as int),
                n < count,
                count == walked_list_count(),
                max == CONFIG_MAX_PRIORITIES,
            decreases len - m,
        {
            let item = k.lists.list_item_at(l, m);
            proof {
                k.lemma_list_item_kind(l as int, m as int);
            }
            let owner = crate::list::get_list_item_owner(&k.lists, item);
            let s = task_test_info(k, Some(owner), Some(st), None);
            proof {
                assert((before + seg)[before.len() + m] == (item, st));
                let t = owner.0 as int;
                assert(item as int == state_item(t));
                assert(k.state_container(t) == Some(l));
            }
            out.push(s);
            m = m + 1;
        }
        proof {
            assert(out@.len() == (before + seg).len());
        }
        n = n + 1;
    }
    proof {
        let cnt = walked_list_count();
        let w = walked_items(k, cnt);
        assert forall|t: int| 0 <= t < k.num_tasks() && #[trigger] k.state_container(t) is Some implies
            exists|i: int| 0 <= i < out@.len() && out@[i].handle == TaskHandle(t as usize) by {
            let c = k.state_container(t)->0 as int;
            assert(k.task(t).state_list_item == state_item(t));
            assert(is_state_list(c));
            k.lemma_contained_in_list(state_item(t));
            let m = choose|m: int| 0 <= m < k.list(c).len() && k.list(c)[m] == state_item(t) as ItemLink;
            let j: int = if c < CONFIG_MAX_PRIORITIES {
                CONFIG_MAX_PRIORITIES - 1 - c
            } else if c == k.delayed_task_list {
                CONFIG_MAX_PRIORITIES as int
            } else if c == k.overflow_delayed_task_list {
                CONFIG_MAX_PRIORITIES + 1
            } else if c == TASKS_WAITING_TERMINATION {
                CONFIG_MAX_PRIORITIES + 2
            } else {
                CONFIG_MAX_PRIORITIES + 3
            };
            assert(walked_list(k, j) == c);
            let i = walked_items(k, j as nat).len() + m;
            assert(walked_items(k, (j + 1) as nat)[i] == (k.list(c)[m], walked_state(j)));
            lemma_walked_prefix(k, (j + 1) as nat, cnt);
            assert(w[i] == (k.list(c)[m], walked_state(j)));
            assert(out@[i].handle == TaskHandle((k.list(c)[m] / 2) as usize));
            assert(k.list(c)[m] as int / 2 == t);
        }
    }
    (out, Some(k.total_run_time))
}

/// The byte that fills a task's stack before the task first runs.
pub const TSK_STACK_FILL_BYTE: u8 = 0xa5u8;

/// How many bytes at the start of `bytes` still hold the fill byte.
pub open spec fn fill_run(bytes: Seq<u8>) -> nat
    decreases bytes.len(),
{
    if bytes.len() > 0 && bytes[0] == TSK_STACK_FILL_BYTE {
        1 + fill_run(bytes.drop_first())
    } else {
        0
    }
}

/// The free stack space, in stack words, of a stack whose bytes, from the
/// end that it grows towards, are `stack_bytes`: the bytes that still hold
/// the fill byte, counted in whole words.
pub fn task_check_free_stack_space(stack_bytes: &[u8]) -> (words: UBaseType)
    ensures
        words as int == fill_run(stack_bytes@) as int / vstd::layout::size_of::<StackType>() as int,
{
    broadcast use vstd::layout::layout_of_primitives;
    let mut i: usize = 0;
    proof {
        assert(stack_bytes@.skip(0) =~= stack_bytes@);
    }
    while i < stack_bytes.len() && stack_bytes[i] == TSK_STACK_FILL_BYTE
        invariant
            i <= stack_bytes@.len(),
            fill_run(stack_bytes@) == i + fill_run(stack_bytes@.skip(i as int)),
        decreases stack_bytes@.len() - i,
    {
        proof {
            assert(stack_bytes@.skip(i as int).drop_first() =~= stack_bytes@.skip(i + 1));
        }
        i = i + 1;
    }
    proof {
        if i < stack_bytes@.len() {
            assert(stack_bytes@.skip(i as int)[0] == stack_bytes@[i as int]);
        }
        assert(fill_run(stack_bytes@.skip(i as int)) == 0);
    }
    let word = core::mem::size_of::<StackType>();
    proof {
        assert(word == 4 || word == 8) by {
            assert(vstd::layout::size_of::<usize>() * 8 == usize::BITS);
        }
    }
    (i / word) as UBaseType
}

/// The application tag of a task.
pub fn task_get_application_task_tag(k: &Kernel, task: TaskHandle) -> (tag: UBaseType)
    requires
        k.valid_handle(task),
    ensures
        tag == k.task(task.0 as int).task_tag,
{
    k.tasks[task.0].task_tag
}

} // verus!
