//! The task services that queues and mutexes use: event lists, time outs and
//! priority inheritance.
use vstd::prelude::*;
use crate::port::{BaseType, TickType, UBaseType, CONFIG_MAX_PRIORITIES, PORT_MAX_DELAY};
use crate::list::{ItemLink, ListLink, get_list_item_owner, insert_position};
use crate::task_control::{TaskHandle, TCB, add_current_task_to_delayed_list, blocking_list};
use crate::task_global::{
    Kernel, state_item, event_item, is_state_list, is_event_list, PENDING_READY_LIST, FIRST_EVENT_LIST};

verus! {

/// Marks an event item whose value is borrowed for another purpose than
/// ordering by priority; such a value is left alone on a priority change.
pub const TASK_EVENT_LIST_ITEM_VALUE_IN_USE: TickType = 0x8000_0000u32;

/// The moment at which a task started waiting: the tick count and how many
/// times the tick count had overflowed.
#[allow(non_camel_case_types)]
#[derive(Debug, Default, Clone, Copy)]
pub struct time_out {
    pub overflow_count: BaseType,
    pub time_on_entering: TickType,
}

/// Records the present moment in `timeout`.
pub fn task_set_time_out_state(k: &Kernel, timeout: &mut time_out)
    ensures
        final(timeout).overflow_count == k.num_of_overflows,
        final(timeout).time_on_entering == k.tick_count,
{
    timeout.overflow_count = k.num_of_overflows;
    timeout.time_on_entering = k.tick_count;
}

/// The ticks that have passed since `timeout` was recorded, in tick
/// arithmetic (which wraps around at 2^32).
pub open spec fn ticks_elapsed(k: &Kernel, timeout: time_out) -> TickType {
    if k.tick_count - timeout.time_on_entering < 0 {
        (k.tick_count - timeout.time_on_entering + 0x1_0000_0000) as TickType
    } else {
        (k.tick_count - timeout.time_on_entering) as TickType
    }
}

/// Whether a wait begun at `timeout` for `ticks_to_wait` ticks has timed out
/// in `k` (see `task_check_for_timeout`).
pub open spec fn timed_out(k: &Kernel, timeout: time_out, ticks_to_wait: TickType) -> bool {
    if k.task(k.current_tcb.unwrap().0 as int).delay_aborted {
        true
    } else if ticks_to_wait == PORT_MAX_DELAY {
        false
    } else if k.num_of_overflows != timeout.overflow_count && k.tick_count >= timeout.time_on_entering {
        true
    } else {
        ticks_elapsed(k, timeout) >= ticks_to_wait
    }
}

/// Decides whether a task that started waiting at `timeout` for
/// `ticks_to_wait` ticks has timed out.  An aborted delay times out at once
/// (and the abort is cleared); waiting for ever never times out; a wait that
/// began before the tick count last overflowed times out once the count is
/// back at its start; otherwise the wait times out when its ticks have
/// passed, and when they have not, `ticks_to_wait` is reduced by the ticks
/// passed and `timeout` records the present moment.
pub fn task_check_for_timeout(k: &mut Kernel, timeout: &mut time_out, ticks_to_wait: &mut TickType) -> (timed_out: bool)
    requires
        old(k).wf(),
        old(k).has_current(),
    ensures
        final(k).wf(),
        ({
            let t = old(k).current_tcb.unwrap().0 as int;
            let aborted = old(k).task(t).delay_aborted;
            let elapsed = ticks_elapsed(old(k), *old(timeout));
            &&& timed_out == crate::task_queue::timed_out(old(k), *old(timeout), *old(ticks_to_wait))
            &&& final(k).tasks@ == (if aborted {
                old(k).tasks@.update(t, TCB { delay_aborted: false, ..old(k).task(t) })
            } else {
                old(k).tasks@
            })
            &&& *final(k) == (Kernel { tasks: final(k).tasks, ..*old(k) })
            &&& (!timed_out && !aborted && *old(ticks_to_wait) != PORT_MAX_DELAY) ==> {
                &&& *final(ticks_to_wait) == *old(ticks_to_wait) - elapsed
                &&& final(timeout).overflow_count == old(k).num_of_overflows
                &&& final(timeout).time_on_entering == old(k).tick_count
            }
            &&& (timed_out || aborted || *old(ticks_to_wait) == PORT_MAX_DELAY) ==> {
                &&& *final(ticks_to_wait) == *old(ticks_to_wait)
                &&& *final(timeout) == *old(timeout)
            }
        }),
{
    let const_tick_count = k.tick_count;
    let cur = k.current_tcb.unwrap();
    if cur.get_delay_aborted(k) {
        cur.set_delay_aborted(k, false);
        true
    } else if *ticks_to_wait == PORT_MAX_DELAY {
        false
    } else if k.num_of_overflows != timeout.overflow_count && const_tick_count >= timeout.time_on_entering {
        true
    } else {
        let elapsed = const_tick_count.wrapping_sub(timeout.time_on_entering);
        if elapsed < *ticks_to_wait {
            *ticks_to_wait = *ticks_to_wait - elapsed;
            task_set_time_out_state(k, timeout);
            false
        } else {
            true
        }
    }
}

/// Records that a context switch was missed and must happen.
pub fn task_missed_yield(k: &mut Kernel)
    requires
        old(k).wf(),
    ensures
        final(k).wf(),
        *final(k) == (Kernel { yield_pending: true, ..*old(k) }),
{
    k.yield_pending = true;
    proof {
        assert forall|p: int| k.top_ready_priority < p < CONFIG_MAX_PRIORITIES implies #[trigger] k.list(p).len() == 0 by {
            assert(old(k).list(p).len() == 0);
        }
        Kernel::lemma_wf_scalar_change(old(k), k);
    }
}

/// Wakes the task at the head of an event list (the highest priority task
/// waiting on the event): it leaves the event list and, while the scheduler
/// runs, leaves its delayed list for its ready list; while the scheduler is
/// suspended it waits in the pending ready list instead.  Returns whether
/// the woken task's priority is above the running task's, in which case a
/// yield is held pending.
pub fn task_remove_from_event_list(k: &mut Kernel, event_list: ListLink) -> (higher_priority_woken: bool)
    requires
        old(k).wf(),
        old(k).has_current(),
        FIRST_EVENT_LIST <= event_list < old(k).lists.num_lists(),
        old(k).list(event_list as int).len() > 0,
    ensures
        final(k).wf(),
        ({
            let l = old(k).list(event_list as int);
            let t = l[0] as int / 2;
            let p = old(k).task(t).task_priority;
            let cp = old(k).current_priority();
            &&& 0 <= t < old(k).num_tasks()
            &&& l[0] == event_item(t)
            &&& higher_priority_woken == (p > cp)
            &&& final(k).yield_pending == (old(k).yield_pending || p > cp)
            &&& final(k).tasks == old(k).tasks
            &&& final(k).lists.num_lists() == old(k).lists.num_lists()
            &&& final(k).list(event_list as int) == l.drop_first()
            &&& final(k).event_container(t) == (
                if old(k).scheduler_suspended == 0 { None } else { Some(PENDING_READY_LIST) })
            &&& final(k).state_container(t) == (
                if old(k).scheduler_suspended == 0 { Some(p as ListLink) } else { old(k).state_container(t) })
            &&& forall|t2: int| 0 <= t2 < old(k).num_tasks() && t2 != t ==>
                #[trigger] final(k).state_container(t2) == old(k).state_container(t2)
                && final(k).event_container(t2) == old(k).event_container(t2)
            &&& final(k).current_tcb == old(k).current_tcb
            &&& final(k).scheduler_suspended == old(k).scheduler_suspended
            &&& final(k).top_ready_priority >= old(k).top_ready_priority
            &&& forall|l2: int| FIRST_EVENT_LIST <= l2 < old(k).lists.num_lists() && l2 != event_list ==>
                #[trigger] final(k).list(l2) == old(k).list(l2)
        }),
{
    let i = k.lists.list_head(event_list);
    proof {
        k.lemma_list_item_kind(event_list as int, 0);
        assert(is_event_list(event_list as int));
    }
    let owner = get_list_item_owner(&k.lists, i);
    let t = owner.0;
    let cur = k.current_tcb.unwrap();
    let cp = k.tasks[cur.0].task_priority;
    let p = k.tasks[t].task_priority;
    proof {
        let l = old(k).list(event_list as int);
        assert(old(k).event_container(t as int) == Some(event_list));
        assert(l.no_duplicates());
        crate::kernel::lemma_index_of_head(l);
        assert(l.remove(0) =~= l.drop_first());
        assert(old(k).task(t as int).state_list_item == state_item(t as int));
        if old(k).state_container(t as int) is Some {
            assert(is_state_list(old(k).state_container(t as int)->0 as int));
        }
    }
    if k.scheduler_suspended == 0 {
        k.unblock_task(t);
    } else {
        let e = owner.get_event_list_item(k);
        proof { assert(old(k).task(t as int).event_list_item == event_item(t as int)); }
        k.remove_item(e);
        k.insert_event_end(PENDING_READY_LIST, t);
    }
    let ghost kb = *k;
    let woken = p > cp;
    if woken {
        k.yield_pending = true;
        proof {
            assert forall|q: int| k.top_ready_priority < q < CONFIG_MAX_PRIORITIES implies #[trigger] k.list(q).len() == 0 by {
                assert(kb.list(q).len() == 0);
            }
            Kernel::lemma_wf_scalar_change(&kb, k);
        }
    }
    proof {
        assert forall|t2: int| #[trigger] k.state_container(t2) == kb.state_container(t2) by {}
        assert forall|t2: int| #[trigger] k.event_container(t2) == kb.event_container(t2) by {}
        assert(k.list(event_list as int) == kb.list(event_list as int));
        assert forall|l2: int| FIRST_EVENT_LIST <= l2 < old(k).lists.num_lists() && l2 != event_list implies
            #[trigger] k.list(l2) == old(k).list(l2) by {
            assert(k.list(l2) == kb.list(l2));
            if old(k).state_container(t as int) is Some {
                assert(is_state_list(old(k).state_container(t as int)->0 as int));
            }
        }
        assert forall|t2: int| 0 <= t2 < old(k).num_tasks() && t2 != t as int implies
            #[trigger] k.state_container(t2) == old(k).state_container(t2)
            && k.event_container(t2) == old(k).event_container(t2) by {
            assert(kb.lists.item(state_item(t2)) == old(k).lists.item(state_item(t2)));
            assert(kb.lists.item(event_item(t2)) == old(k).lists.item(event_item(t2)));
        }
    }
    woken
}

/// Places the running task on an event list, in priority order (so that the
/// highest priority waiting task is woken first), and blocks it for
/// `ticks_to_wait` ticks (for ever when that is the largest tick value).
pub fn task_place_on_event_list(k: &mut Kernel, event_list: ListLink, ticks_to_wait: TickType)
    requires
        old(k).wf(),
        old(k).has_current(),
        FIRST_EVENT_LIST <= event_list < old(k).lists.num_lists(),
        old(k).event_container(old(k).current_tcb.unwrap().0 as int) is None,
        old(k).state_container(old(k).current_tcb.unwrap().0 as int) is Some,
    ensures
        final(k).wf(),
        ({
            let t = old(k).current_tcb.unwrap().0 as int;
            let e = event_item(t);
            &&& final(k).event_container(t) == Some(event_list)
            &&& final(k).list(event_list as int) == old(k).list(event_list as int).insert(
                insert_position(old(k).lists.list_values(event_list as int), old(k).lists.item(e).item_value) as int,
                e as ItemLink,
            )
            &&& final(k).state_container(t) == Some(blocking_list(old(k), ticks_to_wait, true))
            &&& final(k).tasks@ == old(k).tasks@.update(t, TCB { delay_aborted: false, ..old(k).task(t) })
            &&& final(k).current_tcb == old(k).current_tcb
            &&& final(k).scheduler_suspended == old(k).scheduler_suspended
            &&& final(k).lists.num_lists() == old(k).lists.num_lists()
            &&& *final(k) == (Kernel {
                lists: final(k).lists,
                tasks: final(k).tasks,
                next_task_unblock_time: final(k).next_task_unblock_time,
                ..*old(k)
            })
            &&& forall|t2: int| 0 <= t2 < old(k).num_tasks() && t2 != t ==>
                #[trigger] final(k).state_container(t2) == old(k).state_container(t2)
                && final(k).event_container(t2) == old(k).event_container(t2)
        }),
{
    let cur = k.current_tcb.unwrap();
    let t = cur.0;
    k.insert_event_sorted(event_list, t);
    let ghost k1 = *k;
    proof {
        assert(is_event_list(event_list as int));
        assert(old(k).task(t as int).state_list_item == state_item(t as int));
        assert(k1.state_container(t as int) == old(k).state_container(t as int));
        assert(blocking_list(&k1, ticks_to_wait, true) == blocking_list(old(k), ticks_to_wait, true));
    }
    add_current_task_to_delayed_list(k, ticks_to_wait, true);
    proof {
        let d = blocking_list(old(k), ticks_to_wait, true);
        assert(is_state_list(d as int));
        assert(k.lists.item(event_item(t as int)) == k1.lists.item(event_item(t as int)));
        assert forall|t2: int| 0 <= t2 < old(k).num_tasks() && t2 != t as int implies
            #[trigger] k.state_container(t2) == old(k).state_container(t2)
            && k.event_container(t2) == old(k).event_container(t2) by {
            assert(k.lists.item(state_item(t2)) == k1.lists.item(state_item(t2)));
            assert(k.lists.item(event_item(t2)) == k1.lists.item(event_item(t2)));
        }
        assert(k.list(event_list as int) == k1.list(event_list as int));
    }
}

/// Counts one more mutex held by the running task, if there is one, and
/// returns it: the task that now holds the mutex.
pub fn task_increment_mutex_held_count(k: &mut Kernel) -> (holder: Option<TaskHandle>)
    requires
        old(k).wf(),
        old(k).current_tcb is Some ==> old(k).task(old(k).current_tcb.unwrap().0 as int).mutexes_held < UBaseType::MAX,
    ensures
        final(k).wf(),
        holder == old(k).current_tcb,
        *final(k) == (Kernel { tasks: final(k).tasks, ..*old(k) }),
        old(k).current_tcb is None ==> final(k).tasks == old(k).tasks,
        old(k).current_tcb is Some ==> ({
            let t = old(k).current_tcb.unwrap().0 as int;
            final(k).tasks@ == old(k).tasks@.update(
                t,
                TCB { mutexes_held: (old(k).task(t).mutexes_held + 1) as UBaseType, ..old(k).task(t) },
            )
        }),
{
    match k.current_tcb {
        Some(current_task) => {
            let new_val = current_task.get_mutex_held_count(k) + 1;
            current_task.set_mutex_held_count(k, new_val);
            Some(current_task)
        },
        None => None,
    }
}

/// A task control block after its task inherits priority `priority`.
pub open spec fn priority_inherited(tcb: TCB, priority: UBaseType) -> TCB {
    TCB { task_priority: priority, ..tcb }
}

/// A task control block after its task gives back one mutex: one mutex
/// fewer held, and back at the base priority when none is held any more.
pub open spec fn priority_disinherited(tcb: TCB) -> TCB {
    let held = (tcb.mutexes_held - 1) as UBaseType;
    TCB {
        mutexes_held: held,
        task_priority: if tcb.task_priority != tcb.base_priority && held == 0 { tcb.base_priority } else { tcb.task_priority },
        ..tcb
    }
}

/// A task that holds one mutex at its base priority, lends that mutex's
/// waiter's higher priority and then gives the mutex back, returns to its
/// base priority: the inheritance is undone.
pub proof fn lemma_inherit_then_disinherit(tcb: TCB, priority: UBaseType)
    requires
        tcb.task_priority == tcb.base_priority,
        tcb.task_priority < priority,
        tcb.mutexes_held == 1,
    ensures
        priority_disinherited(priority_inherited(tcb, priority)) == (TCB { mutexes_held: 0, ..tcb }),
{
}

/// Waiting for ever never times out, unless the delay was aborted.
pub proof fn lemma_wait_forever(k: &Kernel, timeout: time_out)
    ensures
        timed_out(k, timeout, PORT_MAX_DELAY) == k.task(k.current_tcb.unwrap().0 as int).delay_aborted,
{
}

/// The running task, about to block on a mutex that `mutex_holder` holds,
/// lends its priority to the holder when the holder's is lower: the holder
/// takes the running task's priority (moving to that ready list when it is
/// ready), and its event item's value follows unless that value is in use.
pub fn task_priority_inherit(k: &mut Kernel, mutex_holder: Option<TaskHandle>)
    requires
        old(k).wf(),
        old(k).has_current(),
        mutex_holder is Some ==> old(k).valid_handle(mutex_holder.unwrap()),
    ensures
        final(k).wf(),
        final(k).current_tcb == old(k).current_tcb,
        final(k).num_tasks() == old(k).num_tasks(),
        final(k).lists.num_lists() == old(k).lists.num_lists(),
        *final(k) == (Kernel {
            lists: final(k).lists,
            tasks: final(k).tasks,
            top_ready_priority: final(k).top_ready_priority,
            ..*old(k)
        }),
        forall|l: int| FIRST_EVENT_LIST <= l < old(k).lists.num_lists() ==> #[trigger] final(k).list(l) == old(k).list(l),
        mutex_holder is None ==> *final(k) == *old(k),
        mutex_holder is Some ==> ({
            let h = mutex_holder.unwrap().0 as int;
            let cp = old(k).current_priority();
            let hp = old(k).task(h).task_priority;
            &&& hp < cp ==> {
                &&& final(k).task(h) == priority_inherited(old(k).task(h), cp)
                &&& old(k).state_container(h) == Some(hp as ListLink) ==> final(k).state_container(h) == Some(cp as ListLink)
                &&& old(k).state_container(h) != Some(hp as ListLink) ==> final(k).state_container(h) == old(k).state_container(h)
                &&& final(k).event_container(h) == old(k).event_container(h)
                &&& final(k).lists.item(event_item(h)).item_value == (
                    if old(k).lists.item(event_item(h)).item_value & TASK_EVENT_LIST_ITEM_VALUE_IN_USE == 0 {
                        (CONFIG_MAX_PRIORITIES - cp) as TickType
                    } else {
                        old(k).lists.item(event_item(h)).item_value
                    })
            }
            &&& !(hp < cp) ==> *final(k) == *old(k)
            &&& forall|t2: int| 0 <= t2 < old(k).num_tasks() && t2 != h ==>
                #[trigger] final(k).task(t2) == old(k).task(t2)
                && final(k).state_container(t2) == old(k).state_container(t2)
                && final(k).event_container(t2) == old(k).event_container(t2)
        }),
{
    if let Some(task) = mutex_holder {
        let cur = k.current_tcb.unwrap();
        let current_task_priority = k.tasks[cur.0].task_priority;
        let this_task_priority = task.get_priority(k);
        proof {
            assert(old(k).task(cur.0 as int).task_priority < CONFIG_MAX_PRIORITIES);
            assert(old(k).task(task.0 as int).state_list_item == state_item(task.0 as int));
        }
        if this_task_priority < current_task_priority {
            let event_list_item = task.get_event_list_item(k);
            let value = k.lists.get_item(event_list_item).item_value;
            if value & TASK_EVENT_LIST_ITEM_VALUE_IN_USE == 0 {
                let new_item_val = (CONFIG_MAX_PRIORITIES - current_task_priority) as TickType;
                k.set_item_value(event_list_item, new_item_val);
            }
            let ghost k1 = *k;
            let state_list_item = task.get_state_list_item(k);
            if crate::list::is_contained_within(&k.lists, this_task_priority as usize, state_list_item) {
                k.remove_item(state_list_item);
                task.set_priority(k, current_task_priority);
                let _ = task.add_task_to_ready_list(k);
                proof {
                    assert(k.lists.item(event_item(task.0 as int)) == k1.lists.item(event_item(task.0 as int)));
                }
            } else {
                task.set_priority(k, current_task_priority);
            }
            proof {
                assert forall|t2: int| 0 <= t2 < old(k).num_tasks() && t2 != task.0 as int implies
                    #[trigger] k.task(t2) == old(k).task(t2)
                    && k.state_container(t2) == old(k).state_container(t2)
                    && k.event_container(t2) == old(k).event_container(t2) by {
                    assert(k.lists.item(state_item(t2)) == old(k).lists.item(state_item(t2)));
                    assert(k.lists.item(event_item(t2)) == old(k).lists.item(event_item(t2)));
                }
                assert forall|l: int| FIRST_EVENT_LIST <= l < old(k).lists.num_lists() implies
                    #[trigger] k.list(l) == old(k).list(l) by {
                    assert(k.list(l) == k1.list(l));
                }
            }
        }
    }
}

/// The running task gives back a mutex that it holds: its count of held
/// mutexes drops by one, and when it holds none any more and runs at an
/// inherited priority, it returns to its base priority (and to that ready
/// list), with its event item's value following.  Returns whether that
/// happened, in which case a context switch should follow.
pub fn task_priority_disinherit(k: &mut Kernel, mutex_holder: Option<TaskHandle>) -> (yield_required: bool)
    requires
        old(k).wf(),
        mutex_holder is Some ==> old(k).valid_handle(mutex_holder.unwrap()),
        mutex_holder is Some ==> old(k).task(mutex_holder.unwrap().0 as int).mutexes_held > 0,
    ensures
        final(k).wf(),
        final(k).current_tcb == old(k).current_tcb,
        final(k).num_tasks() == old(k).num_tasks(),
        final(k).lists.num_lists() == old(k).lists.num_lists(),
        *final(k) == (Kernel {
            lists: final(k).lists,
            tasks: final(k).tasks,
            top_ready_priority: final(k).top_ready_priority,
            ..*old(k)
        }),
        forall|l: int| FIRST_EVENT_LIST <= l < old(k).lists.num_lists() ==> #[trigger] final(k).list(l) == old(k).list(l),
        mutex_holder is None ==> *final(k) == *old(k) && !yield_required,
        mutex_holder is Some ==> ({
            let h = mutex_holder.unwrap().0 as int;
            let held = (old(k).task(h).mutexes_held - 1) as UBaseType;
            let bp = old(k).task(h).base_priority;
            let restore = old(k).task(h).task_priority != bp && held == 0;
            &&& yield_required == restore
            &&& final(k).task(h) == priority_disinherited(old(k).task(h))
            &&& restore ==> {
                &&& final(k).state_container(h) == Some(bp as ListLink)
                &&& final(k).event_container(h) == old(k).event_container(h)
                &&& final(k).lists.item(event_item(h)).item_value == (CONFIG_MAX_PRIORITIES - bp) as TickType
            }
            &&& !restore ==> final(k).lists == old(k).lists
            &&& forall|t2: int| 0 <= t2 < old(k).num_tasks() && t2 != h ==>
                #[trigger] final(k).task(t2) == old(k).task(t2)
                && final(k).state_container(t2) == old(k).state_container(t2)
                && final(k).event_container(t2) == old(k).event_container(t2)
        }),
{
    let mut ret_val = false;
    if let Some(task) = mutex_holder {
        let mutex_held = task.get_mutex_held_count(k) - 1;
        task.set_mutex_held_count(k, mutex_held);
        let ghost k1 = *k;
        let this_task_priority = task.get_priority(k);
        let this_task_base_priority = task.get_base_priority(k);
        proof {
            assert(old(k).task(task.0 as int).state_list_item == state_item(task.0 as int));
            assert(k1.task(task.0 as int).base_priority < CONFIG_MAX_PRIORITIES);
        }
        if this_task_priority != this_task_base_priority {
            if mutex_held == 0 {
                let state_list_item = task.get_state_list_item(k);
                if k.lists.get_item(state_list_item).container.is_some() {
                    k.remove_item(state_list_item);
                }
                task.set_priority(k, this_task_base_priority);
                let new_item_val = (CONFIG_MAX_PRIORITIES - this_task_base_priority) as TickType;
                let e = task.get_event_list_item(k);
                k.set_item_value(e, new_item_val);
                let _ = task.add_task_to_ready_list(k);
                ret_val = true;
                proof {
                    assert forall|l: int| FIRST_EVENT_LIST <= l < old(k).lists.num_lists() implies
                        #[trigger] k.list(l) == old(k).list(l) by {
                        if old(k).state_container(task.0 as int) is Some {
                            assert(is_state_list(old(k).state_container(task.0 as int)->0 as int));
                        }
                    }
                    assert forall|t2: int| 0 <= t2 < old(k).num_tasks() && t2 != task.0 as int implies
                        #[trigger] k.task(t2) == old(k).task(t2)
                        && k.state_container(t2) == old(k).state_container(t2)
                        && k.event_container(t2) == old(k).event_container(t2) by {
                        assert(k.lists.item(state_item(t2)) == old(k).lists.item(state_item(t2)));
                        assert(k.lists.item(event_item(t2)) == old(k).lists.item(event_item(t2)));
                    }
                }
            }
        }
    }
    ret_val
}

} // verus!
