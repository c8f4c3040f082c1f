//! Scheduler control: starting and stopping the scheduler, suspending and
//! resuming it, the tick and the choice of the task to run.
use vstd::prelude::*;
use crate::port::{TickType, UBaseType, CONFIG_MAX_PRIORITIES, PORT_MAX_DELAY};
use crate::list::{
    ItemLink, ListLink, insert_position, lemma_insert_position, sorted_position,
    list_is_empty, current_list_length, get_list_item_owner, get_list_item_value};
use crate::task_global::{Kernel, state_item, event_item, is_state_list, PENDING_READY_LIST, kernel_at_start};
use crate::task_control::{TaskHandle, TCB};
use crate::list::{get_owner_of_next_entry, next_cursor};

verus! {

/// The tick count after one more tick (the count wraps to zero).
pub open spec fn next_tick(tick: TickType) -> TickType {
    if tick == TickType::MAX { 0 } else { (tick + 1) as TickType }
}

/// The delayed list in use once the tick count has reached `tick`: the two
/// delayed lists change places when the count wraps to zero.
pub open spec fn delayed_list_at(k: &Kernel, tick: TickType) -> ListLink {
    if tick == 0 { k.overflow_delayed_task_list } else { k.delayed_task_list }
}

/// The other delayed list once the tick count has reached `tick`.
pub open spec fn overflow_list_at(k: &Kernel, tick: TickType) -> ListLink {
    if tick == 0 { k.delayed_task_list } else { k.overflow_delayed_task_list }
}

/// The number of tasks at the head of the delayed list whose wake time has
/// come when the tick count reaches `tick`.
pub open spec fn expired_count(k: &Kernel, tick: TickType) -> nat {
    if tick >= k.next_task_unblock_time {
        insert_position(k.lists.list_values(delayed_list_at(k, tick) as int), tick)
    } else {
        0
    }
}

/// Once the tick count reaches `tick` and the handler looks at the delayed
/// list, the tasks it wakes are exactly those whose wake time has come: the
/// first `expired_count` values are not after `tick`, and (the list being in
/// wake-time order) every later one is.
pub proof fn lemma_expired_exactly(k: &Kernel, tick: TickType)
    requires
        k.wf(),
        tick >= k.next_task_unblock_time,
    ensures
        ({
            let vals = k.lists.list_values(delayed_list_at(k, tick) as int);
            let n = expired_count(k, tick) as int;
            &&& n <= vals.len()
            &&& forall|m: int| 0 <= m < n ==> #[trigger] vals[m] <= tick
            &&& forall|m: int| n <= m < vals.len() ==> #[trigger] vals[m] > tick
        }),
{
    let vals = k.lists.list_values(delayed_list_at(k, tick) as int);
    let n = expired_count(k, tick) as int;
    crate::list::lemma_insert_position_sorted(vals, tick);
    assert(crate::list::ascending(vals));
    assert forall|m: int| n <= m < vals.len() implies #[trigger] vals[m] > tick by {
        assert(vals[n] <= vals[m]);
    }
}

/// The task that owns item `i` has at least priority `priority` in `k`.
pub open spec fn owner_has_priority_at_least(k: &Kernel, i: ItemLink, priority: UBaseType) -> bool {
    k.task(i as int / 2).task_priority >= priority
}

/// In a list without duplicates, the head is found at position 0.
pub proof fn lemma_index_of_head(s: Seq<ItemLink>)
    requires
        s.len() > 0,
        s.no_duplicates(),
    ensures
        s.index_of(s[0]) == 0,
{
    assert(s[0] == s[0]);
    let q = s.index_of(s[0]);
    assert(0 <= q < s.len() && s[q] == s[0]);
}

/// Moves every task at the head of the delayed list whose wake time is not
/// after `const_tick_count` to its ready list.  Returns whether one of them has
/// at least priority `cp`, and the wake time of the first task left (the
/// largest tick value when none is left).
fn unblock_expired_tasks(k: &mut Kernel, const_tick_count: TickType, cp: UBaseType) -> (res: (bool, TickType))
    requires
        old(k).wf(),
        old(k).has_current(),
        cp == old(k).current_priority(),
        const_tick_count == old(k).tick_count,
    ensures
        final(k).wf(),
        ({
            let d = old(k).delayed_task_list;
            let l = old(k).list(d as int);
            let vals = old(k).lists.list_values(d as int);
            let n = insert_position(vals, const_tick_count);
            &&& *final(k) == (Kernel { lists: final(k).lists, top_ready_priority: final(k).top_ready_priority, ..*old(k) })
            &&& final(k).top_ready_priority >= old(k).top_ready_priority
            &&& final(k).lists.num_lists() == old(k).lists.num_lists()
            &&& n <= l.len()
            &&& final(k).list(d as int) == l.skip(n as int)
            &&& res.1 == (if n == l.len() { PORT_MAX_DELAY } else { vals[n as int] })
            &&& forall|t: int| 0 <= t < old(k).num_tasks() ==> (#[trigger] final(k).state_container(t)) == (
                if l.take(n as int).contains(state_item(t) as ItemLink) {
                    Some(old(k).task(t).task_priority as ListLink)
                } else {
                    old(k).state_container(t)
                })
            &&& forall|t: int| 0 <= t < old(k).num_tasks() ==> (#[trigger] final(k).event_container(t)) == (
                if l.take(n as int).contains(state_item(t) as ItemLink) {
                    None
                } else {
                    old(k).event_container(t)
                })
            &&& res.0 == exists|m: int| 0 <= m < n && #[trigger] owner_has_priority_at_least(old(k), l[m], cp)
            &&& final(k).lists.num_items() == old(k).lists.num_items()
            &&& forall|i: int| 0 <= i < old(k).lists.num_items() ==>
                #[trigger] final(k).lists.item(i).item_value == old(k).lists.item(i).item_value
        }),
{
    let ghost k0 = *k;
    let mut switch_required = false;
    let cur = k.current_tcb.unwrap();
        let d = k.delayed_task_list;
        let ghost l = k0.list(d as int);
        let ghost vals = k0.lists.list_values(d as int);
        let ghost mut j: int = 0;
        let mut next: TickType = PORT_MAX_DELAY;
        proof {
            assert(is_state_list(d as int));
            assert(l.skip(0) =~= l);
            assert(l.take(0) =~= Seq::<ItemLink>::empty());
        }
        loop
            invariant
                k.wf(),
                k0.wf(),
                *k == (Kernel { lists: k.lists, top_ready_priority: k.top_ready_priority, ..k0 }),
                k.top_ready_priority >= k0.top_ready_priority,
                k.lists.num_lists() == k0.lists.num_lists(),
                k.lists.num_items() == k0.lists.num_items(),
                d == k0.delayed_task_list,
                is_state_list(d as int),
                l == k0.list(d as int),
                vals == k0.lists.list_values(d as int),
                cur == k0.current_tcb->0,
                cp == k0.current_priority(),
                const_tick_count == k0.tick_count,
                0 <= j <= l.len(),
                k.list(d as int) == l.skip(j),
                forall|m: int| 0 <= m < j ==> #[trigger] vals[m] <= const_tick_count,
                forall|i: int| 0 <= i < k.lists.num_items() ==>
                    (#[trigger] k.lists.item(i)).item_value == k0.lists.item(i).item_value,
                forall|t: int| 0 <= t < k0.num_tasks() ==> (#[trigger] k.state_container(t)) == (
                    if l.take(j).contains(state_item(t) as ItemLink) {
                        Some(k0.task(t).task_priority as ListLink)
                    } else {
                        k0.state_container(t)
                    }),
                forall|t: int| 0 <= t < k0.num_tasks() ==> (#[trigger] k.event_container(t)) == (
                    if l.take(j).contains(state_item(t) as ItemLink) {
                        None
                    } else {
                        k0.event_container(t)
                    }),
                switch_required == exists|m: int| 0 <= m < j && #[trigger] owner_has_priority_at_least(&k0, l[m], cp),
            ensures
                k.wf(),
                k.lists.num_lists() == k0.lists.num_lists(),
                *k == (Kernel { lists: k.lists, top_ready_priority: k.top_ready_priority, ..k0 }),
                k.top_ready_priority >= k0.top_ready_priority,
                0 <= j <= l.len(),
                sorted_position(vals, j, const_tick_count),
                k.list(d as int) == l.skip(j),
                next == (if j == l.len() { PORT_MAX_DELAY } else { vals[j] }),
                forall|t: int| 0 <= t < k0.num_tasks() ==> (#[trigger] k.state_container(t)) == (
                    if l.take(j).contains(state_item(t) as ItemLink) {
                        Some(k0.task(t).task_priority as ListLink)
                    } else {
                        k0.state_container(t)
                    }),
                forall|t: int| 0 <= t < k0.num_tasks() ==> (#[trigger] k.event_container(t)) == (
                    if l.take(j).contains(state_item(t) as ItemLink) {
                        None
                    } else {
                        k0.event_container(t)
                    }),
                switch_required == exists|m: int| 0 <= m < j && #[trigger] owner_has_priority_at_least(&k0, l[m], cp),
                k.lists.num_items() == k0.lists.num_items(),
                forall|i: int| 0 <= i < k.lists.num_items() ==>
                    (#[trigger] k.lists.item(i)).item_value == k0.lists.item(i).item_value,
            decreases l.len() - j,
        {
            if list_is_empty(&k.lists, d) {
                next = PORT_MAX_DELAY;
                proof {
                    assert(k.list(d as int).len() == 0);
                }
                break;
            }
            let i = k.lists.list_head(d);
            proof {
                k.lemma_list_item_kind(d as int, 0);
                assert(l.skip(j)[0] == l[j]);
                assert(vals[j] == k0.lists.item(l[j] as int).item_value);
            }
            let owner = get_list_item_owner(&k.lists, i);
            let value = get_list_item_value(&k.lists, i);
            if const_tick_count < value {
                next = value;
                break;
            }
            let ghost kb = *k;
            let t = owner.0;
            proof {
                assert(i == state_item(t as int));
                assert(kb.state_container(t as int) == Some(d));
                assert(kb.list(d as int).no_duplicates());
                lemma_index_of_head(kb.list(d as int));
                crate::list::lemma_seq_remove(kb.list(d as int), 0);
            }
            k.unblock_task(t);
            if k.tasks[t].task_priority >= cp {
                switch_required = true;
            }
            proof {
                let p = k0.task(t as int).task_priority;
                assert((p as int) < CONFIG_MAX_PRIORITIES);
                assert(d as int != p as int);
                assert(k.list(d as int) =~= l.skip(j + 1));
                assert(l.no_duplicates());
                assert(l.take(j + 1) =~= l.take(j).push(l[j]));
                lemma_take_push_contains(l, j, l[j]);
                assert forall|i2: int| 0 <= i2 < k.lists.num_items() implies
                    (#[trigger] k.lists.item(i2)).item_value == k0.lists.item(i2).item_value by {
                    assert(kb.lists.item(i2).item_value == k0.lists.item(i2).item_value);
                    if i2 != state_item(t as int) && i2 != event_item(t as int) {
                        assert(k.lists.item(i2) == kb.lists.item(i2));
                    }
                }
                assert forall|t2: int| 0 <= t2 < k0.num_tasks() implies (#[trigger] k.state_container(t2)) == (
                    if l.take(j + 1).contains(state_item(t2) as ItemLink) {
                        Some(k0.task(t2).task_priority as ListLink)
                    } else {
                        k0.state_container(t2)
                    }) by {
                    assert(kb.state_container(t2) == (
                        if l.take(j).contains(state_item(t2) as ItemLink) {
                            Some(k0.task(t2).task_priority as ListLink)
                        } else {
                            k0.state_container(t2)
                        }));
                    if t2 != t as int {
                        assert(k.lists.item(state_item(t2)) == kb.lists.item(state_item(t2)));
                        lemma_take_push_contains(l, j, state_item(t2) as ItemLink);
                    } else {
                        assert(l.take(j + 1)[j] == l[j]);
                        assert(l.take(j + 1).contains(state_item(t2) as ItemLink));
                    }
                }
                assert forall|t2: int| 0 <= t2 < k0.num_tasks() implies (#[trigger] k.event_container(t2)) == (
                    if l.take(j + 1).contains(state_item(t2) as ItemLink) {
                        None
                    } else {
                        k0.event_container(t2)
                    }) by {
                    assert(kb.event_container(t2) == (
                        if l.take(j).contains(state_item(t2) as ItemLink) {
                            None
                        } else {
                            k0.event_container(t2)
                        }));
                    if t2 != t as int {
                        assert(k.lists.item(event_item(t2)) == kb.lists.item(event_item(t2)));
                        lemma_take_push_contains(l, j, state_item(t2) as ItemLink);
                    } else {
                        assert(l.take(j + 1)[j] == l[j]);
                        assert(l.take(j + 1).contains(state_item(t2) as ItemLink));
                    }
                }
                assert(owner_has_priority_at_least(&k0, l[j], cp) == (k.task(t as int).task_priority >= cp));
                if switch_required {
                    if !(exists|m: int| 0 <= m < j && #[trigger] owner_has_priority_at_least(&k0, l[m], cp)) {
                        assert(owner_has_priority_at_least(&k0, l[j], cp));
                    }
                }
                j = j + 1;
            }
        }
    proof {
        lemma_insert_position(vals, j, const_tick_count);
    }
    (switch_required, next)
}

/// Called on every tick interrupt.  While the scheduler runs, the tick count
/// advances (the delayed lists change places when it wraps to zero) and every
/// task at the head of the delayed list whose wake time has come is moved to
/// its ready list.  Returns whether a context switch is required: a moved
/// task's priority is at least the running task's, or another ready task
/// shares the running task's priority.  While the scheduler is suspended the
/// tick is only counted as pended.
pub fn task_increment_tick(k: &mut Kernel) -> (switch_required: bool)
    requires
        old(k).wf(),
        old(k).scheduler_suspended == 0 ==> old(k).has_current(),
        old(k).scheduler_suspended != 0 ==> old(k).pended_ticks < UBaseType::MAX,
    ensures
        final(k).wf(),
        final(k).lists.num_items() == old(k).lists.num_items(),
        forall|i: int| 0 <= i < old(k).lists.num_items() ==>
            #[trigger] final(k).lists.item(i).item_value == old(k).lists.item(i).item_value,
        old(k).scheduler_suspended != 0 ==> {
            &&& *final(k) == (Kernel { pended_ticks: (old(k).pended_ticks + 1) as UBaseType, ..*old(k) })
            &&& !switch_required
        },
        old(k).scheduler_suspended == 0 ==> ({
            let c = next_tick(old(k).tick_count);
            let d = delayed_list_at(old(k), c);
            let l = old(k).list(d as int);
            let vals = old(k).lists.list_values(d as int);
            let n = expired_count(old(k), c);
            let cp = old(k).current_priority();
            &&& final(k).tasks == old(k).tasks
            &&& final(k).tick_count == c
            &&& final(k).delayed_task_list == d
            &&& final(k).overflow_delayed_task_list == overflow_list_at(old(k), c)
            &&& final(k).current_tcb == old(k).current_tcb
            &&& final(k).scheduler_suspended == old(k).scheduler_suspended
            &&& final(k).pended_ticks == old(k).pended_ticks
            &&& final(k).yield_pending == old(k).yield_pending
            &&& final(k).scheduler_running == old(k).scheduler_running
            &&& final(k).idle_task_handle == old(k).idle_task_handle
            &&& final(k).current_number_of_tasks == old(k).current_number_of_tasks
            &&& final(k).task_number == old(k).task_number
            &&& final(k).top_ready_priority >= old(k).top_ready_priority
            &&& final(k).lists.num_lists() == old(k).lists.num_lists()
            &&& n <= l.len()
            &&& final(k).list(d as int) == l.skip(n as int)
            &&& final(k).next_task_unblock_time == (if c >= old(k).next_task_unblock_time {
                if n == l.len() { PORT_MAX_DELAY } else { vals[n as int] }
            } else {
                old(k).next_task_unblock_time
            })
            &&& forall|t: int| 0 <= t < old(k).num_tasks() ==> (#[trigger] final(k).state_container(t)) == (
                if l.take(n as int).contains(state_item(t) as ItemLink) {
                    Some(old(k).task(t).task_priority as ListLink)
                } else {
                    old(k).state_container(t)
                })
            &&& forall|t: int| 0 <= t < old(k).num_tasks() ==> (#[trigger] final(k).event_container(t)) == (
                if l.take(n as int).contains(state_item(t) as ItemLink) {
                    None
                } else {
                    old(k).event_container(t)
                })
            &&& switch_required == (
                (exists|m: int| 0 <= m < n && #[trigger] owner_has_priority_at_least(old(k), l[m], cp))
                || final(k).list(cp as int).len() > 1)
            &&& c >= old(k).next_task_unblock_time ==> {
                &&& forall|m: int| 0 <= m < n ==> #[trigger] vals[m] <= c
                &&& forall|m: int| n <= m < l.len() ==> #[trigger] vals[m] > c
            }
        }),
{
    let mut switch_required = false;
    proof {
        let c = next_tick(old(k).tick_count);
        if old(k).scheduler_suspended == 0 && c >= old(k).next_task_unblock_time {
            lemma_expired_exactly(old(k), c);
        }
    }
    if k.scheduler_suspended == 0 {
        let const_tick_count = k.tick_count.wrapping_add(1);
        k.tick_count = const_tick_count;
        if const_tick_count == 0 {
            let tmp = k.delayed_task_list;
            k.delayed_task_list = k.overflow_delayed_task_list;
            k.overflow_delayed_task_list = tmp;
        }
        proof {
            assert forall|p: int| k.top_ready_priority < p < CONFIG_MAX_PRIORITIES implies #[trigger] k.list(p).len() == 0 by {
                assert(old(k).list(p).len() == 0);
            }
            Kernel::lemma_wf_scalar_change(old(k), k);
        }
        let ghost k0 = *k;
        proof {
            assert forall|t: int| #[trigger] k0.state_container(t) == old(k).state_container(t) by {}
            assert forall|t: int| #[trigger] k0.event_container(t) == old(k).event_container(t) by {}
            assert forall|i: ItemLink, p: UBaseType| #[trigger] owner_has_priority_at_least(&k0, i, p)
                == owner_has_priority_at_least(old(k), i, p) by {}
            assert forall|l: int| #[trigger] k0.list(l) == old(k).list(l) by {}
            assert forall|l: int| #[trigger] k0.lists.list_values(l) == old(k).lists.list_values(l) by {}
        }
        let cur = k.current_tcb.unwrap();
        let cp = k.tasks[cur.0].task_priority;
        proof {
            assert(k0.task(cur.0 as int).task_priority < CONFIG_MAX_PRIORITIES);
        }
        if const_tick_count >= k.next_task_unblock_time {
            let d = k.delayed_task_list;
            let (sw, next) = unblock_expired_tasks(k, const_tick_count, cp);
            switch_required = sw;
            let ghost kl = *k;
            k.next_task_unblock_time = next;
            proof {
                assert forall|p: int| k.top_ready_priority < p < CONFIG_MAX_PRIORITIES implies #[trigger] k.list(p).len() == 0 by {
                    assert(kl.list(p).len() == 0);
                }
                Kernel::lemma_wf_scalar_change(&kl, k);
                assert forall|t: int| #[trigger] k.state_container(t) == kl.state_container(t) by {}
                assert forall|t: int| #[trigger] k.event_container(t) == kl.event_container(t) by {}
                assert(k.list(d as int) == kl.list(d as int));
                assert(k.list(cp as int) == kl.list(cp as int));
                let c = next_tick(old(k).tick_count);
                let l = old(k).list(delayed_list_at(old(k), c) as int);
                let n = expired_count(old(k), c);
                assert(l == k0.list(d as int));
                assert(sw == exists|m: int| 0 <= m < n && #[trigger] owner_has_priority_at_least(old(k), l[m], cp)) by {
                    if sw {
                        let m = choose|m: int| 0 <= m < n && #[trigger] owner_has_priority_at_least(&k0, l[m], cp);
                        assert(owner_has_priority_at_least(old(k), l[m], cp));
                    }
                    if exists|m: int| 0 <= m < n && #[trigger] owner_has_priority_at_least(old(k), l[m], cp) {
                        let m = choose|m: int| 0 <= m < n && #[trigger] owner_has_priority_at_least(old(k), l[m], cp);
                        assert(owner_has_priority_at_least(&k0, l[m], cp));
                    }
                }
            }
        } else {
            proof {
                assert(k0.list(k0.delayed_task_list as int).skip(0) =~= k0.list(k0.delayed_task_list as int));
                assert(k0.list(k0.delayed_task_list as int).take(0) =~= Seq::<ItemLink>::empty());
            }
        }
        if current_list_length(&k.lists, cp as usize) > 1 {
            switch_required = true;
        }
    } else {
        k.pended_ticks = k.pended_ticks + 1;
        proof {
            assert forall|p: int| k.top_ready_priority < p < CONFIG_MAX_PRIORITIES implies #[trigger] k.list(p).len() == 0 by {
                assert(old(k).list(p).len() == 0);
            }
            Kernel::lemma_wf_scalar_change(old(k), k);
        }
    }
    switch_required
}

/// The kernel with one more suspension of the scheduler counted.
pub open spec fn suspended_once_more(k: Kernel) -> Kernel {
    Kernel { scheduler_suspended: (k.scheduler_suspended + 1) as UBaseType, ..k }
}

/// The kernel with one suspension of the scheduler fewer counted.
pub open spec fn resumed_once(k: Kernel) -> Kernel {
    Kernel { scheduler_suspended: (k.scheduler_suspended - 1) as UBaseType, ..k }
}

/// Suspensions nest: suspending the scheduler while it is already suspended
/// and then resuming it once gives back the kernel exactly as it was, since
/// the resumption is not the last one.
pub proof fn lemma_nested_suspend_resume(k: Kernel)
    requires
        0 < k.scheduler_suspended < UBaseType::MAX,
    ensures
        suspended_once_more(k).scheduler_suspended != 1,
        resumed_once(suspended_once_more(k)) == k,
{
}

/// Counts one more suspension of the scheduler; context switches do not
/// happen until every suspension has been resumed.
pub fn task_suspend_all(k: &mut Kernel)
    requires
        old(k).wf(),
        old(k).scheduler_suspended < UBaseType::MAX,
    ensures
        final(k).wf(),
        *final(k) == suspended_once_more(*old(k)),
{
    k.scheduler_suspended = k.scheduler_suspended + 1;
    proof { lemma_wf_after_scalars(old(k), k); }
}

/// Stops the scheduler: every task that was created is deleted and every
/// list the kernel made is freed, so that the kernel is as it started.
pub fn task_end_scheduler(k: &mut Kernel)
    requires
        old(k).wf(),
    ensures
        kernel_at_start(final(k)),
{
    *k = crate::task_global::initialize_task_list();
}

/// Records that the scheduler runs from tick zero, with no task due to wake.
pub fn initialize_scheduler(k: &mut Kernel)
    requires
        old(k).wf(),
    ensures
        final(k).wf(),
        *final(k) == (Kernel {
            next_task_unblock_time: PORT_MAX_DELAY,
            scheduler_running: true,
            tick_count: 0,
            ..*old(k)
        }),
{
    k.next_task_unblock_time = PORT_MAX_DELAY;
    k.scheduler_running = true;
    k.tick_count = 0;
    proof { lemma_wf_after_scalars(old(k), k); }
}

/// A change of the scheduler's counters and flags alone keeps the kernel well formed.
proof fn lemma_wf_after_scalars(old_k: &Kernel, new_k: &Kernel)
    requires
        old_k.wf(),
        new_k.tasks == old_k.tasks,
        new_k.lists == old_k.lists,
        new_k.delayed_task_list == old_k.delayed_task_list,
        new_k.overflow_delayed_task_list == old_k.overflow_delayed_task_list,
        new_k.current_tcb == old_k.current_tcb,
        new_k.idle_task_handle == old_k.idle_task_handle,
        new_k.top_ready_priority == old_k.top_ready_priority,
    ensures
        new_k.wf(),
{
    assert forall|p: int| new_k.top_ready_priority < p < CONFIG_MAX_PRIORITIES implies #[trigger] new_k.list(p).len() == 0 by {
        assert(old_k.list(p).len() == 0);
    }
    Kernel::lemma_wf_scalar_change(old_k, new_k);
}

/// The running task once the idle task (the next task of `k`) is created:
/// the idle task when there is none yet, or when the scheduler is not
/// running and the running task has the idle priority too.
pub open spec fn idle_current(k: &Kernel) -> Option<TaskHandle> {
    if k.current_tcb is None || (!k.scheduler_running && k.current_priority() == 0) {
        Some(TaskHandle(k.num_tasks() as usize))
    } else {
        k.current_tcb
    }
}

/// Creates the idle task, of priority zero and named "Idle", on the stack
/// that was allocated for it.
pub fn create_idle_task(k: &mut Kernel, idle_stack: Option<usize>) -> (h: TaskHandle)
    requires
        old(k).wf(),
        idle_stack is Some,
        old(k).lists.num_items() + 2 <= usize::MAX,
        old(k).current_number_of_tasks < UBaseType::MAX,
        old(k).task_number < UBaseType::MAX,
    ensures
        final(k).wf(),
        h.0 == old(k).num_tasks(),
        final(k).num_tasks() == old(k).num_tasks() + 1,
        final(k).task(h.0 as int).task_priority == 0,
        final(k).task(h.0 as int).task_name@ == "Idle"@,
        final(k).state_container(h.0 as int) == Some(0usize),
        final(k).idle_task_handle == old(k).idle_task_handle,
        final(k).scheduler_running == old(k).scheduler_running,
        final(k).tick_count == old(k).tick_count,
        final(k).scheduler_suspended == old(k).scheduler_suspended,
        final(k).current_tcb == idle_current(old(k)),
        forall|t: int| 0 <= t < old(k).num_tasks() ==>
            #[trigger] final(k).task(t) == old(k).task(t)
            && final(k).state_container(t) == old(k).state_container(t)
            && final(k).event_container(t) == old(k).event_container(t),
{
    let tcb = TCB::new().priority(0).name("Idle");
    let ghost k0 = *k;
    match tcb.initialise(k, idle_stack) {
        Ok(h) => {
            proof {
                assert forall|t: int| 0 <= t < k0.num_tasks() implies
                    #[trigger] k.task(t) == k0.task(t)
                    && k.state_container(t) == k0.state_container(t)
                    && k.event_container(t) == k0.event_container(t) by {
                    assert(k0.task(t).state_list_item == state_item(t));
                    assert(k.lists.items_view().take(k0.lists.num_items() as int)[state_item(t)]
                        == k0.lists.items_view()[state_item(t)]);
                    assert(k.lists.items_view().take(k0.lists.num_items() as int)[event_item(t)]
                        == k0.lists.items_view()[event_item(t)]);
                }
            }
            h
        },
        Err(_) => {
            proof { assert(false); }
            TaskHandle(0)
        },
    }
}

/// Starts the scheduler: creates the idle task on the stack allocated for it,
/// remembers it, and records that the scheduler runs from tick zero.
pub fn task_start_scheduler(k: &mut Kernel, idle_stack: Option<usize>)
    requires
        old(k).wf(),
        idle_stack is Some,
        old(k).lists.num_items() + 2 <= usize::MAX,
        old(k).current_number_of_tasks < UBaseType::MAX,
        old(k).task_number < UBaseType::MAX,
    ensures
        final(k).wf(),
        final(k).num_tasks() == old(k).num_tasks() + 1,
        final(k).idle_task_handle == Some(TaskHandle(old(k).num_tasks() as usize)),
        final(k).task(old(k).num_tasks() as int).task_priority == 0,
        final(k).task(old(k).num_tasks() as int).task_name@ == "Idle"@,
        final(k).state_container(old(k).num_tasks() as int) == Some(0usize),
        final(k).scheduler_running,
        final(k).tick_count == 0,
        final(k).next_task_unblock_time == PORT_MAX_DELAY,
        final(k).scheduler_suspended == old(k).scheduler_suspended,
        final(k).current_tcb == idle_current(old(k)),
        forall|t: int| 0 <= t < old(k).num_tasks() ==>
            #[trigger] final(k).state_container(t) == old(k).state_container(t)
            && final(k).event_container(t) == old(k).event_container(t),
{
    let h = create_idle_task(k, idle_stack);
    let ghost k1 = *k;
    k.idle_task_handle = Some(h);
    proof {
        assert forall|p: int| k.top_ready_priority < p < CONFIG_MAX_PRIORITIES implies #[trigger] k.list(p).len() == 0 by {
            assert(k1.list(p).len() == 0);
        }
        Kernel::lemma_wf_scalar_change(&k1, k);
    }
    let ghost k2 = *k;
    initialize_scheduler(k);
    proof {
        assert forall|t: int| 0 <= t < old(k).num_tasks() implies
            #[trigger] k.state_container(t) == old(k).state_container(t)
            && k.event_container(t) == old(k).event_container(t) by {
            assert(k1.task(t) == old(k).task(t));
            assert(k.lists == k1.lists);
        }
    }
}

/// Records when the next task is due to wake: the value of the head of the
/// delayed list, or the largest tick value when that list is empty.
pub fn reset_next_task_unblock_time(k: &mut Kernel)
    requires
        old(k).wf(),
    ensures
        final(k).wf(),
        *final(k) == (Kernel {
            next_task_unblock_time: if old(k).list(old(k).delayed_task_list as int).len() == 0 {
                PORT_MAX_DELAY
            } else {
                old(k).lists.list_values(old(k).delayed_task_list as int)[0]
            },
            ..*old(k)
        }),
{
    let d = k.delayed_task_list;
    if list_is_empty(&k.lists, d) {
        k.next_task_unblock_time = PORT_MAX_DELAY;
    } else {
        let i = k.lists.list_head(d);
        proof {
            old(k).lemma_list_item_kind(d as int, 0);
        }
        let owner = get_list_item_owner(&k.lists, i);
        let s = owner.get_state_list_item(k);
        proof {
            assert(old(k).task(owner.0 as int).state_list_item == state_item(owner.0 as int));
        }
        k.next_task_unblock_time = get_list_item_value(&k.lists, s);
    }
    proof { lemma_wf_after_scalars(old(k), k); }
}

/// Moves the tick count on by `ticks_to_jump` after a period in which the
/// tick was suppressed; the new count may not pass the next wake time.
pub fn task_step_tick(k: &mut Kernel, ticks_to_jump: TickType)
    requires
        old(k).wf(),
        old(k).tick_count + ticks_to_jump <= old(k).next_task_unblock_time,
    ensures
        final(k).wf(),
        *final(k) == (Kernel { tick_count: (old(k).tick_count + ticks_to_jump) as TickType, ..*old(k) }),
{
    k.tick_count = k.tick_count + ticks_to_jump;
    proof { lemma_wf_after_scalars(old(k), k); }
}

/// `p` is the highest priority at or below `top` whose ready list holds a task.
pub open spec fn highest_ready_priority(lists: &crate::list::ListArena, top: int, p: int) -> bool {
    &&& 0 <= p <= top
    &&& lists.list(p).len() > 0
    &&& forall|q: int| p < q <= top ==> #[trigger] lists.list(q).len() == 0
}

/// Picks the task to run: the next task, in turn, of the highest priority
/// whose ready list holds a task.  Tasks of that priority take turns.
pub fn task_select_highest_priority_task(k: &mut Kernel)
    requires
        old(k).wf(),
        exists|p: int| 0 <= p <= old(k).top_ready_priority && #[trigger] old(k).list(p).len() > 0,
    ensures
        final(k).wf(),
        ({
            let p = final(k).top_ready_priority as int;
            let l = old(k).list(p);
            let next = l[next_cursor(old(k).lists.cursor(p), l.len()) as int];
            &&& highest_ready_priority(&old(k).lists, old(k).top_ready_priority as int, p)
            &&& Some(TaskHandle((next / 2) as usize)) == final(k).current_tcb
            &&& final(k).lists.items_view() == old(k).lists.items_view()
            &&& final(k).lists.lists_view() == old(k).lists.lists_view()
            &&& final(k).lists.cursors() == old(k).lists.cursors().update(p, next_cursor(old(k).lists.cursor(p), l.len()))
            &&& *final(k) == (Kernel {
                lists: final(k).lists,
                current_tcb: final(k).current_tcb,
                top_ready_priority: final(k).top_ready_priority,
                ..*old(k)
            })
        }),
{
    let mut top_priority = k.top_ready_priority;
    while list_is_empty(&k.lists, top_priority as usize)
        invariant
            k.wf(),
            *k == *old(k),
            top_priority <= k.top_ready_priority,
            exists|p: int| 0 <= p <= top_priority && #[trigger] k.list(p).len() > 0,
            forall|q: int| top_priority < q <= k.top_ready_priority ==> #[trigger] k.list(q).len() == 0,
        decreases top_priority,
    {
        proof {
            if top_priority == 0 {
                let p = choose|p: int| 0 <= p <= top_priority && #[trigger] k.list(p).len() > 0;
                assert(p == 0);
            }
        }
        top_priority = top_priority - 1;
    }
    let ghost kb = *k;
    let p = top_priority as usize;
    proof {
        kb.lemma_list_item_kind(p as int, next_cursor(kb.lists.cursor(p as int), kb.list(p as int).len()) as int);
    }
    let next = get_owner_of_next_entry(&mut k.lists, p);
    proof {
        kb.lemma_item_owner(kb.list(p as int)[next_cursor(kb.lists.cursor(p as int), kb.list(p as int).len()) as int] as int);
    }
    k.current_tcb = Some(next);
    k.top_ready_priority = top_priority;
    proof {
        assert forall|q: int| top_priority < q <= kb.top_ready_priority implies #[trigger] kb.lists.list(q).len() == 0 by {
            assert(kb.list(q).len() == 0);
        }
        Kernel::lemma_delayed_order_kept(&kb, k);
        assert(k.lists.lists_view() == kb.lists.lists_view());
        assert forall|q: int| k.top_ready_priority < q < CONFIG_MAX_PRIORITIES implies #[trigger] k.list(q).len() == 0 by {
            assert(kb.list(q) == k.list(q));
            if q > kb.top_ready_priority {
                assert(kb.list(q).len() == 0);
            }
        }
        assert forall|t: int| 0 <= t < k.num_tasks() implies {
            &&& (#[trigger] k.task(t)).state_list_item == state_item(t)
            &&& k.task(t).event_list_item == event_item(t)
            &&& k.task(t).task_priority < CONFIG_MAX_PRIORITIES
            &&& k.task(t).base_priority < CONFIG_MAX_PRIORITIES
            &&& k.lists.item(state_item(t)).owner == Some(TaskHandle(t as usize))
            &&& k.lists.item(event_item(t)).owner == Some(TaskHandle(t as usize))
            &&& k.state_container(t) is Some ==> is_state_list(k.state_container(t)->0 as int)
            &&& k.event_container(t) is Some ==> crate::task_global::is_event_list(k.event_container(t)->0 as int)
        } by {
            assert(kb.task(t) == k.task(t));
            assert(k.lists.item(state_item(t)) == kb.lists.item(state_item(t)));
            assert(k.lists.item(event_item(t)) == kb.lists.item(event_item(t)));
        }
    }
}

/// Switches context: while the scheduler is suspended the switch is only
/// held pending; otherwise the highest priority ready task is selected.
pub fn task_switch_context(k: &mut Kernel)
    requires
        old(k).wf(),
        old(k).scheduler_suspended == 0 ==>
            exists|p: int| 0 <= p <= old(k).top_ready_priority && #[trigger] old(k).list(p).len() > 0,
    ensures
        final(k).wf(),
        old(k).scheduler_suspended != 0 ==> *final(k) == (Kernel { yield_pending: true, ..*old(k) }),
        old(k).scheduler_suspended == 0 ==> ({
            let p = final(k).top_ready_priority as int;
            let l = old(k).list(p);
            let next = l[next_cursor(old(k).lists.cursor(p), l.len()) as int];
            &&& !final(k).yield_pending
            &&& highest_ready_priority(&old(k).lists, old(k).top_ready_priority as int, p)
            &&& Some(TaskHandle((next / 2) as usize)) == final(k).current_tcb
            &&& final(k).lists.items_view() == old(k).lists.items_view()
            &&& final(k).lists.lists_view() == old(k).lists.lists_view()
            &&& final(k).lists.cursors() == old(k).lists.cursors().update(p, next_cursor(old(k).lists.cursor(p), l.len()))
            &&& *final(k) == (Kernel {
                lists: final(k).lists,
                current_tcb: final(k).current_tcb,
                top_ready_priority: final(k).top_ready_priority,
                yield_pending: false,
                ..*old(k)
            })
        }),
{
    if k.scheduler_suspended > 0 {
        k.yield_pending = true;
        proof { lemma_wf_after_scalars(old(k), k); }
    } else {
        k.yield_pending = false;
        proof {
            lemma_wf_after_scalars(old(k), k);
            let p = choose|p: int| 0 <= p <= old(k).top_ready_priority && #[trigger] old(k).list(p).len() > 0;
            assert(k.list(p).len() > 0);
        }
        task_select_highest_priority_task(k);
    }
}

/// Moves every task of the pending ready list (tasks readied while the
/// scheduler was suspended) to its ready list, taking it out of the delayed
/// or suspended list it was in.  A yield is held pending when a moved task's
/// priority is at least the running task's.  Returns whether any task moved.
pub fn move_tasks_to_ready_list(k: &mut Kernel) -> (moved: bool)
    requires
        old(k).wf(),
        old(k).has_current(),
    ensures
        final(k).wf(),
        ({
            let l = old(k).list(PENDING_READY_LIST as int);
            let cp = old(k).current_priority();
            &&& moved == (l.len() > 0)
            &&& final(k).list(PENDING_READY_LIST as int).len() == 0
            &&& *final(k) == (Kernel {
                lists: final(k).lists,
                top_ready_priority: final(k).top_ready_priority,
                yield_pending: final(k).yield_pending,
                ..*old(k)
            })
            &&& final(k).top_ready_priority >= old(k).top_ready_priority
            &&& final(k).lists.num_lists() == old(k).lists.num_lists()
            &&& forall|t: int| 0 <= t < old(k).num_tasks() ==> (#[trigger] final(k).state_container(t)) == (
                if l.contains(event_item(t) as ItemLink) {
                    Some(old(k).task(t).task_priority as ListLink)
                } else {
                    old(k).state_container(t)
                })
            &&& forall|t: int| 0 <= t < old(k).num_tasks() ==> (#[trigger] final(k).event_container(t)) == (
                if l.contains(event_item(t) as ItemLink) {
                    None
                } else {
                    old(k).event_container(t)
                })
            &&& final(k).yield_pending == (old(k).yield_pending
                || exists|m: int| 0 <= m < l.len() && #[trigger] owner_has_priority_at_least(old(k), l[m], cp))
            &&& final(k).lists.num_items() == old(k).lists.num_items()
            &&& forall|i: int| 0 <= i < old(k).lists.num_items() ==>
                #[trigger] final(k).lists.item(i).item_value == old(k).lists.item(i).item_value
        }),
{
    let ghost k0 = *k;
    let ghost l = k0.list(PENDING_READY_LIST as int);
    let ghost mut j: int = 0;
    let cur = k.current_tcb.unwrap();
    let cp = k.tasks[cur.0].task_priority;
    let mut moved = false;
    proof {
        assert(l.skip(0) =~= l);
        assert(l.take(0) =~= Seq::<ItemLink>::empty());
    }
    while !list_is_empty(&k.lists, PENDING_READY_LIST)
        invariant
            k.wf(),
            k0.wf(),
            *k == (Kernel {
                lists: k.lists,
                top_ready_priority: k.top_ready_priority,
                yield_pending: k.yield_pending,
                ..k0
            }),
            k.top_ready_priority >= k0.top_ready_priority,
            k.lists.num_lists() == k0.lists.num_lists(),
            k.lists.num_items() == k0.lists.num_items(),
            l == k0.list(PENDING_READY_LIST as int),
            cur == k0.current_tcb->0,
            cp == k0.current_priority(),
            0 <= j <= l.len(),
            moved == (j > 0),
            k.list(PENDING_READY_LIST as int) == l.skip(j),
            forall|t: int| 0 <= t < k0.num_tasks() ==> (#[trigger] k.state_container(t)) == (
                if l.take(j).contains(event_item(t) as ItemLink) {
                    Some(k0.task(t).task_priority as ListLink)
                } else {
                    k0.state_container(t)
                }),
            forall|t: int| 0 <= t < k0.num_tasks() ==> (#[trigger] k.event_container(t)) == (
                if l.take(j).contains(event_item(t) as ItemLink) {
                    None
                } else {
                    k0.event_container(t)
                }),
            k.yield_pending == (k0.yield_pending
                || exists|m: int| 0 <= m < j && #[trigger] owner_has_priority_at_least(&k0, l[m], cp)),
            forall|i: int| 0 <= i < k0.lists.num_items() ==>
                #[trigger] k.lists.item(i).item_value == k0.lists.item(i).item_value,
        decreases l.len() - j,
    {
        let i = k.lists.list_head(PENDING_READY_LIST);
        proof {
            k.lemma_list_item_kind(PENDING_READY_LIST as int, 0);
            assert(l.skip(j)[0] == l[j]);
        }
        let owner = get_list_item_owner(&k.lists, i);
        let ghost kb = *k;
        let t = owner.0;
        proof {
            assert(i == event_item(t as int));
            assert(kb.event_container(t as int) == Some(PENDING_READY_LIST));
            assert(kb.list(PENDING_READY_LIST as int).no_duplicates());
            lemma_index_of_head(kb.list(PENDING_READY_LIST as int));
            crate::list::lemma_seq_remove(kb.list(PENDING_READY_LIST as int), 0);
            assert(kb.task(t as int).state_list_item == state_item(t as int));
            if kb.state_container(t as int) is Some {
                assert(is_state_list(kb.state_container(t as int)->0 as int));
            }
        }
        k.unblock_task(t);
        let ghost ku = *k;
        if k.tasks[t].task_priority >= cp {
            k.yield_pending = true;
            proof { lemma_wf_after_scalars(&ku, k); }
        }
        moved = true;
        proof {
            let p = k0.task(t as int).task_priority;
            assert((p as int) < CONFIG_MAX_PRIORITIES);
            assert(k.list(PENDING_READY_LIST as int) == ku.list(PENDING_READY_LIST as int));
            assert(k.list(PENDING_READY_LIST as int) =~= l.skip(j + 1));
            assert(l.no_duplicates());
            assert(l.take(j + 1) =~= l.take(j).push(l[j]));
            assert forall|t2: int| #[trigger] k.state_container(t2) == ku.state_container(t2) by {}
            assert forall|t2: int| #[trigger] k.event_container(t2) == ku.event_container(t2) by {}
            assert forall|t2: int| 0 <= t2 < k0.num_tasks() implies (#[trigger] k.state_container(t2)) == (
                if l.take(j + 1).contains(event_item(t2) as ItemLink) {
                    Some(k0.task(t2).task_priority as ListLink)
                } else {
                    k0.state_container(t2)
                }) by {
                assert(kb.state_container(t2) == (
                    if l.take(j).contains(event_item(t2) as ItemLink) {
                        Some(k0.task(t2).task_priority as ListLink)
                    } else {
                        k0.state_container(t2)
                    }));
                lemma_take_push_contains(l, j, event_item(t2) as ItemLink);
                if t2 != t as int {
                    assert(ku.lists.item(state_item(t2)) == kb.lists.item(state_item(t2)));
                } else {
                    assert(l.take(j + 1)[j] == l[j]);
                }
            }
            assert forall|t2: int| 0 <= t2 < k0.num_tasks() implies (#[trigger] k.event_container(t2)) == (
                if l.take(j + 1).contains(event_item(t2) as ItemLink) {
                    None
                } else {
                    k0.event_container(t2)
                }) by {
                assert(kb.event_container(t2) == (
                    if l.take(j).contains(event_item(t2) as ItemLink) {
                        None
                    } else {
                        k0.event_container(t2)
                    }));
                lemma_take_push_contains(l, j, event_item(t2) as ItemLink);
                if t2 != t as int {
                    assert(ku.lists.item(event_item(t2)) == kb.lists.item(event_item(t2)));
                } else {
                    assert(l.take(j + 1)[j] == l[j]);
                }
            }
            assert forall|i2: int| 0 <= i2 < k0.lists.num_items() implies
                #[trigger] k.lists.item(i2).item_value == k0.lists.item(i2).item_value by {
                assert(k.lists.item(i2) == ku.lists.item(i2));
                assert(kb.lists.item(i2).item_value == k0.lists.item(i2).item_value);
            }
            assert forall|i2: int| 0 <= i2 < k0.lists.num_items() implies
                #[trigger] k.lists.item(i2).item_value == k0.lists.item(i2).item_value by {
                assert(k.lists.item(i2) == ku.lists.item(i2));
                assert(kb.lists.item(i2).item_value == k0.lists.item(i2).item_value);
            }
            assert(owner_has_priority_at_least(&k0, l[j], cp) == (k.task(t as int).task_priority >= cp));
            if k.yield_pending && !k0.yield_pending {
                if !(exists|m: int| 0 <= m < j && #[trigger] owner_has_priority_at_least(&k0, l[m], cp)) {
                    assert(owner_has_priority_at_least(&k0, l[j], cp));
                }
            }
            j = j + 1;
        }
    }
    proof {
        assert(j == l.len());
        assert(l.take(j) =~= l);
        assert forall|t: int| #[trigger] k0.state_container(t) == old(k).state_container(t) by {}
        assert forall|t: int| #[trigger] k0.event_container(t) == old(k).event_container(t) by {}
    }
    moved
}

/// Membership in a prefix that grows by one element.
pub proof fn lemma_take_push_contains(l: Seq<ItemLink>, j: int, x: ItemLink)
    requires
        0 <= j < l.len(),
        l.no_duplicates(),
    ensures
        l.take(j + 1).contains(x) == (l.take(j).contains(x) || l[j] == x),
        l.take(j).contains(l[j]) == false,
{
    let a = l.take(j);
    let b = l.take(j + 1);
    assert(b =~= a.push(l[j]));
    if a.contains(l[j]) {
        let q = choose|q: int| 0 <= q < a.len() && a[q] == l[j];
        assert(l[q] == l[j]);
    }
    if b.contains(x) {
        let q = choose|q: int| 0 <= q < b.len() && b[q] == x;
        if q < j {
            assert(a[q] == x);
        }
    }
    if a.contains(x) {
        let q = choose|q: int| 0 <= q < a.len() && a[q] == x;
        assert(b[q] == x);
    }
    if l[j] == x {
        assert(b[j] == x);
    }
}

/// The tick count after `n` more ticks, counted modulo 2^32.
pub open spec fn ticks_later(tick: TickType, n: int) -> int {
    (tick as int + n) % 0x1_0000_0000
}

proof fn lemma_next_tick_later(tick: TickType, n: int, cur: TickType)
    requires
        n >= 0,
        cur as int == ticks_later(tick, n),
    ensures
        next_tick(cur) as int == ticks_later(tick, n + 1),
{
    let m: int = 0x1_0000_0000;
    let x = tick as int + n;
    vstd::arithmetic::div_mod::lemma_add_mod_noop(x, 1, m);
    assert(1int % m == 1);
    assert((x % m + 1) % m == (x + 1) % m);
    if cur == TickType::MAX {
        assert(x % m + 1 == m);
        assert(m % m == 0) by { vstd::arithmetic::div_mod::lemma_mod_self_0(m); }
    } else {
        assert(x % m + 1 < m);
        vstd::arithmetic::div_mod::lemma_small_mod((x % m + 1) as nat, m as nat);
    }
}

/// Processes the ticks that were counted while the scheduler was suspended,
/// one tick at a time; a yield is held pending when one of them requires a
/// context switch.  No tick remains pended afterwards.
pub fn process_pended_ticks(k: &mut Kernel)
    requires
        old(k).wf(),
        old(k).has_current(),
        old(k).scheduler_suspended == 0,
    ensures
        final(k).wf(),
        final(k).pended_ticks == 0,
        final(k).tick_count as int == ticks_later(old(k).tick_count, old(k).pended_ticks as int),
        old(k).yield_pending ==> final(k).yield_pending,
        final(k).tasks == old(k).tasks,
        final(k).current_tcb == old(k).current_tcb,
        final(k).idle_task_handle == old(k).idle_task_handle,
        final(k).scheduler_suspended == 0,
        final(k).scheduler_running == old(k).scheduler_running,
        final(k).current_number_of_tasks == old(k).current_number_of_tasks,
        final(k).task_number == old(k).task_number,
        final(k).top_ready_priority >= old(k).top_ready_priority,
        final(k).lists.num_lists() == old(k).lists.num_lists(),
        forall|t: int| 0 <= t < old(k).num_tasks() ==>
            (#[trigger] final(k).event_container(t)) is None || final(k).event_container(t) == old(k).event_container(t),
        forall|t: int| 0 <= t < old(k).num_tasks() && is_ready_task(old(k), t) ==>
            #[trigger] final(k).state_container(t) == old(k).state_container(t),
        old(k).pended_ticks == 0 ==> *final(k) == *old(k),
        final(k).lists.num_items() == old(k).lists.num_items(),
        forall|i: int| 0 <= i < old(k).lists.num_items() ==>
            #[trigger] final(k).lists.item(i).item_value == old(k).lists.item(i).item_value,
{
    let mut pended_counts = k.pended_ticks;
    proof {
        vstd::arithmetic::div_mod::lemma_small_mod(old(k).tick_count as nat, 0x1_0000_0000nat);
    }
    if pended_counts > 0 {
        loop
            invariant_except_break
                0 < pended_counts,
            invariant
                k.wf(),
                k.has_current(),
                k.scheduler_suspended == 0,
                pended_counts <= old(k).pended_ticks,
                k.pended_ticks == old(k).pended_ticks,
                k.tick_count as int == ticks_later(old(k).tick_count, old(k).pended_ticks - pended_counts),
                old(k).yield_pending ==> k.yield_pending,
                k.tasks == old(k).tasks,
                k.current_tcb == old(k).current_tcb,
                k.idle_task_handle == old(k).idle_task_handle,
                k.scheduler_running == old(k).scheduler_running,
                k.current_number_of_tasks == old(k).current_number_of_tasks,
                k.task_number == old(k).task_number,
                k.top_ready_priority >= old(k).top_ready_priority,
                k.lists.num_lists() == old(k).lists.num_lists(),
                forall|t: int| 0 <= t < old(k).num_tasks() ==>
                    (#[trigger] k.event_container(t)) is None || k.event_container(t) == old(k).event_container(t),
                forall|t: int| 0 <= t < old(k).num_tasks() && is_ready_task(old(k), t) ==>
                    #[trigger] k.state_container(t) == old(k).state_container(t),
                k.lists.num_items() == old(k).lists.num_items(),
                forall|i: int| 0 <= i < old(k).lists.num_items() ==>
                    #[trigger] k.lists.item(i).item_value == old(k).lists.item(i).item_value,
            ensures
                k.wf(),
                k.has_current(),
                k.pended_ticks == old(k).pended_ticks,
                k.tick_count as int == ticks_later(old(k).tick_count, old(k).pended_ticks as int),
                old(k).yield_pending ==> k.yield_pending,
                k.tasks == old(k).tasks,
                k.current_tcb == old(k).current_tcb,
                k.idle_task_handle == old(k).idle_task_handle,
                k.scheduler_suspended == 0,
                k.scheduler_running == old(k).scheduler_running,
                k.current_number_of_tasks == old(k).current_number_of_tasks,
                k.task_number == old(k).task_number,
                k.top_ready_priority >= old(k).top_ready_priority,
                k.lists.num_lists() == old(k).lists.num_lists(),
                forall|t: int| 0 <= t < old(k).num_tasks() ==>
                    (#[trigger] k.event_container(t)) is None || k.event_container(t) == old(k).event_container(t),
                forall|t: int| 0 <= t < old(k).num_tasks() && is_ready_task(old(k), t) ==>
                    #[trigger] k.state_container(t) == old(k).state_container(t),
                k.lists.num_items() == old(k).lists.num_items(),
                forall|i: int| 0 <= i < old(k).lists.num_items() ==>
                    #[trigger] k.lists.item(i).item_value == old(k).lists.item(i).item_value,
            decreases pended_counts,
        {
            let ghost before = *k;
            let switch_required = task_increment_tick(k);
            proof {
                lemma_next_tick_later(old(k).tick_count, old(k).pended_ticks - pended_counts, before.tick_count);
            }
            proof {
                assert forall|t: int| 0 <= t < old(k).num_tasks() implies
                    (#[trigger] k.event_container(t)) is None || k.event_container(t) == old(k).event_container(t) by {
                    assert(before.event_container(t) is None || before.event_container(t) == old(k).event_container(t));
                }
                assert forall|t: int| 0 <= t < old(k).num_tasks() && is_ready_task(old(k), t) implies
                    #[trigger] k.state_container(t) == old(k).state_container(t) by {
                    assert(before.state_container(t) == old(k).state_container(t));
                    let c = next_tick(before.tick_count);
                    let d = delayed_list_at(&before, c);
                    let l = before.list(d as int);
                    let n = expired_count(&before, c);
                    if l.take(n as int).contains(state_item(t) as ItemLink) {
                        let m = choose|m: int| 0 <= m < n && l.take(n as int)[m] == state_item(t) as ItemLink;
                        assert(l[m] == state_item(t) as ItemLink);
                        before.lemma_list_item_kind(d as int, m);
                        assert(false);
                    }
                }
            }
            if switch_required {
                let ghost kb = *k;
                k.yield_pending = true;
                proof {
                    lemma_wf_after_scalars(&kb, k);
                    assert forall|t: int| #[trigger] k.event_container(t) == kb.event_container(t) by {}
                    assert forall|t: int| #[trigger] k.state_container(t) == kb.state_container(t) by {}
                }
            }
            pended_counts = pended_counts - 1;
            if pended_counts == 0 {
                break;
            }
        }
        let ghost kb = *k;
        k.pended_ticks = 0;
        proof {
            lemma_wf_after_scalars(&kb, k);
            assert forall|t: int| #[trigger] k.event_container(t) == kb.event_container(t) by {}
            assert forall|t: int| #[trigger] k.state_container(t) == kb.state_container(t) by {}
        }
    }
}

/// Task `t` is in a ready list.
pub open spec fn is_ready_task(k: &Kernel, t: int) -> bool {
    k.state_container(t) matches Some(p) && p < CONFIG_MAX_PRIORITIES
}

/// Resumes the scheduler after one suspension.  When this was the last
/// suspension and tasks exist, the tasks readied meanwhile are moved to their
/// ready lists (and the next wake time recomputed if any moved), the pended
/// ticks are processed, and the result tells whether a yield is pending.
pub fn task_resume_all(k: &mut Kernel) -> (already_yielded: bool)
    requires
        old(k).wf(),
        old(k).scheduler_suspended > 0,
        (old(k).scheduler_suspended == 1 && old(k).current_number_of_tasks > 0) ==> old(k).has_current(),
    ensures
        final(k).wf(),
        final(k).scheduler_suspended == old(k).scheduler_suspended - 1,
        final(k).lists.num_lists() == old(k).lists.num_lists(),
        final(k).current_tcb == old(k).current_tcb,
        !(old(k).scheduler_suspended == 1 && old(k).current_number_of_tasks > 0) ==> {
            &&& *final(k) == resumed_once(*old(k))
            &&& !already_yielded
        },
        (old(k).scheduler_suspended == 1 && old(k).current_number_of_tasks > 0) ==> {
            &&& final(k).list(PENDING_READY_LIST as int).len() == 0
            &&& final(k).pended_ticks == 0
            &&& final(k).tick_count as int == ticks_later(old(k).tick_count, old(k).pended_ticks as int)
            &&& already_yielded == final(k).yield_pending
            &&& old(k).yield_pending ==> already_yielded
            &&& final(k).tasks == old(k).tasks
            &&& final(k).current_tcb == old(k).current_tcb
            &&& final(k).scheduler_running == old(k).scheduler_running
            &&& forall|t: int| 0 <= t < old(k).num_tasks()
                && old(k).list(PENDING_READY_LIST as int).contains(event_item(t) as ItemLink) ==>
                #[trigger] final(k).state_container(t) == Some(old(k).task(t).task_priority as ListLink)
            &&& forall|t: int| 0 <= t < old(k).num_tasks()
                && old(k).list(PENDING_READY_LIST as int).contains(event_item(t) as ItemLink) ==>
                #[trigger] final(k).event_container(t) is None
            &&& forall|i: int| 0 <= i < old(k).lists.num_items() ==>
                #[trigger] final(k).lists.item(i).item_value == old(k).lists.item(i).item_value
            &&& old(k).pended_ticks == 0 ==> forall|t: int| 0 <= t < old(k).num_tasks()
                && !old(k).list(PENDING_READY_LIST as int).contains(event_item(t) as ItemLink) ==>
                #[trigger] final(k).state_container(t) == old(k).state_container(t)
            &&& old(k).pended_ticks == 0 ==> forall|t: int| 0 <= t < old(k).num_tasks()
                && !old(k).list(PENDING_READY_LIST as int).contains(event_item(t) as ItemLink) ==>
                #[trigger] final(k).event_container(t) == old(k).event_container(t)
        },
{
    k.scheduler_suspended = k.scheduler_suspended - 1;
    proof { lemma_wf_after_scalars(old(k), k); }
    let mut already_yielded = false;
    if k.scheduler_suspended == 0 {
        if k.current_number_of_tasks > 0 {
            let ghost k1 = *k;
            if move_tasks_to_ready_list(k) {
                let ghost km = *k;
                reset_next_task_unblock_time(k);
                proof {
                    assert forall|t: int| #[trigger] k.state_container(t) == km.state_container(t) by {}
                    assert forall|t: int| #[trigger] k.event_container(t) == km.event_container(t) by {}
                }
            }
            let ghost k2 = *k;
            proof {
                assert forall|t: int| #[trigger] k1.state_container(t) == old(k).state_container(t) by {}
                assert forall|t: int| #[trigger] k1.event_container(t) == old(k).event_container(t) by {}
                assert(k1.list(PENDING_READY_LIST as int) == old(k).list(PENDING_READY_LIST as int));
            }
            proof {
                assert(k2.list(PENDING_READY_LIST as int).len() == 0);
                assert forall|t: int| 0 <= t < k2.num_tasks() implies
                    #[trigger] k2.event_container(t) != Some(PENDING_READY_LIST) by {
                    assert(k2.task(t).event_list_item == event_item(t));
                    if k2.event_container(t) == Some(PENDING_READY_LIST) {
                        assert(k2.lists.contains(PENDING_READY_LIST as int, event_item(t)));
                    }
                }
            }
            process_pended_ticks(k);
            proof {
                assert forall|t: int| 0 <= t < old(k).num_tasks()
                    && old(k).list(PENDING_READY_LIST as int).contains(event_item(t) as ItemLink) implies
                    #[trigger] k.state_container(t) == Some(old(k).task(t).task_priority as ListLink)
                    && k.event_container(t) is None by {
                    assert(k1.list(PENDING_READY_LIST as int).contains(event_item(t) as ItemLink));
                    assert(k2.state_container(t) == Some(old(k).task(t).task_priority as ListLink));
                    assert(k2.event_container(t) is None);
                    assert(old(k).task(t).task_priority < CONFIG_MAX_PRIORITIES);
                    assert(is_ready_task(&k2, t));
                }
                if k.list(PENDING_READY_LIST as int).len() > 0 {
                    k.lemma_list_item_kind(PENDING_READY_LIST as int, 0);
                    let t = k.list(PENDING_READY_LIST as int)[0] as int / 2;
                    assert(k.event_container(t) == Some(PENDING_READY_LIST));
                    assert(k2.event_container(t) != Some(PENDING_READY_LIST));
                }
            }
            if k.yield_pending {
                already_yielded = true;
            }
        }
    }
    already_yielded
}

/// Charges the running task with the run time since it was switched in:
/// given the run time counter's value `total_run_time`, the time since the
/// last switch is added to the task's counter (when the counter has moved
/// forward), and the counter's value is recorded as the new switch time.
pub fn generate_context_switch_stats(k: &mut Kernel, total_run_time: u32)
    requires
        old(k).wf(),
        old(k).has_current(),
        total_run_time > old(k).task_switched_in_time ==>
            old(k).task(old(k).current_tcb.unwrap().0 as int).runtime_counter + total_run_time
                - old(k).task_switched_in_time <= u32::MAX,
    ensures
        final(k).wf(),
        ({
            let t = old(k).current_tcb.unwrap().0 as int;
            let elapsed = total_run_time - old(k).task_switched_in_time;
            &&& *final(k) == (Kernel {
                tasks: final(k).tasks,
                total_run_time: total_run_time,
                task_switched_in_time: total_run_time,
                ..*old(k)
            })
            &&& final(k).tasks@ == (if elapsed > 0 {
                old(k).tasks@.update(t, TCB {
                    runtime_counter: (old(k).task(t).runtime_counter + elapsed) as u32,
                    ..old(k).task(t)
                })
            } else {
                old(k).tasks@
            })
        }),
{
    k.total_run_time = total_run_time;
    proof { lemma_wf_after_scalars(old(k), k); }
    let switched_in = k.task_switched_in_time;
    if total_run_time > switched_in {
        let current_task = k.current_tcb.unwrap();
        let old_run_time = current_task.get_run_time(k);
        let _ = current_task.set_run_time(k, old_run_time + (total_run_time - switched_in));
    }
    let ghost kb = *k;
    k.task_switched_in_time = total_run_time;
    proof { lemma_wf_after_scalars(&kb, k); }
}

} // verus!
