//! Delaying the running task.
use vstd::prelude::*;
use crate::port::{TickType};
use crate::kernel::{task_suspend_all, task_resume_all};
use crate::task_control::{add_current_task_to_delayed_list, blocking_list, tick_add};
use crate::task_global::{Kernel, event_item, state_item, PENDING_READY_LIST};
use crate::list::ItemLink;

verus! {

/// Delays the running task for `ticks_to_delay` ticks: with the scheduler
/// suspended, the task moves to a delayed list, its state item holding the
/// wake time (the tick count plus the delay, wrapping); resuming the
/// scheduler then processes what happened meanwhile.  Returns whether the
/// caller must still yield (when resuming did not already report a pending
/// yield).  A delay of zero ticks only asks for a yield.
pub fn task_delay(k: &mut Kernel, ticks_to_delay: TickType) -> (yield_required: bool)
    requires
        old(k).wf(),
        old(k).has_current(),
        ticks_to_delay > 0 ==> old(k).scheduler_suspended == 0,
        ticks_to_delay > 0 ==> old(k).state_container(old(k).current_tcb.unwrap().0 as int) is Some,
    ensures
        final(k).wf(),
        ticks_to_delay == 0 ==> *final(k) == *old(k) && yield_required,
        ticks_to_delay > 0 ==> {
            &&& final(k).scheduler_suspended == 0
            &&& final(k).current_tcb == old(k).current_tcb
            &&& final(k).num_tasks() == old(k).num_tasks()
            &&& old(k).current_number_of_tasks > 0 ==> {
                &&& final(k).pended_ticks == 0
                &&& yield_required == !final(k).yield_pending
            }
            &&& old(k).current_number_of_tasks == 0 ==> yield_required
            &&& final(k).lists.item(state_item(old(k).current_tcb.unwrap().0 as int)).item_value
                    == tick_add(old(k).tick_count, ticks_to_delay)
            &&& (old(k).pended_ticks == 0 && old(k).event_container(old(k).current_tcb.unwrap().0 as int) is None) ==>
                final(k).state_container(old(k).current_tcb.unwrap().0 as int)
                    == Some(blocking_list(old(k), ticks_to_delay, false))
        },
{
    let mut already_yielded = false;
    if ticks_to_delay > 0 {
        task_suspend_all(k);
        let ghost k1 = *k;
        add_current_task_to_delayed_list(k, ticks_to_delay, false);
        let ghost k2 = *k;
        proof {
            let t = old(k).current_tcb.unwrap().0 as int;
            assert(blocking_list(&k1, ticks_to_delay, false) == blocking_list(old(k), ticks_to_delay, false));
            if old(k).event_container(t) is None {
                assert(k2.lists.item(event_item(t)) == old(k).lists.item(event_item(t)));
                if k2.list(PENDING_READY_LIST as int).contains(event_item(t) as ItemLink) {
                    let q = choose|q: int| 0 <= q < k2.list(PENDING_READY_LIST as int).len()
                        && k2.list(PENDING_READY_LIST as int)[q] == event_item(t) as ItemLink;
                    k2.lemma_list_item_kind(PENDING_READY_LIST as int, q);
                }
            }
        }
        already_yielded = task_resume_all(k);
    }
    !already_yielded
}

} // verus!
