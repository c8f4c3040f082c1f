//! Semaphores and mutexes, built on queues whose items carry no data: a
//! semaphore is taken by sending to its queue and given by receiving from it.
use vstd::prelude::*;
use crate::port::{UBaseType};
use crate::queue::{QueueDefinition, BlockingState, SendStep, QueueStep, has_room, can_block, holder_in, is_mutex_type, caller_kept, woke_first};
use crate::queue_h::{QueueError, QueueType, queueSEND_TO_BACK, semGIVE_BLOCK_TIME};
use crate::task_control::TaskHandle;
use crate::task_global::Kernel;
use crate::task_queue::{priority_inherited, priority_disinherited};

verus! {

/// A semaphore or mutex.
pub struct Semaphore(pub QueueDefinition<Option<TaskHandle>>);

impl Semaphore {
    /// How many times the semaphore is taken.
    pub open spec fn count(&self) -> nat {
        self.0.view().len()
    }

    /// The semaphore is well formed and its event lists belong to kernel `k`.
    pub open spec fn valid_in(&self, k: &Kernel) -> bool {
        &&& self.0.wf()
        &&& self.0.lists_in(k)
        &&& holder_in(&self.0, k)
    }

    /// A semaphore of `length` slots and kind `kind`.
    fn create(k: &mut Kernel, length: UBaseType, kind: QueueType) -> (s: Self)
        requires
            old(k).wf(),
            1 <= length <= usize::MAX,
            old(k).lists.num_lists() + 2 < usize::MAX,
        ensures
            final(k).wf(),
            s.valid_in(final(k)),
            s.count() == 0,
            s.0.capacity() == length,
            s.0.kind() == kind,
            s.0.holder() is None,
            s.0.recursive_count() == 0,
            final(k).same_but_lists(old(k)),
            final(k).lists.num_lists() == old(k).lists.num_lists() + 2,
            final(k).lists.items_view() == old(k).lists.items_view(),
            forall|l: int| 0 <= l < old(k).lists.num_lists() ==> #[trigger] final(k).list(l) == old(k).list(l),
    {
        Semaphore(QueueDefinition::new(k, length, kind))
    }

    /// A mutex, not held by any task.
    pub fn new_mutex(k: &mut Kernel) -> (s: Self)
        requires
            old(k).wf(),
            old(k).lists.num_lists() + 2 < usize::MAX,
        ensures
            final(k).wf(),
            s.valid_in(final(k)),
            s.count() == 0,
            s.0.capacity() == 1,
            s.0.kind() == QueueType::Mutex,
            s.0.holder() is None,
            final(k).same_but_lists(old(k)),
            final(k).lists.num_lists() == old(k).lists.num_lists() + 2,
            final(k).lists.items_view() == old(k).lists.items_view(),
            forall|l: int| 0 <= l < old(k).lists.num_lists() ==> #[trigger] final(k).list(l) == old(k).list(l),
    {
        Self::create(k, 1, QueueType::Mutex)
    }

    /// A binary semaphore, not taken.
    pub fn create_binary(k: &mut Kernel) -> (s: Self)
        requires
            old(k).wf(),
            old(k).lists.num_lists() + 2 < usize::MAX,
        ensures
            final(k).wf(),
            s.valid_in(final(k)),
            s.count() == 0,
            s.0.capacity() == 1,
            s.0.kind() == QueueType::BinarySemaphore,
            s.0.holder() is None,
            final(k).same_but_lists(old(k)),
            final(k).lists.num_lists() == old(k).lists.num_lists() + 2,
            final(k).lists.items_view() == old(k).lists.items_view(),
            forall|l: int| 0 <= l < old(k).lists.num_lists() ==> #[trigger] final(k).list(l) == old(k).list(l),
    {
        Self::create(k, 1, QueueType::BinarySemaphore)
    }

    /// A counting semaphore that can be taken `max_count` times, not taken yet.
    pub fn create_counting(k: &mut Kernel, max_count: UBaseType) -> (s: Self)
        requires
            old(k).wf(),
            1 <= max_count <= usize::MAX,
            old(k).lists.num_lists() + 2 < usize::MAX,
        ensures
            final(k).wf(),
            s.valid_in(final(k)),
            s.count() == 0,
            s.0.capacity() == max_count,
            s.0.kind() == QueueType::CountingSemaphore,
            s.0.holder() is None,
            final(k).same_but_lists(old(k)),
            final(k).lists.num_lists() == old(k).lists.num_lists() + 2,
            final(k).lists.items_view() == old(k).lists.items_view(),
            forall|l: int| 0 <= l < old(k).lists.num_lists() ==> #[trigger] final(k).list(l) == old(k).list(l),
    {
        let mut s = Self::create(k, max_count, QueueType::CountingSemaphore);
        s.0.initialise_count(0);
        s
    }

    /// A recursive mutex, not held by any task.
    pub fn create_recursive_mutex(k: &mut Kernel) -> (s: Self)
        requires
            old(k).wf(),
            old(k).lists.num_lists() + 2 < usize::MAX,
        ensures
            final(k).wf(),
            s.valid_in(final(k)),
            s.count() == 0,
            s.0.capacity() == 1,
            s.0.kind() == QueueType::RecursiveMutex,
            s.0.holder() is None,
            s.0.recursive_count() == 0,
            final(k).same_but_lists(old(k)),
            final(k).lists.num_lists() == old(k).lists.num_lists() + 2,
            final(k).lists.items_view() == old(k).lists.items_view(),
            forall|l: int| 0 <= l < old(k).lists.num_lists() ==> #[trigger] final(k).list(l) == old(k).list(l),
    {
        Self::create(k, 1, QueueType::RecursiveMutex)
    }

    /// The task that holds the mutex, if any.
    pub fn get_mutex_holder(&self) -> (h: Option<TaskHandle>)
        ensures
            h == self.0.holder(),
    {
        self.0.transed_task_handle_for_mutex()
    }

    /// Gives the semaphore back, never blocking: one take is undone.  For a
    /// mutex the result is the task that held it, which returns from an
    /// inherited priority; giving a semaphore that is not taken fails.
    pub fn semaphore_up(&mut self, k: &mut Kernel) -> (r: Result<Option<TaskHandle>, QueueError>)
        requires
            old(self).valid_in(old(k)),
            old(k).wf(),
            old(k).has_current(),
        ensures
            final(k).wf(),
            final(self).0.wf(),
            final(self).0.lists_in(final(k)),
            final(self).0.kind() == old(self).0.kind(),
            final(self).0.capacity() == old(self).0.capacity(),
            old(self).count() > 0 ==> {
                &&& final(self).count() == old(self).count() - 1
                &&& is_mutex_type(old(self).0.kind()) ==> r == Ok::<Option<TaskHandle>, QueueError>(old(self).0.holder())
                    && final(self).0.holder() is None
                &&& (is_mutex_type(old(self).0.kind()) && old(self).0.holder() is Some) ==>
                    final(k).task(old(self).0.holder().unwrap().0 as int)
                        == priority_disinherited(old(k).task(old(self).0.holder().unwrap().0 as int))
                &&& !is_mutex_type(old(self).0.kind()) ==> r == Ok::<Option<TaskHandle>, QueueError>(old(self).0.view()[0])
            },
            old(self).count() == 0 ==> r == Err::<Option<TaskHandle>, QueueError>(QueueError::QueueEmpty)
                && final(self).count() == 0,
            caller_kept(old(k), final(k)),
            (!is_mutex_type(old(self).0.kind()) && old(self).count() > 0 && old(k).list(old(self).0.send_list() as int).len() > 0) ==>
                woke_first(old(k), final(k), old(self).0.send_list(),
                    old(k).task(old(k).list(old(self).0.send_list() as int)[0] as int / 2).task_priority > old(k).current_priority()),
    {
        let holder = self.0.transed_task_handle_for_mutex();
        let kind = self.0.queue_type();
        let mut state = BlockingState::new(semGIVE_BLOCK_TIME);
        match self.0.queue_generic_receive(k, &mut state, false) {
            QueueStep::Done(Ok(item), _) => {
                if kind == QueueType::Mutex || kind == QueueType::RecursiveMutex {
                    Ok(holder)
                } else {
                    Ok(item)
                }
            },
            QueueStep::Done(Err(e), _) => Err(e),
            QueueStep::Again(_) => Err(QueueError::QueueEmpty),
        }
    }

    /// One attempt to take the semaphore (see `queue_generic_send`); taking a
    /// mutex makes the running task its holder.
    pub fn semaphore_down(&mut self, k: &mut Kernel, state: &mut BlockingState) -> (r: SendStep<Option<TaskHandle>>)
        requires
            old(self).valid_in(old(k)),
            old(k).wf(),
            old(k).has_current(),
            old(state).ticks_to_wait != 0 && !has_room(&old(self).0, queueSEND_TO_BACK) ==> can_block(old(k)),
            is_mutex_type(old(self).0.kind()) ==>
                old(k).task(old(k).current_tcb.unwrap().0 as int).mutexes_held < UBaseType::MAX,
        ensures
            final(k).wf(),
            final(self).0.wf(),
            final(self).0.lists_in(final(k)),
            final(self).0.kind() == old(self).0.kind(),
            final(self).0.capacity() == old(self).0.capacity(),
            has_room(&old(self).0, queueSEND_TO_BACK) ==> {
                &&& final(self).count() == old(self).count() + 1
                &&& (r matches SendStep::Done(Ok(()), _))
                &&& is_mutex_type(old(self).0.kind()) ==> final(self).0.holder() == old(k).current_tcb
            },
            !has_room(&old(self).0, queueSEND_TO_BACK) ==> final(self).count() == old(self).count(),
            !has_room(&old(self).0, queueSEND_TO_BACK) && old(state).ticks_to_wait == 0 ==>
                r == SendStep::<Option<TaskHandle>>::Done(Err(QueueError::QueueFull), false),
            (!has_room(&old(self).0, queueSEND_TO_BACK) && is_mutex_type(old(self).0.kind()) && old(self).0.holder() is Some
                && old(self).0.holder() != old(k).current_tcb
                && old(k).task(old(self).0.holder().unwrap().0 as int).task_priority < old(k).current_priority()) ==>
                final(k).task(old(self).0.holder().unwrap().0 as int)
                    == priority_inherited(old(k).task(old(self).0.holder().unwrap().0 as int), old(k).current_priority()),
            (has_room(&old(self).0, queueSEND_TO_BACK) || old(state).ticks_to_wait == 0) ==> caller_kept(old(k), final(k)),
            (has_room(&old(self).0, queueSEND_TO_BACK) || old(state).ticks_to_wait == 0) ==> *final(state) == *old(state),
            has_room(&old(self).0, queueSEND_TO_BACK) && old(k).list(old(self).0.receive_list() as int).len() > 0 ==>
                (r matches SendStep::Done(Ok(()), y) && woke_first(old(k), final(k), old(self).0.receive_list(), y)),
            has_room(&old(self).0, queueSEND_TO_BACK) && old(k).list(old(self).0.receive_list() as int).len() == 0 ==>
                (r matches SendStep::Done(Ok(()), false)),
    {
        self.0.queue_generic_send(k, None, state, queueSEND_TO_BACK)
    }

    /// Gives a recursive mutex back once.  Only its holder can: the count of
    /// takes drops by one, and at zero the mutex is given back for real.
    /// Returns whether the running task held it.
    pub fn up_recursive(&mut self, k: &mut Kernel) -> (given: bool)
        requires
            old(self).valid_in(old(k)),
            old(k).wf(),
            old(k).has_current(),
            old(self).0.holder() == old(k).current_tcb ==> old(self).0.recursive_count() > 0,
        ensures
            final(k).wf(),
            final(self).0.wf(),
            final(self).0.lists_in(final(k)),
            given == (old(self).0.holder() == old(k).current_tcb),
            given ==> final(self).0.recursive_count() == old(self).0.recursive_count() - 1,
            given && old(self).0.recursive_count() > 1 ==> final(self).count() == old(self).count(),
            (given && old(self).0.recursive_count() == 1 && old(self).count() > 0) ==>
                final(self).count() == old(self).count() - 1
                && (is_mutex_type(old(self).0.kind()) ==> final(self).0.holder() is None),
            !given ==> *final(self) == *old(self) && *final(k) == *old(k),
            caller_kept(old(k), final(k)),
    {
        let holder = self.0.transed_task_handle_for_mutex();
        let cur = k.current_tcb;
        if holder == cur {
            self.0.QueueUnion_decrease();
            if self.0.is_QueueUnion_zero() {
                let mut state = BlockingState::new(semGIVE_BLOCK_TIME);
                let _ = self.0.queue_generic_receive(k, &mut state, false);
            }
            true
        } else {
            false
        }
    }

    /// One attempt to take a recursive mutex: its holder takes it again at
    /// once, counting one more take; another task takes it as a mutex (see
    /// `semaphore_down`), counting a take when it succeeds.
    pub fn down_recursive(&mut self, k: &mut Kernel, state: &mut BlockingState) -> (r: QueueStep<bool>)
        requires
            old(self).valid_in(old(k)),
            old(k).wf(),
            old(k).has_current(),
            old(state).ticks_to_wait != 0 && !has_room(&old(self).0, queueSEND_TO_BACK) ==> can_block(old(k)),
            old(self).0.recursive_count() < UBaseType::MAX,
            is_mutex_type(old(self).0.kind()) ==>
                old(k).task(old(k).current_tcb.unwrap().0 as int).mutexes_held < UBaseType::MAX,
        ensures
            final(k).wf(),
            final(self).0.wf(),
            final(self).0.lists_in(final(k)),
            old(self).0.holder() is Some && old(self).0.holder() == old(k).current_tcb ==> {
                &&& r == QueueStep::<bool>::Done(true, false)
                &&& final(self).0.recursive_count() == old(self).0.recursive_count() + 1
                &&& *final(k) == *old(k)
            },
            (r matches QueueStep::Done(true, _)) ==> final(self).0.recursive_count() == old(self).0.recursive_count() + 1,
            (!(old(self).0.holder() is Some && old(self).0.holder() == old(k).current_tcb)
                && has_room(&old(self).0, queueSEND_TO_BACK)) ==> {
                &&& (r matches QueueStep::Done(true, _))
                &&& final(self).count() == old(self).count() + 1
                &&& is_mutex_type(old(self).0.kind()) ==> final(self).0.holder() == old(k).current_tcb
            },
            (r matches QueueStep::Done(false, _)) ==> final(self).0.recursive_count() == old(self).0.recursive_count(),
            (old(self).0.holder() is Some && old(self).0.holder() == old(k).current_tcb
                || has_room(&old(self).0, queueSEND_TO_BACK) || old(state).ticks_to_wait == 0) ==> caller_kept(old(k), final(k)),
            (old(self).0.holder() is Some && old(self).0.holder() == old(k).current_tcb
                || has_room(&old(self).0, queueSEND_TO_BACK) || old(state).ticks_to_wait == 0) ==> *final(state) == *old(state),
    {
        let holder = self.0.transed_task_handle_for_mutex();
        let cur = k.current_tcb;
        if holder.is_some() && holder == cur {
            self.0.QueueUnion_increase();
            return QueueStep::Done(true, false);
        }
        let count_before = self.0.get_recursive_count();
        match self.0.queue_generic_send(k, None, state, queueSEND_TO_BACK) {
            SendStep::Done(Ok(()), y) => {
                if self.0.get_recursive_count() < UBaseType::MAX {
                    self.0.QueueUnion_increase();
                    QueueStep::Done(true, y)
                } else {
                    QueueStep::Done(false, y)
                }
            },
            SendStep::Done(Err(_), _) => QueueStep::Done(false, false),
            SendStep::Again(_, y) => QueueStep::Again(y),
        }
    }

    /// How many times the holder of a recursive mutex has taken it.
    pub fn get_recursive_count(&self) -> (n: UBaseType)
        ensures
            n == self.0.recursive_count(),
    {
        self.0.get_recursive_count()
    }
}

} // verus!
