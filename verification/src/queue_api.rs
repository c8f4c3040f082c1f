//! The queue interface that tasks use.
use vstd::prelude::*;
use crate::port::{UBaseType};
use crate::queue::{
    QueueDefinition, BlockingState, SendStep, QueueStep, has_room, can_block, caller_kept, woke_first};
use crate::queue::{queueUNLOCKED};
use crate::queue_h::{QueueError, QueueType, queueSEND_TO_BACK, queueSEND_TO_FRONT, queueOVERWRITE};
use crate::task_global::Kernel;

verus! {

/// A queue of items of type `T`.
pub struct Queue<T>(pub QueueDefinition<T>);

impl<T: Default + Clone> Queue<T> {
    /// The items in the queue, first to be received first.
    pub open spec fn view(&self) -> Seq<T> {
        self.0.view()
    }

    /// The queue is well formed and unlocked, has no holder, and its event
    /// lists belong to kernel `k`.
    pub open spec fn valid_in(&self, k: &Kernel) -> bool {
        &&& self.0.wf()
        &&& self.0.lists_in(k)
        &&& self.0.kind() == QueueType::Base
        &&& self.0.holder() is None
        &&& self.0.rx() == queueUNLOCKED
        &&& self.0.tx() == queueUNLOCKED
    }

    /// A plain queue of `length` slots.
    pub fn new(k: &mut Kernel, length: UBaseType) -> (q: Self)
        requires
            old(k).wf(),
            1 <= length <= usize::MAX,
            old(k).lists.num_lists() + 2 < usize::MAX,
        ensures
            final(k).wf(),
            q.valid_in(final(k)),
            q@ == Seq::<T>::empty(),
            q.0.capacity() == length,
            q.0.holder() is None,
            final(k).same_but_lists(old(k)),
            final(k).lists.num_lists() == old(k).lists.num_lists() + 2,
            final(k).lists.items_view() == old(k).lists.items_view(),
            forall|l: int| 0 <= l < old(k).lists.num_lists() ==> #[trigger] final(k).list(l) == old(k).list(l),
    {
        Queue(QueueDefinition::new(k, length, QueueType::Base))
    }

    /// One attempt to send `item` to the back of the queue (see `queue_generic_send`).
    pub fn send(&mut self, k: &mut Kernel, item: T, state: &mut BlockingState) -> (r: SendStep<T>)
        requires
            old(self).valid_in(old(k)),
            old(k).wf(),
            old(k).has_current(),
            old(state).ticks_to_wait != 0 && !has_room(&old(self).0, queueSEND_TO_BACK) ==> can_block(old(k)),
            old(self).0.holder() is None,
        ensures
            final(self).valid_in(final(k)),
            final(self).0.capacity() == old(self).0.capacity(),
            final(k).wf(),
            has_room(&old(self).0, queueSEND_TO_BACK) ==> final(self)@ == old(self)@.push(item)
                && (r matches SendStep::Done(Ok(()), _)),
            !has_room(&old(self).0, queueSEND_TO_BACK) ==> final(self)@ == old(self)@,
            !has_room(&old(self).0, queueSEND_TO_BACK) && old(state).ticks_to_wait == 0 ==>
                r == SendStep::<T>::Done(Err(QueueError::QueueFull), false),
            (has_room(&old(self).0, queueSEND_TO_BACK) || old(state).ticks_to_wait == 0) ==> caller_kept(old(k), final(k)),
            (has_room(&old(self).0, queueSEND_TO_BACK) || old(state).ticks_to_wait == 0) ==> *final(state) == *old(state),
            has_room(&old(self).0, queueSEND_TO_BACK) && old(k).list(old(self).0.receive_list() as int).len() > 0 ==>
                (r matches SendStep::Done(Ok(()), y) && woke_first(old(k), final(k), old(self).0.receive_list(), y)),
            has_room(&old(self).0, queueSEND_TO_BACK) && old(k).list(old(self).0.receive_list() as int).len() == 0 ==>
                r == SendStep::<T>::Done(Ok(()), false) && final(k).list(old(self).0.receive_list() as int) == old(k).list(old(self).0.receive_list() as int),
    {
        self.0.queue_generic_send(k, item, state, queueSEND_TO_BACK)
    }

    /// One attempt to send `item` to the front of the queue.
    pub fn send_to_front(&mut self, k: &mut Kernel, item: T, state: &mut BlockingState) -> (r: SendStep<T>)
        requires
            old(self).valid_in(old(k)),
            old(k).wf(),
            old(k).has_current(),
            old(state).ticks_to_wait != 0 && !has_room(&old(self).0, queueSEND_TO_FRONT) ==> can_block(old(k)),
            old(self).0.holder() is None,
        ensures
            final(self).valid_in(final(k)),
            final(self).0.capacity() == old(self).0.capacity(),
            final(k).wf(),
            has_room(&old(self).0, queueSEND_TO_FRONT) ==> final(self)@ == seq![item] + old(self)@
                && (r matches SendStep::Done(Ok(()), _)),
            !has_room(&old(self).0, queueSEND_TO_FRONT) ==> final(self)@ == old(self)@,
            !has_room(&old(self).0, queueSEND_TO_FRONT) && old(state).ticks_to_wait == 0 ==>
                r == SendStep::<T>::Done(Err(QueueError::QueueFull), false),
            (has_room(&old(self).0, queueSEND_TO_FRONT) || old(state).ticks_to_wait == 0) ==> caller_kept(old(k), final(k)),
            (has_room(&old(self).0, queueSEND_TO_FRONT) || old(state).ticks_to_wait == 0) ==> *final(state) == *old(state),
            has_room(&old(self).0, queueSEND_TO_FRONT) && old(k).list(old(self).0.receive_list() as int).len() > 0 ==>
                (r matches SendStep::Done(Ok(()), y) && woke_first(old(k), final(k), old(self).0.receive_list(), y)),
            has_room(&old(self).0, queueSEND_TO_FRONT) && old(k).list(old(self).0.receive_list() as int).len() == 0 ==>
                r == SendStep::<T>::Done(Ok(()), false) && final(k).list(old(self).0.receive_list() as int) == old(k).list(old(self).0.receive_list() as int),
    {
        self.0.queue_generic_send(k, item, state, queueSEND_TO_FRONT)
    }

    /// One attempt to send `item` to the back of the queue.
    pub fn send_to_back(&mut self, k: &mut Kernel, item: T, state: &mut BlockingState) -> (r: SendStep<T>)
        requires
            old(self).valid_in(old(k)),
            old(k).wf(),
            old(k).has_current(),
            old(state).ticks_to_wait != 0 && !has_room(&old(self).0, queueSEND_TO_BACK) ==> can_block(old(k)),
            old(self).0.holder() is None,
        ensures
            final(self).valid_in(final(k)),
            final(self).0.capacity() == old(self).0.capacity(),
            final(k).wf(),
            has_room(&old(self).0, queueSEND_TO_BACK) ==> final(self)@ == old(self)@.push(item)
                && (r matches SendStep::Done(Ok(()), _)),
            !has_room(&old(self).0, queueSEND_TO_BACK) ==> final(self)@ == old(self)@,
            !has_room(&old(self).0, queueSEND_TO_BACK) && old(state).ticks_to_wait == 0 ==>
                r == SendStep::<T>::Done(Err(QueueError::QueueFull), false),
            (has_room(&old(self).0, queueSEND_TO_BACK) || old(state).ticks_to_wait == 0) ==> caller_kept(old(k), final(k)),
            (has_room(&old(self).0, queueSEND_TO_BACK) || old(state).ticks_to_wait == 0) ==> *final(state) == *old(state),
            has_room(&old(self).0, queueSEND_TO_BACK) && old(k).list(old(self).0.receive_list() as int).len() > 0 ==>
                (r matches SendStep::Done(Ok(()), y) && woke_first(old(k), final(k), old(self).0.receive_list(), y)),
            has_room(&old(self).0, queueSEND_TO_BACK) && old(k).list(old(self).0.receive_list() as int).len() == 0 ==>
                r == SendStep::<T>::Done(Ok(()), false) && final(k).list(old(self).0.receive_list() as int) == old(k).list(old(self).0.receive_list() as int),
    {
        self.0.queue_generic_send(k, item, state, queueSEND_TO_BACK)
    }

    /// Replaces the item of a queue of length one (or stores it when the
    /// queue is empty); never blocks.
    pub fn overwrite(&mut self, k: &mut Kernel, item: T) -> (r: Result<(), QueueError>)
        requires
            old(self).valid_in(old(k)),
            old(k).wf(),
            old(k).has_current(),
            old(self).0.holder() is None,
            old(self).0.capacity() == 1,
        ensures
            final(self).valid_in(final(k)),
            final(self).0.capacity() == old(self).0.capacity(),
            final(k).wf(),
            r is Ok,
            final(self)@ == seq![item],
            caller_kept(old(k), final(k)),
            old(k).list(old(self).0.receive_list() as int).len() > 0 ==> woke_first(old(k), final(k), old(self).0.receive_list(),
                old(k).task(old(k).list(old(self).0.receive_list() as int)[0] as int / 2).task_priority > old(k).current_priority()),
    {
        let mut state = BlockingState::new(0);
        match self.0.queue_generic_send(k, item, &mut state, queueOVERWRITE) {
            SendStep::Done(r, _) => r,
            SendStep::Again(_, _) => Err(QueueError::QueueFull),
        }
    }

    /// Sends `item` to the front from an interrupt; the second result tells
    /// whether a task of higher priority than the running one was woken.
    pub fn send_to_front_from_isr(&mut self, k: &mut Kernel, item: T) -> (r: (Result<(), QueueError>, bool))
        requires
            old(self).valid_in(old(k)),
            old(k).wf(),
            old(k).has_current(),
            old(self).0.tx() < i8::MAX,
        ensures
            final(self).valid_in(final(k)),
            final(self).0.capacity() == old(self).0.capacity(),
            final(k).wf(),
            has_room(&old(self).0, queueSEND_TO_FRONT) ==> r.0 is Ok && final(self)@ == seq![item] + old(self)@,
            !has_room(&old(self).0, queueSEND_TO_FRONT) ==> r == (Err::<(), QueueError>(QueueError::QueueFull), false)
                && final(self)@ == old(self)@,
            caller_kept(old(k), final(k)),
            has_room(&old(self).0, queueSEND_TO_FRONT) && old(k).list(old(self).0.receive_list() as int).len() > 0 ==>
                woke_first(old(k), final(k), old(self).0.receive_list(), r.1),
            has_room(&old(self).0, queueSEND_TO_FRONT) && old(k).list(old(self).0.receive_list() as int).len() == 0 ==>
                !r.1 && final(k).list(old(self).0.receive_list() as int) == old(k).list(old(self).0.receive_list() as int),
    {
        self.0.queue_generic_send_from_isr(k, item, queueSEND_TO_FRONT)
    }

    /// Sends `item` to the back from an interrupt.
    pub fn send_to_back_from_isr(&mut self, k: &mut Kernel, item: T) -> (r: (Result<(), QueueError>, bool))
        requires
            old(self).valid_in(old(k)),
            old(k).wf(),
            old(k).has_current(),
            old(self).0.tx() < i8::MAX,
        ensures
            final(self).valid_in(final(k)),
            final(self).0.capacity() == old(self).0.capacity(),
            final(k).wf(),
            has_room(&old(self).0, queueSEND_TO_BACK) ==> r.0 is Ok && final(self)@ == old(self)@.push(item),
            !has_room(&old(self).0, queueSEND_TO_BACK) ==> r == (Err::<(), QueueError>(QueueError::QueueFull), false)
                && final(self)@ == old(self)@,
            caller_kept(old(k), final(k)),
            has_room(&old(self).0, queueSEND_TO_BACK) && old(k).list(old(self).0.receive_list() as int).len() > 0 ==>
                woke_first(old(k), final(k), old(self).0.receive_list(), r.1),
            has_room(&old(self).0, queueSEND_TO_BACK) && old(k).list(old(self).0.receive_list() as int).len() == 0 ==>
                !r.1 && final(k).list(old(self).0.receive_list() as int) == old(k).list(old(self).0.receive_list() as int),
    {
        self.0.queue_generic_send_from_isr(k, item, queueSEND_TO_BACK)
    }

    /// Replaces the item of a queue of length one from an interrupt.
    pub fn overwrite_from_isr(&mut self, k: &mut Kernel, item: T) -> (r: (Result<(), QueueError>, bool))
        requires
            old(self).valid_in(old(k)),
            old(k).wf(),
            old(k).has_current(),
            old(self).0.tx() < i8::MAX,
            old(self).0.capacity() == 1,
        ensures
            final(self).valid_in(final(k)),
            final(self).0.capacity() == old(self).0.capacity(),
            final(k).wf(),
            r.0 is Ok,
            final(self)@ == seq![item],
            caller_kept(old(k), final(k)),
            has_room(&old(self).0, queueOVERWRITE) && old(k).list(old(self).0.receive_list() as int).len() > 0 ==>
                woke_first(old(k), final(k), old(self).0.receive_list(), r.1),
            has_room(&old(self).0, queueOVERWRITE) && old(k).list(old(self).0.receive_list() as int).len() == 0 ==>
                !r.1 && final(k).list(old(self).0.receive_list() as int) == old(k).list(old(self).0.receive_list() as int),
    {
        self.0.queue_generic_send_from_isr(k, item, queueOVERWRITE)
    }

    /// One attempt to take the first item (see `queue_generic_receive`).
    pub fn receive(&mut self, k: &mut Kernel, state: &mut BlockingState) -> (r: QueueStep<Result<T, QueueError>>)
        requires
            old(self).valid_in(old(k)),
            old(k).wf(),
            old(k).has_current(),
            old(state).ticks_to_wait != 0 && old(self)@.len() == 0 ==> can_block(old(k)),
            old(self).0.holder() is None,
        ensures
            final(self).valid_in(final(k)),
            final(self).0.capacity() == old(self).0.capacity(),
            final(k).wf(),
            old(self)@.len() > 0 ==> final(self)@ == old(self)@.drop_first()
                && (r matches QueueStep::Done(Ok(x), _) && x == old(self)@[0]),
            old(self)@.len() == 0 ==> final(self)@ == old(self)@,
            old(self)@.len() == 0 && old(state).ticks_to_wait == 0 ==>
                (r matches QueueStep::Done(Err(QueueError::QueueEmpty), false)),
            (old(self)@.len() > 0 || old(state).ticks_to_wait == 0) ==> caller_kept(old(k), final(k)),
            (old(self)@.len() > 0 || old(state).ticks_to_wait == 0) ==> *final(state) == *old(state),
            old(self)@.len() > 0 && old(k).list(old(self).0.send_list() as int).len() > 0 ==>
                (r matches QueueStep::Done(_, y) && woke_first(old(k), final(k), old(self).0.send_list(), y)),
    {
        self.0.queue_generic_receive(k, state, false)
    }

    /// One attempt to copy the first item, leaving it in the queue.
    pub fn peek(&mut self, k: &mut Kernel, state: &mut BlockingState) -> (r: QueueStep<Result<T, QueueError>>)
        requires
            old(self).valid_in(old(k)),
            old(k).wf(),
            old(k).has_current(),
            old(state).ticks_to_wait != 0 && old(self)@.len() == 0 ==> can_block(old(k)),
            old(self).0.holder() is None,
        ensures
            final(self).valid_in(final(k)),
            final(self).0.capacity() == old(self).0.capacity(),
            final(k).wf(),
            final(self)@ == old(self)@,
            old(self)@.len() > 0 ==> (r matches QueueStep::Done(Ok(x), _) && cloned(old(self)@[0], x)),
            old(self)@.len() == 0 && old(state).ticks_to_wait == 0 ==>
                (r matches QueueStep::Done(Err(QueueError::QueueEmpty), false)),
            (old(self)@.len() > 0 || old(state).ticks_to_wait == 0) ==> caller_kept(old(k), final(k)),
            (old(self)@.len() > 0 || old(state).ticks_to_wait == 0) ==> *final(state) == *old(state),
            old(self)@.len() > 0 && old(k).list(old(self).0.receive_list() as int).len() > 0 ==>
                (r matches QueueStep::Done(_, y) && woke_first(old(k), final(k), old(self).0.receive_list(), y)),
    {
        self.0.queue_generic_receive(k, state, true)
    }
}

} // verus!
