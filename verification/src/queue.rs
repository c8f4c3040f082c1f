//! Queues: a ring of item slots, the lists of tasks waiting to send and to
//! receive, and the locks that interrupts respect.  Semaphores and mutexes
//! are queues too.
use vstd::prelude::*;
use crate::port::{BaseType, TickType, UBaseType};
use crate::list::{ListLink, list_is_empty};
use crate::queue_h::{QueueError, QueueType, queueSEND_TO_BACK, queueSEND_TO_FRONT, queueOVERWRITE};
use crate::task_control::TaskHandle;
use crate::task_global::{Kernel, FIRST_EVENT_LIST, PENDING_READY_LIST, event_item};
use crate::list::ItemLink;
use crate::task_queue::{
    time_out, task_remove_from_event_list, task_missed_yield, task_increment_mutex_held_count,
    task_priority_inherit, task_priority_disinherit, task_set_time_out_state, task_check_for_timeout,
    task_place_on_event_list, timed_out, priority_inherited, priority_disinherited};
use crate::kernel::{task_suspend_all, task_resume_all};

verus! {

/// The lock value of a queue that is not locked.
pub const queueUNLOCKED: i8 = -1i8;
/// The lock value of a locked queue that nothing has changed yet.
pub const queueLOCKED_UNMODIFIED: i8 = 0i8;
/// Marks a queue that is a mutex.
pub const queueQUEUE_IS_MUTEX: UBaseType = 0u64;
/// Items of semaphores carry no data.
pub const queueSEMAPHORE_QUEUE_ITEM_LENGTH: UBaseType = 0u64;
/// Giving a mutex never blocks.
pub const queueMUTEX_GIVE_BLOCK_TIME: TickType = 0u32;

/// Slot `i` places after `start` in a ring of `len` slots (`start`, `i` below `len`).
pub open spec fn ring_index(start: int, i: int, len: int) -> int {
    if start + i < len { start + i } else { start + i - len }
}

/// The slot after `i` in a ring of `len` slots.
pub open spec fn ring_next(i: int, len: int) -> int {
    if i + 1 >= len { 0 } else { i + 1 }
}

/// The queue kinds that are mutexes.
pub open spec fn is_mutex_type(t: QueueType) -> bool {
    t == QueueType::Mutex || t == QueueType::RecursiveMutex
}

/// A queue of items of type `T`.
pub struct QueueDefinition<T> {
    slots: Vec<T>,
    head: UBaseType,
    tail: UBaseType,
    write_to: UBaseType,
    read_from: UBaseType,
    /// The recursive call count of a recursive mutex.
    queue_union: UBaseType,
    tasks_waiting_to_send: ListLink,
    tasks_waiting_to_receive: ListLink,
    messages_waiting: UBaseType,
    length: UBaseType,
    rx_lock: i8,
    tx_lock: i8,
    queue_number: UBaseType,
    queue_type: QueueType,
    mutex_holder: Option<TaskHandle>,
}

impl<T> QueueDefinition<T> {
    /// The items in the queue, first to be received first.
    pub closed spec fn view(&self) -> Seq<T> {
        Seq::new(
            self.messages_waiting as nat,
            |i: int| self.slots@[ring_index(self.front() as int, i, self.length as int)],
        )
    }

    /// The slot of the first item.
    pub closed spec fn front(&self) -> UBaseType {
        ring_next(self.read_from as int, self.length as int) as UBaseType
    }

    /// How many items the queue can hold.
    pub closed spec fn capacity(&self) -> nat {
        self.length as nat
    }

    pub closed spec fn kind(&self) -> QueueType {
        self.queue_type
    }

    /// The event list of tasks waiting to send.
    pub closed spec fn send_list(&self) -> ListLink {
        self.tasks_waiting_to_send
    }

    /// The event list of tasks waiting to receive.
    pub closed spec fn receive_list(&self) -> ListLink {
        self.tasks_waiting_to_receive
    }

    /// The task that holds a mutex.
    pub closed spec fn holder(&self) -> Option<TaskHandle> {
        self.mutex_holder
    }

    /// How many times the holder of a recursive mutex has taken it.
    pub closed spec fn recursive_count(&self) -> UBaseType {
        self.queue_union
    }

    /// The receive lock: unlocked, or how many items were removed while locked.
    pub closed spec fn rx(&self) -> i8 {
        self.rx_lock
    }

    /// The send lock: unlocked, or how many items were added while locked.
    pub closed spec fn tx(&self) -> i8 {
        self.tx_lock
    }

    pub closed spec fn number(&self) -> UBaseType {
        self.queue_number
    }

    /// The slot last read from; the first item is in the slot after it.
    pub closed spec fn read_position(&self) -> UBaseType {
        self.read_from
    }

    /// What slot `i` of the ring holds.
    pub closed spec fn slot(&self, i: int) -> T {
        self.slots@[i]
    }

    /// The same queue with its read position at `r`.
    pub closed spec fn with_read_position(self, r: UBaseType) -> Self {
        QueueDefinition { read_from: r, ..self }
    }

    /// How many items the queue counts.
    pub closed spec fn count(&self) -> UBaseType {
        self.messages_waiting
    }

    /// Moving the read position changes nothing else, and moving it back
    /// to where it was gives the queue back.
    pub proof fn lemma_with_read_position(self, r: UBaseType)
        ensures
            self.with_read_position(r).read_position() == r,
            self.with_read_position(r).count() == self.count(),
            self.with_read_position(r).capacity() == self.capacity(),
            self.with_read_position(r).kind() == self.kind(),
            self.with_read_position(r).send_list() == self.send_list(),
            self.with_read_position(r).receive_list() == self.receive_list(),
            self.with_read_position(r).holder() == self.holder(),
            self.with_read_position(r).recursive_count() == self.recursive_count(),
            self.with_read_position(r).rx() == self.rx(),
            self.with_read_position(r).tx() == self.tx(),
            self.with_read_position(r).number() == self.number(),
            forall|i: int| #[trigger] self.with_read_position(r).slot(i) == self.slot(i),
            self.with_read_position(r).with_read_position(self.read_position()) == self,
    {
    }

    /// The ring's positions agree with the number of items.
    pub closed spec fn wf(&self) -> bool {
        &&& 1 <= self.length <= usize::MAX
        &&& self.slots@.len() == self.length
        &&& self.head == 0
        &&& self.tail == self.length
        &&& self.read_from < self.length
        &&& self.write_to < self.length
        &&& self.messages_waiting <= self.length
        &&& self.write_to as int == ring_index(self.front() as int, self.messages_waiting as int, self.length as int)
    }

    /// The queue's event lists are distinct event lists of kernel `k`.
    pub open spec fn lists_in(&self, k: &Kernel) -> bool {
        &&& FIRST_EVENT_LIST <= self.send_list() < k.lists.num_lists()
        &&& FIRST_EVENT_LIST <= self.receive_list() < k.lists.num_lists()
        &&& self.send_list() != self.receive_list()
    }

    /// The queue is full.
    pub open spec fn full(&self) -> bool {
        self.view().len() == self.capacity()
    }

    proof fn lemma_view_len(&self)
        requires
            self.wf(),
        ensures
            self.view().len() == self.messages_waiting,
            self.view().len() <= self.capacity(),
            self.front() < self.length,
    {
    }

    /// Builds the ring of `length` empty slots.
    fn new_slots(length: UBaseType) -> (slots: Vec<T>)
        where T: Default
        requires
            length <= usize::MAX,
        ensures
            slots@.len() == length,
    {
        let mut slots: Vec<T> = Vec::new();
        let n = length as usize;
        while slots.len() < n
            invariant
                slots@.len() <= n,
                n == length,
            decreases n - slots@.len(),
        {
            slots.push(T::default());
        }
        slots
    }

    /// A queue of `length` slots and kind `queue_type`, with its two event
    /// lists created in kernel `k`.  It starts empty and unlocked.
    pub fn queue_generic_create(k: &mut Kernel, length: UBaseType, queue_type: QueueType) -> (q: Self)
        where T: Default
        requires
            old(k).wf(),
            1 <= length <= usize::MAX,
            old(k).lists.num_lists() + 2 < usize::MAX,
        ensures
            final(k).wf(),
            q.wf(),
            q.lists_in(final(k)),
            q.view() == Seq::<T>::empty(),
            q.capacity() == length,
            q.kind() == queue_type,
            q.holder() is None,
            q.recursive_count() == 0,
            q.rx() == queueUNLOCKED,
            q.tx() == queueUNLOCKED,
            final(k).list(q.send_list() as int).len() == 0,
            final(k).list(q.receive_list() as int).len() == 0,
            final(k).lists.num_lists() == old(k).lists.num_lists() + 2,
            final(k).same_but_lists(old(k)),
            final(k).lists.items_view() == old(k).lists.items_view(),
            forall|l: int| 0 <= l < old(k).lists.num_lists() ==> #[trigger] final(k).list(l) == old(k).list(l),
    {
        let s = k.create_event_list();
        let r = k.create_event_list();
        let mut q = QueueDefinition {
            slots: Vec::new(),
            head: 0,
            tail: 0,
            write_to: 0,
            read_from: 0,
            queue_union: 0,
            tasks_waiting_to_send: s,
            tasks_waiting_to_receive: r,
            messages_waiting: 0,
            length: 0,
            rx_lock: queueUNLOCKED,
            tx_lock: queueUNLOCKED,
            queue_number: 0,
            queue_type: QueueType::Base,
            mutex_holder: None,
        };
        q.initialise_new_queue(length, queue_type);
        q
    }

    /// Gives the queue `length` empty slots and kind `queue_type`, and resets it.
    pub fn initialise_new_queue(&mut self, length: UBaseType, queue_type: QueueType)
        where T: Default
        requires
            1 <= length <= usize::MAX,
        ensures
            final(self).wf(),
            final(self).view() == Seq::<T>::empty(),
            final(self).capacity() == length,
            final(self).kind() == queue_type,
            final(self).send_list() == old(self).send_list(),
            final(self).receive_list() == old(self).receive_list(),
            final(self).holder() == old(self).holder(),
            final(self).recursive_count() == old(self).recursive_count(),
            final(self).rx() == queueUNLOCKED,
            final(self).tx() == queueUNLOCKED,
    {
        self.head = 0;
        self.length = length;
        self.slots = Self::new_slots(length);
        self.reset_ring();
        self.queue_type = queue_type;
    }

    /// Empties the ring and unlocks the queue.
    fn reset_ring(&mut self)
        requires
            1 <= old(self).length <= usize::MAX,
            old(self).slots@.len() == old(self).length,
            old(self).head == 0,
        ensures
            final(self).wf(),
            final(self).view() == Seq::<T>::empty(),
            final(self).length == old(self).length,
            final(self).slots == old(self).slots,
            final(self).queue_type == old(self).queue_type,
            final(self).tasks_waiting_to_send == old(self).tasks_waiting_to_send,
            final(self).tasks_waiting_to_receive == old(self).tasks_waiting_to_receive,
            final(self).mutex_holder == old(self).mutex_holder,
            final(self).queue_union == old(self).queue_union,
            final(self).queue_number == old(self).queue_number,
            final(self).rx_lock == queueUNLOCKED,
            final(self).tx_lock == queueUNLOCKED,
            final(self).messages_waiting == 0,
            final(self).read_from == old(self).length - 1,
    {
        self.tail = self.head + self.length;
        self.messages_waiting = 0;
        self.write_to = self.head;
        self.read_from = self.head + self.length - 1;
        self.rx_lock = queueUNLOCKED;
        self.tx_lock = queueUNLOCKED;
        proof {
            assert(self.view() =~= Seq::<T>::empty());
        }
    }

    /// Empties the queue and unlocks it.  A new queue gets two new, empty
    /// lists of waiting tasks.  Resetting a queue in use wakes the first task
    /// waiting to send, since there is room now; the result tells whether
    /// that task's priority is above the running task's.
    pub fn queue_generic_reset(&mut self, k: &mut Kernel, new_queue: bool) -> (r: (Result<(), QueueError>, bool))
        requires
            old(self).wf(),
            old(self).lists_in(old(k)),
            old(k).wf(),
            !new_queue ==> old(k).has_current(),
            new_queue ==> old(k).lists.num_lists() + 2 < usize::MAX,
        ensures
            final(self).wf(),
            final(self).lists_in(final(k)),
            final(k).wf(),
            r.0 is Ok,
            final(self).view() == Seq::<T>::empty(),
            final(self).capacity() == old(self).capacity(),
            final(self).kind() == old(self).kind(),
            final(self).holder() == old(self).holder(),
            final(self).rx() == queueUNLOCKED,
            final(self).tx() == queueUNLOCKED,
            final(self).count() == 0,
            final(self).read_position() == old(self).capacity() - 1,
            final(self).number() == old(self).number(),
            final(self).recursive_count() == old(self).recursive_count(),
            new_queue ==> {
                &&& !r.1
                &&& final(self).send_list() == old(k).lists.num_lists()
                &&& final(self).receive_list() == old(k).lists.num_lists() + 1
                &&& final(k).list(final(self).send_list() as int).len() == 0
                &&& final(k).list(final(self).receive_list() as int).len() == 0
                &&& final(k).lists.num_lists() == old(k).lists.num_lists() + 2
                &&& final(k).same_but_lists(old(k))
                &&& final(k).lists.items_view() == old(k).lists.items_view()
                &&& forall|l: int| 0 <= l < old(k).lists.num_lists() ==> #[trigger] final(k).list(l) == old(k).list(l)
            },
            !new_queue ==> final(self).send_list() == old(self).send_list(),
            !new_queue ==> final(self).receive_list() == old(self).receive_list(),
            !new_queue ==> final(k).lists.num_lists() == old(k).lists.num_lists(),
            (!new_queue && old(k).list(old(self).send_list() as int).len() == 0) ==> *final(k) == *old(k) && !r.1,
            (!new_queue && old(k).list(old(self).send_list() as int).len() > 0) ==> {
                let l = old(k).list(old(self).send_list() as int);
                &&& final(k).list(old(self).send_list() as int) == l.drop_first()
                &&& r.1 == (old(k).task(l[0] as int / 2).task_priority > old(k).current_priority())
            },
    {
        self.reset_ring();
        let mut woken = false;
        if new_queue {
            self.tasks_waiting_to_send = k.create_event_list();
            self.tasks_waiting_to_receive = k.create_event_list();
        } else {
            if !list_is_empty(&k.lists, self.tasks_waiting_to_send) {
                woken = task_remove_from_event_list(k, self.tasks_waiting_to_send);
            }
        }
        (Ok(()), woken)
    }

    /// Whether the queue holds no item.
    pub fn is_queue_empty(&self) -> (b: bool)
        requires
            self.wf(),
        ensures
            b == (self.view().len() == 0),
    {
        self.messages_waiting == 0
    }

    /// Whether the queue holds as many items as it has slots.
    pub fn is_queue_full(&self) -> (b: bool)
        requires
            self.wf(),
        ensures
            b == self.full(),
    {
        self.messages_waiting == self.length
    }

    /// Sets the number of items that the queue holds (a counting semaphore's
    /// initial count); the ring's positions follow.
    pub fn initialise_count(&mut self, initial_count: UBaseType)
        requires
            old(self).wf(),
            initial_count <= old(self).capacity(),
        ensures
            final(self).wf(),
            final(self).view().len() == initial_count,
            final(self).capacity() == old(self).capacity(),
            final(self).kind() == old(self).kind(),
            final(self).send_list() == old(self).send_list(),
            final(self).receive_list() == old(self).receive_list(),
            final(self).holder() == old(self).holder(),
            final(self).recursive_count() == old(self).recursive_count(),
            final(self).rx() == old(self).rx(),
            final(self).tx() == old(self).tx(),
    {
        self.messages_waiting = initial_count;
        let front = if self.read_from + 1 >= self.length { 0 } else { self.read_from + 1 };
        self.write_to = if initial_count < self.length - front { front + initial_count } else { initial_count - (self.length - front) };
    }

    /// Lowers the recursive call count by one.
    #[allow(non_snake_case)]
    pub fn QueueUnion_decrease(&mut self)
        requires
            old(self).recursive_count() > 0,
        ensures
            final(self).recursive_count() == old(self).recursive_count() - 1,
            final(self).view() == old(self).view(),
            final(self).wf() == old(self).wf(),
            final(self).capacity() == old(self).capacity(),
            final(self).kind() == old(self).kind(),
            final(self).send_list() == old(self).send_list(),
            final(self).receive_list() == old(self).receive_list(),
            final(self).holder() == old(self).holder(),
            final(self).rx() == old(self).rx(),
            final(self).tx() == old(self).tx(),
    {
        self.queue_union = self.queue_union - 1;
    }

    /// Raises the recursive call count by one.
    #[allow(non_snake_case)]
    pub fn QueueUnion_increase(&mut self)
        requires
            old(self).recursive_count() < UBaseType::MAX,
        ensures
            final(self).recursive_count() == old(self).recursive_count() + 1,
            final(self).view() == old(self).view(),
            final(self).wf() == old(self).wf(),
            final(self).capacity() == old(self).capacity(),
            final(self).kind() == old(self).kind(),
            final(self).send_list() == old(self).send_list(),
            final(self).receive_list() == old(self).receive_list(),
            final(self).holder() == old(self).holder(),
            final(self).rx() == old(self).rx(),
            final(self).tx() == old(self).tx(),
    {
        self.queue_union = self.queue_union + 1;
    }

    /// Whether the recursive call count is zero.
    #[allow(non_snake_case)]
    pub fn is_QueueUnion_zero(&self) -> (b: bool)
        ensures
            b == (self.recursive_count() == 0),
    {
        self.queue_union == 0
    }

    /// The recursive call count.
    pub fn get_recursive_count(&self) -> (n: UBaseType)
        ensures
            n == self.recursive_count(),
    {
        self.queue_union
    }

    /// The queue's number, for tracing.
    pub fn get_queue_number(&self) -> (n: UBaseType)
        ensures
            n == self.number(),
    {
        self.queue_number
    }

    /// The task that holds the mutex that this queue is, if any.
    pub fn transed_task_handle_for_mutex(&self) -> (h: Option<TaskHandle>)
        ensures
            h == self.holder(),
    {
        self.mutex_holder
    }

    /// The queue's kind.
    pub fn queue_type(&self) -> (t: QueueType)
        ensures
            t == self.kind(),
    {
        self.queue_type
    }

    /// A queue of `length` slots and kind `queue_type` (see `queue_generic_create`).
    pub fn new(k: &mut Kernel, length: UBaseType, queue_type: QueueType) -> (q: Self)
        where T: Default
        requires
            old(k).wf(),
            1 <= length <= usize::MAX,
            old(k).lists.num_lists() + 2 < usize::MAX,
        ensures
            final(k).wf(),
            q.wf(),
            q.lists_in(final(k)),
            q.view() == Seq::<T>::empty(),
            q.capacity() == length,
            q.kind() == queue_type,
            q.holder() is None,
            q.recursive_count() == 0,
            q.rx() == queueUNLOCKED,
            q.tx() == queueUNLOCKED,
            final(k).list(q.send_list() as int).len() == 0,
            final(k).list(q.receive_list() as int).len() == 0,
            final(k).same_but_lists(old(k)),
            final(k).lists.num_lists() == old(k).lists.num_lists() + 2,
            final(k).lists.items_view() == old(k).lists.items_view(),
            forall|l: int| 0 <= l < old(k).lists.num_lists() ==> #[trigger] final(k).list(l) == old(k).list(l),
    {
        Self::queue_generic_create(k, length, queue_type)
    }
}

/// The items of a queue after `item` is sent to it at `position`.
pub open spec fn sent_view<T>(view: Seq<T>, item: T, position: BaseType) -> Seq<T> {
    if position == queueSEND_TO_BACK {
        view.push(item)
    } else if position == queueOVERWRITE {
        seq![item]
    } else {
        seq![item] + view
    }
}

/// A send at `position` finds room: there is a free slot, or the item
/// replaces the only one.
pub open spec fn has_room<T>(q: &QueueDefinition<T>, position: BaseType) -> bool {
    q.view().len() < q.capacity() || position == queueOVERWRITE
}

/// A queue never holds more items than it has slots.
pub proof fn lemma_queue_bounded<T>(q: &QueueDefinition<T>)
    requires
        q.wf(),
    ensures
        q.view().len() <= q.capacity(),
{
    q.lemma_view_len();
}

/// Items leave a queue in the order they were sent to its back: sending to
/// the back and then receiving from a non-empty queue gives the item that was
/// first, and leaves the rest followed by the item sent.
pub proof fn lemma_fifo<T>(s: Seq<T>, x: T)
    requires
        s.len() > 0,
    ensures
        sent_view(s, x, queueSEND_TO_BACK)[0] == s[0],
        sent_view(s, x, queueSEND_TO_BACK).drop_first() == sent_view(s.drop_first(), x, queueSEND_TO_BACK),
        sent_view(seq![], x, queueSEND_TO_BACK) == seq![x],
{
    assert(sent_view(s, x, queueSEND_TO_BACK).drop_first() =~= sent_view(s.drop_first(), x, queueSEND_TO_BACK));
    assert(sent_view(seq![], x, queueSEND_TO_BACK) =~= seq![x]);
}

/// An item sent to the front is the next one received, and receiving it
/// leaves the queue as it was before the send.
pub proof fn lemma_front_received_next<T>(s: Seq<T>, x: T)
    ensures
        sent_view(s, x, queueSEND_TO_FRONT)[0] == x,
        sent_view(s, x, queueSEND_TO_FRONT).drop_first() == s,
{
    assert(sent_view(s, x, queueSEND_TO_FRONT).drop_first() =~= s);
}

impl<T> QueueDefinition<T> {
    /// Stores `item` at `position`: at the back, at the front, or (on a queue
    /// of length one) in place of the item there.  Sending to a mutex records
    /// the running task as its holder, one more mutex held.
    pub fn copy_data_to_queue(&mut self, k: &mut Kernel, item: T, position: BaseType)
        requires
            old(self).wf(),
            old(k).wf(),
            position == queueOVERWRITE ==> old(self).capacity() == 1,
            position != queueOVERWRITE ==> old(self).view().len() < old(self).capacity(),
            is_mutex_type(old(self).kind()) && old(k).current_tcb is Some ==>
                old(k).task(old(k).current_tcb.unwrap().0 as int).mutexes_held < UBaseType::MAX,
        ensures
            final(self).wf(),
            final(k).wf(),
            final(self).view() == sent_view(old(self).view(), item, position),
            final(self).capacity() == old(self).capacity(),
            final(self).kind() == old(self).kind(),
            final(self).send_list() == old(self).send_list(),
            final(self).receive_list() == old(self).receive_list(),
            final(self).recursive_count() == old(self).recursive_count(),
            final(self).rx() == old(self).rx(),
            final(self).tx() == old(self).tx(),
            final(self).number() == old(self).number(),
            final(self).count() == final(self).view().len(),
            position == queueSEND_TO_BACK ==> final(self).read_position() == old(self).read_position(),
            position != queueSEND_TO_BACK ==> final(self).read_position() == (
                if old(self).read_position() == 0 { (old(self).capacity() - 1) as UBaseType }
                else { (old(self).read_position() - 1) as UBaseType }),
            !is_mutex_type(old(self).kind()) ==> *final(k) == *old(k) && final(self).holder() == old(self).holder(),
            is_mutex_type(old(self).kind()) ==> {
                &&& final(self).holder() == old(k).current_tcb
                &&& *final(k) == (Kernel { tasks: final(k).tasks, ..*old(k) })
                &&& old(k).current_tcb is Some ==> ({
                    let t = old(k).current_tcb.unwrap().0 as int;
                    final(k).tasks@ == old(k).tasks@.update(
                        t,
                        crate::task_control::TCB { mutexes_held: (old(k).task(t).mutexes_held + 1) as UBaseType, ..old(k).task(t) },
                    )
                })
                &&& old(k).current_tcb is None ==> final(k).tasks == old(k).tasks
            },
    {
        if self.queue_type == QueueType::Mutex || self.queue_type == QueueType::RecursiveMutex {
            let holder = task_increment_mutex_held_count(k);
            self.mutex_holder = holder;
        }
        let ghost old_view = self.view();
        let ghost l = self.length as int;
        let ghost f = self.front() as int;
        let ghost m = self.messages_waiting as int;
        let ghost old_slots = self.slots@;
        let mut messages_waiting = self.messages_waiting;
        if position == queueSEND_TO_BACK {
            let w = self.write_to as usize;
            self.slots[w] = item;
            self.write_to = self.write_to + 1;
            if self.write_to >= self.tail {
                self.write_to = self.head;
            }
            proof {
                assert forall|i: int| 0 <= i < m implies #[trigger] ring_index(f, i, l) != w as int by {}
            }
        } else {
            let r = self.read_from as usize;
            self.slots[r] = item;
            if self.read_from == 0 {
                self.read_from = self.tail - 1;
            } else {
                self.read_from = self.read_from - 1;
            }
            if position == queueOVERWRITE {
                if messages_waiting > 0 {
                    messages_waiting = messages_waiting - 1;
                }
            }
        }
        self.messages_waiting = messages_waiting + 1;
        proof {
            let nv = sent_view(old_view, item, position);
            assert(self.view().len() == nv.len());
            assert forall|i: int| 0 <= i < nv.len() implies #[trigger] self.view()[i] == nv[i] by {
                if position == queueSEND_TO_BACK {
                    if i < m {
                        assert(ring_index(f, i, l) != ring_index(f, m, l));
                        assert(self.slots@[ring_index(f, i, l)] == old_slots[ring_index(f, i, l)]);
                    }
                } else if position == queueOVERWRITE {
                } else {
                    if i > 0 {
                        assert(ring_index(self.front() as int, i, l) == ring_index(f, i - 1, l));
                        assert(ring_index(f, i - 1, l) != old(self).read_from as int);
                    }
                }
            }
            assert(self.view() =~= nv);
        }
    }

    /// Moves the read position to the next slot and returns a copy of the
    /// item there (the first item, when the queue holds one).  The number of
    /// items is not changed: a receive then counts the item out, a peek puts
    /// the read position back.
    pub fn copy_data_from_queue(&mut self) -> (r: Option<T>)
        where T: Clone
        requires
            old(self).wf(),
        ensures
            *final(self) == old(self).with_read_position(
                ring_next(old(self).read_position() as int, old(self).capacity() as int) as UBaseType),
            final(self).read_position() == ring_next(old(self).read_position() as int, old(self).capacity() as int),
            final(self).count() == old(self).count(),
            forall|i: int| #[trigger] final(self).slot(i) == old(self).slot(i),
            r is Some,
            cloned(old(self).slot(ring_next(old(self).read_position() as int, old(self).capacity() as int)), r.unwrap()),
            old(self).view().len() > 0 ==> cloned(old(self).view()[0], r.unwrap()),
    {
        let r = if self.read_from + 1 >= self.tail { self.head } else { self.read_from + 1 };
        self.read_from = r;
        proof {
            assert(*self == old(self).with_read_position(r));
        }
        Some(self.slots[r as usize].clone())
    }

    /// Takes the first item out of the queue.
    fn take_front(&mut self) -> (item: T)
        where T: Default
        requires
            old(self).wf(),
            old(self).view().len() > 0,
        ensures
            final(self).wf(),
            item == old(self).view()[0],
            final(self).view() == old(self).view().drop_first(),
            final(self).capacity() == old(self).capacity(),
            final(self).kind() == old(self).kind(),
            final(self).send_list() == old(self).send_list(),
            final(self).receive_list() == old(self).receive_list(),
            final(self).holder() == old(self).holder(),
            final(self).recursive_count() == old(self).recursive_count(),
            final(self).rx() == old(self).rx(),
            final(self).tx() == old(self).tx(),
    {
        let ghost l = self.length as int;
        let ghost f = self.front() as int;
        let ghost m = self.messages_waiting as int;
        let ghost old_slots = self.slots@;
        let f_exec = if self.read_from + 1 >= self.length { 0 } else { self.read_from + 1 };
        let mut out = T::default();
        proof {
            assert(old(self).view()[0] == old_slots[f]);
        }
        std::mem::swap(&mut out, &mut self.slots[f_exec as usize]);
        self.read_from = f_exec;
        self.messages_waiting = self.messages_waiting - 1;
        proof {
            let nv = old(self).view().drop_first();
            assert(self.view().len() == nv.len());
            assert forall|i: int| 0 <= i < nv.len() implies #[trigger] self.view()[i] == nv[i] by {
                assert(ring_index(self.front() as int, i, l) == ring_index(f, i + 1, l));
                assert(ring_index(f, i + 1, l) != f);
            }
            assert(self.view() =~= nv);
        }
        out
    }
}

/// A lock value after locking: an unlocked queue becomes locked and unmodified.
pub open spec fn locked(lock: i8) -> i8 {
    if lock == queueUNLOCKED { queueLOCKED_UNMODIFIED } else { lock }
}

/// How many waiting tasks an unlock wakes for a lock value `lock` from a
/// list of `n` waiting tasks.
pub open spec fn woken_count(lock: i8, n: nat) -> nat {
    if lock <= 0 { 0 } else if lock as int <= n { lock as nat } else { n }
}

/// The task whose event item is `i` has a priority above the running task's.
pub open spec fn outranks(k: &Kernel, i: ItemLink) -> bool {
    k.task(i as int / 2).task_priority > k.current_priority()
}

/// One of the first `n` tasks of `l` has a priority above the running task's.
pub open spec fn outranks_among(k: &Kernel, l: Seq<ItemLink>, n: int) -> bool {
    exists|j: int| 0 <= j < n && #[trigger] outranks(k, l[j])
}

impl<T> QueueDefinition<T> {
    /// Locks the queue: interrupts then count what they add and remove
    /// instead of touching the event lists.
    pub fn lock_queue(&mut self)
        ensures
            final(self).rx() == locked(old(self).rx()),
            final(self).tx() == locked(old(self).tx()),
            final(self).view() == old(self).view(),
            final(self).wf() == old(self).wf(),
            final(self).capacity() == old(self).capacity(),
            final(self).kind() == old(self).kind(),
            final(self).send_list() == old(self).send_list(),
            final(self).receive_list() == old(self).receive_list(),
            final(self).holder() == old(self).holder(),
            final(self).recursive_count() == old(self).recursive_count(),
            final(self).read_position() == old(self).read_position(),
            final(self).count() == old(self).count(),
            final(self).number() == old(self).number(),
            forall|i: int| #[trigger] final(self).slot(i) == old(self).slot(i),
    {
        if self.rx_lock == queueUNLOCKED {
            self.rx_lock = queueLOCKED_UNMODIFIED;
        }
        if self.tx_lock == queueUNLOCKED {
            self.tx_lock = queueLOCKED_UNMODIFIED;
        }
    }

    /// Unlocks the queue: for each item added while it was locked one task
    /// waiting to receive is woken, and for each item removed one task
    /// waiting to send; a yield is held pending when a woken task's priority
    /// is above the running task's.
    fn unlock_queue(&mut self, k: &mut Kernel)
        requires
            old(self).lists_in(old(k)),
            old(k).wf(),
            old(k).has_current(),
        ensures
            final(k).wf(),
            final(self).lists_in(final(k)),
            final(self).rx() == queueUNLOCKED,
            final(self).tx() == queueUNLOCKED,
            final(self).view() == old(self).view(),
            final(self).wf() == old(self).wf(),
            final(self).capacity() == old(self).capacity(),
            final(self).kind() == old(self).kind(),
            final(self).send_list() == old(self).send_list(),
            final(self).receive_list() == old(self).receive_list(),
            final(self).holder() == old(self).holder(),
            final(self).recursive_count() == old(self).recursive_count(),
            final(k).lists.num_lists() == old(k).lists.num_lists(),
            final(k).current_tcb == old(k).current_tcb,
            final(k).scheduler_suspended == old(k).scheduler_suspended,
            final(k).tasks == old(k).tasks,
            final(k).yield_pending == (old(k).yield_pending
                || outranks_among(old(k), old(k).list(old(self).receive_list() as int),
                    woken_count(old(self).tx(), old(k).list(old(self).receive_list() as int).len()) as int)
                || outranks_among(old(k), old(k).list(old(self).send_list() as int),
                    woken_count(old(self).rx(), old(k).list(old(self).send_list() as int).len()) as int)),
            final(k).list(old(self).receive_list() as int) == old(k).list(old(self).receive_list() as int).skip(
                woken_count(old(self).tx(), old(k).list(old(self).receive_list() as int).len()) as int),
            final(k).list(old(self).send_list() as int) == old(k).list(old(self).send_list() as int).skip(
                woken_count(old(self).rx(), old(k).list(old(self).send_list() as int).len()) as int),
            old(self).rx() <= 0 && old(self).tx() <= 0 ==> *final(k) == *old(k),
    {
        let ghost k0 = *k;
        let rl = self.tasks_waiting_to_receive;
        let sl = self.tasks_waiting_to_send;
        let ghost l0 = k0.list(rl as int);
        let mut tx_lock: i8 = self.tx_lock;
        let ghost mut j: int = 0;
        proof { assert(l0.skip(0) =~= l0); }
        while tx_lock > queueLOCKED_UNMODIFIED
            invariant
                k.wf(),
                k.has_current(),
                k.lists.num_lists() == k0.lists.num_lists(),
                k.current_tcb == k0.current_tcb,
                k.scheduler_suspended == k0.scheduler_suspended,
                k.tasks == k0.tasks,
                k.yield_pending == (k0.yield_pending || outranks_among(&k0, l0, j)),
                self.lists_in(k),
                rl == self.tasks_waiting_to_receive,
                sl == self.tasks_waiting_to_send,
                *self == *old(self),
                l0 == k0.list(rl as int),
                0 <= j <= l0.len(),
                k.list(rl as int) == l0.skip(j),
                k.list(sl as int) == k0.list(sl as int),
                old(self).tx_lock <= 0 ==> j == 0 && tx_lock == old(self).tx_lock && *k == k0,
                old(self).tx_lock > 0 ==> 0 <= tx_lock <= old(self).tx_lock && j == old(self).tx_lock - tx_lock,
            ensures
                k.wf(),
                k.has_current(),
                k.lists.num_lists() == k0.lists.num_lists(),
                k.current_tcb == k0.current_tcb,
                k.scheduler_suspended == k0.scheduler_suspended,
                k.tasks == k0.tasks,
                k.yield_pending == (k0.yield_pending
                    || outranks_among(&k0, l0, woken_count(old(self).tx_lock, l0.len()) as int)),
                self.lists_in(k),
                *self == *old(self),
                k.list(rl as int) == l0.skip(woken_count(old(self).tx_lock, l0.len()) as int),
                k.list(sl as int) == k0.list(sl as int),
                old(self).tx_lock <= 0 ==> *k == k0,
            decreases tx_lock,
        {
            if !list_is_empty(&k.lists, rl) {
                let ghost kb = *k;
                if task_remove_from_event_list(k, rl) {
                    task_missed_yield(k);
                }
                proof {
                    assert(kb.list(rl as int)[0] == l0[j]);
                    assert(outranks(&kb, l0[j]) == outranks(&k0, l0[j]));
                    if outranks_among(&k0, l0, j + 1) && !outranks_among(&k0, l0, j) {
                        let m = choose|m: int| 0 <= m < j + 1 && #[trigger] outranks(&k0, l0[m]);
                        assert(m == j);
                    }
                    if outranks(&k0, l0[j]) {
                        assert(outranks_among(&k0, l0, j + 1));
                    }
                    if outranks_among(&k0, l0, j) {
                        let m = choose|m: int| 0 <= m < j && #[trigger] outranks(&k0, l0[m]);
                        assert(outranks_among(&k0, l0, j + 1));
                    }
                    assert(k.list(rl as int) =~= l0.skip(j + 1));
                    assert(k.list(sl as int) == kb.list(sl as int));
                    j = j + 1;
                }
            } else {
                proof {
                    assert(j == l0.len());
                }
                break;
            }
            tx_lock = tx_lock - 1;
        }
        self.tx_lock = queueUNLOCKED;
        let ghost k1 = *k;
        let ghost s0 = k1.list(sl as int);
        let mut rx_lock: i8 = self.rx_lock;
        let ghost mut j2: int = 0;
        proof { assert(s0.skip(0) =~= s0); }
        while rx_lock > queueLOCKED_UNMODIFIED
            invariant
                k.wf(),
                k.has_current(),
                k.lists.num_lists() == k0.lists.num_lists(),
                k.current_tcb == k0.current_tcb,
                k.scheduler_suspended == k0.scheduler_suspended,
                k.tasks == k0.tasks,
                k.yield_pending == (k1.yield_pending || outranks_among(&k1, s0, j2)),
                k1.tasks == k0.tasks,
                k1.current_tcb == k0.current_tcb,
                self.lists_in(k),
                rl == self.tasks_waiting_to_receive,
                sl == self.tasks_waiting_to_send,
                self.rx_lock == old(self).rx_lock,
                s0 == k1.list(sl as int),
                0 <= j2 <= s0.len(),
                k.list(sl as int) == s0.skip(j2),
                k.list(rl as int) == k1.list(rl as int),
                old(self).rx_lock <= 0 ==> j2 == 0 && rx_lock == old(self).rx_lock && *k == k1,
                old(self).rx_lock > 0 ==> 0 <= rx_lock <= old(self).rx_lock && j2 == old(self).rx_lock - rx_lock,
            ensures
                k.wf(),
                k.has_current(),
                k.lists.num_lists() == k0.lists.num_lists(),
                k.current_tcb == k0.current_tcb,
                k.scheduler_suspended == k0.scheduler_suspended,
                k.tasks == k0.tasks,
                k.yield_pending == (k1.yield_pending
                    || outranks_among(&k1, s0, woken_count(old(self).rx_lock, s0.len()) as int)),
                self.lists_in(k),
                k.list(sl as int) == s0.skip(woken_count(old(self).rx_lock, s0.len()) as int),
                k.list(rl as int) == k1.list(rl as int),
                old(self).rx_lock <= 0 ==> *k == k1,
            decreases rx_lock,
        {
            if !list_is_empty(&k.lists, sl) {
                let ghost kb = *k;
                if task_remove_from_event_list(k, sl) {
                    task_missed_yield(k);
                }
                proof {
                    assert(kb.list(sl as int)[0] == s0[j2]);
                    assert(outranks(&kb, s0[j2]) == outranks(&k1, s0[j2]));
                    if outranks_among(&k1, s0, j2 + 1) && !outranks_among(&k1, s0, j2) {
                        let m = choose|m: int| 0 <= m < j2 + 1 && #[trigger] outranks(&k1, s0[m]);
                        assert(m == j2);
                    }
                    if outranks(&k1, s0[j2]) {
                        assert(outranks_among(&k1, s0, j2 + 1));
                    }
                    if outranks_among(&k1, s0, j2) {
                        let m = choose|m: int| 0 <= m < j2 && #[trigger] outranks(&k1, s0[m]);
                        assert(outranks_among(&k1, s0, j2 + 1));
                    }
                    assert(k.list(sl as int) =~= s0.skip(j2 + 1));
                    assert(k.list(rl as int) == kb.list(rl as int));
                    j2 = j2 + 1;
                }
                rx_lock = rx_lock - 1;
            } else {
                proof {
                    assert(j2 == s0.len());
                }
                break;
            }
        }
        self.rx_lock = queueUNLOCKED;
        proof {
            assert forall|i: ItemLink| #[trigger] outranks(&k1, i) == outranks(&k0, i) by {}
            assert(s0 == k0.list(sl as int));
            let n = woken_count(old(self).rx_lock, s0.len()) as int;
            if outranks_among(&k1, s0, n) {
                let m = choose|m: int| 0 <= m < n && #[trigger] outranks(&k1, s0[m]);
                assert(outranks(&k0, s0[m]));
            }
            if outranks_among(&k0, s0, n) {
                let m = choose|m: int| 0 <= m < n && #[trigger] outranks(&k0, s0[m]);
                assert(outranks(&k1, s0[m]));
            }
        }
    }

    /// Sends `item` from an interrupt, never blocking.  With room, the item is
    /// stored; if the queue is unlocked the first task waiting to receive is
    /// woken (the second result tells whether its priority is above the
    /// running task's), else the send lock counts the item.  Without room the
    /// queue is full.
    pub fn queue_generic_send_from_isr(&mut self, k: &mut Kernel, item: T, position: BaseType)
        -> (r: (Result<(), QueueError>, bool))
        requires
            old(self).wf(),
            old(self).lists_in(old(k)),
            old(k).wf(),
            old(k).has_current(),
            position == queueOVERWRITE ==> old(self).capacity() == 1,
            old(self).tx() < i8::MAX,
            is_mutex_type(old(self).kind()) ==>
                old(k).task(old(k).current_tcb.unwrap().0 as int).mutexes_held < UBaseType::MAX,
        ensures
            final(self).wf(),
            final(self).lists_in(final(k)),
            final(k).wf(),
            final(self).capacity() == old(self).capacity(),
            final(self).kind() == old(self).kind(),
            final(self).send_list() == old(self).send_list(),
            final(self).receive_list() == old(self).receive_list(),
            final(self).rx() == old(self).rx(),
            !is_mutex_type(old(self).kind()) ==> final(self).holder() == old(self).holder(),
            caller_kept(old(k), final(k)),
            has_room(old(self), position) ==> {
                &&& r.0 is Ok
                &&& final(self).view() == sent_view(old(self).view(), item, position)
                &&& final(self).tx() == (if old(self).tx() == queueUNLOCKED { queueUNLOCKED } else { (old(self).tx() + 1) as i8 })
                &&& (old(self).tx() == queueUNLOCKED && old(k).list(old(self).receive_list() as int).len() > 0) ==>
                    woke_first(old(k), final(k), old(self).receive_list(), r.1)
                &&& !(old(self).tx() == queueUNLOCKED && old(k).list(old(self).receive_list() as int).len() > 0) ==> {
                    &&& !r.1
                    &&& final(k).list(old(self).receive_list() as int) == old(k).list(old(self).receive_list() as int)
                }
            },
            !has_room(old(self), position) ==> {
                &&& r == (Err::<(), QueueError>(QueueError::QueueFull), false)
                &&& *final(self) == *old(self)
                &&& final(self).view() == old(self).view()
                &&& final(self).tx() == old(self).tx()
                &&& *final(k) == *old(k)
            },
    {
        let mut woken = false;
        if self.messages_waiting < self.length || position == queueOVERWRITE {
            let tx_lock = self.tx_lock;
            self.copy_data_to_queue(k, item, position);
            if tx_lock == queueUNLOCKED {
                if !list_is_empty(&k.lists, self.tasks_waiting_to_receive) {
                    woken = task_remove_from_event_list(k, self.tasks_waiting_to_receive);
                }
            } else {
                self.tx_lock = tx_lock + 1;
            }
            (Ok(()), woken)
        } else {
            (Err(QueueError::QueueFull), false)
        }
    }
}

/// Where a blocking queue call stands between its attempts: whether the
/// time of entry was recorded, that time, and the ticks still to wait.
#[derive(Clone, Copy)]
pub struct BlockingState {
    pub entry_time_set: bool,
    pub timeout: time_out,
    pub ticks_to_wait: TickType,
}

impl BlockingState {
    /// The state of a call that may wait for `ticks_to_wait` ticks.
    pub fn new(ticks_to_wait: TickType) -> (s: Self)
        ensures
            !s.entry_time_set,
            s.ticks_to_wait == ticks_to_wait,
    {
        BlockingState { entry_time_set: false, timeout: time_out { overflow_count: 0, time_on_entering: 0 }, ticks_to_wait }
    }
}

/// The outcome of one attempt to send: finished (with the result, and
/// whether a context switch is due), or to be attempted again (with the
/// item back, and whether the caller must yield first).
pub enum SendStep<T> {
    Done(Result<(), QueueError>, bool),
    Again(T, bool),
}

/// The outcome of one attempt of a blocking call: finished (with the result,
/// and whether a context switch is due), or to be attempted again (and
/// whether the caller must yield first).
pub enum QueueStep<R> {
    Done(R, bool),
    Again(bool),
}

/// The moment from which a blocking call counts its wait: the one recorded,
/// or the present one when none was.
pub open spec fn entry_time(k: &Kernel, state: BlockingState) -> time_out {
    if state.entry_time_set {
        state.timeout
    } else {
        time_out { overflow_count: k.num_of_overflows, time_on_entering: k.tick_count }
    }
}

/// The mutex holder, when there is one, is a task of `k` that holds a mutex.
pub open spec fn holder_in<T>(q: &QueueDefinition<T>, k: &Kernel) -> bool {
    q.holder() is Some ==> k.valid_handle(q.holder().unwrap())
        && k.task(q.holder().unwrap().0 as int).mutexes_held > 0
}

/// What a blocking queue call needs of the kernel: the running task is
/// ready (in a state list, in no event list) and the scheduler is not
/// suspended.
pub open spec fn can_block(k: &Kernel) -> bool {
    &&& k.wf()
    &&& k.has_current()
    &&& k.scheduler_suspended == 0
    &&& k.event_container(k.current_tcb.unwrap().0 as int) is None
    &&& k.state_container(k.current_tcb.unwrap().0 as int) is Some
}

/// In `k1`, the first task that waited on event list `l` of `k0` has been
/// woken: it left `l`, and it is in the ready list of its priority (with the
/// scheduler suspended it waits in the pending ready list instead);
/// `higher` tells whether its priority is above the running task's.
pub open spec fn woke_first(k0: &Kernel, k1: &Kernel, l: ListLink, higher: bool) -> bool {
    let w = k0.list(l as int);
    let t = w[0] as int / 2;
    &&& w.len() > 0
    &&& w[0] == event_item(t)
    &&& k1.list(l as int) == w.drop_first()
    &&& higher == (k0.task(t).task_priority > k0.current_priority())
    &&& k1.event_container(t) == (if k0.scheduler_suspended == 0 { None } else { Some(PENDING_READY_LIST) })
    &&& k1.state_container(t) == (
        if k0.scheduler_suspended == 0 { Some(k0.task(t).task_priority as ListLink) } else { k0.state_container(t) })
}

/// Giving back a mutex returns its holder `t` to its base priority: it holds
/// no other mutex and runs at an inherited priority.
pub open spec fn returns_to_base(t: crate::task_control::TCB) -> bool {
    t.task_priority != t.base_priority && t.mutexes_held == 1
}

/// The running task is left as it was: the same task among as many tasks,
/// the scheduler's suspension unchanged, and still in a state list and in no
/// event list when it was.
pub open spec fn caller_kept(k0: &Kernel, k1: &Kernel) -> bool {
    &&& k1.current_tcb == k0.current_tcb
    &&& k1.num_tasks() == k0.num_tasks()
    &&& k1.scheduler_suspended == k0.scheduler_suspended
    &&& k0.has_current() ==> {
        let c = k0.current_tcb.unwrap().0 as int;
        &&& k0.event_container(c) is None ==> k1.event_container(c) is None
        &&& k0.state_container(c) is Some ==> k1.state_container(c) is Some
    }
}

impl<T> QueueDefinition<T> {
    /// One attempt to send `item` at `position`.  With room, the item is
    /// stored and the first task waiting to receive is woken (a context
    /// switch is due when its priority is above the running task's).
    /// Without room, a mutex's holder inherits the running task's priority;
    /// with no time to wait the queue is full; otherwise the wait's start is
    /// recorded and, with the scheduler suspended and the queue locked, the
    /// time out is checked: when it has expired the queue is full, else the
    /// running task waits on the queue's send list and the call is to be
    /// attempted again (after a yield unless resuming the scheduler yielded).
    pub fn queue_generic_send(&mut self, k: &mut Kernel, item: T, state: &mut BlockingState, position: BaseType)
        -> (r: SendStep<T>)
        requires
            old(self).wf(),
            old(self).lists_in(old(k)),
            old(k).wf(),
            old(k).has_current(),
            old(state).ticks_to_wait != 0 && !has_room(old(self), position) ==> can_block(old(k)),
            holder_in(old(self), old(k)),
            position == queueOVERWRITE ==> old(self).capacity() == 1,
            is_mutex_type(old(self).kind()) ==>
                old(k).task(old(k).current_tcb.unwrap().0 as int).mutexes_held < UBaseType::MAX,
        ensures
            final(self).wf(),
            final(self).lists_in(final(k)),
            final(k).wf(),
            final(k).current_tcb == old(k).current_tcb,
            final(self).capacity() == old(self).capacity(),
            final(self).kind() == old(self).kind(),
            final(self).send_list() == old(self).send_list(),
            final(self).receive_list() == old(self).receive_list(),
            final(self).recursive_count() == old(self).recursive_count(),
            !is_mutex_type(old(self).kind()) ==> final(self).holder() == old(self).holder(),
            has_room(old(self), position) ==> final(self).rx() == old(self).rx() && final(self).tx() == old(self).tx(),
            (has_room(old(self), position) || old(state).ticks_to_wait == 0) ==> caller_kept(old(k), final(k)),
            (has_room(old(self), position) || old(state).ticks_to_wait == 0) ==> *final(state) == *old(state),
            has_room(old(self), position) ==> {
                &&& final(self).view() == sent_view(old(self).view(), item, position)
                &&& final(self).holder() == (if is_mutex_type(old(self).kind()) { old(k).current_tcb } else { old(self).holder() })
                &&& (r matches SendStep::Done(Ok(()), _))
                &&& *final(state) == *old(state)
                &&& old(k).list(old(self).receive_list() as int).len() > 0 ==>
                    (r matches SendStep::Done(Ok(()), y) && woke_first(old(k), final(k), old(self).receive_list(), y))
                &&& old(k).list(old(self).receive_list() as int).len() == 0 ==> r == SendStep::<T>::Done(Ok(()), false)
                    && final(k).list(old(self).receive_list() as int) == old(k).list(old(self).receive_list() as int)
            },
            !has_room(old(self), position) ==> {
                &&& final(self).view() == old(self).view()
                &&& (is_mutex_type(old(self).kind()) && old(self).holder() is Some && old(self).holder() != old(k).current_tcb
                    && old(k).task(old(self).holder().unwrap().0 as int).task_priority < old(k).current_priority()) ==>
                    final(k).task(old(self).holder().unwrap().0 as int)
                        == priority_inherited(old(k).task(old(self).holder().unwrap().0 as int), old(k).current_priority())
                &&& old(state).ticks_to_wait == 0 ==> r == SendStep::<T>::Done(Err(QueueError::QueueFull), false)
                &&& old(state).ticks_to_wait == 0 ==> *final(self) == *old(self)
                &&& old(state).ticks_to_wait != 0 ==> {
                    &&& final(state).entry_time_set
                    &&& timed_out(old(k), entry_time(old(k), *old(state)), old(state).ticks_to_wait) ==>
                        r == SendStep::<T>::Done(Err(QueueError::QueueFull), false)
                    &&& !timed_out(old(k), entry_time(old(k), *old(state)), old(state).ticks_to_wait) ==>
                        (r matches SendStep::Again(x, _) && x == item)
                    &&& (!timed_out(old(k), entry_time(old(k), *old(state)), old(state).ticks_to_wait)
                        && old(self).rx() == queueUNLOCKED && old(self).tx() == queueUNLOCKED && old(k).pended_ticks == 0) ==>
                        final(k).event_container(old(k).current_tcb.unwrap().0 as int) == Some(old(self).send_list())
                }
                &&& final(self).rx() == (if old(state).ticks_to_wait == 0 { old(self).rx() } else { queueUNLOCKED })
                &&& final(self).tx() == (if old(state).ticks_to_wait == 0 { old(self).tx() } else { queueUNLOCKED })
            },
    {
        if self.messages_waiting < self.length || position == queueOVERWRITE {
            let ghost k0 = *k;
            self.copy_data_to_queue(k, item, position);
            let mut yield_required = false;
            proof {
                assert(k.list(self.tasks_waiting_to_receive as int) == k0.list(self.tasks_waiting_to_receive as int));
                assert(k.has_current());
                assert(k.current_priority() == k0.current_priority());
                assert forall|t: int| 0 <= t < k.num_tasks() implies #[trigger] k.task(t).task_priority == k0.task(t).task_priority by {}
            }
            if !list_is_empty(&k.lists, self.tasks_waiting_to_receive) {
                yield_required = task_remove_from_event_list(k, self.tasks_waiting_to_receive);
            }
            return SendStep::Done(Ok(()), yield_required);
        }
        if self.queue_type == QueueType::Mutex || self.queue_type == QueueType::RecursiveMutex {
            task_priority_inherit(k, self.mutex_holder);
        }
        let ghost k1 = *k;
        proof {
            let c = old(k).current_tcb.unwrap().0 as int;
            assert(k1.task(c).delay_aborted == old(k).task(c).delay_aborted);
            assert(k1.event_container(c) == old(k).event_container(c));
            assert(k1.state_container(c) == old(k).state_container(c));
        }
        if state.ticks_to_wait == 0 {
            return SendStep::Done(Err(QueueError::QueueFull), false);
        } else if !state.entry_time_set {
            task_set_time_out_state(k, &mut state.timeout);
            state.entry_time_set = true;
        }
        task_suspend_all(k);
        self.lock_queue();
        let ghost k2 = *k;
        proof {
            assert(timed_out(&k2, state.timeout, state.ticks_to_wait)
                == timed_out(old(k), entry_time(old(k), *old(state)), old(state).ticks_to_wait));
        }
        let expired = task_check_for_timeout(k, &mut state.timeout, &mut state.ticks_to_wait);
        if !expired {
            if self.is_queue_full() {
                let ghost k3 = *k;
                proof {
                    let c = old(k).current_tcb.unwrap().0 as int;
                    assert(k3.event_container(c) == old(k).event_container(c));
                    assert(k3.state_container(c) == old(k).state_container(c));
                }
                task_place_on_event_list(k, self.tasks_waiting_to_send, state.ticks_to_wait);
                let ghost k4 = *k;
                self.unlock_queue(k);
                let ghost k5 = *k;
                proof {
                    let c = old(k).current_tcb.unwrap().0 as int;
                    if old(self).rx() == queueUNLOCKED && old(self).tx() == queueUNLOCKED {
                        assert(k5 == k4);
                        assert(k4.event_container(c) == Some(self.tasks_waiting_to_send));
                        assert(!k4.list(PENDING_READY_LIST as int).contains(event_item(c) as ItemLink)) by {
                            if k4.list(PENDING_READY_LIST as int).contains(event_item(c) as ItemLink) {
                                let q = choose|q: int| 0 <= q < k4.list(PENDING_READY_LIST as int).len()
                                    && k4.list(PENDING_READY_LIST as int)[q] == event_item(c) as ItemLink;
                                k4.lemma_list_item_kind(PENDING_READY_LIST as int, q);
                            }
                        }
                    }
                }
                let resumed = task_resume_all(k);
                SendStep::Again(item, !resumed)
            } else {
                self.unlock_queue(k);
                let _ = task_resume_all(k);
                SendStep::Again(item, false)
            }
        } else {
            self.unlock_queue(k);
            let _ = task_resume_all(k);
            SendStep::Done(Err(QueueError::QueueFull), false)
        }
    }
}

impl<T: Default + Clone> QueueDefinition<T> {
    /// One attempt to receive.  With an item there, it is taken out (or, when
    /// only peeking, copied) and returned.  Taking from a mutex gives it back:
    /// the holder returns from an inherited priority when it holds no other
    /// mutex, and the mutex has no holder any more; the first task waiting to
    /// send is woken.  Peeking wakes the first task waiting to receive, since
    /// the item is still there.  A context switch is due when a woken task's
    /// priority is above the running task's, or when the holder gave up an
    /// inherited priority.  Without an item, with no time to wait the queue is
    /// empty; otherwise the wait's start is recorded and, with the scheduler
    /// suspended and the queue locked, the time out is checked: when it has
    /// expired the queue is empty, else the running task waits on the queue's
    /// receive list and the call is to be attempted again.
    pub fn queue_generic_receive(&mut self, k: &mut Kernel, state: &mut BlockingState, just_peeking: bool)
        -> (r: QueueStep<Result<T, QueueError>>)
        requires
            old(self).wf(),
            old(self).lists_in(old(k)),
            old(k).wf(),
            old(k).has_current(),
            old(state).ticks_to_wait != 0 && old(self).view().len() == 0 ==> can_block(old(k)),
            holder_in(old(self), old(k)),
        ensures
            final(self).wf(),
            final(self).lists_in(final(k)),
            final(k).wf(),
            final(k).current_tcb == old(k).current_tcb,
            final(self).capacity() == old(self).capacity(),
            final(self).kind() == old(self).kind(),
            final(self).send_list() == old(self).send_list(),
            final(self).receive_list() == old(self).receive_list(),
            final(self).recursive_count() == old(self).recursive_count(),
            (old(self).view().len() > 0 || old(state).ticks_to_wait == 0) ==>
                final(self).rx() == old(self).rx() && final(self).tx() == old(self).tx(),
            (old(self).view().len() == 0 && old(state).ticks_to_wait != 0) ==>
                final(self).rx() == queueUNLOCKED && final(self).tx() == queueUNLOCKED,
            (old(self).view().len() > 0 || old(state).ticks_to_wait == 0) ==> caller_kept(old(k), final(k)),
            (old(self).view().len() > 0 || old(state).ticks_to_wait == 0) ==> *final(state) == *old(state),
            old(self).view().len() > 0 && !just_peeking ==> {
                &&& (r matches QueueStep::Done(Ok(x), _) && x == old(self).view()[0])
                &&& final(self).view() == old(self).view().drop_first()
                &&& *final(state) == *old(state)
                &&& final(self).holder() == (if is_mutex_type(old(self).kind()) { None } else { old(self).holder() })
                &&& (is_mutex_type(old(self).kind()) && old(self).holder() is Some) ==>
                    final(k).task(old(self).holder().unwrap().0 as int)
                        == priority_disinherited(old(k).task(old(self).holder().unwrap().0 as int))
                &&& old(k).list(old(self).send_list() as int).len() > 0 ==>
                    final(k).list(old(self).send_list() as int) == old(k).list(old(self).send_list() as int).drop_first()
                &&& (!is_mutex_type(old(self).kind()) && old(k).list(old(self).send_list() as int).len() > 0) ==>
                    (r matches QueueStep::Done(_, y) && woke_first(old(k), final(k), old(self).send_list(), y))
                &&& (r matches QueueStep::Done(_, y) && y == (if old(k).list(old(self).send_list() as int).len() > 0 {
                        final(k).task(old(k).list(old(self).send_list() as int)[0] as int / 2).task_priority
                            > final(k).current_priority()
                    } else {
                        is_mutex_type(old(self).kind()) && old(self).holder() is Some
                            && returns_to_base(old(k).task(old(self).holder().unwrap().0 as int))
                    }))
            },
            old(self).view().len() > 0 && just_peeking ==> {
                &&& (r matches QueueStep::Done(Ok(x), _) && cloned(old(self).view()[0], x))
                &&& final(self).view() == old(self).view()
                &&& *final(state) == *old(state)
                &&& final(self).holder() == old(self).holder()
                &&& old(k).list(old(self).receive_list() as int).len() > 0 ==>
                    (r matches QueueStep::Done(_, y) && woke_first(old(k), final(k), old(self).receive_list(), y))
            },
            old(self).view().len() == 0 ==> {
                &&& final(self).view() == old(self).view()
                &&& final(self).holder() == old(self).holder()
                &&& old(state).ticks_to_wait == 0 ==> (r matches QueueStep::Done(Err(QueueError::QueueEmpty), false))
                &&& old(state).ticks_to_wait != 0 ==> {
                    &&& final(state).entry_time_set
                    &&& timed_out(old(k), entry_time(old(k), *old(state)), old(state).ticks_to_wait) ==>
                        (r matches QueueStep::Done(Err(QueueError::QueueEmpty), false))
                    &&& !timed_out(old(k), entry_time(old(k), *old(state)), old(state).ticks_to_wait) ==>
                        (r matches QueueStep::Again(_))
                    &&& (!timed_out(old(k), entry_time(old(k), *old(state)), old(state).ticks_to_wait)
                        && old(self).rx() == queueUNLOCKED && old(self).tx() == queueUNLOCKED && old(k).pended_ticks == 0) ==>
                        final(k).event_container(old(k).current_tcb.unwrap().0 as int) == Some(old(self).receive_list())
                }
            },
    {
        if self.messages_waiting > 0 {
            let mut yield_required = false;
            if !just_peeking {
                let item = self.take_front();
                let mut disinherited = false;
                if self.queue_type == QueueType::Mutex || self.queue_type == QueueType::RecursiveMutex {
                    disinherited = task_priority_disinherit(k, self.mutex_holder);
                    self.mutex_holder = None;
                }
                let ghost k1 = *k;
                proof {
                    assert(k1.has_current());
                    assert(k1.list(self.tasks_waiting_to_send as int) == old(k).list(self.tasks_waiting_to_send as int));
                    let c = old(k).current_tcb.unwrap().0 as int;
                    if is_mutex_type(old(self).kind()) && old(self).holder() is Some {
                        let h = old(self).holder().unwrap().0 as int;
                        if h != c {
                            assert(k1.task(c) == old(k).task(c));
                            assert(k1.state_container(c) == old(k).state_container(c));
                            assert(k1.event_container(c) == old(k).event_container(c));
                        } else if k1.lists == old(k).lists {
                            assert(k1.state_container(c) == old(k).state_container(c));
                        }
                    }
                    assert(caller_kept(old(k), &k1));
                }
                if !list_is_empty(&k.lists, self.tasks_waiting_to_send) {
                    let ghost c = k1.current_tcb.unwrap().0 as int;
                    proof {
                        k1.lemma_list_item_kind(self.tasks_waiting_to_send as int, 0);
                    }
                    if task_remove_from_event_list(k, self.tasks_waiting_to_send) {
                        yield_required = true;
                    }
                    proof {
                        let t = k1.list(self.tasks_waiting_to_send as int)[0] as int / 2;
                        if t != c {
                            assert(k.state_container(c) == k1.state_container(c));
                        }
                        assert(caller_kept(&k1, k));
                    }
                } else if disinherited {
                    yield_required = true;
                }
                QueueStep::Done(Ok(item), yield_required)
            } else {
                let saved_read_position = self.read_from;
                let copy = self.copy_data_from_queue();
                self.read_from = saved_read_position;
                proof {
                    assert(*self == *old(self));
                }
                let item = copy.unwrap();
                if !list_is_empty(&k.lists, self.tasks_waiting_to_receive) {
                    if task_remove_from_event_list(k, self.tasks_waiting_to_receive) {
                        yield_required = true;
                    }
                }
                QueueStep::Done(Ok(item), yield_required)
            }
        } else {
            if state.ticks_to_wait == 0 {
                return QueueStep::Done(Err(QueueError::QueueEmpty), false);
            } else if !state.entry_time_set {
                task_set_time_out_state(k, &mut state.timeout);
                state.entry_time_set = true;
            }
            task_suspend_all(k);
            self.lock_queue();
            let ghost k2 = *k;
            proof {
                assert(timed_out(&k2, state.timeout, state.ticks_to_wait)
                    == timed_out(old(k), entry_time(old(k), *old(state)), old(state).ticks_to_wait));
            }
            let expired = task_check_for_timeout(k, &mut state.timeout, &mut state.ticks_to_wait);
            if !expired {
                if self.is_queue_empty() {
                    task_place_on_event_list(k, self.tasks_waiting_to_receive, state.ticks_to_wait);
                    let ghost k4 = *k;
                    self.unlock_queue(k);
                    let ghost k5 = *k;
                    proof {
                        let c = old(k).current_tcb.unwrap().0 as int;
                        if old(self).rx() == queueUNLOCKED && old(self).tx() == queueUNLOCKED {
                            assert(k5 == k4);
                            assert(k4.event_container(c) == Some(self.tasks_waiting_to_receive));
                            assert(!k4.list(PENDING_READY_LIST as int).contains(event_item(c) as ItemLink)) by {
                                if k4.list(PENDING_READY_LIST as int).contains(event_item(c) as ItemLink) {
                                    let q = choose|q: int| 0 <= q < k4.list(PENDING_READY_LIST as int).len()
                                        && k4.list(PENDING_READY_LIST as int)[q] == event_item(c) as ItemLink;
                                    k4.lemma_list_item_kind(PENDING_READY_LIST as int, q);
                                }
                            }
                        }
                    }
                    let resumed = task_resume_all(k);
                    QueueStep::Again(!resumed)
                } else {
                    self.unlock_queue(k);
                    let _ = task_resume_all(k);
                    QueueStep::Again(false)
                }
            } else {
                self.unlock_queue(k);
                let _ = task_resume_all(k);
                if self.is_queue_empty() {
                    QueueStep::Done(Err(QueueError::QueueEmpty), false)
                } else {
                    QueueStep::Again(false)
                }
            }
        }
    }
}

} // verus!
