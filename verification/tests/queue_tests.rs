use rust_freertos::list::get_list_item_container;
use rust_freertos::port::PORT_MAX_DELAY;
use rust_freertos::queue::{BlockingState, QueueDefinition, QueueStep, SendStep};
use rust_freertos::queue_api::Queue;
use rust_freertos::queue_h::{QueueError, QueueType, queueSEND_TO_BACK};
use rust_freertos::semaphore::Semaphore;
use rust_freertos::task_control::{TaskHandle, TCB};
use rust_freertos::task_global::{initialize_task_list, Kernel, FIRST_EVENT_LIST};

fn new_task(k: &mut Kernel, name: &str, priority: u64) -> TaskHandle {
    TCB::new().name(name).priority(priority).initialise(k, Some(0x1000)).unwrap()
}

fn send(q: &mut Queue<u32>, k: &mut Kernel, x: u32, ticks: u32) -> Result<(), QueueError> {
    let mut st = BlockingState::new(ticks);
    match q.send(k, x, &mut st) {
        SendStep::Done(r, _) => r,
        SendStep::Again(_, _) => panic!("blocked"),
    }
}

fn receive(q: &mut Queue<u32>, k: &mut Kernel, ticks: u32) -> Result<u32, QueueError> {
    let mut st = BlockingState::new(ticks);
    match q.receive(k, &mut st) {
        QueueStep::Done(r, _) => r,
        QueueStep::Again(_) => panic!("blocked"),
    }
}

#[test]
fn queue_is_first_in_first_out() {
    let mut k = initialize_task_list();
    let _a = new_task(&mut k, "A", 1);
    let mut q: Queue<u32> = Queue::new(&mut k, 3);
    assert_eq!(send(&mut q, &mut k, 10, 0), Ok(()));
    assert_eq!(send(&mut q, &mut k, 11, 0), Ok(()));
    assert_eq!(send(&mut q, &mut k, 50, 0), Ok(()));
    assert!(q.0.is_queue_full());
    assert_eq!(send(&mut q, &mut k, 300, 0), Err(QueueError::QueueFull));
    assert_eq!(receive(&mut q, &mut k, 0), Ok(10));
    assert_eq!(send(&mut q, &mut k, 55, 0), Ok(()));
    assert_eq!(receive(&mut q, &mut k, 0), Ok(11));
    assert_eq!(receive(&mut q, &mut k, 0), Ok(50));
    assert_eq!(receive(&mut q, &mut k, 0), Ok(55));
    assert!(q.0.is_queue_empty());
    assert_eq!(receive(&mut q, &mut k, 0), Err(QueueError::QueueEmpty));
}

#[test]
fn send_to_front_is_received_next() {
    let mut k = initialize_task_list();
    let _a = new_task(&mut k, "A", 1);
    let mut q: Queue<u32> = Queue::new(&mut k, 3);
    assert_eq!(send(&mut q, &mut k, 1, 0), Ok(()));
    let mut st = BlockingState::new(0);
    assert!(matches!(q.send_to_front(&mut k, 2, &mut st), SendStep::Done(Ok(()), false)));
    assert_eq!(receive(&mut q, &mut k, 0), Ok(2));
    assert_eq!(receive(&mut q, &mut k, 0), Ok(1));
}

#[test]
fn peek_leaves_the_item() {
    let mut k = initialize_task_list();
    let _a = new_task(&mut k, "A", 1);
    let mut q: Queue<u32> = Queue::new(&mut k, 2);
    assert_eq!(send(&mut q, &mut k, 7, 0), Ok(()));
    let mut st = BlockingState::new(0);
    assert!(matches!(q.peek(&mut k, &mut st), QueueStep::Done(Ok(7), false)));
    assert_eq!(receive(&mut q, &mut k, 0), Ok(7));
}

#[test]
fn overwrite_replaces_the_only_item() {
    let mut k = initialize_task_list();
    let _a = new_task(&mut k, "A", 1);
    let mut q: Queue<u32> = Queue::new(&mut k, 1);
    assert_eq!(q.overwrite(&mut k, 1), Ok(()));
    assert_eq!(q.overwrite(&mut k, 2), Ok(()));
    assert_eq!(receive(&mut q, &mut k, 0), Ok(2));
    assert_eq!(receive(&mut q, &mut k, 0), Err(QueueError::QueueEmpty));
    let (r, woken) = q.overwrite_from_isr(&mut k, 3);
    assert_eq!(r, Ok(()));
    assert!(!woken);
    assert_eq!(receive(&mut q, &mut k, 0), Ok(3));
}

#[test]
fn send_from_isr_reports_full() {
    let mut k = initialize_task_list();
    let _a = new_task(&mut k, "A", 1);
    let mut q: Queue<u32> = Queue::new(&mut k, 1);
    assert_eq!(q.send_to_back_from_isr(&mut k, 1), (Ok(()), false));
    assert_eq!(q.send_to_back_from_isr(&mut k, 2), (Err(QueueError::QueueFull), false));
    assert_eq!(q.send_to_front_from_isr(&mut k, 2), (Err(QueueError::QueueFull), false));
}

#[test]
fn locked_queue_counts_sends_from_isr() {
    let mut k = initialize_task_list();
    let _a = new_task(&mut k, "A", 1);
    let mut q: QueueDefinition<u32> = QueueDefinition::new(&mut k, 2, QueueType::Base);
    q.lock_queue();
    assert_eq!(q.queue_generic_send_from_isr(&mut k, 5, queueSEND_TO_BACK), (Ok(()), false));
    assert_eq!(q.copy_data_from_queue(), Some(5));
}

#[test]
fn receive_with_time_blocks_the_task_on_the_queue() {
    let mut k = initialize_task_list();
    let a = new_task(&mut k, "A", 1);
    let mut q: Queue<u32> = Queue::new(&mut k, 2);
    let mut st = BlockingState::new(10);
    let r = q.receive(&mut k, &mut st);
    assert!(matches!(r, QueueStep::Again(true)));
    assert!(st.entry_time_set);
    let ev = get_list_item_container(&k.lists, k.tasks[a.0].event_list_item).unwrap();
    assert!(ev >= FIRST_EVENT_LIST);
    assert!(get_list_item_container(&k.lists, k.tasks[a.0].state_list_item).is_some());
}

#[test]
fn sending_wakes_a_waiting_receiver() {
    let mut k = initialize_task_list();
    let low = new_task(&mut k, "L", 1);
    let high = new_task(&mut k, "H", 3);
    let mut q: Queue<u32> = Queue::new(&mut k, 2);
    // the high priority task waits for an item
    let mut st = BlockingState::new(PORT_MAX_DELAY);
    assert!(matches!(q.receive(&mut k, &mut st), QueueStep::Again(_)));
    // the low priority task runs and sends: the high one is woken, a switch is due
    k.current_tcb = Some(low);
    let mut st2 = BlockingState::new(0);
    assert!(matches!(q.send(&mut k, 9, &mut st2), SendStep::Done(Ok(()), true)));
    assert_eq!(get_list_item_container(&k.lists, k.tasks[high.0].event_list_item), None);
    assert_eq!(get_list_item_container(&k.lists, k.tasks[high.0].state_list_item), Some(3));
    k.current_tcb = Some(high);
    let mut st3 = BlockingState::new(0);
    assert!(matches!(q.receive(&mut k, &mut st3), QueueStep::Done(Ok(9), false)));
}

#[test]
fn reset_empties_the_queue() {
    let mut k = initialize_task_list();
    let _a = new_task(&mut k, "A", 1);
    let mut q: Queue<u32> = Queue::new(&mut k, 2);
    assert_eq!(send(&mut q, &mut k, 1, 0), Ok(()));
    assert_eq!(q.0.queue_generic_reset(&mut k, false), (Ok(()), false));
    assert!(q.0.is_queue_empty());
    assert_eq!(q.0.queue_type(), QueueType::Base);
}

#[test]
fn queue_error_text() {
    assert_eq!(QueueError::QueueFull.to_string(), "QueueFull");
    assert_eq!(QueueError::QueueEmpty.to_string(), "QueueEmpty");
    assert_eq!(QueueError::MutexTimeout.to_string(), "MutexSendTimeOut");
    assert_eq!(QueueError::QueueSendTimeout.to_string(), "QueueSendTimeOut");
    assert_eq!(QueueError::QueueReceiveTimeout.to_string(), "QueueReceiveTimeOut");
    assert_eq!(QueueType::default(), QueueType::Base);
}

#[test]
fn counting_semaphore_counts() {
    let mut k = initialize_task_list();
    let _a = new_task(&mut k, "A", 1);
    let mut s = Semaphore::create_counting(&mut k, 2);
    let mut st = BlockingState::new(0);
    assert!(matches!(s.semaphore_down(&mut k, &mut st), SendStep::Done(Ok(()), _)));
    assert!(matches!(s.semaphore_down(&mut k, &mut st), SendStep::Done(Ok(()), _)));
    assert!(matches!(s.semaphore_down(&mut k, &mut st), SendStep::Done(Err(QueueError::QueueFull), false)));
    assert_eq!(s.semaphore_up(&mut k), Ok(None));
    assert_eq!(s.semaphore_up(&mut k), Ok(None));
    assert_eq!(s.semaphore_up(&mut k), Err(QueueError::QueueEmpty));
}

#[test]
fn binary_semaphore() {
    let mut k = initialize_task_list();
    let _a = new_task(&mut k, "A", 1);
    let mut s = Semaphore::create_binary(&mut k);
    let mut st = BlockingState::new(0);
    assert!(matches!(s.semaphore_down(&mut k, &mut st), SendStep::Done(Ok(()), _)));
    assert!(matches!(s.semaphore_down(&mut k, &mut st), SendStep::Done(Err(QueueError::QueueFull), false)));
    assert_eq!(s.get_mutex_holder(), None);
}

#[test]
fn mutex_holder_inherits_and_gives_back_priority() {
    let mut k = initialize_task_list();
    let low = new_task(&mut k, "L", 1);
    let high = new_task(&mut k, "H", 3);
    let mut m = Semaphore::new_mutex(&mut k);
    // the low priority task takes the mutex
    k.current_tcb = Some(low);
    let mut st = BlockingState::new(0);
    assert!(matches!(m.semaphore_down(&mut k, &mut st), SendStep::Done(Ok(()), false)));
    assert_eq!(m.get_mutex_holder(), Some(low));
    assert_eq!(k.tasks[low.0].mutexes_held, 1);
    // the high priority task tries to take it without waiting
    k.current_tcb = Some(high);
    let mut st = BlockingState::new(0);
    assert!(matches!(m.semaphore_down(&mut k, &mut st), SendStep::Done(Err(QueueError::QueueFull), false)));
    assert_eq!(k.tasks[low.0].task_priority, 3);
    assert_eq!(get_list_item_container(&k.lists, k.tasks[low.0].state_list_item), Some(3));
    // the holder gives the mutex back and returns to its own priority
    k.current_tcb = Some(low);
    assert_eq!(m.semaphore_up(&mut k), Ok(Some(low)));
    assert_eq!(k.tasks[low.0].task_priority, 1);
    assert_eq!(k.tasks[low.0].mutexes_held, 0);
    assert_eq!(get_list_item_container(&k.lists, k.tasks[low.0].state_list_item), Some(1));
    assert_eq!(m.get_mutex_holder(), None);
}

#[test]
fn recursive_mutex_counts_takes() {
    let mut k = initialize_task_list();
    let a = new_task(&mut k, "A", 1);
    let mut m = Semaphore::create_recursive_mutex(&mut k);
    let mut st = BlockingState::new(0);
    assert!(matches!(m.down_recursive(&mut k, &mut st), QueueStep::Done(true, _)));
    assert!(matches!(m.down_recursive(&mut k, &mut st), QueueStep::Done(true, false)));
    assert_eq!(m.get_recursive_count(), 2);
    assert_eq!(m.get_mutex_holder(), Some(a));
    assert!(m.up_recursive(&mut k));
    assert_eq!(m.get_recursive_count(), 1);
    assert_eq!(m.get_mutex_holder(), Some(a));
    assert!(m.up_recursive(&mut k));
    assert_eq!(m.get_recursive_count(), 0);
    assert_eq!(m.get_mutex_holder(), None);
    assert!(!m.up_recursive(&mut k));
}

#[test]
fn reading_a_slot_moves_the_read_position() {
    let mut k = initialize_task_list();
    let _a = new_task(&mut k, "A", 1);
    let mut q: QueueDefinition<u32> = QueueDefinition::new(&mut k, 3, QueueType::Base);
    let mut st = BlockingState::new(0);
    assert!(matches!(q.queue_generic_send(&mut k, 7, &mut st, queueSEND_TO_BACK), SendStep::Done(Ok(()), false)));
    assert!(matches!(q.queue_generic_send(&mut k, 8, &mut st, queueSEND_TO_BACK), SendStep::Done(Ok(()), false)));
    assert_eq!(q.copy_data_from_queue(), Some(7));
    assert_eq!(q.copy_data_from_queue(), Some(8));
}

#[test]
fn resetting_a_new_queue_gives_it_new_empty_lists() {
    let mut k = initialize_task_list();
    let a = new_task(&mut k, "A", 1);
    let mut q: Queue<u32> = Queue::new(&mut k, 1);
    let mut st = BlockingState::new(5);
    assert!(matches!(q.receive(&mut k, &mut st), QueueStep::Again(_)));
    let old_list = get_list_item_container(&k.lists, k.tasks[a.0].event_list_item).unwrap();
    let lists_before = k.lists.list_count();
    assert_eq!(q.0.queue_generic_reset(&mut k, true), (Ok(()), false));
    assert_eq!(k.lists.list_count(), lists_before + 2);
    assert!(rust_freertos::list::list_is_empty(&k.lists, lists_before));
    assert!(rust_freertos::list::list_is_empty(&k.lists, lists_before + 1));
    assert!(old_list < lists_before);
    assert!(q.0.is_queue_empty());
}

#[test]
fn zero_wait_calls_work_while_the_scheduler_is_suspended() {
    let mut k = initialize_task_list();
    let _a = new_task(&mut k, "A", 1);
    let mut q: Queue<u32> = Queue::new(&mut k, 1);
    rust_freertos::kernel::task_suspend_all(&mut k);
    assert_eq!(send(&mut q, &mut k, 4, 0), Ok(()));
    assert_eq!(send(&mut q, &mut k, 5, 0), Err(QueueError::QueueFull));
    assert_eq!(receive(&mut q, &mut k, 0), Ok(4));
    assert_eq!(receive(&mut q, &mut k, 0), Err(QueueError::QueueEmpty));
    assert_eq!(k.scheduler_suspended, 1);
}

#[test]
fn failed_send_leaves_the_queue_as_it_was() {
    let mut k = initialize_task_list();
    let _a = new_task(&mut k, "A", 1);
    let mut q: QueueDefinition<u32> = QueueDefinition::new(&mut k, 1, QueueType::Base);
    let mut st = BlockingState::new(0);
    assert!(matches!(q.queue_generic_send(&mut k, 1, &mut st, queueSEND_TO_BACK), SendStep::Done(Ok(()), false)));
    assert!(matches!(q.queue_generic_send(&mut k, 2, &mut st, queueSEND_TO_BACK),
        SendStep::Done(Err(QueueError::QueueFull), false)));
    assert_eq!(q.copy_data_from_queue(), Some(1));
}
