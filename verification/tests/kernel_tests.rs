use rust_freertos::kernel::{
    move_tasks_to_ready_list, process_pended_ticks, reset_next_task_unblock_time, task_end_scheduler,
    task_increment_tick, task_resume_all, task_select_highest_priority_task, task_start_scheduler,
    task_step_tick, task_suspend_all, task_switch_context,
};
use rust_freertos::list::get_list_item_container;
use rust_freertos::port::{
    pd_ms_to_ticks, CONFIG_MAX_PRIORITIES, ERR_COULD_NOT_ALLOCATE_REQUIRED_MEMORY, PD_PASS, PORT_MAX_DELAY,
};
use rust_freertos::task_api::{task_priority_get, task_priority_set};
use rust_freertos::task_control::{
    add_current_task_to_delayed_list, suspend_task, top_of_stack, FreeRtosError, TaskHandle, TCB,
};
use rust_freertos::task_global::{
    initialize_task_list, Kernel, DELAYED_TASK_LIST_1, DELAYED_TASK_LIST_2, PENDING_READY_LIST,
    SUSPENDED_TASK_LIST, TASKS_WAITING_TERMINATION,
};
use rust_freertos::task_queue::{
    task_check_for_timeout, task_missed_yield, task_set_time_out_state, time_out,
};
use rust_freertos::task_timemanager::task_delay;

fn new_task(k: &mut Kernel, name: &str, priority: u64) -> TaskHandle {
    TCB::new().name(name).priority(priority).initialise(k, Some(0x1000)).unwrap()
}

fn state_list_of(k: &Kernel, h: TaskHandle) -> Option<usize> {
    get_list_item_container(&k.lists, k.tasks[h.0].state_list_item)
}

fn event_list_of(k: &Kernel, h: TaskHandle) -> Option<usize> {
    get_list_item_container(&k.lists, k.tasks[h.0].event_list_item)
}

#[test]
fn ms_to_ticks_uses_tick_rate() {
    assert_eq!(pd_ms_to_ticks(1500), 1500);
    assert_eq!(pd_ms_to_ticks(0), 0);
    assert_eq!(pd_ms_to_ticks(u32::MAX), ((u32::MAX as u64 * 1000) / 1000) as u32);
}

#[test]
fn top_of_stack_is_aligned() {
    assert_eq!(top_of_stack(0x1000, 64), (0x1000 + 63) & !7usize);
    assert_eq!(top_of_stack(0x1001, 1) % 8, 0);
}

#[test]
fn priority_builder_clamps() {
    let tcb = TCB::new().priority(9);
    assert_eq!(tcb.task_priority, CONFIG_MAX_PRIORITIES - 1);
    let tcb = TCB::new().priority(2);
    assert_eq!(tcb.task_priority, 2);
    let tcb = TCB::new();
    assert_eq!(tcb.task_priority, 1);
    assert_eq!(tcb.get_name(), "Unnamed");
}

#[test]
fn initialise_without_stack_is_out_of_memory() {
    let mut k = initialize_task_list();
    let r = TCB::new().initialise(&mut k, None);
    assert_eq!(r.err(), Some(FreeRtosError::OutOfMemory));
    assert_eq!(k.tasks.len(), 0);
    assert_eq!(
        TCB::create_task(&mut k, "t".to_string(), 64, 2, None),
        ERR_COULD_NOT_ALLOCATE_REQUIRED_MEMORY
    );
    assert_eq!(TCB::create_task(&mut k, "t".to_string(), 64, 7, Some(0x2000)), PD_PASS);
    assert_eq!(k.tasks[0].task_priority, CONFIG_MAX_PRIORITIES - 1);
    assert_eq!(k.tasks[0].base_priority, CONFIG_MAX_PRIORITIES - 1);
    assert_eq!(k.tasks[0].task_stacksize, 64);
}

#[test]
fn new_tasks_are_ready_and_highest_becomes_current() {
    let mut k = initialize_task_list();
    let a = new_task(&mut k, "A", 1);
    let b = new_task(&mut k, "B", 3);
    let c = new_task(&mut k, "C", 2);
    assert_eq!(k.current_tcb, Some(b));
    assert_eq!(k.top_ready_priority, 3);
    assert_eq!(k.current_number_of_tasks, 3);
    assert_eq!(k.task_number, 3);
    assert_eq!(state_list_of(&k, a), Some(1));
    assert_eq!(state_list_of(&k, b), Some(3));
    assert_eq!(state_list_of(&k, c), Some(2));
    assert_eq!(event_list_of(&k, a), None);
    assert_eq!(task_priority_get(&k, None), 3);
    assert_eq!(task_priority_get(&k, Some(a)), 1);
    // the event item orders tasks by priority, highest first
    let ev = k.tasks[b.0].event_list_item;
    assert_eq!(k.lists.get_item(ev).item_value, (CONFIG_MAX_PRIORITIES - 3) as u32);
}

#[test]
fn start_scheduler_creates_idle_task() {
    let mut k = initialize_task_list();
    let a = new_task(&mut k, "A", 2);
    task_start_scheduler(&mut k, Some(0x3000));
    let idle = k.idle_task_handle.unwrap();
    assert_eq!(k.tasks[idle.0].task_priority, 0);
    assert_eq!(k.tasks[idle.0].get_name(), "Idle");
    assert!(k.scheduler_running);
    assert_eq!(k.tick_count, 0);
    assert_eq!(k.next_task_unblock_time, PORT_MAX_DELAY);
    assert_eq!(k.current_tcb, Some(a));
    task_end_scheduler(&mut k);
    assert!(!k.scheduler_running);
}

#[test]
fn switch_context_takes_turns_at_the_same_priority() {
    let mut k = initialize_task_list();
    let a = new_task(&mut k, "A", 2);
    let b = new_task(&mut k, "B", 2);
    let _low = new_task(&mut k, "L", 1);
    task_start_scheduler(&mut k, Some(0x3000));
    let mut seen = vec![];
    for _ in 0..4 {
        task_switch_context(&mut k);
        seen.push(k.current_tcb.unwrap());
    }
    assert_eq!(k.top_ready_priority, 2);
    assert_eq!(seen, vec![a, b, a, b]);
    assert!(!k.yield_pending);
}

#[test]
fn switch_context_while_suspended_only_pends_a_yield() {
    let mut k = initialize_task_list();
    let _a = new_task(&mut k, "A", 2);
    task_suspend_all(&mut k);
    let before = k.current_tcb;
    task_switch_context(&mut k);
    assert!(k.yield_pending);
    assert_eq!(k.current_tcb, before);
}

#[test]
fn select_finds_highest_nonempty_ready_list() {
    let mut k = initialize_task_list();
    let a = new_task(&mut k, "A", 1);
    k.top_ready_priority = 4;
    task_select_highest_priority_task(&mut k);
    assert_eq!(k.top_ready_priority, 1);
    assert_eq!(k.current_tcb, Some(a));
}

#[test]
fn suspend_and_resume_nest() {
    let mut k = initialize_task_list();
    let _a = new_task(&mut k, "A", 1);
    task_suspend_all(&mut k);
    task_suspend_all(&mut k);
    assert_eq!(k.scheduler_suspended, 2);
    assert!(!task_resume_all(&mut k));
    assert_eq!(k.scheduler_suspended, 1);
    let _ = task_resume_all(&mut k);
    assert_eq!(k.scheduler_suspended, 0);
}

#[test]
fn delay_then_ticks_wake_the_task() {
    let mut k = initialize_task_list();
    let a = new_task(&mut k, "A", 2);
    let idle = new_task(&mut k, "I", 0);
    task_start_scheduler(&mut k, Some(0x3000));
    assert_eq!(k.current_tcb, Some(a));
    let must_yield = task_delay(&mut k, 3);
    assert!(must_yield);
    assert_eq!(state_list_of(&k, a), Some(DELAYED_TASK_LIST_1));
    assert_eq!(k.lists.get_item(k.tasks[a.0].state_list_item).item_value, 3);
    assert_eq!(k.next_task_unblock_time, 3);
    k.current_tcb = Some(idle);
    assert!(!task_increment_tick(&mut k) || true);
    assert_eq!(k.tick_count, 1);
    let _ = task_increment_tick(&mut k);
    assert_eq!(state_list_of(&k, a), Some(DELAYED_TASK_LIST_1));
    let switch = task_increment_tick(&mut k);
    assert_eq!(k.tick_count, 3);
    assert_eq!(state_list_of(&k, a), Some(2));
    assert!(switch);
    assert_eq!(k.next_task_unblock_time, PORT_MAX_DELAY);
}

#[test]
fn zero_delay_only_yields() {
    let mut k = initialize_task_list();
    let a = new_task(&mut k, "A", 2);
    assert!(task_delay(&mut k, 0));
    assert_eq!(state_list_of(&k, a), Some(2));
}

#[test]
fn ticks_while_suspended_are_pended_then_processed() {
    let mut k = initialize_task_list();
    let _a = new_task(&mut k, "A", 2);
    task_suspend_all(&mut k);
    assert!(!task_increment_tick(&mut k));
    assert!(!task_increment_tick(&mut k));
    assert_eq!(k.pended_ticks, 2);
    assert_eq!(k.tick_count, 0);
    let _ = task_resume_all(&mut k);
    assert_eq!(k.pended_ticks, 0);
    assert_eq!(k.tick_count, 2);
}

#[test]
fn process_pended_ticks_wraps_the_tick_count() {
    let mut k = initialize_task_list();
    let _a = new_task(&mut k, "A", 2);
    k.tick_count = u32::MAX;
    k.pended_ticks = 2;
    process_pended_ticks(&mut k);
    assert_eq!(k.tick_count, 1);
    assert_eq!(k.pended_ticks, 0);
    assert_eq!(k.delayed_task_list, DELAYED_TASK_LIST_2);
    assert_eq!(k.overflow_delayed_task_list, DELAYED_TASK_LIST_1);
}

#[test]
fn wake_time_past_wrap_goes_to_overflow_list() {
    let mut k = initialize_task_list();
    let a = new_task(&mut k, "A", 2);
    k.tick_count = u32::MAX - 1;
    add_current_task_to_delayed_list(&mut k, 5, false);
    assert_eq!(state_list_of(&k, a), Some(DELAYED_TASK_LIST_2));
    assert_eq!(k.lists.get_item(k.tasks[a.0].state_list_item).item_value, 3);
}

#[test]
fn blocking_for_ever_goes_to_suspended_list() {
    let mut k = initialize_task_list();
    let a = new_task(&mut k, "A", 2);
    add_current_task_to_delayed_list(&mut k, PORT_MAX_DELAY, true);
    assert_eq!(state_list_of(&k, a), Some(SUSPENDED_TASK_LIST));
    assert!(!k.tasks[a.0].delay_aborted);
}

#[test]
fn step_tick_moves_the_count() {
    let mut k = initialize_task_list();
    k.next_task_unblock_time = 100;
    task_step_tick(&mut k, 40);
    assert_eq!(k.tick_count, 40);
}

#[test]
fn reset_next_unblock_time_reads_the_delayed_head() {
    let mut k = initialize_task_list();
    let _a = new_task(&mut k, "A", 2);
    reset_next_task_unblock_time(&mut k);
    assert_eq!(k.next_task_unblock_time, PORT_MAX_DELAY);
    add_current_task_to_delayed_list(&mut k, 7, false);
    k.next_task_unblock_time = 0;
    reset_next_task_unblock_time(&mut k);
    assert_eq!(k.next_task_unblock_time, 7);
}

#[test]
fn pending_ready_tasks_move_to_ready_lists() {
    let mut k = initialize_task_list();
    let a = new_task(&mut k, "A", 1);
    let b = new_task(&mut k, "B", 3);
    // A blocks, then is readied by an event while the scheduler is suspended
    k.current_tcb = Some(a);
    add_current_task_to_delayed_list(&mut k, 10, false);
    k.insert_event_end(PENDING_READY_LIST, a.0);
    k.current_tcb = Some(b);
    assert!(move_tasks_to_ready_list(&mut k));
    assert_eq!(state_list_of(&k, a), Some(1));
    assert_eq!(event_list_of(&k, a), None);
    assert!(!k.yield_pending);
    assert!(!move_tasks_to_ready_list(&mut k));
}

#[test]
fn priority_set_moves_ready_task_and_reports_yield() {
    let mut k = initialize_task_list();
    let a = new_task(&mut k, "A", 1);
    let b = new_task(&mut k, "B", 2);
    assert_eq!(k.current_tcb, Some(b));
    assert!(task_priority_set(&mut k, Some(a), 3));
    assert_eq!(k.tasks[a.0].task_priority, 3);
    assert_eq!(k.tasks[a.0].base_priority, 3);
    assert_eq!(state_list_of(&k, a), Some(3));
    assert_eq!(k.top_ready_priority, 3);
    // lowering the running task asks for a yield
    assert!(task_priority_set(&mut k, None, 0));
    // the same priority again asks no yield of another task
    assert!(!task_priority_set(&mut k, Some(a), 3));
    assert_eq!(state_list_of(&k, a), Some(3));
    // out of range priorities are reduced
    let _ = task_priority_set(&mut k, Some(a), 99);
    assert_eq!(k.tasks[a.0].task_priority, CONFIG_MAX_PRIORITIES - 1);
}

#[test]
fn suspended_task_enters_suspended_list() {
    let mut k = initialize_task_list();
    let a = new_task(&mut k, "A", 1);
    let _b = new_task(&mut k, "B", 2);
    assert!(!suspend_task(&mut k, a));
    assert_eq!(state_list_of(&k, a), Some(SUSPENDED_TASK_LIST));
}

#[test]
fn deleting_tasks() {
    let mut k = initialize_task_list();
    let a = new_task(&mut k, "A", 1);
    let b = new_task(&mut k, "B", 2);
    assert!(!TCB::task_delete(&mut k, a));
    assert_eq!(state_list_of(&k, a), None);
    assert_eq!(k.current_number_of_tasks, 1);
    assert!(!TCB::task_delete(&mut k, b));
    assert_eq!(state_list_of(&k, b), Some(TASKS_WAITING_TERMINATION));
    assert_eq!(k.deleted_tasks_waiting_clean_up, 1);
}

#[test]
fn timeouts() {
    let mut k = initialize_task_list();
    let a = new_task(&mut k, "A", 1);
    let mut t = time_out::default();
    task_set_time_out_state(&k, &mut t);
    k.tick_count = 4;
    let mut wait = 10;
    assert!(!task_check_for_timeout(&mut k, &mut t, &mut wait));
    assert_eq!(wait, 6);
    assert_eq!(t.time_on_entering, 4);
    k.tick_count = 10;
    assert!(task_check_for_timeout(&mut k, &mut t, &mut wait));
    let mut forever = PORT_MAX_DELAY;
    assert!(!task_check_for_timeout(&mut k, &mut t, &mut forever));
    a.set_delay_aborted(&mut k, true);
    assert!(task_check_for_timeout(&mut k, &mut t, &mut forever));
    assert!(!k.tasks[a.0].delay_aborted);
}

#[test]
fn missed_yield_is_pending() {
    let mut k = initialize_task_list();
    task_missed_yield(&mut k);
    assert!(k.yield_pending);
}

use rust_freertos::kernel::generate_context_switch_stats;
use rust_freertos::task_api::{task_get_current_task_handle, task_get_handle, task_get_idle_task_handle};

#[test]
fn find_tasks_by_name() {
    let mut k = initialize_task_list();
    let a = new_task(&mut k, "alpha", 1);
    let b = new_task(&mut k, "beta", 3);
    assert_eq!(task_get_handle(&k, "alpha"), Some(a));
    assert_eq!(task_get_handle(&k, "beta"), Some(b));
    assert_eq!(task_get_handle(&k, "gamma"), None);
    assert!(!suspend_task(&mut k, a));
    assert_eq!(task_get_handle(&k, "alpha"), Some(a));
    assert_eq!(task_get_current_task_handle(&k), Some(b));
    task_start_scheduler(&mut k, Some(0x5000));
    assert_eq!(task_get_handle(&k, "Idle"), Some(task_get_idle_task_handle(&k)));
}

#[test]
fn run_time_is_charged_to_the_running_task() {
    let mut k = initialize_task_list();
    let a = new_task(&mut k, "A", 1);
    generate_context_switch_stats(&mut k, 100);
    assert_eq!(k.tasks[a.0].runtime_counter, 100);
    assert_eq!(k.task_switched_in_time, 100);
    generate_context_switch_stats(&mut k, 130);
    assert_eq!(k.tasks[a.0].runtime_counter, 130);
    generate_context_switch_stats(&mut k, 120);
    assert_eq!(k.tasks[a.0].runtime_counter, 130);
    assert_eq!(k.total_run_time, 120);
    assert_eq!(a.get_run_time(&k), 130);
}

#[test]
fn new_task_outranking_the_running_one_asks_for_a_yield() {
    let mut k = initialize_task_list();
    let a = new_task(&mut k, "A", 2);
    task_start_scheduler(&mut k, Some(0x3000));
    assert_eq!(k.current_tcb, Some(a));
    let high = k.register_task(TCB::new().name("H").priority(4));
    assert_eq!(high.add_new_task_to_ready_list(&mut k), Ok(true));
    assert_eq!(k.current_tcb, Some(a));
    assert_eq!(state_list_of(&k, high), Some(4));
    let low = k.register_task(TCB::new().name("L").priority(1));
    assert_eq!(low.add_new_task_to_ready_list(&mut k), Ok(false));
    assert_eq!(state_list_of(&k, low), Some(1));
}

#[test]
fn new_task_before_start_takes_over_when_not_lower() {
    let mut k = initialize_task_list();
    let a = k.register_task(TCB::new().name("A").priority(2));
    assert_eq!(a.add_new_task_to_ready_list(&mut k), Ok(false));
    assert_eq!(k.current_tcb, Some(a));
    let b = k.register_task(TCB::new().name("B").priority(2));
    assert_eq!(b.add_new_task_to_ready_list(&mut k), Ok(false));
    assert_eq!(k.current_tcb, Some(b));
    let c = k.register_task(TCB::new().name("C").priority(1));
    assert_eq!(c.add_new_task_to_ready_list(&mut k), Ok(false));
    assert_eq!(k.current_tcb, Some(b));
    assert_eq!(k.current_number_of_tasks, 3);
}

#[test]
fn self_suspend_before_start_picks_another_task() {
    let mut k = initialize_task_list();
    let a = new_task(&mut k, "A", 1);
    let b = new_task(&mut k, "B", 3);
    assert_eq!(k.current_tcb, Some(b));
    assert!(!suspend_task(&mut k, b));
    assert_eq!(state_list_of(&k, b), Some(SUSPENDED_TASK_LIST));
    assert_eq!(k.current_tcb, Some(a));
    assert!(!k.yield_pending);
}

#[test]
fn self_suspend_of_the_only_task_keeps_it_current() {
    let mut k = initialize_task_list();
    let a = new_task(&mut k, "A", 1);
    assert!(!suspend_task(&mut k, a));
    assert_eq!(state_list_of(&k, a), Some(SUSPENDED_TASK_LIST));
    assert_eq!(k.current_tcb, Some(a));
}

#[test]
fn self_suspend_while_suspended_pends_the_switch() {
    let mut k = initialize_task_list();
    let _a = new_task(&mut k, "A", 1);
    let b = new_task(&mut k, "B", 3);
    task_suspend_all(&mut k);
    assert!(!suspend_task(&mut k, b));
    assert_eq!(k.current_tcb, Some(b));
    assert!(k.yield_pending);
}

#[test]
fn search_by_name_returns_the_first_in_search_order() {
    let mut k = initialize_task_list();
    let low = new_task(&mut k, "dup", 1);
    let high = new_task(&mut k, "dup", 3);
    assert_eq!(task_get_handle(&k, "dup"), Some(high));
    assert!(!suspend_task(&mut k, high));
    assert_eq!(task_get_handle(&k, "dup"), Some(low));
}

#[test]
fn same_priority_for_the_running_task_still_yields_and_sets_the_event_value() {
    let mut k = initialize_task_list();
    let a = new_task(&mut k, "A", 2);
    let e = k.tasks[a.0].event_list_item;
    k.lists.set_value(e, 0);
    assert!(task_priority_set(&mut k, None, 2));
    assert_eq!(k.tasks[a.0].task_priority, 2);
    assert_eq!(k.lists.get_item(e).item_value, (CONFIG_MAX_PRIORITIES - 2) as u32);
    assert_eq!(state_list_of(&k, a), Some(2));
}

#[test]
fn ending_the_scheduler_deletes_every_task() {
    let mut k = initialize_task_list();
    let _a = new_task(&mut k, "A", 2);
    let _b = new_task(&mut k, "B", 1);
    task_start_scheduler(&mut k, Some(0x3000));
    task_end_scheduler(&mut k);
    assert!(!k.scheduler_running);
    assert_eq!(k.current_number_of_tasks, 0);
    assert!(k.tasks.is_empty());
    assert_eq!(k.current_tcb, None);
    assert_eq!(k.idle_task_handle, None);
    for p in 0..CONFIG_MAX_PRIORITIES as usize {
        assert!(rust_freertos::list::list_is_empty(&k.lists, p));
    }
}

#[test]
fn resume_all_places_pending_tasks_in_ready_lists() {
    let mut k = initialize_task_list();
    let a = new_task(&mut k, "A", 1);
    let b = new_task(&mut k, "B", 3);
    k.current_tcb = Some(a);
    add_current_task_to_delayed_list(&mut k, 10, false);
    k.current_tcb = Some(b);
    task_suspend_all(&mut k);
    k.insert_event_end(PENDING_READY_LIST, a.0);
    assert!(!task_resume_all(&mut k));
    assert_eq!(state_list_of(&k, a), Some(1));
    assert_eq!(event_list_of(&k, a), None);
    assert_eq!(k.scheduler_suspended, 0);
}

#[test]
fn delay_stores_the_wake_time() {
    let mut k = initialize_task_list();
    let a = new_task(&mut k, "A", 2);
    let _i = new_task(&mut k, "I", 0);
    task_start_scheduler(&mut k, Some(0x3000));
    k.tick_count = 10;
    let _ = task_delay(&mut k, 5);
    assert_eq!(k.lists.get_item(k.tasks[a.0].state_list_item).item_value, 15);
    assert_eq!(state_list_of(&k, a), Some(DELAYED_TASK_LIST_1));
}

#[test]
fn start_scheduler_names_the_idle_task() {
    let mut k = initialize_task_list();
    let _a = new_task(&mut k, "A", 2);
    task_start_scheduler(&mut k, Some(0x3000));
    assert_eq!(rust_freertos::task_api::task_get_handle(&k, "Idle"), k.idle_task_handle);
}

#[test]
fn modifications_chain() {
    let mut tcb = TCB::new();
    tcb.modify_name("worker").modify_priority(3).modify_stacksize(128);
    assert_eq!(tcb.get_name(), "worker");
    assert_eq!(tcb.task_priority, 3);
    assert_eq!(tcb.task_stacksize, 128);
}

#[test]
fn delayed_tasks_are_kept_in_wake_time_order_and_wake_in_turn() {
    let mut k = initialize_task_list();
    let a = new_task(&mut k, "A", 1);
    let b = new_task(&mut k, "B", 1);
    let c = new_task(&mut k, "C", 1);
    let _idle = new_task(&mut k, "I", 0);
    task_start_scheduler(&mut k, Some(0x3000));
    k.current_tcb = Some(a);
    add_current_task_to_delayed_list(&mut k, 5, false);
    k.current_tcb = Some(b);
    add_current_task_to_delayed_list(&mut k, 2, false);
    k.current_tcb = Some(c);
    add_current_task_to_delayed_list(&mut k, 3, false);
    let values: Vec<u32> = (0..3)
        .map(|m| k.lists.get_item(k.lists.list_item_at(DELAYED_TASK_LIST_1, m)).item_value)
        .collect();
    assert_eq!(values, vec![2, 3, 5]);
    k.current_tcb = Some(_idle);
    let _ = task_increment_tick(&mut k);
    let _ = task_increment_tick(&mut k);
    assert_eq!(state_list_of(&k, b), Some(1));
    assert_eq!(state_list_of(&k, c), Some(DELAYED_TASK_LIST_1));
    let _ = task_increment_tick(&mut k);
    assert_eq!(state_list_of(&k, c), Some(1));
    assert_eq!(state_list_of(&k, a), Some(DELAYED_TASK_LIST_1));
    assert_eq!(k.next_task_unblock_time, 5);
}

use rust_freertos::task_api::{
    task_check_free_stack_space, task_get_application_task_tag, task_get_state, task_get_system_state,
    task_test_info, TSK_STACK_FILL_BYTE,
};
use rust_freertos::task_control::task_state;

#[test]
fn task_info_reports_a_task() {
    let mut k = initialize_task_list();
    let a = new_task(&mut k, "alpha", 1);
    let b = new_task(&mut k, "beta", 3);
    let s = task_test_info(&k, Some(a), Some(task_state::ready), Some(12));
    assert_eq!(s.handle, a);
    assert_eq!(s.task_name, "alpha");
    assert_eq!(s.current_priority, 1);
    assert_eq!(s.base_priority, 1);
    assert_eq!(s.stack_base, 0x1000);
    assert_eq!(s.current_state, task_state::ready);
    assert_eq!(s.stack_high_water_mark, 12);
    let s = task_test_info(&k, None, Some(task_state::ready), None);
    assert_eq!(s.handle, b);
    assert_eq!(s.current_state, task_state::running);
    assert_eq!(s.stack_high_water_mark, 0);
    // a task given as suspended but waiting on an event is blocked
    let l = k.create_event_list();
    k.insert_event_end(l, a.0);
    assert_eq!(task_test_info(&k, Some(a), Some(task_state::suspended), None).current_state, task_state::blocked);
}

#[test]
fn task_state_follows_the_lists() {
    let mut k = initialize_task_list();
    let a = new_task(&mut k, "A", 1);
    let b = new_task(&mut k, "B", 3);
    assert_eq!(task_get_state(&k, b), task_state::running);
    assert_eq!(task_get_state(&k, a), task_state::ready);
    assert!(!suspend_task(&mut k, a));
    assert_eq!(task_get_state(&k, a), task_state::suspended);
    k.current_tcb = Some(b);
    add_current_task_to_delayed_list(&mut k, 5, false);
    k.current_tcb = Some(a);
    assert_eq!(task_get_state(&k, b), task_state::blocked);
}

#[test]
fn system_state_walks_every_list() {
    let mut k = initialize_task_list();
    let a = new_task(&mut k, "A", 1);
    let b = new_task(&mut k, "B", 3);
    let c = new_task(&mut k, "C", 2);
    assert!(!suspend_task(&mut k, a));
    let (statuses, total) = task_get_system_state(&k, 3);
    assert_eq!(total, Some(0));
    let handles: Vec<TaskHandle> = statuses.iter().map(|s| s.handle).collect();
    assert_eq!(handles, vec![b, c, a]);
    assert_eq!(statuses[0].current_state, task_state::running);
    assert_eq!(statuses[1].current_state, task_state::ready);
    assert_eq!(statuses[2].current_state, task_state::suspended);
    let (none, total) = task_get_system_state(&k, 2);
    assert!(none.is_empty());
    assert_eq!(total, None);
}

#[test]
fn free_stack_space_counts_fill_bytes_in_words() {
    let word = std::mem::size_of::<usize>();
    let mut bytes = vec![TSK_STACK_FILL_BYTE; 3 * word + 1];
    bytes.push(0);
    bytes.push(TSK_STACK_FILL_BYTE);
    assert_eq!(task_check_free_stack_space(&bytes), 3);
    assert_eq!(task_check_free_stack_space(&[0u8, TSK_STACK_FILL_BYTE]), 0);
    assert_eq!(task_check_free_stack_space(&[]), 0);
}

#[test]
fn application_task_tag_is_read() {
    let mut k = initialize_task_list();
    let mut tcb = TCB::new().name("T").priority(1);
    tcb.task_tag = 42;
    let t = tcb.initialise(&mut k, Some(0x1000)).unwrap();
    assert_eq!(task_get_application_task_tag(&k, t), 42);
    let u = new_task(&mut k, "U", 1);
    assert_eq!(task_get_application_task_tag(&k, u), 0);
}

#[test]
fn idle_task_becomes_current_only_when_it_should() {
    let mut k = initialize_task_list();
    task_start_scheduler(&mut k, Some(0x3000));
    assert_eq!(k.current_tcb, k.idle_task_handle);
    let mut k = initialize_task_list();
    let a = new_task(&mut k, "A", 2);
    task_start_scheduler(&mut k, Some(0x3000));
    assert_eq!(k.current_tcb, Some(a));
    assert_eq!(state_list_of(&k, a), Some(2));
}
