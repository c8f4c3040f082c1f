# rust_freertos

A small real-time kernel written in Verus: task control blocks,
priority-ordered ready lists, delayed lists with tick-count overflow, a
scheduler with suspend/resume nesting, queues, semaphores and (recursive)
mutexes with priority inheritance.

All kernel state lives in one `Kernel` value that every operation takes by
`&mut`, and lists are index-linked items in an arena, so every operation is
verified against `Kernel::wf`, the invariant that ties tasks, list items and
list membership together.

Layout:

- `src/port.rs`: machine-dependent types and constants.
- `src/list.rs`, `src/named_list.rs`: sorted lists and their laws.
- `src/task_global.rs`: the `Kernel` state and its invariant.
- `src/task_control.rs`, `src/task_api.rs`, `src/task_queue.rs`,
  `src/task_timemanager.rs`: task creation, deletion, priorities, event lists,
  timeouts, delays.
- `src/kernel.rs`: tick handling, scheduler start/suspend/resume, selection of
  the next task.
- `src/queue_h.rs`, `src/queue.rs`, `src/queue_api.rs`, `src/semaphore.rs`:
  queues and semaphores; a blocking call returns a step that the caller
  repeats after yielding.
- `app/`: the parts that need the machine (stack allocation, the yield loop
  around blocking calls, `Display` for errors).
