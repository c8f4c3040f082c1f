pub mod port;
pub mod list;
pub mod task_control;
pub mod task_global;
pub mod kernel;
pub mod task_queue;
pub mod task_api;
pub mod task_timemanager;
pub mod queue_h;
pub mod queue;
pub mod queue_api;
pub mod semaphore;
pub mod named_list;
