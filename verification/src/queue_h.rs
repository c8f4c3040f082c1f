//! Queue errors, queue kinds and the positions at which an item can be sent.
use vstd::prelude::*;
use crate::port::{BaseType, TickType};

verus! {

/// Why a queue operation did not succeed.
#[derive(Clone, Copy, Debug, PartialEq, Eq, Structural)]
pub enum QueueError {
    QueueSendTimeout,
    QueueReceiveTimeout,
    MutexTimeout,
    QueueFull,
    QueueEmpty,
}

impl QueueError {
    /// The error's text.
    pub fn to_string(&self) -> (s: String)
        ensures
            s@ == queue_error_text(*self),
    {
        match self {
            QueueError::QueueSendTimeout => "QueueSendTimeOut".to_string(),
            QueueError::QueueReceiveTimeout => "QueueReceiveTimeOut".to_string(),
            QueueError::MutexTimeout => "MutexSendTimeOut".to_string(),
            QueueError::QueueFull => "QueueFull".to_string(),
            QueueError::QueueEmpty => "QueueEmpty".to_string(),
        }
    }
}

/// The text of each queue error.
pub open spec fn queue_error_text(e: QueueError) -> Seq<char> {
    match e {
        QueueError::QueueSendTimeout => "QueueSendTimeOut"@,
        QueueError::QueueReceiveTimeout => "QueueReceiveTimeOut"@,
        QueueError::MutexTimeout => "MutexSendTimeOut"@,
        QueueError::QueueFull => "QueueFull"@,
        QueueError::QueueEmpty => "QueueEmpty"@,
    }
}

/// Send to the back of the queue.
#[allow(non_upper_case_globals)]
pub const queueSEND_TO_BACK: BaseType = 0i64;
/// Send to the front of the queue.
#[allow(non_upper_case_globals)]
pub const queueSEND_TO_FRONT: BaseType = 1i64;
/// Replace the only item of a queue of length one.
#[allow(non_upper_case_globals)]
pub const queueOVERWRITE: BaseType = 2i64;
/// Giving a semaphore never blocks.
#[allow(non_upper_case_globals)]
pub const semGIVE_BLOCK_TIME: TickType = 0u32;

/// What a queue is used as.
#[derive(Clone, Copy, Debug, PartialEq, Eq, Structural)]
pub enum QueueType {
    Base,
    QueueSet,
    Mutex,
    CountingSemaphore,
    BinarySemaphore,
    RecursiveMutex,
}

impl Default for QueueType {
    /// A plain queue.
    fn default() -> (t: Self)
        ensures
            t == QueueType::Base,
    {
        QueueType::Base
    }
}

} // verus!
