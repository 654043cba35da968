//! The bounded queues between the broker and the tasks that drain them.
use vstd::prelude::*;

verus! {

#[verifier::external_type_specification]
#[verifier::external_body]
#[verifier::reject_recursive_types(T)]
pub struct ExSender<T>(tokio::sync::mpsc::Sender<T>);

#[verifier::external_type_specification]
#[verifier::external_body]
#[verifier::reject_recursive_types(T)]
pub struct ExReceiver<T>(tokio::sync::mpsc::Receiver<T>);

/// What a bounded queue answered when a value was offered to it without waiting.
#[derive(Debug, Clone, Copy, PartialEq, Eq, Structural)]
pub enum SendOutcome {
    /// The value was placed at the back of the queue.
    Queued,
    /// The queue held as many values as it may; the value was not placed.
    Full,
    /// The receiving side is gone; nothing will ever be received again.
    Closed,
}

/// Relies on tokio::sync::mpsc::channel: a queue that holds at most
/// `capacity` values, with its sending and its receiving half. It panics
/// on a capacity of zero, and on one above `usize::MAX >> 3` (that is,
/// `usize::MAX / 8`), the most permits its semaphore can hold.
#[verifier::external_body]
pub(crate) fn bounded_queue<T>(capacity: usize) -> (tokio::sync::mpsc::Sender<T>, tokio::sync::mpsc::Receiver<T>)
    requires
        0 < capacity <= usize::MAX / 8,
{
    tokio::sync::mpsc::channel(capacity)
}

/// Relies on tokio::sync::mpsc::Sender::try_send: it never waits, and tells a
/// full queue from one whose receiver is gone. Which of the three answers
/// comes depends on the receiving task, so nothing is promised of it.
#[verifier::external_body]
pub(crate) fn offer<T>(queue: &tokio::sync::mpsc::Sender<T>, value: T) -> (r: SendOutcome) {
    match queue.try_send(value) {
        Ok(()) => SendOutcome::Queued,
        Err(tokio::sync::mpsc::error::TrySendError::Full(_)) => SendOutcome::Full,
        Err(tokio::sync::mpsc::error::TrySendError::Closed(_)) => SendOutcome::Closed,
    }
}

} // verus!
