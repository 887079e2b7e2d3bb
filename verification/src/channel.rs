//! Inbound channels: many-producer, single-consumer, unbounded FIFO
//! queues of messages.
//!
//! The queues themselves are the `futures_channel` unbounded mpsc
//! channels; this module wraps their endpoints. What a poll of the
//! consumer end returns depends on what producers on other tasks have
//! enqueued meanwhile, so the wrappers promise nothing about which
//! outcome comes back: the broker is verified to handle every outcome.

use vstd::prelude::*;

use crate::message::Message;

verus! {

#[verifier::external_type_specification]
#[verifier::external_body]
#[verifier::reject_recursive_types(T)]
pub struct ExUnboundedSender<T>(futures_channel::mpsc::UnboundedSender<T>);

#[verifier::external_type_specification]
#[verifier::external_body]
#[verifier::reject_recursive_types(T)]
pub struct ExUnboundedReceiver<T>(futures_channel::mpsc::UnboundedReceiver<T>);

/// The producer end of one inbound queue. Cloneable: the queue is
/// many-producer. Enqueuing never blocks; the queue is unbounded.
pub struct Sender {
    inner: futures_channel::mpsc::UnboundedSender<Message>,
}

/// The consumer end of one inbound queue, owned by the broker once
/// attached. Single-consumer: it cannot be cloned.
pub struct Receiver {
    inner: futures_channel::mpsc::UnboundedReceiver<Message>,
}

/// Every sender for the queue was dropped, so the message could not be
/// enqueued; it is handed back undelivered.
#[derive(Debug)]
pub struct ChannelClosed {
    pub message: Message,
}

/// What one non-blocking poll of a receiver found.
pub enum TakeOutcome {
    /// A message was dequeued.
    Taken(Message),
    /// The queue is currently empty, but senders may still enqueue.
    Empty,
    /// Every sender was dropped and the queue is drained: a terminal,
    /// monotonic condition. The receiver will never yield again.
    Exhausted,
}

/// Creates a fresh unbounded FIFO queue and returns its two ends.
///
/// Relies on `futures_channel::mpsc::unbounded`: the pair shares one
/// queue that buffers every sent message until the receiver takes it.
#[verifier::external_body]
pub fn channel() -> (Sender, Receiver) {
    let (tx, rx) = futures_channel::mpsc::unbounded();
    (Sender { inner: tx }, Receiver { inner: rx })
}

impl Sender {
    /// Enqueues a message; never blocks. Fails exactly when the receiver
    /// has been dropped, handing the message back.
    ///
    /// Relies on `futures_channel::mpsc::UnboundedSender::unbounded_send`:
    /// on failure the returned error carries the very message that could
    /// not be enqueued.
    #[verifier::external_body]
    pub fn send(&self, message: Message) -> (r: Result<(), ChannelClosed>)
        ensures
            r matches Err(c) ==> c.message == message,
    {
        match self.inner.unbounded_send(message) {
            Ok(()) => Ok(()),
            Err(e) => Err(ChannelClosed { message: e.into_inner() }),
        }
    }

    /// Another producer end for the same queue.
    ///
    /// Relies on `Clone for futures_channel::mpsc::UnboundedSender`: the
    /// clone feeds the same queue.
    #[verifier::external_body]
    pub fn duplicate(&self) -> Sender {
        Sender { inner: self.inner.clone() }
    }
}

impl Receiver {
    /// Non-blocking poll: dequeues the oldest buffered message if one is
    /// ready, else reports whether the queue is merely empty or
    /// exhausted for good.
    ///
    /// Relies on `futures_channel::mpsc::UnboundedReceiver::try_recv`:
    /// `Ok` is a dequeued message, `Err(Empty)` an open empty queue,
    /// `Err(Closed)` a drained queue with no senders left. Which outcome
    /// comes back depends on concurrent producers, so nothing more is
    /// promised here.
    #[verifier::external_body]
    pub fn try_take(&mut self) -> TakeOutcome {
        match self.inner.try_recv() {
            Ok(m) => TakeOutcome::Taken(m),
            Err(futures_channel::mpsc::TryRecvError::Empty) => TakeOutcome::Empty,
            Err(futures_channel::mpsc::TryRecvError::Closed) => TakeOutcome::Exhausted,
        }
    }
}

} // verus!
