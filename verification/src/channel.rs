//! The collision-notification queue: a crossbeam channel whose two ends
//! live together in one opaque pair, filled during a physics step and
//! drained to empty at its end.
//!
//! The sending and receiving halves share hidden state, so neither end
//! alone could carry an honest contract; holding both in a single opaque
//! struct lets the queue's whole content be named by one spec function.

use vstd::prelude::*;

verus! {

/// An event: the indices of the two bodies involved and whether a sensor
/// collider produced the notification.
pub type QueueEvent = (u64, u64, bool);

/// Both ends of one unbounded crossbeam channel. Opaque to the verifier;
/// its content is named by `queue_contents`.
#[verifier::external_body]
pub struct EventQueue {
    tx: crossbeam::channel::Sender<QueueEvent>,
    rx: crossbeam::channel::Receiver<QueueEvent>,
}

/// The messages sitting in the queue, oldest first.
pub uninterp spec fn queue_contents(q: EventQueue) -> Seq<QueueEvent>;

/// Relies on `crossbeam::channel::unbounded`: a fresh channel holds no
/// message.
#[verifier::external_body]
pub fn new_event_queue() -> (q: EventQueue)
    ensures
        queue_contents(q) == Seq::<QueueEvent>::empty(),
{
    let (tx, rx) = crossbeam::channel::unbounded();
    EventQueue { tx, rx }
}

/// Relies on `crossbeam::channel::Sender::send`: on an unbounded channel it
/// appends the message without blocking, and cannot fail here because the
/// receiving half lives in the same queue.
#[verifier::external_body]
pub fn push_event(q: &mut EventQueue, e: QueueEvent)
    ensures
        queue_contents(*final (q)) == queue_contents(*old(q)).push(e),
{
    let _ = q.tx.send(e);
}

/// Relies on `crossbeam::channel::Receiver::try_recv`: it pops the oldest
/// message when one is there, and returns at once, rather than blocking,
/// when the channel is empty.
#[verifier::external_body]
pub fn pop_event(q: &mut EventQueue) -> (r: Option<QueueEvent>)
    ensures
        queue_contents(*old(q)).len() == 0 ==> r.is_none() && queue_contents(*final (q))
            == queue_contents(*old(q)),
        queue_contents(*old(q)).len() > 0 ==> r == Some(queue_contents(*old(q))[0])
            && queue_contents(*final (q)) == queue_contents(*old(q)).drop_first(),
{
    match q.rx.try_recv() {
        Ok(e) => Some(e),
        Err(_) => None,
    }
}

} // verus!
