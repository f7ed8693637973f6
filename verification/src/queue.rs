use vstd::prelude::*;

verus! {

#[verifier::external_type_specification]
#[verifier::external_body]
#[verifier::reject_recursive_types(T)]
pub struct ExSender<T>(crossbeam_channel::Sender<T>);

#[verifier::external_type_specification]
#[verifier::external_body]
#[verifier::reject_recursive_types(T)]
pub struct ExReceiver<T>(crossbeam_channel::Receiver<T>);

/// Outcome of one non-blocking poll of the consumer end of a cross-domain
/// queue. Which outcome comes back depends on what the producer on the other
/// side of the queue has done meanwhile, so nothing relates two polls of the
/// same queue.
pub enum QueuePoll<T> {
    /// The oldest value the queue held.
    Item(T),
    /// Nothing queued right now; the producer may still send later.
    Empty,
    /// The producer end is gone; nothing will ever arrive again.
    Closed,
}

/// Relies on crossbeam_channel::Receiver::try_recv: a non-blocking poll that
/// returns a queued value, or Empty while the queue has none, or Disconnected
/// once every sender is dropped and the queue is drained.
#[verifier::external_body]
pub(crate) fn queue_try_recv<T>(rx: &crossbeam_channel::Receiver<T>) -> (r: QueuePoll<T>) {
    match rx.try_recv() {
        Ok(v) => QueuePoll::Item(v),
        Err(crossbeam_channel::TryRecvError::Empty) => QueuePoll::Empty,
        Err(crossbeam_channel::TryRecvError::Disconnected) => QueuePoll::Closed,
    }
}

/// Relies on crossbeam_channel::Sender::send on an unbounded queue: it never
/// blocks, and it hands the value back inside the error exactly when every
/// receiver has been dropped.
#[verifier::external_body]
pub(crate) fn queue_send<T>(tx: &crossbeam_channel::Sender<T>, value: T) -> (r: Result<(), T>)
    ensures
        r matches Err(v) ==> v == value,
{
    match tx.send(value) {
        Ok(()) => Ok(()),
        Err(crossbeam_channel::SendError(v)) => Err(v),
    }
}

} // verus!
