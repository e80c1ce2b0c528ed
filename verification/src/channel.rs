//! The channels of `crossbeam_channel` that join a reader to its background reader.
//!
//! Each end keeps a log of what was done with it. Nothing but the calls below adds to a log, so a
//! contract that speaks of a log says what was handed to the channel and what was asked of it.

use crossbeam_channel::{Receiver, Sender};
use vstd::prelude::*;

verus! {

/// `crossbeam_channel::Sender`, opaque to the proofs.
#[verifier::external_type_specification]
#[verifier::external_body]
#[verifier::reject_recursive_types(T)]
pub struct ExSender<T>(crossbeam_channel::Sender<T>);

/// `crossbeam_channel::Receiver`, opaque to the proofs.
#[verifier::external_type_specification]
#[verifier::external_body]
#[verifier::reject_recursive_types(T)]
pub struct ExReceiver<T>(crossbeam_channel::Receiver<T>);

/// What a look into a channel finds.
#[derive(Debug)]
pub enum Polled<T> {
    /// The oldest message that was waiting.
    Message(T),
    /// No message is waiting, and a sender is left.
    Empty,
    /// No message is waiting, and no sender is left.
    Disconnected,
}

/// One look into a channel, with what came of it.
pub enum Look<T> {
    /// A look that does not wait.
    Glance(Polled<T>),
    /// A wait for a message; none comes once no sender is left.
    Wait(Option<T>),
}

impl<T> Look<T> {
    /// What the look found.
    pub open spec fn found(self) -> Polled<T> {
        match self {
            Look::Glance(found) => found,
            Look::Wait(Some(message)) => Polled::Message(message),
            Look::Wait(None) => Polled::Disconnected,
        }
    }
}

/// Whether one of `looks` found that no message is waiting and no sender is left.
pub open spec fn forsaken<T>(looks: Seq<Look<T>>) -> bool {
    exists|i: int| 0 <= i < looks.len() && (#[trigger] looks[i]).found() is Disconnected
}

/// The end of a channel to send on.
#[verifier::reject_recursive_types(T)]
pub struct Outbox<T> {
    sender: Sender<T>,
    sent: Ghost<Seq<T>>,
    took: Ghost<Seq<bool>>,
    id: Ghost<int>,
}

/// The end of a channel to receive at.
#[verifier::reject_recursive_types(T)]
pub struct Inbox<T> {
    receiver: Receiver<T>,
    looks: Ghost<Seq<Look<T>>>,
    id: Ghost<int>,
}

impl<T> Outbox<T> {
    /// The messages that were handed to the channel at this end, in order.
    pub closed spec fn sent(&self) -> Seq<T> {
        self.sent@
    }

    /// For each of those messages, whether the channel took it.
    pub closed spec fn took(&self) -> Seq<bool> {
        self.took@
    }

    /// Which channel this is an end of.
    pub closed spec fn id(&self) -> int {
        self.id@
    }

    /// Hands `message` to the channel, by `crossbeam_channel::Sender::send`.
    ///
    /// What is claimed is that the message is the one more that was handed over at this end, that
    /// the result says whether the channel took it, that a message which it did not take comes back
    /// as it was, and that a channel which did not take one takes none from then on: it has lost
    /// its receivers for good. When that happens is left unsaid: it rests on whether the other
    /// thread still has its end. On a channel without a bound the call does not wait.
    #[verifier::external_body]
    pub(crate) fn send(&mut self, message: T) -> (r: Result<(), T>)
        ensures
            final(self).sent() == old(self).sent().push(message),
            final(self).took() == old(self).took().push(r is Ok),
            final(self).id() == old(self).id(),
            r matches Err(back) ==> back == message,
            old(self).took().contains(false) ==> r is Err,
    {
        self.sender.send(message).map_err(|e| e.0)
    }
}

impl<T> Inbox<T> {
    /// The looks that were made at this end, in order.
    pub closed spec fn looks(&self) -> Seq<Look<T>> {
        self.looks@
    }

    /// Which channel this is an end of.
    pub closed spec fn id(&self) -> int {
        self.id@
    }

    /// Waits for a message, by `crossbeam_channel::Receiver::recv`; `None` once the channel is
    /// empty and no sender is left.
    ///
    /// What is claimed is that one wait more was made at this end, with this result, and that none
    /// comes once a look has found the channel empty and without a sender: it stays so. What comes
    /// before is left unsaid: that rests on what the other thread sends, and so does how long the
    /// wait is.
    #[verifier::external_body]
    pub(crate) fn recv(&mut self) -> (r: Option<T>)
        ensures
            final(self).looks() == old(self).looks().push(Look::Wait(r)),
            final(self).id() == old(self).id(),
            forsaken(old(self).looks()) ==> r is None,
    {
        self.receiver.recv().ok()
    }

    /// Takes a message if one is waiting, by `crossbeam_channel::Receiver::try_recv`.
    ///
    /// What is claimed is that one look more was made at this end, without waiting, with this
    /// result, and that it finds the channel empty and without a sender once a look has. What is
    /// found before is left unsaid: that rests on what the other thread has sent by then.
    #[verifier::external_body]
    pub(crate) fn try_recv(&mut self) -> (r: Polled<T>)
        ensures
            final(self).looks() == old(self).looks().push(Look::Glance(r)),
            final(self).id() == old(self).id(),
            forsaken(old(self).looks()) ==> r is Disconnected,
    {
        match self.receiver.try_recv() {
            Ok(message) => Polled::Message(message),
            Err(crossbeam_channel::TryRecvError::Empty) => Polled::Empty,
            Err(crossbeam_channel::TryRecvError::Disconnected) => Polled::Disconnected,
        }
    }
}

/// A new channel, by `crossbeam_channel::unbounded`: the end to send on, and the end to receive
/// at.
///
/// What is claimed is that the two are ends of one channel, and that nothing was done with either.
/// That what is sent at the one comes out at the other, in order and once, is left unsaid here:
/// the two ends go to two threads, and each keeps the log of its own side alone.
#[verifier::external_body]
pub(crate) fn unbounded<T>() -> (r: (Outbox<T>, Inbox<T>))
    ensures
        r.0.id() == r.1.id(),
        r.0.sent() == Seq::<T>::empty(),
        r.0.took() == Seq::<bool>::empty(),
        r.1.looks() == Seq::<Look<T>>::empty(),
{
    let (sender, receiver) = crossbeam_channel::unbounded();
    (
        Outbox {
            sender,
            sent: Ghost(Seq::empty()),
            took: Ghost(Seq::empty()),
            id: Ghost(arbitrary()),
        },
        Inbox { receiver, looks: Ghost(Seq::empty()), id: Ghost(arbitrary()) },
    )
}

} // verus!
