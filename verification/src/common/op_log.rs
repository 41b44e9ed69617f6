//! A bounded log of operations that wait to be applied: both ends of a bounded
//! channel of the `crossbeam-channel` crate, with what is in it as its view.

use crossbeam_channel::{Receiver, Sender};
use vstd::prelude::*;

verus! {

/// The sending end of a channel of the `crossbeam-channel` crate.
#[verifier::external_type_specification]
#[verifier::external_body]
#[verifier::reject_recursive_types(T)]
pub struct ExSender<T>(Sender<T>);

/// The receiving end of a channel of the `crossbeam-channel` crate.
#[verifier::external_type_specification]
#[verifier::external_body]
#[verifier::reject_recursive_types(T)]
pub struct ExReceiver<T>(Receiver<T>);

/// A queue of at most `capacity` operations. It holds both ends of its channel
/// for as long as it lives, and nobody else holds one, so the channel never
/// gets disconnected and changes only through the `&mut self` methods here.
#[verifier::reject_recursive_types(T)]
pub struct OpLog<T> {
    sender: Sender<T>,
    receiver: Receiver<T>,
    capacity: Ghost<nat>,
    queue: Ghost<Seq<T>>,
}

impl<T> View for OpLog<T> {
    type V = Seq<T>;

    /// The operations in the log, oldest first.
    closed spec fn view(&self) -> Seq<T> {
        self.queue@
    }
}

impl<T> OpLog<T> {
    /// How many operations the log has room for.
    pub closed spec fn capacity(&self) -> nat {
        self.capacity@
    }

    /// `crossbeam_channel::bounded`: an empty channel with room for `capacity`
    /// messages.
    #[verifier::external_body]
    pub(crate) fn bounded(capacity: usize) -> (log: Self)
        requires
            0 < capacity <= 65_536,
        ensures
            log@ == Seq::<T>::empty(),
            log.capacity() == capacity,
    {
        let (sender, receiver) = crossbeam_channel::bounded(capacity);
        OpLog { sender, receiver, capacity: Ghost(capacity as nat), queue: Ghost(Seq::empty()) }
    }

    /// `crossbeam_channel::Sender::try_send`: puts `op` at the back where there
    /// is room, and hands it back where there is none.
    #[verifier::external_body]
    pub(crate) fn try_send(&mut self, op: T) -> (sent: Result<(), T>)
        ensures
            final(self).capacity() == old(self).capacity(),
            match sent {
                Ok(_) => old(self)@.len() < old(self).capacity() && final(self)@ == old(self)@.push(
                    op,
                ),
                Err(refused) => old(self)@.len() >= old(self).capacity() && refused == op
                    && final(self)@ == old(self)@,
            },
    {
        self.sender.try_send(op).map_err(|e| e.into_inner())
    }

    /// `crossbeam_channel::Receiver::try_recv`: takes the operation at the front,
    /// if there is one.
    #[verifier::external_body]
    pub(crate) fn try_recv(&mut self) -> (received: Option<T>)
        ensures
            final(self).capacity() == old(self).capacity(),
            match received {
                Some(op) => old(self)@.len() > 0 && op == old(self)@[0] && final(self)@
                    == old(self)@.drop_first(),
                None => old(self)@.len() == 0 && final(self)@ == old(self)@,
            },
    {
        self.receiver.try_recv().ok()
    }

    /// `crossbeam_channel::Receiver::len`: how many operations wait.
    #[verifier::external_body]
    pub(crate) fn len(&self) -> (n: usize)
        ensures
            n == self@.len(),
    {
        self.receiver.len()
    }
}

} // verus!
