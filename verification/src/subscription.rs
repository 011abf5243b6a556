use vstd::prelude::*;
use std::collections::HashMap;
use tokio::sync::mpsc::Sender;
use crate::frame::Frame;
use crate::maplike::MapLike;

verus! {

broadcast use vstd::std_specs::hash::group_hash_axioms;

#[verifier::external_type_specification]
#[verifier::external_body]
#[verifier::reject_recursive_types(T)]
pub struct ExSender<T>(Sender<T>);

/// What a subscription's consumer receives: a fresh frame for the node it
/// watches, or word that the subscription is gone.
#[derive(Clone, Copy, Debug)]
pub enum GraphUpdate {
    Update { id: u128, channels: Frame },
    Closed { id: u128 },
}

/// How a bounded, non-blocking send ended.
#[derive(Clone, Copy, PartialEq, Eq, Structural, Debug)]
pub enum SendOutcome {
    Sent,
    Full,
    Closed,
}

/// Relies on tokio's `mpsc::Sender::try_send`: the message is delivered
/// unless the channel is full or its receiver is gone. Which of the three
/// happens depends on the receiver's side, so nothing is promised of the
/// outcome.
#[verifier::external_body]
fn try_send(channel: &Sender<GraphUpdate>, message: GraphUpdate) -> (r: SendOutcome) {
    match channel.try_send(message) {
        Ok(()) => SendOutcome::Sent,
        Err(tokio::sync::mpsc::error::TrySendError::Full(_)) => SendOutcome::Full,
        Err(tokio::sync::mpsc::error::TrySendError::Closed(_)) => SendOutcome::Closed,
    }
}

/// Why a subscription operation failed: its delivery channel cannot take
/// the frame (it is full or closed, and the subscription should be
/// dropped), or the watched node has no cached frame.
#[derive(Clone, Copy, PartialEq, Eq, Structural, Debug)]
pub enum SubscriptionError {
    ChannelClosed,
    NoInput,
}

/// A live view of one node: remembers the frame last delivered and sends a
/// fresh `Update` only when the node's frame differs from it.
pub struct Subscription {
    pub id: u128,
    pub input: u128,
    pub slot: u128,
    pub data: Frame,
    pub channel: Sender<GraphUpdate>,
}

impl Subscription {
    /// The frame last delivered on the channel.
    pub open spec fn last_frame(self) -> Seq<u8> {
        self.data@
    }

    /// Creates the subscription and delivers the watched node's current
    /// frame at once. Fails with `NoInput` when the node has no cached
    /// frame, and with `ChannelClosed` when the first delivery cannot be
    /// made; in either case nothing was registered.
    pub fn new(
        id: u128,
        input: u128,
        slot: u128,
        states: &HashMap<u128, Frame>,
        channel: Sender<GraphUpdate>,
    ) -> (r: Result<Subscription, SubscriptionError>)
        ensures
            match r {
                Ok(s) => {
                    &&& states@.contains_key(input)
                    &&& s.id == id
                    &&& s.input == input
                    &&& s.slot == slot
                    &&& s.last_frame() == states@[input]@
                },
                Err(SubscriptionError::NoInput) => !states@.contains_key(input),
                Err(SubscriptionError::ChannelClosed) => states@.contains_key(input),
            },
    {
        match states.get(&input) {
            Some(data) => {
                let subscription = Subscription { id, input, slot, data: *data, channel };
                match try_send(&subscription.channel, GraphUpdate::Update {
                    id,
                    channels: subscription.data,
                }) {
                    SendOutcome::Sent => Ok(subscription),
                    _ => Err(SubscriptionError::ChannelClosed),
                }
            },
            None => Err(SubscriptionError::NoInput),
        }
    }

    /// Compares the node's current frame with the one last delivered and
    /// sends an `Update` only when they differ. The remembered frame moves
    /// forward only after a delivery is accepted; a channel that cannot
    /// take the frame reports `ChannelClosed` so the caller drops the
    /// subscription.
    pub fn update<S: MapLike<Frame>>(&mut self, states: &S) -> (r: Result<(), SubscriptionError>)
        requires
            states.inv(),
        ensures
            final(self).id == old(self).id,
            final(self).input == old(self).input,
            final(self).slot == old(self).slot,
            match r {
                Ok(()) => {
                    &&& states.contents().contains_key(old(self).input)
                    &&& final(self).last_frame() == states.contents()[old(self).input]@
                    &&& (old(self).last_frame() == states.contents()[old(self).input]@
                        ==> *final(self) == *old(self))
                },
                Err(SubscriptionError::NoInput) => {
                    &&& !states.contents().contains_key(old(self).input)
                    &&& *final(self) == *old(self)
                },
                Err(SubscriptionError::ChannelClosed) => {
                    &&& states.contents().contains_key(old(self).input)
                    &&& old(self).last_frame() != states.contents()[old(self).input]@
                    &&& *final(self) == *old(self)
                },
            },
    {
        match states.get(self.input) {
            Some(updated) => {
                if self.data.equals(updated) {
                    Ok(())
                } else {
                    let fresh = *updated;
                    match try_send(&self.channel, GraphUpdate::Update {
                        id: self.id,
                        channels: fresh,
                    }) {
                        SendOutcome::Sent => {
                            self.data = fresh;
                            Ok(())
                        },
                        _ => Err(SubscriptionError::ChannelClosed),
                    }
                }
            },
            None => Err(SubscriptionError::NoInput),
        }
    }

    /// Tells the consumer the subscription is gone; a channel that no
    /// longer listens is left alone.
    pub fn close(&self) {
        let _ = try_send(&self.channel, GraphUpdate::Closed { id: self.id });
    }
}

} // verus!
