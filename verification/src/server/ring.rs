//! Telling all listeners of the events of input devices, over an [`async_broadcast`]
//! channel whose oldest events make room for new ones.
use async_broadcast::{InactiveReceiver, Sender, TrySendError};
use vstd::prelude::*;
use crate::objects::input::KeyboardEvent;
use crate::objects::pointer::PointerEvent;
use crate::server::broadcast::{ChannelSettings, SendOutcome};

verus! {

/// An event of an input device.
#[derive(Clone)]
pub enum InputEvent {
    Pointer(PointerEvent),
    Keyboard(KeyboardEvent),
}

/// The events that were handed to a sending end, the first one first, whatever became
/// of them.
pub uninterp spec fn inputs_handed_over(sender: Sender<InputEvent>) -> Seq<InputEvent>;

/// What a sending end has last asked of its channel. Other ends can ask for something
/// else.
pub uninterp spec fn input_settings_asked(sender: Sender<InputEvent>) -> ChannelSettings;

/// `async_broadcast::broadcast`, and `Receiver::deactivate`: a channel to which no event
/// was handed. There has to be room for an event, and the queue has to fit into memory.
/// An event takes up less than 512 bytes in it.
#[verifier::external_body]
fn open_channel(capacity: usize) -> (r: (Sender<InputEvent>, InactiveReceiver<InputEvent>))
    requires
        0 < capacity <= usize::MAX / 1024,
    ensures
        inputs_handed_over(r.0) == Seq::<InputEvent>::empty(),
        input_settings_asked(r.0) == (ChannelSettings {
            capacity: capacity as nat,
            overflow: false,
            await_active: true,
        }),
{
    let (sender, receiver) = async_broadcast::broadcast(capacity);
    (sender, receiver.deactivate())
}

/// `Sender::set_await_active`: changes whether sending waits for someone who listens. No
/// event is sent.
#[verifier::external_body]
fn set_await_active(sender: &mut Sender<InputEvent>, await_active: bool)
    ensures
        inputs_handed_over(*final(sender)) == inputs_handed_over(*old(sender)),
        input_settings_asked(*final(sender)) == (ChannelSettings {
            await_active,
            ..input_settings_asked(*old(sender))
        }),
{
    sender.set_await_active(await_active)
}

/// `Sender::set_overflow`: changes whether the oldest event makes room for a new one in a
/// full queue. No event is sent.
#[verifier::external_body]
fn set_overflow(sender: &mut Sender<InputEvent>, overflow: bool)
    ensures
        inputs_handed_over(*final(sender)) == inputs_handed_over(*old(sender)),
        input_settings_asked(*final(sender)) == (ChannelSettings {
            overflow,
            ..input_settings_asked(*old(sender))
        }),
{
    sender.set_overflow(overflow)
}

/// `Sender::set_capacity`: changes how many events the queue can have. No event is
/// sent. The queue has to fit into memory. Other sending ends may change it later.
#[verifier::external_body]
fn set_channel_capacity(sender: &mut Sender<InputEvent>, capacity: usize)
    requires
        capacity <= usize::MAX / 1024,
    ensures
        inputs_handed_over(*final(sender)) == inputs_handed_over(*old(sender)),
        input_settings_asked(*final(sender)) == (ChannelSettings {
            capacity: capacity as nat,
            ..input_settings_asked(*old(sender))
        }),
{
    sender.set_capacity(capacity)
}

/// `Sender::try_broadcast`: one event is handed to the channel, without waiting. What
/// comes of it is not stated, it depends on what the other ends of the channel have
/// done.
#[verifier::external_body]
fn send_input(sender: &mut Sender<InputEvent>, event: InputEvent) -> (r: SendOutcome)
    ensures
        inputs_handed_over(*final(sender)) == inputs_handed_over(*old(sender)).push(event),
        input_settings_asked(*final(sender)) == input_settings_asked(*old(sender)),
{
    match sender.try_broadcast(event) {
        Ok(None) => SendOutcome::Sent,
        Ok(Some(_)) => SendOutcome::SentDroppingOldest,
        Err(TrySendError::Full(_)) => SendOutcome::Full,
        Err(TrySendError::Closed(_)) => SendOutcome::Closed,
        Err(TrySendError::Inactive(_)) => SendOutcome::Inactive,
    }
}

/// `Sender::clone`: another sending end of the same channel, to which nothing was handed
/// yet.
#[verifier::external_body]
fn another_sender(sender: &Sender<InputEvent>) -> (r: Sender<InputEvent>)
    ensures
        inputs_handed_over(r) == Seq::<InputEvent>::empty(),
        input_settings_asked(r) == input_settings_asked(*sender),
{
    sender.clone()
}

/// An event source implementation based on the [`async_broadcast`] channels. When the
/// internal queue is full, the oldest event will be dropped.
pub struct Ring {
    sender: Sender<InputEvent>,
    /// Keeps the channel open while nobody listens.
    receiver: InactiveReceiver<InputEvent>,
}

impl Ring {
    /// The events that were handed to the channel, the first one first.
    pub closed spec fn sent(&self) -> Seq<InputEvent> {
        inputs_handed_over(self.sender)
    }

    /// What was asked of the channel.
    pub closed spec fn settings(&self) -> ChannelSettings {
        input_settings_asked(self.sender)
    }

    /// A source with room for as many events.
    pub fn new(capacity: usize) -> (r: Ring)
        requires
            0 < capacity <= usize::MAX / 1024,
        ensures
            r.sent() == Seq::<InputEvent>::empty(),
            r.settings() == (ChannelSettings { capacity: capacity as nat, overflow: true, await_active: false }),
    {
        let (mut sender, receiver) = open_channel(capacity);
        set_await_active(&mut sender, false);
        set_overflow(&mut sender, true);
        Ring { sender, receiver }
    }

    /// Changes how many events there is room for.
    pub fn set_capacity(&mut self, capacity: usize)
        requires
            capacity <= usize::MAX / 1024,
        ensures
            final(self).sent() == old(self).sent(),
            final(self).settings() == (ChannelSettings { capacity: capacity as nat, ..old(self).settings() }),
    {
        set_channel_capacity(&mut self.sender, capacity)
    }

    /// Sends an event to all listeners.
    pub fn broadcast(&mut self, event: InputEvent) -> (r: SendOutcome)
        ensures
            final(self).sent() == old(self).sent().push(event),
            final(self).settings() == old(self).settings(),
    {
        send_input(&mut self.sender, event)
    }

    /// Another sending end of the channel. Those who listen get their receiving ends
    /// from it.
    pub fn new_sender(&self) -> (r: Sender<InputEvent>)
        ensures
            inputs_handed_over(r) == Seq::<InputEvent>::empty(),
            input_settings_asked(r) == self.settings(),
    {
        another_sender(&self.sender)
    }
}

} // verus!
