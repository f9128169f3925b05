//! Telling all listeners of the events of a store, over an [`async_broadcast`]
//! channel.
use async_broadcast::{InactiveReceiver, Sender, TrySendError};
use vstd::layout::size_of;
use vstd::prelude::*;
use crate::server::events::reserved_capacity;
use crate::server::store::StoreEvent;

verus! {

/// The sending end of a channel of the `async_broadcast` crate.
#[verifier::external_type_specification]
#[verifier::external_body]
#[verifier::reject_recursive_types(T)]
pub struct ExSender<T>(async_broadcast::Sender<T>);

/// A receiving end that only keeps its channel open, of the `async_broadcast` crate.
#[verifier::external_type_specification]
#[verifier::external_body]
#[verifier::reject_recursive_types(T)]
pub struct ExInactiveReceiver<T>(async_broadcast::InactiveReceiver<T>);

/// The events that were handed to a sending end, the first one first, whatever became
/// of them.
pub uninterp spec fn handed_over(sender: Sender<StoreEvent>) -> Seq<StoreEvent>;

/// How a channel works.
pub struct ChannelSettings {
    /// How many events the queue can have.
    pub capacity: nat,
    /// The oldest event makes room for a new one in a full queue.
    pub overflow: bool,
    /// Sending waits for someone who listens.
    pub await_active: bool,
}

/// What a sending end has last asked of its channel. Other ends can ask for something
/// else.
pub uninterp spec fn settings_asked(sender: Sender<StoreEvent>) -> ChannelSettings;

/// What came of sending an event.
#[derive(Clone, Copy, Debug, PartialEq, Eq, Structural)]
pub enum SendOutcome {
    /// The event is in the queue.
    Sent,
    /// The event is in the queue, and the oldest one is not any more.
    SentDroppingOldest,
    /// There was no room.
    Full,
    /// The channel is closed.
    Closed,
    /// Nobody listens.
    Inactive,
}

/// A queue can be made to have room for as many events: it may become twice as large as
/// is asked for, and cannot take up more than `isize::MAX` bytes.
pub open spec fn allocatable(capacity: nat) -> bool {
    &&& capacity <= isize::MAX
    &&& 2 * capacity * size_of::<(StoreEvent, usize)>() <= isize::MAX
}

/// The settings of a channel whose queue was found to be `full` with a capacity of `now`,
/// once there is room for one more event: twice the capacity, if that can be allocated
/// at all. Those of another channel do not change.
pub open spec fn reserved(settings: ChannelSettings, full: bool, now: usize) -> ChannelSettings {
    if full && allocatable((2 * now) as nat) {
        ChannelSettings { capacity: (2 * now) as nat, ..settings }
    } else {
        settings
    }
}

/// `async_broadcast::broadcast`, and `Receiver::deactivate`: a channel to which no event
/// was handed. There has to be room for an event, and the queue has to fit into memory.
/// An event takes up less than 512 bytes in it.
#[verifier::external_body]
fn open_channel(capacity: usize) -> (r: (Sender<StoreEvent>, InactiveReceiver<StoreEvent>))
    requires
        0 < capacity <= usize::MAX / 1024,
    ensures
        handed_over(r.0) == Seq::<StoreEvent>::empty(),
        settings_asked(r.0) == (ChannelSettings { capacity: capacity as nat, overflow: false, await_active: true }),
{
    let (sender, receiver) = async_broadcast::broadcast(capacity);
    (sender, receiver.deactivate())
}

/// `Sender::set_await_active`: changes whether sending waits for someone who listens. No
/// event is sent.
#[verifier::external_body]
fn set_await_active(sender: &mut Sender<StoreEvent>, await_active: bool)
    ensures
        handed_over(*final(sender)) == handed_over(*old(sender)),
        settings_asked(*final(sender)) == (ChannelSettings { await_active, ..settings_asked(*old(sender)) }),
{
    sender.set_await_active(await_active)
}

/// `Sender::clone`: another sending end of the same channel, to which nothing was handed
/// yet.
#[verifier::external_body]
fn another_sender(sender: &Sender<StoreEvent>) -> (r: Sender<StoreEvent>)
    ensures
        handed_over(r) == Seq::<StoreEvent>::empty(),
        settings_asked(r) == settings_asked(*sender),
{
    sender.clone()
}

/// `Sender::is_full`: the queue has as many events as it can have. Others use the
/// channel at the same time, so this may have changed when the call returns.
#[verifier::external_body]
fn is_full(sender: &Sender<StoreEvent>) -> (r: bool) {
    sender.is_full()
}

/// `Sender::capacity`: how many events the queue can have. Others use the channel
/// at the same time, so this may have changed when the call returns.
#[verifier::external_body]
fn capacity(sender: &Sender<StoreEvent>) -> (r: usize) {
    sender.capacity()
}

/// `Sender::set_capacity`: changes how many events the queue can have. No event is
/// sent. The queue has to fit into memory.
#[verifier::external_body]
fn set_capacity(sender: &mut Sender<StoreEvent>, capacity: usize)
    requires
        allocatable(capacity as nat),
    ensures
        handed_over(*final(sender)) == handed_over(*old(sender)),
        settings_asked(*final(sender)) == (ChannelSettings {
            capacity: capacity as nat,
            ..settings_asked(*old(sender))
        }),
{
    sender.set_capacity(capacity)
}

/// `Sender::try_broadcast`: one event is handed to the channel, without waiting. What
/// comes of it is not stated, it depends on what the other ends of the channel have
/// done.
#[verifier::external_body]
fn try_broadcast(sender: &mut Sender<StoreEvent>, event: StoreEvent) -> (r: SendOutcome)
    ensures
        handed_over(*final(sender)) == handed_over(*old(sender)).push(event),
        settings_asked(*final(sender)) == settings_asked(*old(sender)),
{
    match sender.try_broadcast(event) {
        Ok(None) => SendOutcome::Sent,
        Ok(Some(_)) => SendOutcome::SentDroppingOldest,
        Err(TrySendError::Full(_)) => SendOutcome::Full,
        Err(TrySendError::Closed(_)) => SendOutcome::Closed,
        Err(TrySendError::Inactive(_)) => SendOutcome::Inactive,
    }
}

/// An event source implementation based on the [`async_broadcast`] channels.
pub struct Broadcast {
    sender: Sender<StoreEvent>,
    /// Keeps the channel open while nobody listens.
    receiver: InactiveReceiver<StoreEvent>,
}

impl Default for Broadcast {
    /// A source with room for 16 events, which does not wait for anyone to listen.
    fn default() -> (r: Broadcast)
        ensures
            r.sent() == Seq::<StoreEvent>::empty(),
            r.settings() == (ChannelSettings { capacity: 16, overflow: false, await_active: false }),
    {
        let (mut sender, receiver) = open_channel(16);
        set_await_active(&mut sender, false);
        Broadcast { sender, receiver }
    }
}

impl Broadcast {
    /// The events that were handed to the channel, the first one first.
    pub closed spec fn sent(&self) -> Seq<StoreEvent> {
        handed_over(self.sender)
    }

    /// What was asked of the channel.
    pub closed spec fn settings(&self) -> ChannelSettings {
        settings_asked(self.sender)
    }

    /// Another sending end of the channel. Those who listen get their receiving ends
    /// from it.
    pub fn new_sender(&self) -> (r: Sender<StoreEvent>)
        ensures
            handed_over(r) == Seq::<StoreEvent>::empty(),
            settings_asked(r) == self.settings(),
    {
        another_sender(&self.sender)
    }

    /// Makes room in a queue that was found to be `full` with a capacity of `now`: twice
    /// as much, if that can be allocated at all. Leaves another queue as it is.
    pub fn reserve(&mut self, full: bool, now: usize)
        ensures
            final(self).sent() == old(self).sent(),
            final(self).settings() == reserved(old(self).settings(), full, now),
    {
        let size: usize = core::mem::size_of::<(StoreEvent, usize)>();
        let most: usize = isize::MAX as usize;
        let fits = now <= most / 2 && (size == 0 || now <= most / size / 4);
        proof {
            lemma_fits(now as int, size as int, most as int);
        }
        if full && fits {
            if let Some(more) = reserved_capacity(full, now) {
                set_capacity(&mut self.sender, more);
            }
        }
    }

    /// Sends an event to all listeners. If the queue is full, instead of waiting,
    /// this function will reserve more space in the queue. See [`Broadcast::reserve`].
    pub fn broadcast_reserve(&mut self, event: StoreEvent) -> (r: SendOutcome)
        ensures
            final(self).sent() == old(self).sent().push(event),
            exists|full: bool, now: usize| final(self).settings() == #[trigger] reserved(old(self).settings(), full, now),
    {
        let full = is_full(&self.sender);
        let now: usize = capacity(&self.sender);
        self.reserve(full, now);
        try_broadcast(&mut self.sender, event)
    }

    /// Sends events to all listeners, the first one first. Returns what came of
    /// each.
    pub fn broadcast_all(&mut self, events: &Vec<StoreEvent>) -> (r: Vec<SendOutcome>)
        ensures
            r@.len() == events@.len(),
            final(self).sent() == old(self).sent() + events@,
    {
        let mut outcomes: Vec<SendOutcome> = Vec::new();
        let mut i: usize = 0;
        proof {
            assert(self.sent() =~= old(self).sent() + events@.take(0));
        }
        while i < events.len()
            invariant
                0 <= i <= events@.len(),
                outcomes@.len() == i,
                self.sent() == old(self).sent() + events@.take(i as int),
            decreases events@.len() - i,
        {
            outcomes.push(self.broadcast_reserve(events[i]));
            proof {
                assert(self.sent() =~= old(self).sent() + events@.take(i + 1));
            }
            i = i + 1;
        }
        proof {
            assert(events@.take(i as int) =~= events@);
        }
        outcomes
    }
}

/// Dividing tells whether a product fits.
proof fn lemma_fits(now: int, size: int, most: int)
    requires
        now >= 0,
        size >= 0,
        most >= 0,
    ensures
        size > 0 ==> (now <= most / size / 4 <==> 2 * (2 * now) * size <= most),
        size > 0 ==> most / size <= most,
{
    if size > 0 {
        let q = most / size;
        assert(q * size <= most < (q + 1) * size) by (nonlinear_arith)
            requires
                size > 0,
                most >= 0,
                q == most / size,
        ;
        assert(2 * (2 * now) * size == (4 * now) * size) by (nonlinear_arith);
        if 4 * now <= q {
            assert((4 * now) * size <= q * size) by (nonlinear_arith)
                requires
                    4 * now <= q,
                    size > 0,
            ;
        } else {
            assert((4 * now) * size >= (q + 1) * size) by (nonlinear_arith)
                requires
                    4 * now >= q + 1,
                    size > 0,
            ;
        }
        assert(q <= q * size) by (nonlinear_arith)
            requires
                q >= 0,
                size > 0,
        ;
    }
}

/// A full queue gets twice the room, and another one none. Nothing else is asked for.
pub proof fn full_queues_are_doubled(settings: ChannelSettings, full: bool, now: usize)
    ensures
        !full ==> reserved(settings, full, now) == settings,
        full && allocatable((2 * now) as nat) ==> reserved(settings, full, now).capacity == 2 * now,
        reserved(settings, full, now).overflow == settings.overflow,
        reserved(settings, full, now).await_active == settings.await_active,
{
}

} // verus!
