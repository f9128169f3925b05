//! Sources of events.
use vstd::prelude::*;

verus! {

/// What came of asking for the next event.
pub enum EventPoll<E> {
    Event(E),
    /// All senders are gone.
    End,
    /// The task waits.
    Pending,
}

/// An event source whose receivers receive an event when a state is changed. It's
/// possible for multiple changes to be aggregated into a single event.
pub struct SingleState<E> {
    pub state: Option<E>,
    /// Counts the changes.
    pub version: u64,
}

/// Receives the changes of a [`SingleState`].
#[derive(Clone, Copy, Debug, PartialEq, Eq, Structural)]
pub struct StateReceiver {
    /// The change that was received last.
    pub version: u64,
}

impl<E> SingleState<E> {
    /// Once there was a change, there is a state.
    pub open spec fn wf(self) -> bool {
        self.version > 0 ==> self.state is Some
    }

    pub fn new() -> (r: SingleState<E>)
        ensures
            r.wf(),
            r.state is None,
            r.version == 0,
    {
        SingleState { state: None, version: 0 }
    }

    /// Changes the state. All receivers that wait are to be woken up.
    pub fn send(&mut self, state: E)
        requires
            old(self).version < u64::MAX,
        ensures
            final(self).wf(),
            final(self).state == Some(state),
            final(self).version == old(self).version + 1,
    {
        self.state = Some(state);
        self.version = self.version + 1;
    }

    /// A receiver of later changes.
    pub fn new_receiver(&self) -> (r: StateReceiver)
        ensures
            r.version == self.version,
    {
        StateReceiver { version: self.version }
    }
}

impl StateReceiver {
    /// The state, if it has changed since the last time. There is no source once
    /// all senders are gone.
    pub fn poll_next<'a, E>(&mut self, source: Option<&'a SingleState<E>>) -> (r: EventPoll<&'a E>)
        requires
            source matches Some(source) ==> source.wf() && old(self).version <= source.version,
        ensures
            match source {
                None => r is End && *final(self) == *old(self),
                Some(source) => {
                    &&& final(self).version == source.version
                    &&& if old(self).version == source.version {
                        r is Pending
                    } else {
                        r matches EventPoll::Event(state) && source.state == Some(*state)
                    }
                },
            },
    {
        match source {
            None => EventPoll::End,
            Some(source) => {
                if self.version != source.version {
                    self.version = source.version;
                    match &source.state {
                        Some(state) => EventPoll::Event(state),
                        None => vstd::pervasive::unreached(),
                    }
                } else {
                    EventPoll::Pending
                }
            },
        }
    }
}

/// Events that were put together.
///
/// This can be used to create a sort of event-based diff update mechanism, where
/// events that cancel each other out are never seen.
pub trait Aggregate: Sized {
    type Item: Copy;

    /// What is left to be received, in order.
    spec fn items(self) -> Seq<Self::Item>;

    /// What is left once an event is added to others.
    spec fn merged(items: Seq<Self::Item>, event: Self::Item) -> Seq<Self::Item>;

    /// Nothing.
    fn empty() -> (r: Self)
        ensures
            r.items() == Seq::<Self::Item>::empty(),
    ;

    /// Adds an event.
    fn extend(&mut self, event: Self::Item)
        ensures
            final(self).items() == Self::merged(old(self).items(), event),
    ;

    /// Takes the first event.
    fn next(&mut self) -> (r: Option<Self::Item>)
        ensures
            old(self).items().len() == 0 ==> r is None && final(self).items() == old(self).items(),
            old(self).items().len() > 0 ==> r == Some(old(self).items()[0]) && final(self).items()
                == old(self).items().skip(1),
    ;
}

/// What a receiver of aggregated events has not seen yet.
pub struct ReceiverInner<E> {
    pub event: E,
    /// The task that waits for an event.
    pub waker: Option<u64>,
}

/// An event source that aggregates sent events together for each receiver.
///
/// A good example is the object store. If an object is inserted and removed before
/// a listener looks, the two should "cancel out" for that listener.
pub struct AggregateSender<E: Aggregate> {
    pub receivers: Vec<ReceiverInner<E>>,
}

impl<E: Aggregate> AggregateSender<E> {
    pub fn new() -> (r: AggregateSender<E>)
        ensures
            r.receivers@.len() == 0,
    {
        AggregateSender { receivers: Vec::new() }
    }

    /// Adds a receiver, which will see later events. Returns its number.
    pub fn new_receiver(&mut self) -> (r: usize)
        ensures
            r == old(self).receivers@.len(),
            final(self).receivers@.len() == r + 1,
            final(self).receivers@[r as int].event.items() == Seq::<E::Item>::empty(),
            final(self).receivers@[r as int].waker is None,
            forall|i: int| 0 <= i < r ==> final(self).receivers@[i] == old(self).receivers@[i],
    {
        let n: usize = self.receivers.len();
        self.receivers.push(ReceiverInner { event: E::empty(), waker: None });
        n
    }

    /// Sends an event to all receivers. Returns the tasks to wake up.
    pub fn send(&mut self, event: E::Item) -> (r: Vec<u64>)
        ensures
            final(self).receivers@.len() == old(self).receivers@.len(),
            forall|i: int| #![trigger final(self).receivers@[i]]
                0 <= i < old(self).receivers@.len() ==> final(self).receivers@[i].event.items() == E::merged(
                    old(self).receivers@[i].event.items(),
                    event,
                ) && final(self).receivers@[i].waker is None,
            r@ == waiting(old(self).receivers@, old(self).receivers@.len() as int),
    {
        let ghost before = self.receivers@;
        let mut wake: Vec<u64> = Vec::new();
        let mut i: usize = 0;
        while i < self.receivers.len()
            invariant
                0 <= i <= self.receivers@.len(),
                before == old(self).receivers@,
                self.receivers@.len() == before.len(),
                wake@ == waiting(before, i as int),
                forall|j: int| #![trigger self.receivers@[j]]
                    0 <= j < i ==> self.receivers@[j].event.items() == E::merged(before[j].event.items(), event)
                        && self.receivers@[j].waker is None,
                forall|j: int| i <= j < before.len() ==> self.receivers@[j] == before[j],
            decreases self.receivers@.len() - i,
        {
            self.receivers[i].event.extend(event);
            if let Some(task) = self.receivers[i].waker {
                wake.push(task);
            }
            self.receivers[i].waker = None;
            i = i + 1;
        }
        wake
    }

    /// The next event for a receiver. If there is none, the task waits, unless the
    /// sender is gone. Another task that waited is to be woken up.
    pub fn poll_next(&mut self, receiver: usize, sender_alive: bool, task: u64) -> (r: (EventPoll<E::Item>, Option<u64>))
        requires
            receiver < old(self).receivers@.len(),
        ensures
            final(self).receivers@.len() == old(self).receivers@.len(),
            forall|i: int|
                0 <= i < old(self).receivers@.len() && i != receiver ==> final(self).receivers@[i] == old(
                    self,
                ).receivers@[i],
            ({
                let before = old(self).receivers@[receiver as int];
                let after = final(self).receivers@[receiver as int];
                &&& r.1 == if before.waker == Some(task) {
                    None
                } else {
                    before.waker
                }
                &&& if before.event.items().len() > 0 {
                    &&& r.0 matches EventPoll::Event(item) && item == before.event.items()[0]
                    &&& after.event.items() == before.event.items().skip(1)
                    &&& after.waker is None
                } else {
                    &&& after.event.items() == before.event.items()
                    &&& if sender_alive {
                        r.0 is Pending && after.waker == Some(task)
                    } else {
                        r.0 is End && after.waker is None
                    }
                }
            }),
    {
        // If another task is already polling this receiver, we wake up that task.
        let wake = match self.receivers[receiver].waker {
            Some(waker) => if waker == task {
                None
            } else {
                Some(waker)
            },
            None => None,
        };
        self.receivers[receiver].waker = None;
        match self.receivers[receiver].event.next() {
            Some(item) => (EventPoll::Event(item), wake),
            None => {
                if sender_alive {
                    self.receivers[receiver].waker = Some(task);
                    (EventPoll::Pending, wake)
                } else {
                    (EventPoll::End, wake)
                }
            },
        }
    }
}

/// The tasks that wait for the first `n` receivers.
pub open spec fn waiting<E>(receivers: Seq<ReceiverInner<E>>, n: int) -> Seq<u64>
    decreases n,
{
    if n <= 0 {
        Seq::empty()
    } else {
        match receivers[n - 1].waker {
            Some(task) => waiting(receivers, n - 1).push(task),
            None => waiting(receivers, n - 1),
        }
    }
}

/// The objects that came and went since a listener last looked. An object that
/// came and went again leaves nothing.
pub struct Arrivals {
    pub ids: Vec<u32>,
}

/// An object came or went.
#[derive(Clone, Copy, Debug, PartialEq, Eq, Structural)]
pub enum Arrival {
    Came(u32),
    Went(u32),
}

impl Aggregate for Arrivals {
    type Item = Arrival;

    open spec fn items(self) -> Seq<Arrival> {
        self.ids@.map_values(|id: u32| Arrival::Came(id))
    }

    open spec fn merged(items: Seq<Arrival>, event: Arrival) -> Seq<Arrival> {
        match event {
            Arrival::Came(_) => items.push(event),
            Arrival::Went(id) => items.filter(|item: Arrival| item != Arrival::Came(id)),
        }
    }

    fn empty() -> (r: Arrivals) {
        let r = Arrivals { ids: Vec::new() };
        proof {
            assert(r.items() =~= Seq::<Arrival>::empty());
        }
        r
    }

    fn extend(&mut self, event: Arrival) {
        let ghost before = self.items();
        match event {
            Arrival::Came(id) => {
                self.ids.push(id);
                proof {
                    assert(self.items() =~= before.push(event));
                }
            },
            Arrival::Went(id) => {
                let ghost pred = |item: Arrival| item != Arrival::Came(id);
                let mut kept: Vec<u32> = Vec::new();
                let mut i: usize = 0;
                proof {
                    reveal(Seq::filter);
                    assert(before.take(0).filter(pred) =~= Seq::empty());
                    assert(kept@.map_values(|id: u32| Arrival::Came(id)) =~= Seq::empty());
                }
                while i < self.ids.len()
                    invariant
                        0 <= i <= self.ids@.len(),
                        before == self.items(),
                        pred == (|item: Arrival| item != Arrival::Came(id)),
                        kept@.map_values(|id: u32| Arrival::Came(id)) == before.take(i as int).filter(pred),
                    decreases self.ids@.len() - i,
                {
                    let ghost k0 = kept@;
                    proof {
                        let part = before.take(i + 1);
                        assert(part.drop_last() =~= before.take(i as int));
                        assert(part.last() == Arrival::Came(self.ids@[i as int]));
                        reveal(Seq::filter);
                        assert(part.filter(pred) == if pred(part.last()) {
                            before.take(i as int).filter(pred).push(part.last())
                        } else {
                            before.take(i as int).filter(pred)
                        });
                    }
                    if self.ids[i] != id {
                        kept.push(self.ids[i]);
                        proof {
                            assert(kept@.map_values(|id: u32| Arrival::Came(id)) =~= k0.map_values(
                                |id: u32| Arrival::Came(id),
                            ).push(Arrival::Came(self.ids@[i as int])));
                        }
                    }
                    i = i + 1;
                }
                proof {
                    assert(before.take(i as int) =~= before);
                }
                self.ids = kept;
            },
        }
    }

    fn next(&mut self) -> (r: Option<Arrival>) {
        if self.ids.len() == 0 {
            None
        } else {
            let ghost before = self.items();
            let id: u32 = self.ids.remove(0);
            proof {
                assert(self.items() =~= before.skip(1));
            }
            Some(Arrival::Came(id))
        }
    }
}

/// An object that came and went before a listener looked is not seen.
pub proof fn arrivals_cancel_out(items: Seq<Arrival>, id: u32)
    requires
        !items.contains(Arrival::Came(id)),
    ensures
        Arrivals::merged(Arrivals::merged(items, Arrival::Came(id)), Arrival::Went(id)) == items,
{
    let pred = |item: Arrival| item != Arrival::Came(id);
    let all = items.push(Arrival::Came(id));
    reveal(Seq::filter);
    assert(all.drop_last() =~= items);
    assert(all.filter(pred) == items.filter(pred));
    lemma_filter_all(items, pred);
}

proof fn lemma_filter_all(items: Seq<Arrival>, pred: spec_fn(Arrival) -> bool)
    requires
        forall|i: int| 0 <= i < items.len() ==> pred(#[trigger] items[i]),
    ensures
        items.filter(pred) == items,
    decreases items.len(),
{
    reveal(Seq::filter);
    if items.len() > 0 {
        lemma_filter_all(items.drop_last(), pred);
        assert(items.drop_last().push(items.last()) =~= items);
    }
}

/// The capacity that a queue needs before one more event is put in without
/// waiting: twice what it has, if it is full.
pub fn reserved_capacity(is_full: bool, capacity: usize) -> (r: Option<usize>)
    requires
        is_full ==> 2 * capacity <= usize::MAX,
    ensures
        r == if is_full {
            Some((2 * capacity) as usize)
        } else {
            None
        },
{
    if is_full {
        Some(capacity * 2)
    } else {
        None
    }
}

} // verus!
