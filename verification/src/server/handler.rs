//! Event handlers, and the dispatcher that runs them.
//!
//! An event handler is paired with an event source. It waits until there is an
//! event, then it handles the event, and then it waits again or is dropped. Where
//! it is stopped in the middle, the event is kept, and handled again later.
use vstd::prelude::*;
use crate::objects::input::EventHandlerAction;

verus! {

/// What came of asking a source of events for the next one.
pub enum SourcePoll<M> {
    /// There is an event.
    Event(M),
    /// There will be no more events.
    End,
    /// There is no event yet.
    Pending,
}

/// What came of asking whether there is something to handle.
#[derive(Clone, Copy, Debug, PartialEq, Eq, Structural)]
pub enum Readiness {
    Ready,
    End,
    Pending,
}

/// What a handler came to. `Err` if it failed.
pub type HandlerOutput = Result<EventHandlerAction, ()>;

/// An event handler, paired with a source of events.
pub struct PairedEventHandler<H, M> {
    /// The handler is to be kept when it is done.
    pub should_retain: bool,
    /// The handler, unless it is running.
    pub handler: Option<H>,
    /// The event to handle, unless the handler is running.
    pub message: Option<M>,
    /// The handler is running. It can be told to stop.
    pub running: bool,
}

/// How a handler came to a stop.
pub enum Stopped<H, M> {
    /// It was done before it could be stopped.
    Completed { output: HandlerOutput, handler: H },
    /// It was stopped while it handled the event.
    Interrupted { message: M, handler: H },
}

/// The handler wants to be kept.
pub open spec fn keeps(output: HandlerOutput) -> bool {
    output matches Ok(EventHandlerAction::Keep)
}

impl<H, M> PairedEventHandler<H, M> {
    /// A handler that is not running is there, and one that is running is not.
    pub open spec fn wf(self) -> bool {
        self.running == self.handler is None
    }

    pub fn new(handler: H) -> (r: PairedEventHandler<H, M>)
        ensures
            r.wf(),
            r.should_retain,
            r.handler == Some(handler),
            r.message is None,
            !r.running,
    {
        PairedEventHandler { should_retain: true, handler: Some(handler), message: None, running: false }
    }

    /// The source has to be asked for an event.
    pub fn needs_event(&self) -> (r: bool)
        ensures
            r == self.message is None,
    {
        self.message.is_none()
    }

    /// Takes in what the source came up with. It is asked only where there is no
    /// event yet.
    pub fn poll_next(&mut self, polled: SourcePoll<M>) -> (r: Readiness)
        requires
            old(self).wf(),
        ensures
            final(self).wf(),
            old(self).message is Some ==> r == Readiness::Ready && *final(self) == *old(self),
            old(self).message is None ==> match polled {
                SourcePoll::Event(message) => r == Readiness::Ready && *final(self) == (PairedEventHandler {
                    message: Some(message),
                    ..*old(self)
                }),
                SourcePoll::End => r == Readiness::End && *final(self) == *old(self),
                SourcePoll::Pending => r == Readiness::Pending && *final(self) == *old(self),
            },
    {
        if self.message.is_none() {
            match polled {
                SourcePoll::Event(message) => {
                    self.message = Some(message);
                },
                SourcePoll::End => {
                    return Readiness::End;
                },
                SourcePoll::Pending => {
                    return Readiness::Pending;
                },
            }
        }
        Readiness::Ready
    }

    /// Begins to handle the event. Returns the handler and the event.
    pub fn start_handle(&mut self) -> (r: (H, M))
        requires
            old(self).wf(),
            !old(self).running,
            old(self).message is Some,
            old(self).should_retain,
        ensures
            final(self).wf(),
            Some(r.0) == old(self).handler,
            Some(r.1) == old(self).message,
            *final(self) == (PairedEventHandler { handler: None, message: None, running: true, ..*old(self) }),
    {
        let message = self.message.take().unwrap();
        let handler = self.handler.take().unwrap();
        self.running = true;
        (handler, message)
    }

    /// Takes the handler back once it is done. It is dropped later if it does not
    /// want to be kept, or has failed.
    pub fn poll_handle(&mut self, output: HandlerOutput, handler: H)
        requires
            old(self).wf(),
            old(self).running,
        ensures
            final(self).wf(),
            *final(self) == (PairedEventHandler {
                handler: Some(handler),
                running: false,
                should_retain: old(self).should_retain && keeps(output),
                ..*old(self)
            }),
    {
        self.handler = Some(handler);
        self.running = false;
        self.should_retain = self.should_retain && matches!(output, Ok(EventHandlerAction::Keep));
    }

    /// Stops the handler, where it is running, and tells whether it is to be kept.
    /// `stopped` is how it came to a stop. Where it was interrupted, it is
    /// inconclusive whether it would have wanted to be kept, so it is, and the
    /// event is handled again.
    pub fn stop_handle(&mut self, stopped: Option<Stopped<H, M>>) -> (r: EventHandlerAction)
        requires
            old(self).wf(),
            old(self).running == stopped is Some,
        ensures
            final(self).wf(),
            !final(self).running,
            match stopped {
                None => {
                    &&& *final(self) == *old(self)
                    &&& r == if old(self).should_retain {
                        EventHandlerAction::Keep
                    } else {
                        EventHandlerAction::Stop
                    }
                },
                Some(Stopped::Completed { output, handler }) => {
                    let retain = old(self).should_retain && keeps(output);
                    &&& *final(self) == (PairedEventHandler {
                        handler: Some(handler),
                        running: false,
                        should_retain: retain,
                        ..*old(self)
                    })
                    &&& r == if retain {
                        EventHandlerAction::Keep
                    } else {
                        EventHandlerAction::Stop
                    }
                },
                Some(Stopped::Interrupted { message, handler }) => {
                    &&& *final(self) == (PairedEventHandler {
                        handler: Some(handler),
                        message: Some(message),
                        running: false,
                        ..*old(self)
                    })
                    &&& r == EventHandlerAction::Keep
                },
            },
    {
        match stopped {
            None => {},
            Some(Stopped::Completed { output, handler }) => {
                // The handler completed before it was stopped.
                self.poll_handle(output, handler);
            },
            Some(Stopped::Interrupted { message, handler }) => {
                self.handler = Some(handler);
                self.message = Some(message);
                self.running = false;
                return EventHandlerAction::Keep;
            },
        }
        if self.should_retain {
            EventHandlerAction::Keep
        } else {
            EventHandlerAction::Stop
        }
    }
}

/// A handler that is interrupted before it is done is given the same event again.
pub proof fn interrupted_event_is_kept<H, M>(
    before: PairedEventHandler<H, M>,
    running: PairedEventHandler<H, M>,
    after: PairedEventHandler<H, M>,
)
    requires
        before.wf(),
        !before.running,
        before.message is Some,
        running == (PairedEventHandler { handler: None, message: None, running: true, ..before }),
        after == (PairedEventHandler { handler: before.handler, message: before.message, running: false, ..running }),
    ensures
        after == before,
{
}

/// What came of asking the handlers whether one of them is ready.
pub enum HandlersPoll<A> {
    /// A handler has an event to handle.
    Ready(A),
    /// The source of a handler has ended. The handler is dropped.
    Ended,
    /// No handler is ready, or there is none.
    Idle,
}

/// What a dispatcher does next.
#[derive(Clone, Copy, Debug, PartialEq, Eq, Structural)]
pub enum DispatchStep {
    /// There is an event to handle. See [`EventDispatcher::pending_event`].
    Event,
    /// The handlers have to be asked again.
    Again,
    /// There is nothing to do. A task that waited before is to be woken up.
    Wait { wake: Option<u64> },
}

/// Runs event handlers, one at a time.
pub struct EventDispatcher<A> {
    /// The handler that has an event to handle.
    pub active_handler: Option<A>,
    /// The task that waits for an event.
    pub waker: Option<u64>,
}

impl<A> EventDispatcher<A> {
    pub fn new() -> (r: EventDispatcher<A>)
        ensures
            r.active_handler is None,
            r.waker is None,
    {
        EventDispatcher { active_handler: None, waker: None }
    }

    /// A handler was added. Returns the task to wake up, so that it asks the
    /// handlers again.
    pub fn add_event_handler(&mut self) -> (r: Option<u64>)
        ensures
            r == old(self).waker,
            *final(self) == (EventDispatcher { waker: None, ..*old(self) }),
    {
        self.waker.take()
    }

    /// One step of asking for the next event. `polled` is what came of asking the
    /// handlers. They are asked only where no handler is active. A task that finds
    /// nothing waits for the next handler that is added.
    pub fn poll_next(&mut self, polled: HandlersPoll<A>, task: u64) -> (r: DispatchStep)
        ensures
            old(self).active_handler is Some ==> r == DispatchStep::Event && *final(self) == *old(self),
            old(self).active_handler is None ==> match polled {
                HandlersPoll::Ready(handler) => r == DispatchStep::Event && *final(self) == (EventDispatcher {
                    active_handler: Some(handler),
                    ..*old(self)
                }),
                HandlersPoll::Ended => r == DispatchStep::Again && *final(self) == *old(self),
                HandlersPoll::Idle => {
                    &&& *final(self) == (EventDispatcher { waker: Some(task), ..*old(self) })
                    &&& r == (DispatchStep::Wait {
                        wake: if old(self).waker == Some(task) {
                            None
                        } else {
                            old(self).waker
                        },
                    })
                },
            },
    {
        if self.active_handler.is_some() {
            return DispatchStep::Event;
        }
        match polled {
            HandlersPoll::Ready(handler) => {
                self.active_handler = Some(handler);
                DispatchStep::Event
            },
            HandlersPoll::Ended => DispatchStep::Again,
            HandlersPoll::Idle => {
                // `FuturesUnordered` wakes us up if there are handlers that are
                // ready. But we also need to wake up if there are new handlers
                // added. So we store the waker.
                let wake = match self.waker {
                    Some(waker) => if waker == task {
                        None
                    } else {
                        // Wake the previous task, because it's going to be replaced.
                        Some(waker)
                    },
                    None => None,
                };
                self.waker = Some(task);
                DispatchStep::Wait { wake }
            },
        }
    }

    /// The event to handle, where there is one.
    pub fn pending_event(&mut self) -> (r: Option<PendingEvent<A>>)
        ensures
            match r {
                Some(event) => old(self).active_handler == Some(event.handler),
                None => old(self).active_handler is None,
            },
            *final(self) == (EventDispatcher { active_handler: None, ..*old(self) }),
    {
        match self.active_handler.take() {
            Some(handler) => Some(PendingEvent { handler }),
            None => None,
        }
    }
}

/// An event to handle.
pub struct PendingEvent<A> {
    pub handler: A,
}

/// An event that is being handled.
pub struct PendingEventFut<A> {
    pub handler: Option<A>,
}

impl<H, M> PendingEvent<PairedEventHandler<H, M>> {
    /// Start handling the event. Returns the handler and the event, beside what
    /// the handler is taken back with.
    pub fn handle(self) -> (r: (PendingEventFut<PairedEventHandler<H, M>>, H, M))
        requires
            self.handler.wf(),
            !self.handler.running,
            self.handler.message is Some,
            self.handler.should_retain,
        ensures
            r.0.handler == Some(
                PairedEventHandler { handler: None, message: None, running: true, ..self.handler },
            ),
            Some(r.1) == self.handler.handler,
            Some(r.2) == self.handler.message,
    {
        let mut paired = self.handler;
        let (handler, message) = paired.start_handle();
        (PendingEventFut { handler: Some(paired) }, handler, message)
    }
}

impl<H, M> PendingEventFut<PairedEventHandler<H, M>> {
    /// Gives the event up, done or not. Returns the handler if it is to be kept, so
    /// that it can be put back among the others, and the task that is to be woken
    /// up for it.
    pub fn finish(
        self,
        stopped: Option<Stopped<H, M>>,
        dispatcher: &mut EventDispatcher<PairedEventHandler<H, M>>,
    ) -> (r: (Option<PairedEventHandler<H, M>>, Option<u64>))
        requires
            self.handler is Some ==> (self.handler->0).wf() && (self.handler->0).running == stopped is Some,
        ensures
            final(dispatcher).active_handler == old(dispatcher).active_handler,
            self.handler is None ==> r.0 is None && r.1 is None && *final(dispatcher) == *old(dispatcher),
            self.handler is Some ==> {
                let before = self.handler->0;
                let kept = match stopped {
                    None => before.should_retain,
                    Some(Stopped::Completed { output, .. }) => before.should_retain && keeps(output),
                    Some(Stopped::Interrupted { .. }) => true,
                };
                &&& r.0 is Some == kept
                &&& kept ==> (r.0->0).wf() && r.1 == old(dispatcher).waker && final(dispatcher).waker is None
                &&& kept ==> r.0 == Some(
                    match stopped {
                        None => before,
                        Some(Stopped::Completed { handler, .. }) => PairedEventHandler {
                            handler: Some(handler),
                            running: false,
                            ..before
                        },
                        Some(Stopped::Interrupted { handler, message }) => PairedEventHandler {
                            handler: Some(handler),
                            message: Some(message),
                            running: false,
                            ..before
                        },
                    },
                )
                &&& !kept ==> r.1 is None && *final(dispatcher) == *old(dispatcher)
            },
    {
        match self.handler {
            Some(mut paired) => {
                let action = paired.stop_handle(stopped);
                if action == EventHandlerAction::Keep {
                    let wake = dispatcher.add_event_handler();
                    (Some(paired), wake)
                } else {
                    (None, None)
                }
            },
            None => (None, None),
        }
    }
}

} // verus!
