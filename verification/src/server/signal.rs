//! A simple signal that can only be sent once, and how it aborts event handlers.
//!
//! A task that waits is known by a number. What wakes a task up is returned, and
//! is left to the caller.
use vstd::prelude::*;
use crate::objects::input::EventHandlerAction;

verus! {

/// What the two ends of a signal share.
#[derive(Clone, Copy, Debug, PartialEq, Eq, Structural)]
pub struct Signal {
    /// The signal was sent.
    pub set: bool,
    /// The task that waits for it.
    pub waker: Option<u64>,
}

/// The receiving end of a signal.
#[derive(Clone, Copy, Debug, PartialEq, Eq, Structural)]
pub struct Receiver {
    /// The signal was received.
    pub terminated: bool,
}

impl Signal {
    /// The signal once a task waits for it.
    pub open spec fn awaited(self, task: u64) -> Signal {
        Signal { set: false, waker: Some(task) }
    }

    /// The task to wake up when another one waits in its place.
    pub open spec fn displaced(self, task: u64) -> Option<u64> {
        if self.waker == Some(task) {
            None
        } else {
            self.waker
        }
    }

    /// The signal once it is sent, and the task to wake up.
    pub open spec fn sent(self) -> (Signal, Option<u64>) {
        (Signal { set: true, waker: None }, self.waker)
    }

    /// A signal that was not sent, and its receiving end.
    pub fn new_pair() -> (r: (Signal, Receiver))
        ensures
            r.0 == (Signal { set: false, waker: None }),
            r.1 == (Receiver { terminated: false }),
    {
        (Signal { set: false, waker: None }, Receiver { terminated: false })
    }

    /// Sends the signal. Returns the task to wake up.
    pub fn send(&mut self) -> (r: Option<u64>)
        ensures
            (*final(self), r) == old(self).sent(),
    {
        self.set = true;
        self.waker.take()
    }
}

impl Receiver {
    /// Tells a task whether the signal was received. If not, the task waits for
    /// it. Another task that waited is returned, to be woken up.
    pub fn poll(&mut self, signal: &mut Signal, task: u64) -> (r: (bool, Option<u64>))
        ensures
            r.0 == (old(self).terminated || old(signal).set),
            final(self).terminated == r.0,
            r.0 ==> r.1 is None && *final(signal) == *old(signal),
            !r.0 ==> *final(signal) == old(signal).awaited(task) && r.1 == old(signal).displaced(task),
    {
        if self.terminated {
            return (true, None);
        }
        if signal.set {
            self.terminated = true;
            return (true, None);
        }
        let waiting = match signal.waker {
            Some(waker) => waker == task,
            None => false,
        };
        let mut wake: Option<u64> = None;
        if !waiting {
            wake = signal.waker.take();
            signal.waker = Some(task);
        }
        (false, wake)
    }

    /// The signal was received, so polling again makes no difference.
    pub fn is_terminated(&self) -> (r: bool)
        ensures
            r == self.terminated,
    {
        self.terminated
    }
}

/// A wrapper around an event handler that allows itself to be aborted via an
/// [`AbortHandle`].
pub struct Abortable<E> {
    pub event_handler: E,
    /// None once the handler was aborted.
    pub stop_signal: Option<Receiver>,
}

/// Aborts an event handler.
#[derive(Debug)]
pub struct AbortHandle {
    pub inner: Signal,
}

/// An abort handle that aborts the event handler when it is given up. See
/// [`AutoAbortHandle::finish`].
#[derive(Debug)]
pub struct AutoAbortHandle {
    pub inner: Signal,
}

impl<E> Abortable<E> {
    /// Wrap an event handler so it may be aborted.
    pub fn new(event_handler: E) -> (r: (Abortable<E>, AbortHandle))
        ensures
            r.0.event_handler == event_handler,
            r.0.stop_signal == Some(Receiver { terminated: false }),
            r.1.inner == (Signal { set: false, waker: None }),
    {
        let (signal, receiver) = Signal::new_pair();
        (Abortable { event_handler, stop_signal: Some(receiver) }, AbortHandle { inner: signal })
    }

    /// What the wrapped handler comes to when it is polled: a handler that was
    /// aborted stops, whatever it would have returned. `result` is what the
    /// wrapped handler returned, if it is done. Returns None if it is not, and
    /// was not aborted. A handler that was not aborted waits for the signal. Another
    /// task that waited is returned, to be woken up.
    pub fn poll(
        &mut self,
        signal: &mut Signal,
        task: u64,
        result: Option<EventHandlerAction>,
    ) -> (r: (Option<EventHandlerAction>, Option<u64>))
        requires
            old(self).stop_signal is Some,
        ensures
            ({
                let aborted = old(signal).set || (old(self).stop_signal->0).terminated;
                &&& aborted ==> {
                    &&& r.0 == Some(EventHandlerAction::Stop)
                    &&& final(self).stop_signal is None
                    &&& r.1 is None
                    &&& *final(signal) == *old(signal)
                }
                &&& !aborted ==> {
                    &&& r.0 == result
                    &&& final(self).stop_signal == Some(Receiver { terminated: false })
                    &&& *final(signal) == old(signal).awaited(task)
                    &&& r.1 == old(signal).displaced(task)
                }
            }),
            final(self).event_handler == old(self).event_handler,
    {
        let mut receiver = match self.stop_signal {
            Some(receiver) => receiver,
            None => vstd::pervasive::unreached(),
        };
        let (stopped, wake) = receiver.poll(signal, task);
        if stopped {
            self.stop_signal = None;
            (Some(EventHandlerAction::Stop), wake)
        } else {
            self.stop_signal = Some(receiver);
            (result, wake)
        }
    }
}

impl AbortHandle {
    /// Abort the event handler associated with this abort handle. This will cause
    /// the event handler to be stopped the next time it is polled. Returns the
    /// task to wake up.
    pub fn abort(&mut self) -> (r: Option<u64>)
        ensures
            (final(self).inner, r) == old(self).inner.sent(),
    {
        self.inner.send()
    }

    /// Turn this abort handle into an [`AutoAbortHandle`].
    pub fn auto_abort(self) -> (r: AutoAbortHandle)
        ensures
            r.inner == self.inner,
    {
        AutoAbortHandle { inner: self.inner }
    }
}

impl AutoAbortHandle {
    /// Gives the handle up, which aborts the event handler. Returns the signal,
    /// and the task to wake up.
    pub fn finish(self) -> (r: (Signal, Option<u64>))
        ensures
            r == self.inner.sent(),
    {
        let mut signal = self.inner;
        let wake = signal.send();
        (signal, wake)
    }
}

/// A task that polls a handler that was not aborted is woken up when the handler is
/// aborted, and nobody else is. What it then sees is that the handler was aborted.
pub proof fn aborting_wakes_the_waiting_task(signal: Signal, task: u64)
    requires
        !signal.set,
    ensures
        !signal.awaited(task).set,
        signal.awaited(task).sent().1 == Some(task),
        signal.awaited(task).sent().0.set,
{
}

} // verus!
