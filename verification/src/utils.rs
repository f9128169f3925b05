//! Streams that can be replaced while someone listens to them.
//!
//! A task that waits is known by a number. What wakes a task up is returned, and
//! is left to the caller.
use vstd::prelude::*;
use crate::server::events::EventPoll;

verus! {

/// What a [`Replaceable`] and its [`Replace`] share.
pub struct ReplaceInner<S> {
    pub stream: Option<S>,
    /// The task that waits for an event.
    pub waker: Option<u64>,
    /// The [`Replace`] was not given up.
    pub replaceable: bool,
}

impl<S> ReplaceInner<S> {
    /// There will be no more events, and there can be none.
    pub open spec fn terminated(self) -> bool {
        !self.replaceable && self.stream is None
    }
}

/// A stream whose inner is replaceable.
///
/// The inner can be replaced using the corresponding [`Replace`] handle. The new
/// stream will be polled the next time the [`Replaceable`] stream is polled. If the
/// inner is `None`, then the stream is pending if the corresponding `Replace`
/// handle hasn't been given up, otherwise it has ended, since it is no longer
/// possible to put anything that's not `None` into the inner.
#[derive(Debug)]
pub struct Replaceable;

/// Replaces the stream in a [`Replaceable`].
#[derive(Debug)]
pub struct Replace;

/// Create a pair of [`Replaceable`] and [`Replace`], and what they share. The
/// `Replace` can be used to replace the stream in the `Replaceable`.
pub fn replaceable<S>() -> (r: (ReplaceInner<S>, Replaceable, Replace))
    ensures
        r.0.stream is None,
        r.0.waker is None,
        r.0.replaceable,
{
    (ReplaceInner { stream: None, waker: None, replaceable: true }, Replaceable, Replace)
}

impl Replace {
    /// Replace the stream in the corresponding [`Replaceable`] with the given
    /// stream. Returns the old stream.
    ///
    /// Note the new stream will not be immediately polled, so if there is currently
    /// a task waiting on the corresponding [`Replaceable`], it will not be woken up.
    /// You must arrange for it to be polled.
    pub fn replace<S>(&self, inner: &mut ReplaceInner<S>, stream: Option<S>) -> (r: Option<S>)
        ensures
            r == old(inner).stream,
            *final(inner) == (ReplaceInner { stream, ..*old(inner) }),
    {
        let last = inner.stream.take();
        inner.stream = stream;
        last
    }

    /// Gives the handle up. The stream could have ended if polled again, so the
    /// task that waits is returned, to be woken up.
    pub fn finish<S>(self, inner: &mut ReplaceInner<S>) -> (r: Option<u64>)
        ensures
            r == old(inner).waker,
            *final(inner) == (ReplaceInner { waker: None, replaceable: false, ..*old(inner) }),
    {
        inner.replaceable = false;
        inner.waker.take()
    }
}

impl Replaceable {
    /// The next event for a task, where `polled` is what came of polling the inner
    /// stream, if there is one. An inner stream that has ended is dropped.
    pub fn poll_next<S, E>(&self, inner: &mut ReplaceInner<S>, task: u64, polled: EventPoll<E>) -> (r: EventPoll<E>)
        ensures
            final(inner).replaceable == old(inner).replaceable,
            old(inner).terminated() ==> r is End && final(inner).terminated(),
            if old(inner).stream is Some && !(polled is End) {
                &&& r == polled
                &&& final(inner).stream == old(inner).stream
                &&& final(inner).waker == if polled is Pending && old(inner).replaceable {
                    Some(task)
                } else {
                    None
                }
            } else {
                &&& final(inner).stream is None
                &&& old(inner).replaceable ==> r is Pending && final(inner).waker == Some(task)
                &&& !old(inner).replaceable ==> r is End && final(inner).waker is None
            },
    {
        inner.waker = None;
        let polled = if inner.stream.is_some() {
            polled
        } else {
            EventPoll::End
        };
        match polled {
            EventPoll::Event(event) => EventPoll::Event(event),
            EventPoll::Pending => {
                // Normally the inner stream is responsible for waking the task up, but
                // the task also needs to be notified if the handle is given up.
                if inner.replaceable {
                    inner.waker = Some(task);
                }
                EventPoll::Pending
            },
            EventPoll::End => {
                inner.stream = None;
                if inner.replaceable {
                    inner.waker = Some(task);
                    EventPoll::Pending
                } else {
                    EventPoll::End
                }
            },
        }
    }

    /// Tells whether there will be no more events.
    pub fn is_terminated<S>(&self, inner: &ReplaceInner<S>) -> (r: bool)
        ensures
            r == inner.terminated(),
    {
        !inner.replaceable && inner.stream.is_none()
    }
}

} // verus!
