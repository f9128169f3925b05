//! What the pointers, and the keyboards, of a client share.
//!
//! The events of surfaces that they are told of come from a stream that can be
//! replaced, because listening begins and ends while it is being polled.
use vstd::prelude::*;
use crate::utils::{replaceable, Replace, ReplaceInner, Replaceable};

verus! {

/// What the pointers of a client share.
pub struct PointerState<S> {
    /// The stream of pointer events, if there is anything to listen to.
    pub inner: ReplaceInner<S>,
    /// Handle for starting and stopping to listen to pointer events.
    pub handle: Replace,
    /// Event source paired with `handle`. This is only there when the first pointer
    /// is just inserted.
    pub event_source: Option<Replaceable>,
}

impl<S> PointerState<S> {
    pub fn new() -> (r: PointerState<S>)
        ensures
            r.inner.stream is None,
            r.inner.waker is None,
            r.inner.replaceable,
            r.event_source is Some,
    {
        let (inner, event_source, handle) = replaceable();
        PointerState { inner, handle, event_source: Some(event_source) }
    }

    /// The last pointer is dropped: stops to listen to pointer events. Returns what
    /// is left of the stream, which has ended, and the task that waits for it, to be
    /// woken up.
    pub fn finish(self) -> (r: (ReplaceInner<S>, Option<u64>))
        ensures
            r.0.terminated(),
            r.0.waker is None,
            r.1 == self.inner.waker,
    {
        let mut inner = self.inner;
        self.handle.replace(&mut inner, None);
        let wake = self.handle.finish(&mut inner);
        (inner, wake)
    }
}

/// What the keyboards of a client share.
pub struct KeyboardState<S> {
    /// The stream of keyboard events, if there is anything to listen to.
    pub inner: ReplaceInner<S>,
    /// Handle for starting and stopping to listen to keyboard events.
    pub handle: Replace,
    /// Event source paired with `handle`. This is only there when the first keyboard
    /// is just inserted.
    pub event_source: Option<Replaceable>,
}

impl<S> KeyboardState<S> {
    pub fn new() -> (r: KeyboardState<S>)
        ensures
            r.inner.stream is None,
            r.inner.waker is None,
            r.inner.replaceable,
            r.event_source is Some,
    {
        let (inner, event_source, handle) = replaceable();
        KeyboardState { inner, handle, event_source: Some(event_source) }
    }

    /// The last keyboard is dropped: stops to listen to keyboard events. Returns what
    /// is left of the stream, which has ended, and the task that waits for it, to be
    /// woken up.
    pub fn finish(self) -> (r: (ReplaceInner<S>, Option<u64>))
        ensures
            r.0.terminated(),
            r.0.waker is None,
            r.1 == self.inner.waker,
    {
        let mut inner = self.inner;
        self.handle.replace(&mut inner, None);
        let wake = self.handle.finish(&mut inner);
        (inner, wake)
    }
}

} // verus!
