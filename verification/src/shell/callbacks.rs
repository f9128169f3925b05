//! The frame callbacks of a surface, kept in a [`tinyvecdeq`] queue.
use tinyvecdeq::tinyvecdeq::TinyVecDeq;
use vstd::prelude::*;

verus! {

/// Object ids of frame callbacks, the oldest first. A few of them are kept
/// without an allocation.
#[verifier::external_body]
pub struct FrameCallbacks {
    inner: TinyVecDeq<[u32; 4]>,
}

/// The object ids in the queue, from its front to its back.
pub uninterp spec fn callback_ids(callbacks: FrameCallbacks) -> Seq<u32>;

impl FrameCallbacks {
    /// `TinyVecDeq::default`: the queue is empty.
    #[verifier::external_body]
    pub(crate) fn new() -> (r: FrameCallbacks)
        ensures
            callback_ids(r) == Seq::<u32>::empty(),
    {
        FrameCallbacks { inner: TinyVecDeq::default() }
    }

    /// `TinyVecDeq::push_back`: adds an id behind all others. It makes room for
    /// it first, so it is never full.
    #[verifier::external_body]
    pub(crate) fn push_back(&mut self, id: u32)
        ensures
            callback_ids(*final(self)) == callback_ids(*old(self)).push(id),
    {
        self.inner.push_back(id)
    }

    /// `TinyVecDeq::pop_front`: takes the first id out, if there is one.
    #[verifier::external_body]
    pub(crate) fn pop_front(&mut self) -> (r: Option<u32>)
        ensures
            callback_ids(*old(self)).len() == 0 ==> r is None && callback_ids(*final(self)) == callback_ids(*old(self)),
            callback_ids(*old(self)).len() > 0 ==> {
                &&& r == Some(callback_ids(*old(self))[0])
                &&& callback_ids(*final(self)) == callback_ids(*old(self)).skip(1)
            },
    {
        self.inner.pop_front()
    }

    /// `TinyVecDeq::clear`: the queue is empty afterwards.
    #[verifier::external_body]
    pub(crate) fn clear(&mut self)
        ensures
            callback_ids(*final(self)) == Seq::<u32>::empty(),
    {
        self.inner.clear()
    }
}

} // verus!
