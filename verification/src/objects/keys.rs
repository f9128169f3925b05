//! The set of pressed keys, kept in a [`tinyvec::TinyVec`].
use tinyvec::TinyVec;
use vstd::prelude::*;

verus! {

/// Pressed keys. Most keyboards don't have more than 6 key rollover, so 8 should
/// be enough to avoid allocations for most cases.
#[verifier::external_body]
pub struct Keys {
    inner: TinyVec<[u8; 8]>,
}

/// The key codes, in the order they were added.
pub uninterp spec fn key_codes(keys: Keys) -> Seq<u8>;

/// `TinyVec::default`: no keys.
#[verifier::external_body]
fn no_keys() -> (r: Keys)
    ensures
        key_codes(r) == Seq::<u8>::empty(),
{
    Keys { inner: TinyVec::default() }
}

/// `TinyVec::push`: adds a key code behind all others. The vector moves to the
/// heap when it has no room inline.
#[verifier::external_body]
fn push_key(keys: &mut Keys, key: u8)
    ensures
        key_codes(*final(keys)) == key_codes(*old(keys)).push(key),
{
    keys.inner.push(key)
}

/// `TinyVec::as_slice`: all key codes.
#[verifier::external_body]
fn key_slice(keys: &Keys) -> (r: &[u8])
    ensures
        r@ == key_codes(*keys),
{
    keys.inner.as_slice()
}

/// `TinyVec::clone`: the same key codes.
#[verifier::external_body]
fn same_keys(keys: &Keys) -> (r: Keys)
    ensures
        key_codes(r) == key_codes(*keys),
{
    Keys { inner: keys.inner.clone() }
}

impl Clone for Keys {
    fn clone(&self) -> (r: Keys)
        ensures
            key_codes(r) == key_codes(*self),
    {
        same_keys(self)
    }
}

impl Keys {
    /// No keys.
    pub fn new() -> (r: Keys)
        ensures
            key_codes(r) == Seq::<u8>::empty(),
    {
        no_keys()
    }

    /// Adds a key behind all others.
    pub fn push(&mut self, key: u8)
        ensures
            key_codes(*final(self)) == key_codes(*old(self)).push(key),
    {
        push_key(self, key)
    }

    /// All key codes.
    pub fn as_slice(&self) -> (r: &[u8])
        ensures
            r@ == key_codes(*self),
    {
        key_slice(self)
    }

    /// Tells whether a key is in the set.
    pub fn contains(&self, key: u8) -> (r: bool)
        ensures
            r == key_codes(*self).contains(key),
    {
        let codes = self.as_slice();
        let mut i: usize = 0;
        while i < codes.len()
            invariant
                0 <= i <= codes@.len(),
                codes@ == key_codes(*self),
                forall|j: int| 0 <= j < i ==> codes@[j] != key,
            decreases codes@.len() - i,
        {
            if codes[i] == key {
                return true;
            }
            i = i + 1;
        }
        false
    }

    /// A list of the key codes.
    pub fn to_vec(&self) -> (r: Vec<u8>)
        ensures
            r@ == key_codes(*self),
    {
        let codes = self.as_slice();
        let mut list: Vec<u8> = Vec::new();
        let mut i: usize = 0;
        while i < codes.len()
            invariant
                0 <= i <= codes@.len(),
                codes@ == key_codes(*self),
                list@ == codes@.take(i as int),
            decreases codes@.len() - i,
        {
            list.push(codes[i]);
            i = i + 1;
            proof {
                assert(list@ =~= codes@.take(i as int));
            }
        }
        proof {
            assert(codes@.take(i as int) =~= codes@);
        }
        list
    }
}

} // verus!
