//! Taking the parts of a message off its front.
use vstd::prelude::*;
use vstd::slice::slice_subrange;
use crate::wire::endian::{signed, to_signed, Endian};

verus! {

/// A length, aligned up to 4 bytes.
pub open spec fn aligned(len: nat) -> nat {
    ((len + 3) / 4 * 4) as nat
}

/// A length, aligned up to 4 bytes.
pub fn align(len: usize) -> (r: usize)
    requires
        len <= usize::MAX - 3,
    ensures
        r == aligned(len as nat),
{
    (len + 3) / 4 * 4
}

/// Takes the first file descriptor.
pub fn pop_fd(fds: &mut &[i32]) -> (r: i32)
    requires
        old(fds)@.len() > 0,
    ensures
        r == old(fds)@[0],
        final(fds)@ == old(fds)@.skip(1),
{
    let all = *fds;
    let r: i32 = all[0];
    *fds = slice_subrange(all, 1, all.len());
    proof {
        assert(fds@ =~= all@.skip(1));
    }
    r
}

/// Pop `len` bytes from the buffer and returns it. Advances the buffer by `len`
/// aligned up to 4 bytes.
pub fn pop_bytes<'a>(bytes: &mut &'a [u8], len: usize) -> (r: &'a [u8])
    requires
        aligned(len as nat) <= old(bytes)@.len(),
    ensures
        r@ == old(bytes)@.take(len as int),
        final(bytes)@ == old(bytes)@.skip(aligned(len as nat) as int),
{
    let all = *bytes;
    proof {
        assert(len <= aligned(len as nat) <= all@.len());
        assert(all@.len() == all.len());
    }
    // The aligned length is not computed where it could be too large to be one.
    let rest: usize = if len % 4 == 0 {
        len
    } else {
        len - len % 4 + 4
    };
    proof {
        assert(rest == aligned(len as nat));
    }
    *bytes = slice_subrange(all, rest, all.len());
    proof {
        assert(bytes@ =~= all@.skip(rest as int));
        assert(all@.subrange(0, len as int) =~= all@.take(len as int));
    }
    slice_subrange(all, 0, len)
}

/// Takes a number of four bytes.
pub fn pop_u32(endian: Endian, bytes: &mut &[u8]) -> (r: u32)
    requires
        old(bytes)@.len() >= 4,
    ensures
        r == endian.number(old(bytes)@.take(4)),
        final(bytes)@ == old(bytes)@.skip(4),
{
    let slice = pop_bytes(bytes, 4);
    proof {
        assert(slice@.take(4) =~= slice@);
    }
    endian.get_u32(slice)
}

/// Takes a number of four bytes.
pub fn pop_i32(endian: Endian, bytes: &mut &[u8]) -> (r: i32)
    requires
        old(bytes)@.len() >= 4,
    ensures
        r == signed(endian.number(old(bytes)@.take(4))),
        final(bytes)@ == old(bytes)@.skip(4),
{
    to_signed(pop_u32(endian, bytes))
}

} // verus!
