//! Reading the parts of a message from a stream, a piece at a time.
//!
//! See <https://wayland.freedesktop.org/docs/html/ch04.html#sect-Protocol-Wire-Format>.
use vstd::prelude::*;
use vstd::slice::slice_subrange;
use crate::io::UnexpectedEof;
use crate::wire::endian::{signed, to_signed, Endian};
use crate::wire::pop::aligned;

verus! {

/// A deserializer for deserializing data stored in wayland's wire format.
pub struct Bin<T> {
    pub buf: Vec<u8>,
    /// What the buffer is shrunk to when nothing larger is read.
    pub cap: usize,
    pub inner: T,
}

/// What is left to do to have the first `len` bytes of the buffer filled.
#[derive(Clone, Copy, Debug, PartialEq, Eq, Structural)]
pub struct FillInternalBuf {
    pub len: usize,
    pub offset: usize,
}

/// Reads a `u32`.
#[derive(Clone, Copy, Debug, PartialEq, Eq, Structural)]
pub struct DeserializeU32 {
    pub inner: FillInternalBuf,
}

/// Reads an `i32`.
#[derive(Clone, Copy, Debug, PartialEq, Eq, Structural)]
pub struct DeserializeI32 {
    pub inner: FillInternalBuf,
}

/// Reads bytes: their number, then the bytes with padding.
#[derive(Clone, Copy, Debug, PartialEq, Eq, Structural)]
pub enum DeserializeBytes {
    ReadLen { inner: DeserializeU32 },
    ReadBytes { len: u32, fill: FillInternalBuf },
    /// The bytes were handed out.
    Invalid,
}

/// `after` is `before` with room for `len` bytes in its buffer, or without room that is not
/// needed for them. New bytes are zeros, and the others are kept.
pub open spec fn adjusted<T>(before: Bin<T>, after: Bin<T>, len: usize) -> bool {
    &&& after.inner == before.inner
    &&& after.cap == before.cap
    &&& after.buf@.len() >= len
    &&& after.buf@.len() == if before.buf@.len() < len {
        len as nat
    } else if len <= before.cap && before.cap < before.buf@.len() {
        before.cap as nat
    } else {
        before.buf@.len()
    }
    &&& forall|i: int|
        0 <= i < after.buf@.len() ==> #[trigger] after.buf@[i] == if i < before.buf@.len() {
            before.buf@[i]
        } else {
            0
        }
}

impl<T> Bin<T> {
    pub fn new(inner: T, cap: usize) -> (r: Bin<T>)
        ensures
            r.inner == inner,
            r.cap == cap,
            r.buf@ == Seq::<u8>::empty(),
    {
        Bin { buf: Vec::new(), cap, inner }
    }

    /// Makes room for `len` bytes, or gives room back that is not needed for them.
    pub fn adjust_buffer(&mut self, len: usize)
        ensures
            adjusted(*old(self), *final(self), len),
    {
        if self.buf.len() < len {
            self.buf.resize(len, 0);
        } else if len <= self.cap {
            // Our cap is enough to hold the bytes, so we shrink to cap.
            self.buf.truncate(self.cap);
        }
    }

    /// Begins to fill the first `len` bytes of the buffer.
    pub fn fill_internal_buf(&mut self, len: usize) -> (r: FillInternalBuf)
        ensures
            r == (FillInternalBuf { len, offset: 0 }),
            adjusted(*old(self), *final(self), len),
    {
        self.adjust_buffer(len);
        FillInternalBuf { len, offset: 0 }
    }

    pub fn deserialize_u32(&mut self) -> (r: DeserializeU32)
        ensures
            r == (DeserializeU32 { inner: FillInternalBuf { len: 4, offset: 0 } }),
            adjusted(*old(self), *final(self), 4),
    {
        DeserializeU32 { inner: self.fill_internal_buf(4) }
    }

    pub fn deserialize_i32(&mut self) -> (r: DeserializeI32)
        ensures
            r == (DeserializeI32 { inner: FillInternalBuf { len: 4, offset: 0 } }),
            adjusted(*old(self), *final(self), 4),
    {
        DeserializeI32 { inner: self.fill_internal_buf(4) }
    }

    pub fn deserialize_bytes(&mut self) -> (r: DeserializeBytes)
        ensures
            r == (DeserializeBytes::ReadLen {
                inner: DeserializeU32 { inner: FillInternalBuf { len: 4, offset: 0 } },
            }),
            adjusted(*old(self), *final(self), 4),
    {
        DeserializeBytes::ReadLen { inner: self.deserialize_u32() }
    }
}

impl FillInternalBuf {
    /// All bytes are there.
    pub open spec fn complete(self) -> bool {
        self.offset >= self.len
    }

    /// Tells whether all bytes are there. If not, the bytes of the buffer from
    /// `offset` to `len` have to be read.
    pub fn is_complete(&self) -> (r: bool)
        ensures
            r == self.complete(),
    {
        self.offset >= self.len
    }

    /// Takes note of bytes that were read into the buffer. None at all means that
    /// the stream has ended.
    pub fn advance(&mut self, read: usize) -> (r: Result<(), UnexpectedEof>)
        requires
            old(self).offset < old(self).len,
            read <= old(self).len - old(self).offset,
        ensures
            r is Err == (read == 0),
            *final(self) == (FillInternalBuf { offset: (old(self).offset + read) as usize, ..*old(self) }),
    {
        if read == 0 {
            return Err(UnexpectedEof);
        }
        self.offset = self.offset + read;
        Ok(())
    }
}

impl DeserializeU32 {
    /// The number, once its bytes are there.
    pub fn finish<T>(&self, bin: &Bin<T>, endian: Endian) -> (r: Option<u32>)
        requires
            bin.buf@.len() >= 4,
        ensures
            r == if self.inner.complete() {
                Some(endian.number(bin.buf@.take(4)))
            } else {
                None
            },
    {
        if self.inner.is_complete() {
            Some(endian.get_u32(bin.buf.as_slice()))
        } else {
            None
        }
    }
}

impl DeserializeI32 {
    /// The number, once its bytes are there.
    pub fn finish<T>(&self, bin: &Bin<T>, endian: Endian) -> (r: Option<i32>)
        requires
            bin.buf@.len() >= 4,
        ensures
            r == if self.inner.complete() {
                Some(signed(endian.number(bin.buf@.take(4))))
            } else {
                None
            },
    {
        if self.inner.is_complete() {
            Some(to_signed(endian.get_u32(bin.buf.as_slice())))
        } else {
            None
        }
    }
}

impl DeserializeBytes {
    /// The buffer has room for what is being read.
    pub open spec fn fits<T>(self, bin: Bin<T>) -> bool {
        match self {
            DeserializeBytes::ReadLen { inner } => inner.inner.len == 4 && bin.buf@.len() >= 4,
            DeserializeBytes::ReadBytes { len, fill } => fill.len == aligned(len as nat) && bin.buf@.len() >= fill.len,
            DeserializeBytes::Invalid => false,
        }
    }

    /// What is being filled.
    pub open spec fn filling(self) -> FillInternalBuf {
        match self {
            DeserializeBytes::ReadLen { inner } => inner.inner,
            DeserializeBytes::ReadBytes { fill, .. } => fill,
            DeserializeBytes::Invalid => arbitrary(),
        }
    }

    /// Goes on once the number of bytes is there: makes room for as many, aligned
    /// up to 4 bytes. Changes nothing otherwise.
    pub fn proceed<T>(&mut self, bin: &mut Bin<T>, endian: Endian)
        requires
            old(self).fits(*old(bin)),
            *old(self) is ReadLen && old(self).filling().complete() ==> aligned(
                endian.number(old(bin).buf@.take(4)) as nat,
            ) <= usize::MAX,
        ensures
            final(self).fits(*final(bin)),
            !(*old(self) is ReadLen && old(self).filling().complete()) ==> *final(self) == *old(self) && *final(bin) == *old(
                bin,
            ),
            *old(self) is ReadLen && old(self).filling().complete() ==> {
                let len = endian.number(old(bin).buf@.take(4));
                &&& *final(self) == (DeserializeBytes::ReadBytes {
                    len,
                    fill: FillInternalBuf { len: aligned(len as nat) as usize, offset: 0 },
                })
                &&& adjusted(*old(bin), *final(bin), aligned(len as nat) as usize)
            },
    {
        if let DeserializeBytes::ReadLen { inner } = *self {
            if let Some(len) = inner.finish(bin, endian) {
                let len_bytes: usize = len as usize;
                let rounded: usize = if len_bytes % 4 == 0 {
                    len_bytes
                } else {
                    len_bytes - len_bytes % 4 + 4
                };
                proof {
                    assert(len_bytes == len);
                    assert(rounded == aligned(len as nat));
                }
                *self = DeserializeBytes::ReadBytes { len, fill: bin.fill_internal_buf(rounded) };
            }
        }
    }

    /// Hands out the bytes once they are there.
    pub fn finish<'a, T>(&mut self, bin: &'a Bin<T>) -> (r: Option<&'a [u8]>)
        requires
            old(self).fits(*bin),
        ensures
            match (*old(self), r) {
                (DeserializeBytes::ReadBytes { len, fill }, Some(bytes)) => {
                    &&& fill.complete()
                    &&& bytes@ == bin.buf@.take(len as int)
                    &&& *final(self) == DeserializeBytes::Invalid
                },
                (DeserializeBytes::ReadBytes { fill, .. }, None) => !fill.complete() && *final(self) == *old(self),
                (_, r) => r is None && *final(self) == *old(self),
            },
    {
        if let DeserializeBytes::ReadBytes { len, fill } = *self {
            if fill.is_complete() {
                *self = DeserializeBytes::Invalid;
                let bytes = slice_subrange(bin.buf.as_slice(), 0, len as usize);
                proof {
                    assert(bytes@ =~= bin.buf@.take(len as int));
                }
                return Some(bytes);
            }
        }
        None
    }
}

/// The file descriptor that was read, if there was one.
pub fn deserialize_fd(read: Option<i32>) -> (r: Result<i32, UnexpectedEof>)
    ensures
        match read {
            Some(fd) => r == Ok::<i32, UnexpectedEof>(fd),
            None => r == Err::<i32, UnexpectedEof>(UnexpectedEof),
        },
{
    match read {
        Some(fd) => Ok(fd),
        None => Err(UnexpectedEof),
    }
}

/// A buffer has room for what is read into it. It is never smaller than what it was made
/// with, once it was that large, and keeps what was read before.
pub proof fn buffers_have_room<T>(before: Bin<T>, after: Bin<T>, len: usize, i: int)
    requires
        adjusted(before, after, len),
    ensures
        after.buf@.len() >= len,
        after.buf@.len() <= len || after.buf@.len() <= before.buf@.len(),
        before.buf@.len() >= before.cap ==> after.buf@.len() >= before.cap || after.buf@.len() >= len,
        len <= before.cap ==> after.buf@.len() <= before.cap || after.buf@.len() <= len,
        0 <= i < before.buf@.len() && i < after.buf@.len() ==> after.buf@[i] == before.buf@[i],
        after.cap == before.cap,
{
}

/// Something is filled once as many bytes were read as are needed.
pub proof fn filled_when_all_is_read(fill: FillInternalBuf)
    ensures
        fill.complete() <==> fill.offset >= fill.len,
        (FillInternalBuf { offset: fill.len, ..fill }).complete(),
        fill.len > 0 ==> !(FillInternalBuf { offset: 0, ..fill }).complete(),
{
}

} // verus!
