//! A buffer for reading data with file descriptors.
use vstd::prelude::*;
use vstd::slice::slice_subrange;
use crate::io::UnexpectedEof;

verus! {

/// A buffered reader for reading data with file descriptors.
///
/// # Note
///
/// Because of the special treatment of file descriptors, i.e. they are closed if
/// we don't receive with a big enough buffer, every time we read, we have to read
/// all of them, whether there is spare buffer left or not. This means the file
/// descriptors buffer will grow indefinitely if they are not consumed.
///
/// Also, users are encouraged to use up all the available data before filling the
/// buffer again, otherwise there is potential for causing a lot of allocations
/// and copies.
pub struct BufReaderWithFd<T> {
    pub inner: T,
    pub buf: Vec<u8>,
    pub cap_data: usize,
    pub filled_data: usize,
    pub pos_data: usize,
    pub fd_buf: Vec<i32>,
}

/// What has to be done to have enough data in the buffer.
#[derive(Clone, Copy, Debug, PartialEq, Eq, Structural)]
pub enum FillStep {
    /// There is enough data.
    Done,
    /// More data has to be read into the spare part of the buffer.
    Read,
}

impl<T> BufReaderWithFd<T> {
    /// The data lies within the buffer.
    pub open spec fn wf(self) -> bool {
        self.pos_data <= self.filled_data <= self.buf@.len()
    }

    /// The data that was read and not consumed yet.
    pub open spec fn data(self) -> Seq<u8> {
        self.buf@.subrange(self.pos_data as int, self.filled_data as int)
    }

    /// How much can be read into the buffer as it is.
    pub open spec fn spare(self) -> int {
        self.buf@.len() - self.filled_data
    }

    pub fn new(inner: T) -> (r: BufReaderWithFd<T>)
        ensures
            r.wf(),
            r.inner == inner,
            r.data() == Seq::<u8>::empty(),
            r.fd_buf@ == Seq::<i32>::empty(),
            r.cap_data == 4096,
            r.buf@.len() == 4096,
            r.filled_data == 0,
            r.pos_data == 0,
    {
        BufReaderWithFd::with_capacity(inner, 4 * 1024, 32)
    }

    pub fn with_capacity(inner: T, cap_data: usize, cap_fd: usize) -> (r: BufReaderWithFd<T>)
        ensures
            r.wf(),
            r.inner == inner,
            r.data() == Seq::<u8>::empty(),
            r.fd_buf@ == Seq::<i32>::empty(),
            r.cap_data == cap_data,
            r.buf@.len() == cap_data,
            r.filled_data == 0,
            r.pos_data == 0,
    {
        let mut buf: Vec<u8> = Vec::new();
        buf.resize(cap_data, 0);
        let r = BufReaderWithFd {
            inner,
            buf,
            filled_data: 0,
            pos_data: 0,
            cap_data,
            fd_buf: Vec::with_capacity(cap_fd),
        };
        proof {
            assert(r.data() =~= Seq::<u8>::empty());
        }
        r
    }

    /// There is something for [`BufReaderWithFd::shrink`] to do: data can be moved
    /// to the front, or the buffer can be made smaller.
    pub open spec fn can_shrink(self) -> bool {
        self.pos_data > 0 || (self.buf@.len() > self.filled_data && self.buf@.len() > self.cap_data)
    }

    /// `after` is this buffer with the data moved to the front, and without what it
    /// has beyond the data and its initial capacity. If there is nothing to do, it
    /// is this buffer.
    pub open spec fn shrunk(self, after: BufReaderWithFd<T>) -> bool {
        &&& after.inner == self.inner
        &&& after.cap_data == self.cap_data
        &&& after.fd_buf == self.fd_buf
        &&& after.data() == self.data()
        &&& !self.can_shrink() ==> after == self
        &&& self.can_shrink() ==> {
            let len = self.data().len();
            let limit = if len > self.cap_data {
                len
            } else {
                self.cap_data as nat
            };
            &&& after.pos_data == 0
            &&& after.filled_data == len
            &&& after.buf@.len() == if self.buf@.len() > limit {
                limit
            } else {
                self.buf@.len()
            }
        }
    }

    /// Moves the data to the front of the buffer, and gives back what the buffer
    /// has beyond the data and its initial capacity.
    pub fn shrink(&mut self)
        requires
            old(self).wf(),
        ensures
            final(self).wf(),
            old(self).shrunk(*final(self)),
    {
        if self.pos_data > 0 || (self.buf.len() > self.filled_data && self.buf.len() > self.cap_data) {
            let data_len: usize = self.filled_data - self.pos_data;
            let pos: usize = self.pos_data;
            let ghost before = self.buf@;
            let mut i: usize = 0;
            proof {
                assert(before.len() == self.buf.len());
            }
            while i < data_len
                invariant
                    0 <= i <= data_len,
                    pos + data_len <= before.len() <= usize::MAX,
                    self.buf@.len() == before.len(),
                    self.inner == old(self).inner,
                    self.cap_data == old(self).cap_data,
                    self.fd_buf == old(self).fd_buf,
                    self.pos_data == pos,
                    forall|j: int| 0 <= j < i ==> self.buf@[j] == before[pos + j],
                    forall|j: int| i <= j < before.len() ==> self.buf@[j] == before[j],
                decreases data_len - i,
            {
                let byte: u8 = self.buf[pos + i];
                self.buf.set(i, byte);
                i = i + 1;
            }
            let limit: usize = if data_len > self.cap_data {
                data_len
            } else {
                self.cap_data
            };
            self.buf.truncate(limit);
            self.pos_data = 0;
            self.filled_data = data_len;
            proof {
                assert(self.data() =~= old(self).data());
            }
        }
    }

    /// The data that was read and not consumed yet.
    pub fn buffer(&self) -> (r: &[u8])
        requires
            self.wf(),
        ensures
            r@ == self.data(),
    {
        slice_subrange(self.buf.as_slice(), self.pos_data, self.filled_data)
    }

    /// The file descriptors that were read and not consumed yet.
    pub fn fds(&self) -> (r: &[i32])
        ensures
            r@ == self.fd_buf@,
    {
        self.fd_buf.as_slice()
    }

    /// Begins to fill the buffer until it has `len` bytes: the buffer is shrunk if
    /// it has no room for them behind what was consumed, or if it has no data.
    /// [`Self::next_step`] follows.
    pub fn start_fill(&mut self, len: usize)
        requires
            old(self).wf(),
            old(self).pos_data + len <= usize::MAX,
        ensures
            final(self).wf(),
            if old(self).pos_data + len > old(self).buf@.len() || old(self).data().len() == 0 {
                old(self).shrunk(*final(self))
            } else {
                *final(self) == *old(self)
            },
            final(self).data() == old(self).data(),
            final(self).pos_data <= old(self).pos_data,
    {
        if self.pos_data + len > self.buf.len() || self.filled_data == self.pos_data {
            // Try to shrink the buffer before we grow it. Or adjust buffer
            // pointers when the buffer is empty.
            self.shrink();
        }
    }

    /// Tells whether there are `len` bytes in the buffer. If not, makes room for
    /// them.
    pub fn next_step(&mut self, len: usize) -> (r: FillStep)
        requires
            old(self).wf(),
            old(self).pos_data + len <= usize::MAX,
        ensures
            final(self).wf(),
            final(self).inner == old(self).inner,
            final(self).cap_data == old(self).cap_data,
            final(self).fd_buf == old(self).fd_buf,
            final(self).data() == old(self).data(),
            final(self).pos_data <= old(self).pos_data,
            r == if old(self).data().len() >= len {
                FillStep::Done
            } else {
                FillStep::Read
            },
            r == FillStep::Done ==> *final(self) == *old(self),
            r == FillStep::Read ==> final(self).pos_data + len <= final(self).buf@.len() && final(self).spare() > 0,
    {
        if self.filled_data - self.pos_data >= len {
            return FillStep::Done;
        }
        if self.filled_data == self.pos_data {
            self.filled_data = 0;
            self.pos_data = 0;
        }
        if self.pos_data + len > self.buf.len() {
            self.buf.resize(len + self.pos_data, 0);
        }
        proof {
            assert(self.data() =~= old(self).data());
        }
        FillStep::Read
    }

    /// The part of the buffer that data can be read into.
    pub fn spare_mut(&mut self) -> (r: &mut [u8])
        requires
            old(self).wf(),
        ensures
            r@.len() == old(self).spare(),
            *final(self) == (BufReaderWithFd { buf: final(self).buf, ..*old(self) }),
            final(self).buf@ == old(self).buf@.take(old(self).filled_data as int) + final(r)@,
    {
        let filled: usize = self.filled_data;
        let (_, tail) = self.buf.as_mut_slice().split_at_mut(filled);
        tail
    }

    /// Takes note of what was read into the spare part: so many bytes, and these
    /// file descriptors. Nothing at all means that the stream has ended.
    pub fn advance(&mut self, bytes: usize, fds: &[i32]) -> (r: Result<(), UnexpectedEof>)
        requires
            old(self).wf(),
            bytes <= old(self).spare(),
        ensures
            final(self).wf(),
            r is Err == (bytes == 0 && fds@.len() == 0),
            r is Err ==> *final(self) == *old(self),
            r is Ok ==> {
                &&& final(self).data() == old(self).data() + old(self).buf@.subrange(
                    old(self).filled_data as int,
                    old(self).filled_data + bytes,
                )
                &&& final(self).fd_buf@ == old(self).fd_buf@ + fds@
                &&& *final(self) == (BufReaderWithFd {
                    filled_data: (old(self).filled_data + bytes) as usize,
                    fd_buf: final(self).fd_buf,
                    ..*old(self)
                })
            },
    {
        if bytes == 0 && fds.len() == 0 {
            // We hit EOF while the buffer is not filled.
            return Err(UnexpectedEof);
        }
        let mut i: usize = 0;
        proof {
            assert(self.fd_buf@ =~= old(self).fd_buf@ + fds@.take(0));
        }
        while i < fds.len()
            invariant
                0 <= i <= fds@.len(),
                self.fd_buf@ == old(self).fd_buf@ + fds@.take(i as int),
                *self == (BufReaderWithFd { fd_buf: self.fd_buf, ..*old(self) }),
            decreases fds@.len() - i,
        {
            self.fd_buf.push(fds[i]);
            i = i + 1;
            proof {
                assert(self.fd_buf@ =~= old(self).fd_buf@ + fds@.take(i as int));
            }
        }
        proof {
            assert(self.buf@.len() == self.buf.len());
        }
        self.filled_data = self.filled_data + bytes;
        proof {
            assert(fds@.take(i as int) =~= fds@);
            assert(self.data() =~= old(self).data() + old(self).buf@.subrange(
                old(self).filled_data as int,
                old(self).filled_data + bytes,
            ));
        }
        Ok(())
    }

    /// Drops data and file descriptors from the front of the buffer. There may be
    /// less data than that, but not fewer file descriptors.
    pub fn consume(&mut self, amt: usize, amt_fd: usize)
        requires
            old(self).wf(),
            old(self).pos_data + amt <= usize::MAX,
            amt_fd <= old(self).fd_buf@.len(),
        ensures
            final(self).wf(),
            final(self).data() == if amt <= old(self).data().len() {
                old(self).data().skip(amt as int)
            } else {
                Seq::empty()
            },
            final(self).fd_buf@ == old(self).fd_buf@.skip(amt_fd as int),
            *final(self) == (BufReaderWithFd {
                pos_data: final(self).pos_data,
                fd_buf: final(self).fd_buf,
                ..*old(self)
            }),
    {
        let end: usize = self.pos_data + amt;
        self.pos_data = if end < self.filled_data {
            end
        } else {
            self.filled_data
        };
        let rest = self.fd_buf.split_off(amt_fd);
        self.fd_buf = rest;
        proof {
            assert(self.fd_buf@ =~= old(self).fd_buf@.skip(amt_fd as int));
            if amt <= old(self).data().len() {
                assert(self.data() =~= old(self).data().skip(amt as int));
            } else {
                assert(self.data() =~= Seq::empty());
            }
        }
    }

    /// Takes as much data and as many file descriptors out of the buffer as there
    /// are, up to the given limits.
    pub fn read_with_fds(&mut self, max_data: usize, max_fds: usize) -> (r: (Vec<u8>, Vec<i32>))
        requires
            old(self).wf(),
        ensures
            final(self).wf(),
            r.0@.len() == if old(self).data().len() < max_data {
                old(self).data().len() as int
            } else {
                max_data as int
            },
            r.1@.len() == if old(self).fd_buf@.len() < max_fds {
                old(self).fd_buf@.len() as int
            } else {
                max_fds as int
            },
            r.0@ + final(self).data() == old(self).data(),
            r.1@ + final(self).fd_buf@ == old(self).fd_buf@,
            final(self).inner == old(self).inner,
    {
        let mut data: Vec<u8> = Vec::new();
        let mut fds: Vec<i32> = Vec::new();
        let available: usize = self.filled_data - self.pos_data;
        let len: usize = if available < max_data {
            available
        } else {
            max_data
        };
        let mut i: usize = 0;
        while i < len
            invariant
                0 <= i <= len <= self.data().len(),
                self.wf(),
                *self == *old(self),
                data@ == self.data().take(i as int),
            decreases len - i,
        {
            data.push(self.buf[self.pos_data + i]);
            i = i + 1;
            proof {
                assert(data@ =~= self.data().take(i as int));
            }
        }
        let fd_len: usize = if self.fd_buf.len() < max_fds {
            self.fd_buf.len()
        } else {
            max_fds
        };
        let mut j: usize = 0;
        while j < fd_len
            invariant
                0 <= j <= fd_len <= self.fd_buf@.len(),
                *self == *old(self),
                fds@ == self.fd_buf@.take(j as int),
            decreases fd_len - j,
        {
            fds.push(self.fd_buf[j]);
            j = j + 1;
            proof {
                assert(fds@ =~= self.fd_buf@.take(j as int));
            }
        }
        proof {
            assert(self.pos_data + len <= self.buf.len());
        }
        self.consume(len, fd_len);
        proof {
            assert(data@ + self.data() =~= old(self).data());
            assert(fds@ + self.fd_buf@ =~= old(self).fd_buf@);
        }
        (data, fds)
    }
}

/// The data are the bytes from the position on, up to where the buffer is filled.
pub proof fn data_lie_in_the_buffer<T>(reader: BufReaderWithFd<T>, i: int)
    requires
        reader.wf(),
    ensures
        reader.data().len() == reader.filled_data - reader.pos_data,
        0 <= i < reader.data().len() ==> reader.data()[i] == reader.buf@[reader.pos_data + i],
        reader.spare() == reader.buf@.len() - reader.filled_data,
{
}

/// Shrinking a buffer moves its data to the front, and loses none. It keeps room for its
/// initial capacity, if it had that, and never gets larger. What is already at the front of
/// a buffer that is not too large stays as it is.
pub proof fn shrinking_keeps_data<T>(before: BufReaderWithFd<T>, after: BufReaderWithFd<T>, i: int)
    requires
        before.wf(),
        after.wf(),
        before.shrunk(after),
    ensures
        after.filled_data - after.pos_data == before.filled_data - before.pos_data,
        0 <= i < before.filled_data - before.pos_data ==> after.buf@[after.pos_data + i] == before.buf@[before.pos_data
            + i],
        after.pos_data == 0,
        after.buf@.len() <= before.buf@.len(),
        before.buf@.len() >= before.cap_data ==> after.buf@.len() >= before.cap_data,
        after.buf@.len() <= before.cap_data || after.buf@.len() == after.filled_data,
        before.pos_data == 0 && before.buf@.len() <= before.cap_data ==> after == before,
        after.fd_buf@ == before.fd_buf@,
{
    assert(after.data().len() == before.data().len());
    if 0 <= i < before.data().len() {
        assert(after.data()[i] == before.data()[i]);
    }
}

} // verus!
