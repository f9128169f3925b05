//! Readers and writers in memory.
use vstd::prelude::*;
use crate::io::UnexpectedEof;

verus! {

/// Keeps all that is written.
#[derive(Debug)]
pub struct WritePool {
    pub inner: Vec<u8>,
    pub fds: Vec<i32>,
}

/// Appends a slice of bytes.
fn extend_bytes(list: &mut Vec<u8>, more: &[u8])
    ensures
        final(list)@ == old(list)@ + more@,
{
    let mut i: usize = 0;
    proof {
        assert(list@ =~= old(list)@ + more@.take(0));
    }
    while i < more.len()
        invariant
            0 <= i <= more@.len(),
            list@ == old(list)@ + more@.take(i as int),
        decreases more@.len() - i,
    {
        list.push(more[i]);
        i = i + 1;
        proof {
            assert(list@ =~= old(list)@ + more@.take(i as int));
        }
    }
    proof {
        assert(more@.take(i as int) =~= more@);
    }
}

/// Appends a slice of file descriptors.
fn extend_fds(list: &mut Vec<i32>, more: &[i32])
    ensures
        final(list)@ == old(list)@ + more@,
{
    let mut i: usize = 0;
    proof {
        assert(list@ =~= old(list)@ + more@.take(0));
    }
    while i < more.len()
        invariant
            0 <= i <= more@.len(),
            list@ == old(list)@ + more@.take(i as int),
        decreases more@.len() - i,
    {
        list.push(more[i]);
        i = i + 1;
        proof {
            assert(list@ =~= old(list)@ + more@.take(i as int));
        }
    }
    proof {
        assert(more@.take(i as int) =~= more@);
    }
}

impl WritePool {
    pub fn new() -> (r: WritePool)
        ensures
            r.inner@ == Seq::<u8>::empty(),
            r.fds@ == Seq::<i32>::empty(),
    {
        WritePool { inner: Vec::new(), fds: Vec::new() }
    }

    /// Writes all of the bytes.
    pub fn write(&mut self, buf: &[u8]) -> (r: usize)
        ensures
            r == buf@.len(),
            final(self).inner@ == old(self).inner@ + buf@,
            final(self).fds == old(self).fds,
    {
        extend_bytes(&mut self.inner, buf);
        buf.len()
    }

    /// Writes all of the bytes and file descriptors.
    pub fn write_with_fds(&mut self, buf: &[u8], fds: &[i32]) -> (r: usize)
        ensures
            r == buf@.len(),
            final(self).inner@ == old(self).inner@ + buf@,
            final(self).fds@ == old(self).fds@ + fds@,
    {
        extend_bytes(&mut self.inner, buf);
        extend_fds(&mut self.fds, fds);
        buf.len()
    }

    /// All that was written.
    pub fn into_inner(self) -> (r: (Vec<u8>, Vec<i32>))
        ensures
            r == (self.inner, self.fds),
    {
        (self.inner, self.fds)
    }
}

/// Gives out what it was made with.
#[derive(Debug)]
pub struct ReadPool {
    pub inner: Vec<u8>,
    pub fds: Vec<i32>,
}

impl ReadPool {
    pub fn new(data: Vec<u8>, fds: Vec<i32>) -> (r: ReadPool)
        ensures
            r.inner == data,
            r.fds == fds,
    {
        ReadPool { inner: data, fds }
    }

    /// Nothing is left.
    pub fn is_eof(&self) -> (r: bool)
        ensures
            r == (self.inner@.len() == 0 && self.fds@.len() == 0),
    {
        self.inner.len() == 0 && self.fds.len() == 0
    }

    /// Takes up to `max` bytes.
    pub fn read(&mut self, max: usize) -> (r: Vec<u8>)
        ensures
            r@.len() == if old(self).inner@.len() < max {
                old(self).inner@.len() as int
            } else {
                max as int
            },
            r@ + final(self).inner@ == old(self).inner@,
            final(self).fds == old(self).fds,
    {
        let len: usize = if self.inner.len() < max {
            self.inner.len()
        } else {
            max
        };
        let rest = self.inner.split_off(len);
        let mut taken: Vec<u8> = Vec::new();
        taken.append(&mut self.inner);
        self.inner = rest;
        proof {
            assert(taken@ + self.inner@ =~= old(self).inner@);
        }
        taken
    }

    /// Takes up to `max` bytes and, where there is a limit, as many file
    /// descriptors, otherwise all of them.
    pub fn read_with_fds(&mut self, max: usize, fd_limit: Option<usize>) -> (r: (Vec<u8>, Vec<i32>))
        requires
            fd_limit matches Some(limit) ==> limit <= old(self).fds@.len(),
        ensures
            r.0@.len() == if old(self).inner@.len() < max {
                old(self).inner@.len() as int
            } else {
                max as int
            },
            r.0@ + final(self).inner@ == old(self).inner@,
            r.1@.len() == match fd_limit {
                Some(limit) => limit as int,
                None => old(self).fds@.len() as int,
            },
            r.1@ + final(self).fds@ == old(self).fds@,
    {
        let data = self.read(max);
        let count: usize = match fd_limit {
            Some(limit) => limit,
            None => self.fds.len(),
        };
        let rest = self.fds.split_off(count);
        let mut fds: Vec<i32> = Vec::new();
        fds.append(&mut self.fds);
        self.fds = rest;
        proof {
            assert(fds@ + self.fds@ =~= old(self).fds@);
        }
        (data, fds)
    }

    /// All bytes that are left.
    pub fn buffer(&self) -> (r: &[u8])
        ensures
            r@ == self.inner@,
    {
        self.inner.as_slice()
    }

    /// Checks that `len` bytes are left.
    pub fn fill_buf_until(&self, len: usize) -> (r: Result<(), UnexpectedEof>)
        ensures
            r is Ok == (len <= self.inner@.len()),
    {
        if len > self.inner.len() {
            Err(UnexpectedEof)
        } else {
            Ok(())
        }
    }

    /// Takes the next file descriptor.
    pub fn next_fd(&mut self) -> (r: Option<i32>)
        requires
            old(self).fds@.len() > 0,
        ensures
            r == Some(old(self).fds@[0]),
            final(self).fds@ == old(self).fds@.skip(1),
            final(self).inner == old(self).inner,
    {
        let fd: i32 = self.fds.remove(0);
        proof {
            assert(self.fds@ =~= old(self).fds@.skip(1));
        }
        Some(fd)
    }

    /// Drops bytes and file descriptors.
    pub fn consume(&mut self, amt: usize, amt_fd: usize)
        requires
            amt <= old(self).inner@.len(),
            amt_fd <= old(self).fds@.len(),
        ensures
            final(self).inner@ == old(self).inner@.skip(amt as int),
            final(self).fds@ == old(self).fds@.skip(amt_fd as int),
    {
        let rest = self.inner.split_off(amt);
        self.inner = rest;
        proof {
            assert(self.inner@ =~= old(self).inner@.skip(amt as int));
        }
        let rest_fds = self.fds.split_off(amt_fd);
        self.fds = rest_fds;
        proof {
            assert(self.fds@ =~= old(self).fds@.skip(amt_fd as int));
        }
    }
}

} // verus!
