//! Types for the arguments of requests and events.
use fixed::types::extra::U8;
use fixed::FixedI32;
use vstd::prelude::*;
use vstd::std_specs::convert::{FromSpec, FromSpecImpl};
use vstd::utf8::*;
use crate::text::to_vec;

verus! {

/// The id of an object that a client wants to have created.
#[derive(Clone, Copy, Debug, PartialEq, Eq, Structural)]
pub struct NewId(pub u32);

impl From<u32> for NewId {
    fn from(id: u32) -> (r: NewId) {
        NewId(id)
    }
}

impl FromSpecImpl<u32> for NewId {
    open spec fn obeys_from_spec() -> bool {
        true
    }

    open spec fn from_spec(id: u32) -> NewId {
        NewId(id)
    }
}

/// The id of an object.
#[derive(Clone, Copy, Debug, PartialEq, Eq, Structural)]
pub struct Object(pub u32);

impl From<u32> for Object {
    fn from(id: u32) -> (r: Object) {
        Object(id)
    }
}

impl FromSpecImpl<u32> for Object {
    open spec fn obeys_from_spec() -> bool {
        true
    }

    open spec fn from_spec(id: u32) -> Object {
        Object(id)
    }
}

/// A borrowed string, as its bytes.
#[derive(Clone, Copy, Debug)]
pub struct Str<'a>(pub &'a [u8]);

/// An owned string, as its bytes.
#[derive(Debug)]
pub struct String(pub Vec<u8>);

impl String {
    /// The bytes of a text.
    pub fn from_text(s: &str) -> (r: String)
        ensures
            r.0@ == encode_utf8(s@),
    {
        String(to_vec(s.as_bytes()))
    }

    /// The string, borrowed.
    pub fn as_str(&self) -> (r: Str<'_>)
        ensures
            r.0@ == self.0@,
    {
        Str(self.0.as_slice())
    }
}

/// `FixedI32::from_num` with 8 fractional bits, and `FixedI32::to_bits`: the bits of
/// an integer, which are those of the integer times 256. The first panics if the
/// integer does not fit.
#[verifier::external_body]
fn fixed_from_num(src: i32) -> (r: i32)
    requires
        -0x80_0000 <= src < 0x80_0000,
    ensures
        r == src * 256,
{
    FixedI32::<U8>::from_num(src).to_bits()
}

/// A number with 8 fractional bits, by its bits.
#[derive(Clone, Copy, Debug, PartialEq, Eq, Structural)]
pub struct Fixed(pub i32);

impl Fixed {
    /// The number that is sent as `v`.
    pub fn from_bits(v: i32) -> (r: Fixed)
        ensures
            r == Fixed(v),
    {
        Fixed(v)
    }

    /// An integer.
    pub fn from_num(src: i32) -> (r: Fixed)
        requires
            -0x80_0000 <= src < 0x80_0000,
        ensures
            r == Fixed((src * 256) as i32),
    {
        Fixed(fixed_from_num(src))
    }
}

/// A file descriptor, as its number. Whoever holds an owned one has to close it.
#[derive(Clone, Copy, Debug)]
pub enum Fd {
    Raw(i32),
    Owned(i32),
}

impl Fd {
    /// The number of the file descriptor.
    pub open spec fn number(self) -> i32 {
        match self {
            Fd::Raw(fd) => fd,
            Fd::Owned(fd) => fd,
        }
    }

    /// The number of the file descriptor.
    pub fn as_raw_fd(&self) -> (r: i32)
        ensures
            r == self.number(),
    {
        match self {
            Fd::Raw(fd) => *fd,
            Fd::Owned(fd) => *fd,
        }
    }

    /// Tells whether two are the same file descriptor, whoever owns it.
    pub fn same(&self, other: &Fd) -> (r: bool)
        ensures
            r == (self.number() == other.number()),
    {
        self.as_raw_fd() == other.as_raw_fd()
    }

    /// Takes a file descriptor that is used nowhere else for an owned one. Returns
    /// its number.
    pub fn assume_owned(&mut self) -> (r: i32)
        ensures
            r == old(self).number(),
            *final(self) == Fd::Owned(r),
    {
        let fd: i32 = self.as_raw_fd();
        *self = Fd::Owned(fd);
        fd
    }

    /// Take ownership of the file descriptor.
    ///
    /// This will return `None` if the `Fd` does not own the file descriptor.
    pub fn take(&mut self) -> (r: Option<i32>)
        ensures
            r == match *old(self) {
                Fd::Raw(_) => None,
                Fd::Owned(fd) => Some(fd),
            },
            *final(self) == Fd::Raw(old(self).number()),
    {
        match *self {
            Fd::Raw(_) => None,
            Fd::Owned(fd) => {
                *self = Fd::Raw(fd);
                Some(fd)
            },
        }
    }

    /// Take ownership of the file descriptor, which has to be an owned one.
    pub fn unwrap_owned(self) -> (r: i32)
        requires
            self is Owned,
        ensures
            r == self.number(),
    {
        self.as_raw_fd()
    }
}

/// A file descriptor has the same number whoever owns it, and ids stay what they are.
pub proof fn numbers_are_kept(fd: i32, id: u32)
    ensures
        Fd::Raw(fd).number() == fd,
        Fd::Owned(fd).number() == fd,
        <NewId as FromSpec<u32>>::from_spec(id).0 == id,
        <Object as FromSpec<u32>>::from_spec(id).0 == id,
{
}

} // verus!
