//! The order of bytes in a number.
//!
//! Messages are exchanged between programs on one machine, so numbers have the
//! order that the machine uses.
use vstd::prelude::*;

verus! {

/// The order of bytes in a number.
#[derive(Clone, Copy, Debug, PartialEq, Eq, Structural)]
pub enum Endian {
    /// The least significant byte comes first.
    Little,
    /// The most significant byte comes first.
    Big,
}

/// The number that four bytes stand for, the least significant first.
pub open spec fn little(bytes: Seq<u8>) -> u32 {
    (bytes[0] + 0x100 * bytes[1] + 0x1_0000 * bytes[2] + 0x100_0000 * bytes[3]) as u32
}

/// `u32::from_ne_bytes`: the bytes in the order of the machine, which is one of
/// two. Which of them it is depends on the machine, and is not stated.
#[verifier::external_body]
fn from_ne_bytes(bytes: [u8; 4]) -> (r: u32)
    ensures
        r == little(bytes@) || r == little(bytes@.reverse()),
{
    u32::from_ne_bytes(bytes)
}

/// Numbers with the same bits are the same.
pub open spec fn signed(value: u32) -> i32 {
    if value > i32::MAX {
        (value - 0x1_0000_0000) as i32
    } else {
        value as i32
    }
}

/// Numbers with the same bits are the same.
pub open spec fn unsigned(value: i32) -> u32 {
    if value < 0 {
        (value + 0x1_0000_0000) as u32
    } else {
        value as u32
    }
}

impl Endian {
    /// The four bytes of a number.
    pub open spec fn bytes(self, value: u32) -> Seq<u8> {
        let le = seq![
            (value % 0x100) as u8,
            (value / 0x100 % 0x100) as u8,
            (value / 0x1_0000 % 0x100) as u8,
            (value / 0x100_0000) as u8,
        ];
        match self {
            Endian::Little => le,
            Endian::Big => le.reverse(),
        }
    }

    /// The number that four bytes stand for.
    pub open spec fn number(self, bytes: Seq<u8>) -> u32 {
        match self {
            Endian::Little => little(bytes),
            Endian::Big => little(bytes.reverse()),
        }
    }

    /// The order that this machine uses, as [`Endian::of_sample`] tells it from what
    /// the machine takes the sample for. Nothing is stated of it, because it depends
    /// on the machine.
    pub fn native() -> (r: Endian) {
        Endian::of_sample(from_ne_bytes([1, 0, 0, 0]))
    }

    /// The bytes by which the order is told.
    pub open spec fn sample() -> Seq<u8> {
        seq![1u8, 0u8, 0u8, 0u8]
    }

    /// The order in which the bytes 1, 0, 0, 0 stand for the given number. It is
    /// taken for [`Endian::Big`] if they stand for it in neither.
    pub fn of_sample(number: u32) -> (r: Endian)
        ensures
            r == Endian::Little <==> number == Endian::Little.number(Endian::sample()),
            number == Endian::Big.number(Endian::sample()) ==> r.number(Endian::sample()) == number,
    {
        if number == 1 {
            Endian::Little
        } else {
            Endian::Big
        }
    }

    /// The number that the first four bytes stand for.
    pub fn get_u32(self, bytes: &[u8]) -> (r: u32)
        requires
            bytes@.len() >= 4,
        ensures
            r == self.number(bytes@.take(4)),
    {
        let (a, b, c, d) = match self {
            Endian::Little => (bytes[0], bytes[1], bytes[2], bytes[3]),
            Endian::Big => (bytes[3], bytes[2], bytes[1], bytes[0]),
        };
        a as u32 + 0x100 * (b as u32) + 0x1_0000 * (c as u32) + 0x100_0000 * (d as u32)
    }

    /// Appends the bytes of a number.
    pub fn put_u32(self, buf: &mut Vec<u8>, value: u32)
        ensures
            final(buf)@ == old(buf)@ + self.bytes(value),
    {
        let a: u8 = (value % 0x100) as u8;
        let b: u8 = (value / 0x100 % 0x100) as u8;
        let c: u8 = (value / 0x1_0000 % 0x100) as u8;
        let d: u8 = (value / 0x100_0000) as u8;
        match self {
            Endian::Little => {
                buf.push(a);
                buf.push(b);
                buf.push(c);
                buf.push(d);
            },
            Endian::Big => {
                buf.push(d);
                buf.push(c);
                buf.push(b);
                buf.push(a);
            },
        }
        proof {
            assert(buf@ =~= old(buf)@ + self.bytes(value));
        }
    }
}

/// The `i32` with the same bits.
pub fn to_signed(value: u32) -> (r: i32)
    ensures
        r == signed(value),
{
    if value > 0x7fff_ffff {
        (value as i64 - 0x1_0000_0000) as i32
    } else {
        value as i32
    }
}

/// The `u32` with the same bits.
pub fn to_unsigned(value: i32) -> (r: u32)
    ensures
        r == unsigned(value),
{
    if value < 0 {
        (value as i64 + 0x1_0000_0000) as u32
    } else {
        value as u32
    }
}

/// Reading the bytes of a number gives the number back.
pub proof fn bytes_round_trip(endian: Endian, value: u32)
    ensures
        endian.bytes(value).len() == 4,
        endian.number(endian.bytes(value)) == value,
        signed(unsigned(signed(value))) == signed(value),
        unsigned(signed(value)) == value,
{
    let le = seq![
        (value % 0x100) as u8,
        (value / 0x100 % 0x100) as u8,
        (value / 0x1_0000 % 0x100) as u8,
        (value / 0x100_0000) as u8,
    ];
    assert(le.reverse().reverse() =~= le);
    assert(value == value % 0x100 + 0x100 * (value / 0x100 % 0x100) + 0x1_0000 * (value / 0x1_0000 % 0x100) + 0x100_0000 * (
    value / 0x100_0000)) by (bit_vector);
}

/// The bytes of a number are its digits in base 256, the lowest one first, or the highest
/// one first.
pub proof fn bytes_are_digits(endian: Endian, value: u32)
    ensures
        ({
            let bytes = endian.bytes(value);
            let (a, b, c, d) = match endian {
                Endian::Little => (bytes[0], bytes[1], bytes[2], bytes[3]),
                Endian::Big => (bytes[3], bytes[2], bytes[1], bytes[0]),
            };
            value == a + 0x100 * b + 0x1_0000 * c + 0x100_0000 * d
        }),
{
    assert(value == value % 0x100 + 0x100 * (value / 0x100 % 0x100) + 0x1_0000 * (value / 0x1_0000 % 0x100) + 0x100_0000 * (
    value / 0x100_0000)) by (bit_vector);
}

/// Four bytes stand for the number whose digits in base 256 they are.
pub proof fn digits_are_numbers(endian: Endian, bytes: Seq<u8>)
    requires
        bytes.len() == 4,
    ensures
        endian.number(bytes) == match endian {
            Endian::Little => bytes[0] + 0x100 * bytes[1] + 0x1_0000 * bytes[2] + 0x100_0000 * bytes[3],
            Endian::Big => bytes[3] + 0x100 * bytes[2] + 0x1_0000 * bytes[1] + 0x100_0000 * bytes[0],
        },
{
}

/// Numbers with and without a sign that have the same bits differ by nothing or by 2^32.
pub proof fn signs_keep_bits(value: u32, number: i32)
    ensures
        (signed(value) - value) % 0x1_0000_0000 == 0,
        (unsigned(number) - number) % 0x1_0000_0000 == 0,
        signed(unsigned(number)) == number,
        unsigned(signed(value)) == value,
{
}

} // verus!
