//! Reading the parts of a message.
use vstd::prelude::*;
use vstd::slice::slice_subrange;
use crate::spec_parser::protocol::Type;
use crate::text::to_vec;
use crate::wire::endian::{bytes_round_trip, signed, to_signed, Endian};
use crate::wire::message::{
    arg_fds, arg_fits, arg_len, arg_value, arguments_round_trip, decoded, fits, lemma_first, message_bytes,
    message_len, message_length_law, message_round_trip, opcode_of, prefix, prepend, value_of, values_bytes, values_fds, values_len, views, word,
    DeError, DeErrorView, Value, ValueView, WireArg,
};
use crate::wire::pop::aligned;

verus! {

/// Reads from the bytes and the file descriptors of a message, and keeps count of
/// what was read.
#[derive(Debug)]
pub struct Deserializer<'a> {
    pub bytes: &'a [u8],
    pub bytes_read: usize,
    pub fds: &'a [i32],
    pub fds_read: usize,
}

/// There is enough from a position on for an argument. The bytes that align it
/// may be missing at the end.
pub open spec fn arg_there(endian: Endian, bytes: Seq<u8>, fds: Seq<i32>, at: (nat, nat), arg: WireArg) -> bool {
    let n = word(endian, bytes.skip(at.0 as int));
    match arg.typ {
        Type::Fd => at.1 < fds.len(),
        Type::String => at.0 + 4 <= bytes.len() && n > 0 && at.0 + 4 + n <= bytes.len(),
        Type::Array => at.0 + 4 <= bytes.len() && at.0 + 4 + n <= bytes.len(),
        Type::Destructor => false,
        _ => at.0 + 4 <= bytes.len(),
    }
}

/// The value of the argument at a position.
pub open spec fn value_at(endian: Endian, bytes: Seq<u8>, fds: Seq<i32>, at: (nat, nat), arg: WireArg) -> Result<
    ValueView,
    DeErrorView,
> {
    arg_value(endian, bytes.skip(at.0 as int), fds.skip(at.1 as int), arg)
}

/// The position behind an argument: how many bytes and file descriptors come
/// before it.
pub open spec fn behind(endian: Endian, bytes: Seq<u8>, at: (nat, nat), arg: WireArg) -> (nat, nat) {
    (
        (at.0 + arg_len(endian, bytes.skip(at.0 as int), arg)) as nat,
        (at.1 + arg_fds(arg)) as nat,
    )
}

/// There is enough from a position on for the arguments, as far as they are read.
pub open spec fn args_there(endian: Endian, bytes: Seq<u8>, fds: Seq<i32>, at: (nat, nat), args: Seq<WireArg>) -> bool
    decreases args.len(),
{
    args.len() == 0 || (arg_there(endian, bytes, fds, at, args[0]) && (value_at(endian, bytes, fds, at, args[0]) is Ok
        ==> args_there(endian, bytes, fds, behind(endian, bytes, at, args[0]), args.skip(1))))
}

/// The values of the arguments from a position on.
pub open spec fn values_at(
    endian: Endian,
    bytes: Seq<u8>,
    fds: Seq<i32>,
    at: (nat, nat),
    args: Seq<WireArg>,
) -> Result<Seq<ValueView>, DeErrorView>
    decreases args.len(),
{
    if args.len() == 0 {
        Ok(Seq::empty())
    } else {
        match value_at(endian, bytes, fds, at, args[0]) {
            Err(e) => Err(e),
            Ok(value) => prepend(
                seq![value],
                values_at(endian, bytes, fds, behind(endian, bytes, at, args[0]), args.skip(1)),
            ),
        }
    }
}

/// Where reading the arguments ends: behind the last one, or behind the first one
/// that cannot be read.
pub open spec fn reading_end(endian: Endian, bytes: Seq<u8>, fds: Seq<i32>, at: (nat, nat), args: Seq<WireArg>) -> (
    nat,
    nat,
)
    decreases args.len(),
{
    if args.len() == 0 {
        at
    } else if value_at(endian, bytes, fds, at, args[0]) is Err {
        behind(endian, bytes, at, args[0])
    } else {
        reading_end(endian, bytes, fds, behind(endian, bytes, at, args[0]), args.skip(1))
    }
}

impl<'a> Deserializer<'a> {
    /// How many bytes and file descriptors were read.
    pub open spec fn position(self) -> (nat, nat) {
        (self.bytes_read as nat, self.fds_read as nat)
    }

    /// The opcode of the message that comes next.
    pub open spec fn next_opcode(self, endian: Endian) -> u32 {
        opcode_of(endian, self.bytes@.skip(self.bytes_read as int))
    }

    pub fn new(bytes: &'a [u8], fds: &'a [i32]) -> (r: Deserializer<'a>)
        ensures
            r.bytes == bytes,
            r.bytes_read == 0,
            r.fds == fds,
            r.fds_read == 0,
    {
        Deserializer { bytes, bytes_read: 0, fds, fds_read: 0 }
    }

    /// Return the number of bytes and file descriptors read.
    pub fn consumed(&self) -> (r: (usize, usize))
        ensures
            r == (self.bytes_read, self.fds_read),
    {
        (self.bytes_read, self.fds_read)
    }

    /// Reads a file descriptor.
    pub fn pop_fd(&mut self) -> (r: i32)
        requires
            old(self).fds_read < old(self).fds@.len(),
        ensures
            r == old(self).fds@[old(self).fds_read as int],
            *final(self) == (Deserializer { fds_read: (old(self).fds_read + 1) as usize, ..*old(self) }),
    {
        let offset: usize = self.fds_read;
        let r: i32 = self.fds[offset];
        self.fds_read = offset + 1;
        r
    }

    /// Reads `len` bytes, and counts them as if they were aligned up to 4 bytes.
    pub fn pop_bytes(&mut self, len: usize) -> (r: &'a [u8])
        requires
            len + old(self).bytes_read <= old(self).bytes@.len(),
            old(self).bytes_read + aligned(len as nat) <= usize::MAX,
        ensures
            r@ == old(self).bytes@.subrange(old(self).bytes_read as int, old(self).bytes_read + len),
            *final(self) == (Deserializer {
                bytes_read: (old(self).bytes_read + aligned(len as nat)) as usize,
                ..*old(self)
            }),
    {
        let offset: usize = self.bytes_read;
        let buf = slice_subrange(self.bytes, offset, offset + len);
        let step: usize = if len % 4 == 0 {
            len
        } else {
            len - len % 4 + 4
        };
        proof {
            assert(step == aligned(len as nat));
        }
        self.bytes_read = offset + step;
        buf
    }

    /// Reads a number of four bytes.
    pub fn pop_u32(&mut self, endian: Endian) -> (r: u32)
        requires
            4 + old(self).bytes_read <= old(self).bytes@.len(),
        ensures
            r == endian.number(
                old(self).bytes@.subrange(old(self).bytes_read as int, old(self).bytes_read + 4),
            ),
            *final(self) == (Deserializer { bytes_read: (old(self).bytes_read + 4) as usize, ..*old(self) }),
    {
        proof {
            assert(self.bytes@.len() == self.bytes.len());
        }
        let slice = self.pop_bytes(4);
        proof {
            assert(slice@.take(4) =~= slice@);
        }
        endian.get_u32(slice)
    }

    /// Reads a number of four bytes.
    pub fn pop_i32(&mut self, endian: Endian) -> (r: i32)
        requires
            4 + old(self).bytes_read <= old(self).bytes@.len(),
        ensures
            r == signed(
                endian.number(old(self).bytes@.subrange(old(self).bytes_read as int, old(self).bytes_read + 4)),
            ),
            *final(self) == (Deserializer { bytes_read: (old(self).bytes_read + 4) as usize, ..*old(self) }),
    {
        to_signed(self.pop_u32(endian))
    }

    /// Reads an argument.
    fn pop_value(&mut self, endian: Endian, arg: &WireArg) -> (r: Result<Value, DeError>)
        requires
            arg_there(endian, old(self).bytes@, old(self).fds@, old(self).position(), *arg),
            old(self).bytes@.len() + 3 <= usize::MAX,
        ensures
            final(self).bytes == old(self).bytes,
            final(self).fds == old(self).fds,
            final(self).position() == behind(endian, old(self).bytes@, old(self).position(), *arg),
            value_at(endian, old(self).bytes@, old(self).fds@, old(self).position(), *arg) == match r {
                Ok(value) => Ok::<ValueView, DeErrorView>(value@),
                Err(e) => Err::<ValueView, DeErrorView>(e@),
            },
    {
        let ghost rest = self.bytes@.skip(self.bytes_read as int);
        let ghost start = self.bytes_read as int;
        proof {
            assert(self.fds@.len() == self.fds.len());
            assert(self.bytes@.len() == self.bytes.len());
            if !(arg.typ is Fd) {
                assert(self.bytes@.subrange(start, start + 4) =~= rest.take(4));
            }
        }
        match arg.typ {
            Type::Int => {
                let n: u32 = self.pop_u32(endian);
                if arg.check.accepts(n) {
                    Ok(Value::Int(to_signed(n)))
                } else {
                    Err(DeError::InvalidIntEnum(to_signed(n), arg.name.clone()))
                }
            },
            Type::Uint => {
                let n: u32 = self.pop_u32(endian);
                if arg.check.accepts(n) {
                    Ok(Value::Uint(n))
                } else {
                    Err(DeError::InvalidUintEnum(n, arg.name.clone()))
                }
            },
            Type::Fixed => Ok(Value::Fixed(self.pop_i32(endian))),
            Type::Object => Ok(Value::Object(self.pop_u32(endian))),
            Type::NewId => Ok(Value::NewId(self.pop_u32(endian))),
            Type::Fd => Ok(Value::Fd(self.pop_fd())),
            Type::String => {
                let len: usize = self.pop_u32(endian) as usize;
                let bytes = self.pop_bytes(len);
                proof {
                    assert(bytes@ =~= rest.skip(4).take(len as int));
                }
                if bytes[len - 1] != 0 {
                    Err(DeError::MissingNul(arg.name.clone()))
                } else {
                    proof {
                        assert(bytes@.subrange(0, len - 1) =~= rest.skip(4).take(len - 1));
                    }
                    Ok(Value::String(to_vec(slice_subrange(bytes, 0, len - 1))))
                }
            },
            Type::Array => {
                let len: usize = self.pop_u32(endian) as usize;
                let bytes = self.pop_bytes(len);
                proof {
                    assert(bytes@ =~= rest.skip(4).take(len as int));
                }
                Ok(Value::Array(to_vec(bytes)))
            },
            Type::Destructor => vstd::pervasive::unreached(),
        }
    }

    /// Reads the arguments of a message.
    fn pop_values(&mut self, endian: Endian, args: &Vec<WireArg>) -> (r: Result<Vec<Value>, DeError>)
        requires
            args_there(endian, old(self).bytes@, old(self).fds@, old(self).position(), args@),
            old(self).bytes@.len() + 3 <= usize::MAX,
        ensures
            final(self).bytes == old(self).bytes,
            final(self).fds == old(self).fds,
            final(self).position() == reading_end(
                endian,
                old(self).bytes@,
                old(self).fds@,
                old(self).position(),
                args@,
            ),
            values_at(endian, old(self).bytes@, old(self).fds@, old(self).position(), args@) == match r {
                Ok(values) => Ok::<Seq<ValueView>, DeErrorView>(views(values@)),
                Err(e) => Err::<Seq<ValueView>, DeErrorView>(e@),
            },
    {
        let ghost bytes = self.bytes@;
        let ghost fds = self.fds@;
        let ghost all = values_at(endian, bytes, fds, self.position(), args@);
        let ghost end = reading_end(endian, bytes, fds, self.position(), args@);
        let mut values: Vec<Value> = Vec::new();
        let mut i: usize = 0;
        proof {
            assert(args@.skip(0) =~= args@);
            assert(views(values@) =~= Seq::empty());
            if let Ok(vs) = all {
                assert(views(values@) + vs =~= vs);
            }
        }
        while i < args.len()
            invariant
                0 <= i <= args@.len(),
                self.bytes == old(self).bytes,
                self.fds == old(self).fds,
                bytes == self.bytes@,
                fds == self.fds@,
                bytes.len() + 3 <= usize::MAX,
                args_there(endian, bytes, fds, self.position(), args@.skip(i as int)),
                end == reading_end(endian, bytes, fds, self.position(), args@.skip(i as int)),
                all == prepend(views(values@), values_at(endian, bytes, fds, self.position(), args@.skip(i as int))),
                all == values_at(endian, old(self).bytes@, old(self).fds@, old(self).position(), args@),
                end == reading_end(endian, old(self).bytes@, old(self).fds@, old(self).position(), args@),
            decreases args@.len() - i,
        {
            let ghost seen = views(values@);
            proof {
                assert(args@.skip(i as int)[0] == args@[i as int]);
                assert(args@.skip(i as int).skip(1) =~= args@.skip(i + 1));
            }
            match self.pop_value(endian, &args[i]) {
                Ok(value) => {
                    values.push(value);
                    proof {
                        assert(views(values@) =~= seen.push(value@));
                        if let Ok(vs) = values_at(endian, bytes, fds, self.position(), args@.skip(i + 1)) {
                            assert(seen + (seq![value@] + vs) =~= views(values@) + vs);
                        }
                    }
                },
                Err(e) => {
                    return Err(e);
                },
            }
            i = i + 1;
        }
        proof {
            assert(views(values@) + Seq::<ValueView>::empty() =~= views(values@));
        }
        Ok(values)
    }

    /// Reads a whole message. Each message of an interface has its position as its
    /// opcode. Returns the opcode and the arguments.
    pub fn deserialize(&mut self, endian: Endian, messages: &Vec<Vec<WireArg>>) -> (r: Result<
        (u32, Vec<Value>),
        DeError,
    >)
        requires
            old(self).bytes_read + 8 <= old(self).bytes@.len(),
            old(self).bytes@.len() + 3 <= usize::MAX,
            old(self).next_opcode(endian) < messages@.len() ==> args_there(
                endian,
                old(self).bytes@,
                old(self).fds@,
                (old(self).bytes_read as nat + 8, old(self).fds_read as nat),
                messages@[old(self).next_opcode(endian) as int]@,
            ),
        ensures
            final(self).bytes == old(self).bytes,
            final(self).fds == old(self).fds,
            ({
                let opcode = old(self).next_opcode(endian);
                let at = (old(self).bytes_read as nat + 8, old(self).fds_read as nat);
                if opcode < messages@.len() {
                    let args = messages@[opcode as int]@;
                    &&& final(self).position() == reading_end(endian, old(self).bytes@, old(self).fds@, at, args)
                    &&& match r {
                        Ok((o, values)) => {
                            &&& o == opcode
                            &&& values_at(endian, old(self).bytes@, old(self).fds@, at, args) == Ok::<
                                Seq<ValueView>,
                                DeErrorView,
                            >(views(values@))
                            // The header and the arguments were read, and no more.
                            &&& final(self).bytes_read == old(self).bytes_read + message_len(views(values@))
                            &&& final(self).fds_read == old(self).fds_read + values_fds(
                                views(values@),
                                values@.len() as int,
                            ).len()
                        },
                        Err(e) => values_at(endian, old(self).bytes@, old(self).fds@, at, args) == Err::<
                            Seq<ValueView>,
                            DeErrorView,
                        >(e@),
                    }
                } else {
                    &&& r matches Err(DeError::UnknownOpcode(o)) && o == opcode
                    &&& final(self).position() == at
                }
            }),
    {
        let ghost start = self.bytes_read as int;
        let ghost rest = self.bytes@.skip(start);
        proof {
            assert(self.bytes@.subrange(start + 4, start + 8) =~= rest.skip(4).take(4));
        }
        let _object_id: u32 = self.pop_u32(endian);
        let header: u32 = self.pop_u32(endian);
        let opcode: u32 = header % 0x1_0000;
        let ghost at = self.position();
        if (opcode as usize) < messages.len() {
            let values = match self.pop_values(endian, &messages[opcode as usize]) {
                Ok(values) => values,
                Err(e) => return Err(e),
            };
            proof {
                lemma_reading_end(
                    endian,
                    self.bytes@,
                    self.fds@,
                    at,
                    messages@[opcode as int]@,
                    views(values@),
                );
            }
            Ok((opcode, values))
        } else {
            Err(DeError::UnknownOpcode(opcode))
        }
    }
}

/// Arguments that were read take up as much as their values do.
proof fn lemma_reading_end(
    endian: Endian,
    bytes: Seq<u8>,
    fds: Seq<i32>,
    at: (nat, nat),
    args: Seq<WireArg>,
    values: Seq<ValueView>,
)
    requires
        args_there(endian, bytes, fds, at, args),
        values_at(endian, bytes, fds, at, args) == Ok::<Seq<ValueView>, DeErrorView>(values),
    ensures
        values.len() == args.len(),
        reading_end(endian, bytes, fds, at, args) == (
            at.0 + values_len(values, values.len() as int),
            at.1 + values_fds(values, values.len() as int).len(),
        ),
    decreases args.len(),
{
    if args.len() > 0 {
        let next = behind(endian, bytes, at, args[0]);
        let value = value_at(endian, bytes, fds, at, args[0])->Ok_0;
        let rest = values_at(endian, bytes, fds, next, args.skip(1))->Ok_0;
        lemma_reading_end(endian, bytes, fds, next, args.skip(1), rest);
        assert(values == seq![value] + rest);
        assert(values.skip(1) =~= rest);
        lemma_first(endian, values, values.len() as int);
        let text = bytes.skip(at.0 as int).skip(4);
        let n = word(endian, bytes.skip(at.0 as int));
        match args[0].typ {
            Type::String => {
                assert(text.take(n - 1).len() == n - 1);
            },
            Type::Array => {
                assert(text.take(n as int).len() == n);
            },
            _ => {},
        }
    }
}

/// Reading from a position on is reading from the front of what comes after it.
pub proof fn reading_from_the_front(endian: Endian, bytes: Seq<u8>, fds: Seq<i32>, at: (nat, nat), args: Seq<WireArg>)
    requires
        at.0 <= bytes.len(),
        at.1 <= fds.len(),
        fits(endian, bytes.skip(at.0 as int), fds.skip(at.1 as int), args),
    ensures
        args_there(endian, bytes, fds, at, args),
        values_at(endian, bytes, fds, at, args) == decoded(
            endian,
            bytes.skip(at.0 as int),
            fds.skip(at.1 as int),
            args,
        ),
    decreases args.len(),
{
    if args.len() > 0 {
        let rest = bytes.skip(at.0 as int);
        let fds_left = fds.skip(at.1 as int);
        let next = behind(endian, bytes, at, args[0]);
        assert(arg_fits(endian, rest, fds_left, args[0]));
        if value_at(endian, bytes, fds, at, args[0]) is Ok {
            assert(rest.skip(arg_len(endian, rest, args[0])) =~= bytes.skip(next.0 as int));
            assert(fds_left.skip(arg_fds(args[0])) =~= fds.skip(next.1 as int));
            reading_from_the_front(endian, bytes, fds, next, args.skip(1));
        }
    }
}

/// Reading what was written consumes exactly what was written, and gives it back,
/// whatever follows it.
pub proof fn reading_consumes_what_was_written(
    endian: Endian,
    object_id: u32,
    opcode: u16,
    values: Seq<ValueView>,
    messages: Seq<Vec<WireArg>>,
    more: Seq<u8>,
    more_fds: Seq<i32>,
)
    requires
        opcode < messages.len(),
        values.len() == messages[opcode as int]@.len(),
        forall|i: int|
            #![trigger values[i]]
            0 <= i < values.len() ==> value_of(values[i], messages[opcode as int]@[i]),
        message_len(values) <= u32::MAX,
    ensures
        ({
            let written = endian.bytes(object_id) + message_bytes(endian, opcode, values);
            let written_fds = values_fds(values, values.len() as int);
            let bytes = written + more;
            let fds = written_fds + more_fds;
            let args = messages[opcode as int]@;
            &&& bytes.len() >= 8
            &&& opcode_of(endian, bytes) == opcode
            &&& args_there(endian, bytes, fds, (8, 0), args)
            &&& values_at(endian, bytes, fds, (8, 0), args) == Ok::<Seq<ValueView>, DeErrorView>(values)
            &&& reading_end(endian, bytes, fds, (8, 0), args) == (written.len(), written_fds.len())
        }),
{
    let n = values.len() as int;
    let args = messages[opcode as int]@;
    let written = endian.bytes(object_id) + message_bytes(endian, opcode, values);
    let bytes = written + more;
    let fds = values_fds(values, n) + more_fds;
    let p = prefix(values, opcode);
    bytes_round_trip(endian, object_id);
    bytes_round_trip(endian, p);
    message_round_trip(endian, object_id, opcode, values, messages);
    assert(bytes.skip(4).take(4) =~= written.skip(4).take(4));
    assert(bytes.skip(8) =~= values_bytes(endian, values, n) + more);
    assert(fds.skip(0) =~= fds);
    arguments_round_trip(endian, values, args, more, more_fds);
    reading_from_the_front(endian, bytes, fds, (8, 0), args);
    lemma_reading_end(endian, bytes, fds, (8, 0), args, values);
    message_length_law(endian, opcode, values);
}

} // verus!
