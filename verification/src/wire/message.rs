//! Writing and reading whole messages.
//!
//! A message is the id of the object it is for, a word with its length and its
//! opcode, and its arguments. Each argument takes up a multiple of four bytes.
//! File descriptors travel beside the bytes.
use vstd::prelude::*;
use vstd::slice::slice_subrange;
use crate::spec_parser::protocol::Type;
use crate::text::to_vec;
use crate::wire::endian::{bytes_round_trip, signed, to_signed, to_unsigned, unsigned, Endian};
use crate::wire::pop::{align, aligned, pop_bytes, pop_fd, pop_i32, pop_u32};

verus! {

/// The value of an argument.
#[derive(Debug)]
pub enum Value {
    Int(i32),
    Uint(u32),
    /// A fixed point number, by its bits.
    Fixed(i32),
    Object(u32),
    NewId(u32),
    /// A text, without the terminating zero.
    String(Vec<u8>),
    Array(Vec<u8>),
    Fd(i32),
}

/// What a [`Value`] is.
pub enum ValueView {
    Int(i32),
    Uint(u32),
    Fixed(i32),
    Object(u32),
    NewId(u32),
    String(Seq<u8>),
    Array(Seq<u8>),
    Fd(i32),
}

impl View for Value {
    type V = ValueView;

    open spec fn view(&self) -> ValueView {
        match *self {
            Value::Int(x) => ValueView::Int(x),
            Value::Uint(x) => ValueView::Uint(x),
            Value::Fixed(x) => ValueView::Fixed(x),
            Value::Object(x) => ValueView::Object(x),
            Value::NewId(x) => ValueView::NewId(x),
            Value::String(s) => ValueView::String(s@),
            Value::Array(a) => ValueView::Array(a@),
            Value::Fd(fd) => ValueView::Fd(fd),
        }
    }
}

/// What values are.
pub open spec fn views(values: Seq<Value>) -> Seq<ValueView> {
    values.map_values(|v: Value| v@)
}

/// As many zeros.
pub open spec fn zeros(n: nat) -> Seq<u8> {
    Seq::new(n, |i: int| 0u8)
}

/// The bytes of an argument.
pub open spec fn value_bytes(endian: Endian, value: ValueView) -> Seq<u8> {
    match value {
        ValueView::Int(x) | ValueView::Fixed(x) => endian.bytes(unsigned(x)),
        ValueView::Uint(x) | ValueView::Object(x) | ValueView::NewId(x) => endian.bytes(x),
        ValueView::String(s) => endian.bytes((s.len() + 1) as u32) + s + zeros(
            (aligned(s.len() + 1) - s.len()) as nat,
        ),
        ValueView::Array(a) => endian.bytes(a.len() as u32) + a + zeros((aligned(a.len()) - a.len()) as nat),
        ValueView::Fd(_) => Seq::empty(),
    }
}

/// How many bytes an argument takes up.
pub open spec fn value_len(value: ValueView) -> nat {
    match value {
        ValueView::String(s) => 4 + aligned(s.len() + 1),
        ValueView::Array(a) => 4 + aligned(a.len()),
        ValueView::Fd(_) => 0,
        _ => 4,
    }
}

/// The bytes of the first `n` arguments.
pub open spec fn values_bytes(endian: Endian, values: Seq<ValueView>, n: int) -> Seq<u8>
    decreases n,
{
    if n <= 0 {
        Seq::empty()
    } else {
        values_bytes(endian, values, n - 1) + value_bytes(endian, values[n - 1])
    }
}

/// How many bytes the first `n` arguments take up.
pub open spec fn values_len(values: Seq<ValueView>, n: int) -> nat
    decreases n,
{
    if n <= 0 {
        0
    } else {
        values_len(values, n - 1) + value_len(values[n - 1])
    }
}

/// The file descriptors among the first `n` arguments.
pub open spec fn values_fds(values: Seq<ValueView>, n: int) -> Seq<i32>
    decreases n,
{
    if n <= 0 {
        Seq::empty()
    } else {
        match values[n - 1] {
            ValueView::Fd(fd) => values_fds(values, n - 1).push(fd),
            _ => values_fds(values, n - 1),
        }
    }
}

/// The length of a message, header included.
pub open spec fn message_len(values: Seq<ValueView>) -> nat {
    8 + values_len(values, values.len() as int)
}

/// The word with the length and the opcode. There are 16 bits for the length.
pub open spec fn prefix(values: Seq<ValueView>, opcode: u16) -> u32 {
    (message_len(values) % 0x1_0000 * 0x1_0000 + opcode) as u32
}

/// What follows the object id in a message.
pub open spec fn message_bytes(endian: Endian, opcode: u16, values: Seq<ValueView>) -> Seq<u8> {
    endian.bytes(prefix(values, opcode)) + values_bytes(endian, values, values.len() as int)
}

/// Appends as many zeros.
fn put_zeros(buf: &mut Vec<u8>, n: usize)
    ensures
        final(buf)@ == old(buf)@ + zeros(n as nat),
{
    let mut i: usize = 0;
    proof {
        assert(buf@ =~= old(buf)@ + zeros(0));
    }
    while i < n
        invariant
            0 <= i <= n,
            buf@ == old(buf)@ + zeros(i as nat),
        decreases n - i,
    {
        buf.push(0);
        i = i + 1;
        proof {
            assert(buf@ =~= old(buf)@ + zeros(i as nat));
        }
    }
}

/// Appends bytes.
fn put_slice(buf: &mut Vec<u8>, bytes: &Vec<u8>)
    ensures
        final(buf)@ == old(buf)@ + bytes@,
{
    let mut i: usize = 0;
    proof {
        assert(buf@ =~= old(buf)@ + bytes@.take(0));
    }
    while i < bytes.len()
        invariant
            0 <= i <= bytes@.len(),
            buf@ == old(buf)@ + bytes@.take(i as int),
        decreases bytes@.len() - i,
    {
        buf.push(bytes[i]);
        i = i + 1;
        proof {
            assert(buf@ =~= old(buf)@ + bytes@.take(i as int));
        }
    }
    proof {
        assert(bytes@.take(i as int) =~= bytes@);
    }
}

/// Writes an argument: its bytes, or its file descriptor.
pub fn serialize_value(endian: Endian, value: &Value, buf: &mut Vec<u8>, fds: &mut Vec<i32>)
    requires
        value_len(value@) <= u32::MAX,
    ensures
        final(buf)@ == old(buf)@ + value_bytes(endian, value@),
        final(fds)@ == match value@ {
            ValueView::Fd(fd) => old(fds)@.push(fd),
            _ => old(fds)@,
        },
{
    match value {
        Value::Fd(fd) => {
            fds.push(*fd);
            proof {
                assert(buf@ =~= old(buf)@ + value_bytes(endian, value@));
            }
        },
        Value::Int(x) | Value::Fixed(x) => endian.put_u32(buf, to_unsigned(*x)),
        Value::Uint(x) | Value::Object(x) | Value::NewId(x) => endian.put_u32(buf, *x),
        Value::Array(a) => {
            // [0, 4): length
            // [4, len + 4): bytes
            // [len + 4, aligned len + 4): alignment
            let len: usize = a.len();
            endian.put_u32(buf, len as u32);
            put_slice(buf, a);
            put_zeros(buf, align(len) - len);
            proof {
                assert(buf@ =~= old(buf)@ + value_bytes(endian, value@));
            }
        },
        Value::String(s) => {
            // [0, 4): length, the terminating zero included
            // [4, len + 4): text
            // [len + 4, len + 5): zero
            // [len + 5, aligned len + 4): alignment
            let len: usize = s.len();
            endian.put_u32(buf, (len + 1) as u32);
            put_slice(buf, s);
            put_zeros(buf, align(len + 1) - len);
            proof {
                assert(buf@ =~= old(buf)@ + value_bytes(endian, value@));
            }
        },
    }
}

/// The length of a message, header included, in 16 bits.
pub fn len(values: &Vec<Value>) -> (r: u16)
    requires
        message_len(views(values@)) <= u32::MAX,
    ensures
        r == message_len(views(values@)) % 0x1_0000,
{
    let ghost vs = views(values@);
    let mut total: u32 = 8;
    let mut i: usize = 0;
    while i < values.len()
        invariant
            0 <= i <= values@.len(),
            vs == views(values@),
            message_len(vs) <= u32::MAX,
            total == 8 + values_len(vs, i as int),
        decreases values@.len() - i,
    {
        proof {
            lemma_values_len(vs, i + 1, values@.len() as int);
            assert(vs[i as int] == values@[i as int]@);
        }
        total = total + match &values[i] {
            Value::String(s) => 4 + align(s.len() + 1) as u32,
            Value::Array(a) => 4 + align(a.len()) as u32,
            Value::Fd(_) => 0u32,
            _ => 4u32,
        };
        i = i + 1;
    }
    (total % 0x1_0000) as u16
}

/// The number of file descriptors in a message.
pub fn nfds(values: &Vec<Value>) -> (r: usize)
    ensures
        r == values_fds(views(values@), values@.len() as int).len(),
{
    let ghost vs = views(values@);
    let mut count: usize = 0;
    let mut i: usize = 0;
    while i < values.len()
        invariant
            0 <= i <= values@.len(),
            vs == views(values@),
            count <= i,
            count == values_fds(vs, i as int).len(),
        decreases values@.len() - i,
    {
        proof {
            assert(vs[i as int] == values@[i as int]@);
        }
        if let Value::Fd(_) = &values[i] {
            count = count + 1;
        }
        i = i + 1;
    }
    count
}

proof fn lemma_values_len(values: Seq<ValueView>, a: int, b: int)
    requires
        0 <= a <= b,
    ensures
        values_len(values, a) <= values_len(values, b),
    decreases b - a,
{
    if a < b {
        lemma_values_len(values, a, b - 1);
    }
}

/// Writes what follows the object id in a message. File descriptors are handed
/// over beside the bytes.
pub fn serialize(endian: Endian, opcode: u16, values: &Vec<Value>, buf: &mut Vec<u8>, fds: &mut Vec<i32>)
    requires
        message_len(views(values@)) <= u32::MAX,
    ensures
        final(buf)@ == old(buf)@ + message_bytes(endian, opcode, views(values@)),
        final(fds)@ == old(fds)@ + values_fds(views(values@), values@.len() as int),
{
    let ghost vs = views(values@);
    let msg_len: u32 = len(values) as u32;
    endian.put_u32(buf, msg_len * 0x1_0000 + opcode as u32);
    let ghost head = buf@;
    let mut i: usize = 0;
    proof {
        assert(buf@ =~= head + values_bytes(endian, vs, 0));
        assert(fds@ =~= old(fds)@ + values_fds(vs, 0));
    }
    while i < values.len()
        invariant
            0 <= i <= values@.len(),
            vs == views(values@),
            message_len(vs) <= u32::MAX,
            buf@ == head + values_bytes(endian, vs, i as int),
            fds@ == old(fds)@ + values_fds(vs, i as int),
        decreases values@.len() - i,
    {
        let ghost b1 = buf@;
        let ghost f1 = fds@;
        proof {
            lemma_values_len(vs, i + 1, values@.len() as int);
            assert(vs[i as int] == values@[i as int]@);
        }
        serialize_value(endian, &values[i], buf, fds);
        i = i + 1;
        proof {
            assert(buf@ =~= head + values_bytes(endian, vs, i as int));
            assert(fds@ =~= old(fds)@ + values_fds(vs, i as int));
        }
    }
    proof {
        assert(buf@ =~= old(buf)@ + message_bytes(endian, opcode, vs));
    }
}

/// Which numbers an argument can have.
#[derive(Debug)]
pub enum Check {
    /// Any number.
    Any,
    /// The values of an enum.
    OneOf(Vec<u32>),
    /// Any combination of the flags of a bitfield, which are all in here.
    Flags(u32),
}

impl Check {
    /// The number is one that the argument can have.
    pub open spec fn admits(self, n: u32) -> bool {
        match self {
            Check::Any => true,
            Check::OneOf(values) => values@.contains(n),
            Check::Flags(flags) => n & !flags == 0,
        }
    }

    /// Tells whether the number is one that the argument can have.
    pub fn accepts(&self, n: u32) -> (r: bool)
        ensures
            r == self.admits(n),
    {
        match self {
            Check::Any => true,
            Check::Flags(flags) => n & !*flags == 0,
            Check::OneOf(values) => {
                let mut i: usize = 0;
                while i < values.len()
                    invariant
                        0 <= i <= values@.len(),
                        *self == Check::OneOf(*values),
                        forall|j: int| 0 <= j < i ==> values@[j] != n,
                    decreases values@.len() - i,
                {
                    if values[i] == n {
                        proof {
                            assert(values@[i as int] == n);
                        }
                        return true;
                    }
                    i = i + 1;
                }
                false
            },
        }
    }
}

/// An argument of a message, as it is read.
#[derive(Debug)]
pub struct WireArg {
    pub name: String,
    pub typ: Type,
    /// Which numbers an `int` or a `uint` can be.
    pub check: Check,
}

/// Why a message cannot be read.
#[derive(Debug)]
pub enum DeError {
    /// The argument with this name is no value of its enum.
    InvalidIntEnum(i32, String),
    /// The argument with this name is no value of its enum.
    InvalidUintEnum(u32, String),
    /// There is no such message.
    UnknownOpcode(u32),
    /// The text with this name is not terminated by a zero.
    MissingNul(String),
}

/// What a [`DeError`] says.
pub enum DeErrorView {
    InvalidIntEnum(i32, Seq<char>),
    InvalidUintEnum(u32, Seq<char>),
    UnknownOpcode(u32),
    MissingNul(Seq<char>),
}

impl View for DeError {
    type V = DeErrorView;

    open spec fn view(&self) -> DeErrorView {
        match *self {
            DeError::InvalidIntEnum(x, name) => DeErrorView::InvalidIntEnum(x, name@),
            DeError::InvalidUintEnum(x, name) => DeErrorView::InvalidUintEnum(x, name@),
            DeError::UnknownOpcode(x) => DeErrorView::UnknownOpcode(x),
            DeError::MissingNul(name) => DeErrorView::MissingNul(name@),
        }
    }
}

/// The number in the first four bytes.
pub open spec fn word(endian: Endian, bytes: Seq<u8>) -> u32 {
    endian.number(bytes.take(4))
}

/// There is enough in a message for an argument.
pub open spec fn arg_fits(endian: Endian, bytes: Seq<u8>, fds: Seq<i32>, arg: WireArg) -> bool {
    match arg.typ {
        Type::Fd => fds.len() > 0,
        Type::String => bytes.len() >= 4 && word(endian, bytes) > 0 && 4 + aligned(word(endian, bytes) as nat)
            <= bytes.len(),
        Type::Array => bytes.len() >= 4 && 4 + aligned(word(endian, bytes) as nat) <= bytes.len(),
        Type::Destructor => false,
        _ => bytes.len() >= 4,
    }
}

/// How many bytes an argument takes off the front of a message.
pub open spec fn arg_len(endian: Endian, bytes: Seq<u8>, arg: WireArg) -> int {
    match arg.typ {
        Type::Fd => 0,
        Type::String | Type::Array => 4 + aligned(word(endian, bytes) as nat) as int,
        _ => 4,
    }
}

/// How many file descriptors an argument takes.
pub open spec fn arg_fds(arg: WireArg) -> int {
    if arg.typ == Type::Fd {
        1
    } else {
        0
    }
}

/// The value of the argument at the front of a message.
pub open spec fn arg_value(endian: Endian, bytes: Seq<u8>, fds: Seq<i32>, arg: WireArg) -> Result<ValueView, DeErrorView> {
    let n = word(endian, bytes);
    let text = bytes.skip(4);
    match arg.typ {
        Type::Int => if arg.check.admits(n) {
            Ok(ValueView::Int(signed(n)))
        } else {
            Err(DeErrorView::InvalidIntEnum(signed(n), arg.name@))
        },
        Type::Uint => if arg.check.admits(n) {
            Ok(ValueView::Uint(n))
        } else {
            Err(DeErrorView::InvalidUintEnum(n, arg.name@))
        },
        Type::Fixed => Ok(ValueView::Fixed(signed(n))),
        Type::Object => Ok(ValueView::Object(n)),
        Type::NewId => Ok(ValueView::NewId(n)),
        Type::Fd => Ok(ValueView::Fd(fds[0])),
        Type::String => if text[n - 1] != 0 {
            Err(DeErrorView::MissingNul(arg.name@))
        } else {
            Ok(ValueView::String(text.take(n - 1)))
        },
        Type::Array => Ok(ValueView::Array(text.take(n as int))),
        Type::Destructor => arbitrary(),
    }
}

/// There is enough in a message for its arguments, as far as they are read.
pub open spec fn fits(endian: Endian, bytes: Seq<u8>, fds: Seq<i32>, args: Seq<WireArg>) -> bool
    decreases args.len(),
{
    args.len() == 0 || (arg_fits(endian, bytes, fds, args[0]) && (arg_value(endian, bytes, fds, args[0]) is Ok ==> fits(
        endian,
        bytes.skip(arg_len(endian, bytes, args[0])),
        fds.skip(arg_fds(args[0])),
        args.skip(1),
    )))
}

/// The values, with others in front.
pub open spec fn prepend(values: Seq<ValueView>, rest: Result<Seq<ValueView>, DeErrorView>) -> Result<
    Seq<ValueView>,
    DeErrorView,
> {
    match rest {
        Ok(rest) => Ok(values + rest),
        Err(e) => Err(e),
    }
}

/// The values of the arguments of a message.
pub open spec fn decoded(endian: Endian, bytes: Seq<u8>, fds: Seq<i32>, args: Seq<WireArg>) -> Result<
    Seq<ValueView>,
    DeErrorView,
>
    decreases args.len(),
{
    if args.len() == 0 {
        Ok(Seq::empty())
    } else {
        match arg_value(endian, bytes, fds, args[0]) {
            Err(e) => Err(e),
            Ok(value) => prepend(
                seq![value],
                decoded(
                    endian,
                    bytes.skip(arg_len(endian, bytes, args[0])),
                    fds.skip(arg_fds(args[0])),
                    args.skip(1),
                ),
            ),
        }
    }
}

/// Reads the argument at the front of a message, and takes it off.
pub fn deserialize_value(endian: Endian, arg: &WireArg, data: &mut &[u8], fds: &mut &[i32]) -> (r: Result<Value, DeError>)
    requires
        arg_fits(endian, old(data)@, old(fds)@, *arg),
    ensures
        match r {
            Ok(value) => arg_value(endian, old(data)@, old(fds)@, *arg) == Ok::<ValueView, DeErrorView>(value@),
            Err(e) => arg_value(endian, old(data)@, old(fds)@, *arg) == Err::<ValueView, DeErrorView>(e@),
        },
        final(data)@ == old(data)@.skip(arg_len(endian, old(data)@, *arg)),
        final(fds)@ == old(fds)@.skip(arg_fds(*arg)),
{
    let ghost bytes0 = data@;
    let ghost fds0 = fds@;
    proof {
        assert(fds0.skip(0) =~= fds0);
        assert(bytes0.skip(0) =~= bytes0);
    }
    match arg.typ {
        Type::Int => {
            let n: u32 = pop_u32(endian, data);
            if arg.check.accepts(n) {
                Ok(Value::Int(to_signed(n)))
            } else {
                Err(DeError::InvalidIntEnum(to_signed(n), arg.name.clone()))
            }
        },
        Type::Uint => {
            let n: u32 = pop_u32(endian, data);
            if arg.check.accepts(n) {
                Ok(Value::Uint(n))
            } else {
                Err(DeError::InvalidUintEnum(n, arg.name.clone()))
            }
        },
        Type::Fixed => Ok(Value::Fixed(pop_i32(endian, data))),
        Type::Object => Ok(Value::Object(pop_u32(endian, data))),
        Type::NewId => Ok(Value::NewId(pop_u32(endian, data))),
        Type::Fd => Ok(Value::Fd(pop_fd(fds))),
        Type::String => {
            let len: usize = pop_u32(endian, data) as usize;
            let bytes = pop_bytes(data, len);
            proof {
                assert(data@ =~= bytes0.skip(arg_len(endian, bytes0, *arg)));
                assert(bytes@ =~= bytes0.skip(4).take(len as int));
            }
            if bytes[len - 1] != 0 {
                Err(DeError::MissingNul(arg.name.clone()))
            } else {
                proof {
                    assert(bytes@.subrange(0, len - 1) =~= bytes0.skip(4).take(len - 1));
                }
                Ok(Value::String(to_vec(slice_subrange(bytes, 0, len - 1))))
            }
        },
        Type::Array => {
            let len: usize = pop_u32(endian, data) as usize;
            let bytes = pop_bytes(data, len);
            proof {
                assert(data@ =~= bytes0.skip(arg_len(endian, bytes0, *arg)));
            }
            Ok(Value::Array(to_vec(bytes)))
        },
        Type::Destructor => vstd::pervasive::unreached(),
    }
}

/// Reads the arguments of a message, from what follows its header.
pub fn deserialize(endian: Endian, args: &Vec<WireArg>, data: &[u8], fds: &[i32]) -> (r: Result<Vec<Value>, DeError>)
    requires
        fits(endian, data@, fds@, args@),
    ensures
        match r {
            Ok(values) => decoded(endian, data@, fds@, args@) == Ok::<Seq<ValueView>, DeErrorView>(views(values@)),
            Err(e) => decoded(endian, data@, fds@, args@) == Err::<Seq<ValueView>, DeErrorView>(e@),
        },
{
    let mut data_left = data;
    let mut fds_left = fds;
    let mut values: Vec<Value> = Vec::new();
    let mut i: usize = 0;
    let ghost all = decoded(endian, data@, fds@, args@);
    proof {
        assert(args@.skip(0) =~= args@);
        assert(views(values@) =~= Seq::empty());
        if let Ok(vs) = all {
            assert(views(values@) + vs =~= vs);
        }
    }
    while i < args.len()
        invariant
            0 <= i <= args@.len(),
            all == decoded(endian, data@, fds@, args@),
            fits(endian, data_left@, fds_left@, args@.skip(i as int)),
            all == prepend(views(values@), decoded(endian, data_left@, fds_left@, args@.skip(i as int))),
        decreases args@.len() - i,
    {
        let ghost d1 = data_left@;
        let ghost f1 = fds_left@;
        let ghost v1 = views(values@);
        proof {
            assert(args@.skip(i as int)[0] == args@[i as int]);
            assert(args@.skip(i as int).skip(1) =~= args@.skip(i + 1));
        }
        match deserialize_value(endian, &args[i], &mut data_left, &mut fds_left) {
            Ok(value) => {
                values.push(value);
                proof {
                    assert(views(values@) =~= v1.push(value@));
                    let rest = decoded(endian, data_left@, fds_left@, args@.skip(i + 1));
                    if let Ok(vs) = rest {
                        assert(v1 + (seq![value@] + vs) =~= views(values@) + vs);
                    }
                }
            },
            Err(e) => {
                return Err(e);
            },
        }
        i = i + 1;
    }
    proof {
        assert(views(values@) + Seq::<ValueView>::empty() =~= views(values@));
    }
    Ok(values)
}

/// Tells whether there is enough in a message for an argument.
fn has_arg(endian: Endian, arg: &WireArg, data: &[u8], fds: &[i32]) -> (r: bool)
    ensures
        r == arg_fits(endian, data@, fds@, *arg),
{
    match arg.typ {
        Type::Fd => fds.len() > 0,
        Type::String | Type::Array => {
            if data.len() < 4 {
                return false;
            }
            let n: usize = endian.get_u32(data) as usize;
            let room: usize = data.len() - 4;
            // A multiple of 4 is at least `n` exactly where it is at least `n`
            // aligned up to 4 bytes.
            n <= room / 4 * 4 && (arg.typ == Type::Array || n > 0)
        },
        Type::Destructor => false,
        _ => data.len() >= 4,
    }
}

/// Tells whether there is enough in a message for its arguments, as far as they
/// are read.
pub fn has_args(endian: Endian, args: &Vec<WireArg>, data: &[u8], fds: &[i32]) -> (r: bool)
    ensures
        r == fits(endian, data@, fds@, args@),
{
    let mut data_left = data;
    let mut fds_left = fds;
    let mut i: usize = 0;
    proof {
        assert(args@.skip(0) =~= args@);
    }
    while i < args.len()
        invariant
            0 <= i <= args@.len(),
            fits(endian, data@, fds@, args@) == fits(endian, data_left@, fds_left@, args@.skip(i as int)),
        decreases args@.len() - i,
    {
        proof {
            assert(args@.skip(i as int)[0] == args@[i as int]);
            assert(args@.skip(i as int).skip(1) =~= args@.skip(i + 1));
        }
        if !has_arg(endian, &args[i], data_left, fds_left) {
            return false;
        }
        match deserialize_value(endian, &args[i], &mut data_left, &mut fds_left) {
            Ok(_) => {},
            Err(_) => {
                return true;
            },
        }
        i = i + 1;
    }
    true
}

/// The opcode in the word that follows the object id.
pub open spec fn opcode_of(endian: Endian, data: Seq<u8>) -> u32 {
    word(endian, data.skip(4)) % 0x1_0000
}

/// Reads a whole message. Each message of an interface has its position as its
/// opcode. Returns the opcode and the arguments.
pub fn deserialize_message(endian: Endian, messages: &Vec<Vec<WireArg>>, data: &[u8], fds: &[i32]) -> (r: Result<
    (u32, Vec<Value>),
    DeError,
>)
    requires
        data@.len() >= 8,
        opcode_of(endian, data@) < messages@.len() ==> fits(
            endian,
            data@.skip(8),
            fds@,
            messages@[opcode_of(endian, data@) as int]@,
        ),
    ensures
        ({
            let opcode = opcode_of(endian, data@);
            if opcode < messages@.len() {
                match r {
                    Ok((o, values)) => o == opcode && decoded(
                        endian,
                        data@.skip(8),
                        fds@,
                        messages@[opcode as int]@,
                    ) == Ok::<Seq<ValueView>, DeErrorView>(views(values@)),
                    Err(e) => decoded(endian, data@.skip(8), fds@, messages@[opcode as int]@) == Err::<
                        Seq<ValueView>,
                        DeErrorView,
                    >(e@),
                }
            } else {
                r matches Err(DeError::UnknownOpcode(o)) && o == opcode
            }
        }),
{
    let mut rest = data;
    let _object_id: u32 = pop_u32(endian, &mut rest);
    let header: u32 = pop_u32(endian, &mut rest);
    let opcode: u32 = header % 0x1_0000;
    proof {
        assert(rest@ =~= data@.skip(8));
    }
    if (opcode as usize) < messages.len() {
        match deserialize(endian, &messages[opcode as usize], rest, fds) {
            Ok(values) => Ok((opcode, values)),
            Err(e) => Err(e),
        }
    } else {
        Err(DeError::UnknownOpcode(opcode))
    }
}

/// The value is one that the argument can have.
pub open spec fn value_of(value: ValueView, arg: WireArg) -> bool {
    match value {
        ValueView::Int(x) => arg.typ == Type::Int && arg.check.admits(unsigned(x)),
        ValueView::Uint(x) => arg.typ == Type::Uint && arg.check.admits(x),
        ValueView::Fixed(_) => arg.typ == Type::Fixed,
        ValueView::Object(_) => arg.typ == Type::Object,
        ValueView::NewId(_) => arg.typ == Type::NewId,
        ValueView::String(s) => arg.typ == Type::String,
        ValueView::Array(a) => arg.typ == Type::Array,
        ValueView::Fd(_) => arg.typ == Type::Fd,
    }
}

/// The file descriptor of an argument, if it is one.
pub open spec fn value_fds(value: ValueView) -> Seq<i32> {
    match value {
        ValueView::Fd(fd) => seq![fd],
        _ => Seq::empty(),
    }
}

/// The bytes of a value are as many as it takes up.
proof fn lemma_value_len(endian: Endian, value: ValueView)
    requires
        value_len(value) <= u32::MAX,
    ensures
        value_bytes(endian, value).len() == value_len(value),
{
    match value {
        ValueView::Int(x) | ValueView::Fixed(x) => {
            bytes_round_trip(endian, unsigned(x));
        },
        ValueView::Uint(x) | ValueView::Object(x) | ValueView::NewId(x) => {
            bytes_round_trip(endian, x);
        },
        ValueView::String(s) => {
            bytes_round_trip(endian, (s.len() + 1) as u32);
        },
        ValueView::Array(a) => {
            bytes_round_trip(endian, a.len() as u32);
        },
        ValueView::Fd(_) => {},
    }
}

/// A value that was written is read back, whatever follows it.
proof fn lemma_value_round_trip(endian: Endian, value: ValueView, arg: WireArg, more: Seq<u8>, more_fds: Seq<i32>)
    requires
        value_of(value, arg),
        value_len(value) <= u32::MAX,
    ensures
        ({
            let bytes = value_bytes(endian, value) + more;
            let fds = value_fds(value) + more_fds;
            &&& arg_fits(endian, bytes, fds, arg)
            &&& arg_value(endian, bytes, fds, arg) == Ok::<ValueView, DeErrorView>(value)
            &&& bytes.skip(arg_len(endian, bytes, arg)) == more
            &&& fds.skip(arg_fds(arg)) == more_fds
        }),
{
    let own = value_bytes(endian, value);
    let bytes = own + more;
    lemma_value_len(endian, value);
    assert(bytes.skip(own.len() as int) =~= more);
    if !(value is Fd) {
        assert(value_fds(value) + more_fds =~= more_fds);
    }
    match value {
        ValueView::Int(x) | ValueView::Fixed(x) => {
            bytes_round_trip(endian, unsigned(x));
            assert(bytes.take(4) =~= own);
            assert(more_fds.skip(0) =~= more_fds);
        },
        ValueView::Uint(x) | ValueView::Object(x) | ValueView::NewId(x) => {
            bytes_round_trip(endian, x);
            assert(bytes.take(4) =~= own);
            assert(more_fds.skip(0) =~= more_fds);
        },
        ValueView::String(s) => {
            let n = (s.len() + 1) as u32;
            bytes_round_trip(endian, n);
            assert(bytes.take(4) =~= endian.bytes(n));
            assert(bytes.skip(4).take(n - 1) =~= s);
            assert(bytes.skip(4)[n - 1] == 0);
            assert(more_fds.skip(0) =~= more_fds);
        },
        ValueView::Array(a) => {
            let n = a.len() as u32;
            bytes_round_trip(endian, n);
            assert(bytes.take(4) =~= endian.bytes(n));
            assert(bytes.skip(4).take(n as int) =~= a);
            assert(more_fds.skip(0) =~= more_fds);
        },
        ValueView::Fd(fd) => {
            assert(bytes =~= more);
            assert((seq![fd] + more_fds).skip(1) =~= more_fds);
        },
    }
}

/// The bytes of all values are those of the first one and those of the others.
pub(crate) proof fn lemma_first(endian: Endian, values: Seq<ValueView>, n: int)
    requires
        0 < n <= values.len(),
    ensures
        values_bytes(endian, values, n) == value_bytes(endian, values[0]) + values_bytes(endian, values.skip(1), n - 1),
        values_fds(values, n) == value_fds(values[0]) + values_fds(values.skip(1), n - 1),
        values_len(values, n) == value_len(values[0]) + values_len(values.skip(1), n - 1),
    decreases n,
{
    if n == 1 {
        assert(values_bytes(endian, values, 0) =~= Seq::empty());
        assert(values_bytes(endian, values, 1) =~= value_bytes(endian, values[0]) + values_bytes(
            endian,
            values.skip(1),
            0,
        ));
        assert(values_fds(values, 0) =~= Seq::empty());
        assert(values_fds(values, 1) =~= value_fds(values[0]) + values_fds(values.skip(1), 0));
        assert(values_len(values, 0) == 0);
    } else {
        lemma_first(endian, values, n - 1);
        assert(values.skip(1)[n - 2] == values[n - 1]);
        assert(values_bytes(endian, values, n) =~= value_bytes(endian, values[0]) + values_bytes(
            endian,
            values.skip(1),
            n - 1,
        ));
        assert(values_fds(values, n) =~= value_fds(values[0]) + values_fds(values.skip(1), n - 1));
    }
}

/// Arguments are read one after the other.
proof fn lemma_decode_step(
    endian: Endian,
    bytes: Seq<u8>,
    fds: Seq<i32>,
    args: Seq<WireArg>,
    value: ValueView,
    rest: Seq<ValueView>,
)
    requires
        args.len() > 0,
        arg_fits(endian, bytes, fds, args[0]),
        arg_value(endian, bytes, fds, args[0]) == Ok::<ValueView, DeErrorView>(value),
        fits(endian, bytes.skip(arg_len(endian, bytes, args[0])), fds.skip(arg_fds(args[0])), args.skip(1)),
        decoded(endian, bytes.skip(arg_len(endian, bytes, args[0])), fds.skip(arg_fds(args[0])), args.skip(1)) == Ok::<
            Seq<ValueView>,
            DeErrorView,
        >(rest),
    ensures
        fits(endian, bytes, fds, args),
        decoded(endian, bytes, fds, args) == Ok::<Seq<ValueView>, DeErrorView>(seq![value] + rest),
{
}

/// Arguments that were written are read back, whatever follows them.
pub proof fn arguments_round_trip(
    endian: Endian,
    values: Seq<ValueView>,
    args: Seq<WireArg>,
    more: Seq<u8>,
    more_fds: Seq<i32>,
)
    requires
        values.len() == args.len(),
        forall|i: int| #![trigger values[i]] 0 <= i < values.len() ==> value_of(values[i], args[i]),
        message_len(values) <= u32::MAX,
    ensures
        fits(
            endian,
            values_bytes(endian, values, values.len() as int) + more,
            values_fds(values, values.len() as int) + more_fds,
            args,
        ),
        decoded(
            endian,
            values_bytes(endian, values, values.len() as int) + more,
            values_fds(values, values.len() as int) + more_fds,
            args,
        ) == Ok::<Seq<ValueView>, DeErrorView>(values),
    decreases values.len(),
{
    let n = values.len() as int;
    if n == 0 {
        assert(values =~= Seq::empty());
    } else {
        let rest = values.skip(1);
        assert forall|i: int| #![trigger rest[i]] 0 <= i < rest.len() implies value_of(rest[i], args.skip(1)[i]) by {
            assert(values[i + 1] == rest[i]);
        }
        lemma_first(endian, values, n);
        arguments_round_trip(endian, rest, args.skip(1), more, more_fds);
        lemma_prepend_value(endian, values, args, more, more_fds);
    }
}

proof fn lemma_assoc<A>(a: Seq<A>, b: Seq<A>, c: Seq<A>)
    ensures
        (a + b) + c == a + (b + c),
{
    assert((a + b) + c =~= a + (b + c));
}

/// Writing one more value in front keeps a message readable.
proof fn lemma_prepend_value(
    endian: Endian,
    values: Seq<ValueView>,
    args: Seq<WireArg>,
    more: Seq<u8>,
    more_fds: Seq<i32>,
)
    requires
        values.len() == args.len(),
        values.len() > 0,
        value_of(values[0], args[0]),
        message_len(values) <= u32::MAX,
        fits(
            endian,
            values_bytes(endian, values.skip(1), values.len() - 1) + more,
            values_fds(values.skip(1), values.len() - 1) + more_fds,
            args.skip(1),
        ),
        decoded(
            endian,
            values_bytes(endian, values.skip(1), values.len() - 1) + more,
            values_fds(values.skip(1), values.len() - 1) + more_fds,
            args.skip(1),
        ) == Ok::<Seq<ValueView>, DeErrorView>(values.skip(1)),
    ensures
        fits(
            endian,
            values_bytes(endian, values, values.len() as int) + more,
            values_fds(values, values.len() as int) + more_fds,
            args,
        ),
        decoded(
            endian,
            values_bytes(endian, values, values.len() as int) + more,
            values_fds(values, values.len() as int) + more_fds,
            args,
        ) == Ok::<Seq<ValueView>, DeErrorView>(values),
{
    let n = values.len() as int;
    let tail = values_bytes(endian, values.skip(1), n - 1) + more;
    let tail_fds = values_fds(values.skip(1), n - 1) + more_fds;
    let bytes = values_bytes(endian, values, n) + more;
    let fds = values_fds(values, n) + more_fds;
    lemma_first(endian, values, n);
    lemma_value_round_trip(endian, values[0], args[0], tail, tail_fds);
    lemma_assoc(value_bytes(endian, values[0]), values_bytes(endian, values.skip(1), n - 1), more);
    lemma_assoc(value_fds(values[0]), values_fds(values.skip(1), n - 1), more_fds);
    lemma_decode_step(endian, bytes, fds, args, values[0], values.skip(1));
    assert(seq![values[0]] + values.skip(1) =~= values);
}

/// A message that was written is read back: the same opcode, and the same
/// arguments.
pub proof fn message_round_trip(
    endian: Endian,
    object_id: u32,
    opcode: u16,
    values: Seq<ValueView>,
    messages: Seq<Vec<WireArg>>,
)
    requires
        opcode < messages.len(),
        values.len() == messages[opcode as int]@.len(),
        forall|i: int|
            #![trigger values[i]]
            0 <= i < values.len() ==> value_of(values[i], messages[opcode as int]@[i]),
        message_len(values) <= u32::MAX,
    ensures
        ({
            let data = endian.bytes(object_id) + message_bytes(endian, opcode, values);
            let fds = values_fds(values, values.len() as int);
            &&& data.len() >= 8
            &&& opcode_of(endian, data) == opcode
            &&& word(endian, data) == object_id
            &&& fits(endian, data.skip(8), fds, messages[opcode as int]@)
            &&& decoded(endian, data.skip(8), fds, messages[opcode as int]@) == Ok::<Seq<ValueView>, DeErrorView>(
                values,
            )
        }),
{
    let n = values.len() as int;
    let args = messages[opcode as int]@;
    let data = endian.bytes(object_id) + message_bytes(endian, opcode, values);
    let fds = values_fds(values, n);
    let p = prefix(values, opcode);
    bytes_round_trip(endian, object_id);
    bytes_round_trip(endian, p);
    assert(data.take(4) =~= endian.bytes(object_id));
    assert(data.skip(4).take(4) =~= endian.bytes(p));
    assert(p % 0x1_0000 == opcode) by {
        let l = message_len(values) % 0x1_0000;
        assert(p == l * 0x1_0000 + opcode);
        vstd::arithmetic::div_mod::lemma_fundamental_div_mod_converse(
            p as int,
            0x1_0000,
            l as int,
            opcode as int,
        );
    }
    assert(data.skip(8) =~= values_bytes(endian, values, n) + Seq::<u8>::empty());
    assert(fds =~= fds + Seq::<i32>::empty());
    arguments_round_trip(endian, values, args, Seq::empty(), Seq::empty());
}

/// A message is as long as its length says, where 16 bits are enough for it.
pub proof fn message_length_law(endian: Endian, opcode: u16, values: Seq<ValueView>)
    requires
        message_len(values) <= u32::MAX,
    ensures
        4 + message_bytes(endian, opcode, values).len() == message_len(values),
        message_len(values) <= u16::MAX ==> prefix(values, opcode) / 0x1_0000 == message_len(values),
{
    bytes_round_trip(endian, prefix(values, opcode));
    lemma_bytes_len(endian, values, values.len() as int);
    let l = message_len(values) % 0x1_0000;
    vstd::arithmetic::div_mod::lemma_fundamental_div_mod_converse(
        prefix(values, opcode) as int,
        0x1_0000,
        l as int,
        opcode as int,
    );
}

proof fn lemma_bytes_len(endian: Endian, values: Seq<ValueView>, n: int)
    requires
        0 <= n <= values.len(),
        values_len(values, n) <= u32::MAX,
    ensures
        values_bytes(endian, values, n).len() == values_len(values, n),
    decreases n,
{
    if n > 0 {
        lemma_bytes_len(endian, values, n - 1);
        lemma_value_len(endian, values[n - 1]);
    }
}

/// A text is written as its length with a terminating zero, the text, and zeros: at least
/// one, and as few as make the whole a multiple of four bytes. Only a zero that is counted
/// ends it.
pub proof fn texts_on_the_wire(endian: Endian, text: Seq<u8>)
    requires
        text.len() + 8 <= u32::MAX,
    ensures
        ({
            let bytes = value_bytes(endian, ValueView::String(text));
            &&& bytes.len() % 4 == 0
            &&& 4 + text.len() + 1 <= bytes.len() < 4 + text.len() + 1 + 4
            &&& endian.number(bytes.take(4)) == text.len() + 1
            &&& forall|i: int| 0 <= i < text.len() ==> bytes[4 + i] == #[trigger] text[i]
            &&& forall|i: int| 4 + text.len() <= i < bytes.len() ==> #[trigger] bytes[i] == 0
        }),
{
    let n = (text.len() + 1) as u32;
    bytes_round_trip(endian, n);
    assert(value_bytes(endian, ValueView::String(text)).take(4) =~= endian.bytes(n));
}

/// An array is written as its length, its bytes, and as few zeros as make the whole a
/// multiple of four bytes.
pub proof fn arrays_on_the_wire(endian: Endian, array: Seq<u8>)
    requires
        array.len() + 7 <= u32::MAX,
    ensures
        ({
            let bytes = value_bytes(endian, ValueView::Array(array));
            &&& bytes.len() % 4 == 0
            &&& 4 + array.len() <= bytes.len() < 4 + array.len() + 4
            &&& endian.number(bytes.take(4)) == array.len()
            &&& forall|i: int| 0 <= i < array.len() ==> bytes[4 + i] == #[trigger] array[i]
            &&& forall|i: int| 4 + array.len() <= i < bytes.len() ==> #[trigger] bytes[i] == 0
        }),
{
    let n = array.len() as u32;
    bytes_round_trip(endian, n);
    assert(value_bytes(endian, ValueView::Array(array)).take(4) =~= endian.bytes(n));
}

/// A number is written as its four bytes, and a file descriptor not at all. Where it is
/// read as a number of another kind, it has the same bits.
pub proof fn numbers_on_the_wire(endian: Endian, value: ValueView)
    ensures
        match value {
            ValueView::Int(x) | ValueView::Fixed(x) => {
                &&& value_bytes(endian, value).len() == 4
                &&& signed(endian.number(value_bytes(endian, value))) == x
            },
            ValueView::Uint(x) | ValueView::Object(x) | ValueView::NewId(x) => {
                &&& value_bytes(endian, value).len() == 4
                &&& endian.number(value_bytes(endian, value)) == x
            },
            ValueView::Fd(_) => value_bytes(endian, value).len() == 0,
            _ => true,
        },
{
    match value {
        ValueView::Int(x) | ValueView::Fixed(x) => {
            bytes_round_trip(endian, unsigned(x));
        },
        ValueView::Uint(x) | ValueView::Object(x) | ValueView::NewId(x) => {
            bytes_round_trip(endian, x);
        },
        _ => {},
    }
}

/// A message begins with a word that has its length in the upper 16 bits and its opcode in
/// the lower 16 bits. Its arguments follow in order: each begins where those before it end.
pub proof fn messages_on_the_wire(endian: Endian, opcode: u16, values: Seq<ValueView>, k: int)
    requires
        0 <= k < values.len(),
        message_len(values) <= u16::MAX,
    ensures
        ({
            let bytes = message_bytes(endian, opcode, values);
            let own = value_bytes(endian, values[k]);
            let start = 4 + values_len(values, k) as int;
            &&& endian.number(bytes.take(4)) == (4 + bytes.len()) * 0x1_0000 + opcode
            &&& start + own.len() <= bytes.len()
            &&& bytes.subrange(start, start + own.len()) == own
        }),
{
    let n = values.len() as int;
    let p = prefix(values, opcode);
    let bytes = message_bytes(endian, opcode, values);
    bytes_round_trip(endian, p);
    message_length_law(endian, opcode, values);
    assert(bytes.take(4) =~= endian.bytes(p));
    lemma_values_at(endian, values, k, n);
    let all = values_bytes(endian, values, n);
    let own = value_bytes(endian, values[k]);
    let at = values_len(values, k) as int;
    assert(bytes.subrange(4 + at, 4 + at + own.len()) =~= all.subrange(at, at + own.len()));
}

/// The bytes of a value stand behind those of all values before it.
proof fn lemma_values_at(endian: Endian, values: Seq<ValueView>, k: int, n: int)
    requires
        0 <= k < n <= values.len(),
        values_len(values, n) <= u32::MAX,
    ensures
        ({
            let at = values_len(values, k) as int;
            let own = value_bytes(endian, values[k]);
            &&& at + own.len() <= values_bytes(endian, values, n).len()
            &&& values_bytes(endian, values, n).subrange(at, at + own.len()) == own
        }),
    decreases n,
{
    let at = values_len(values, k) as int;
    let own = value_bytes(endian, values[k]);
    let all = values_bytes(endian, values, n);
    lemma_values_len(values, k, n);
    lemma_bytes_len(endian, values, k);
    if k == n - 1 {
        assert(all.subrange(at, at + own.len()) =~= own);
    } else {
        lemma_values_len(values, n - 1, n);
        lemma_values_at(endian, values, k, n - 1);
        assert(all.subrange(at, at + own.len()) =~= values_bytes(endian, values, n - 1).subrange(at, at + own.len()));
    }
}

/// What a value is is what stands in it.
pub proof fn values_say_what_they_have(value: Value, values: Seq<Value>, i: int)
    ensures
        match value {
            Value::Int(x) => value@ == ValueView::Int(x),
            Value::Uint(x) => value@ == ValueView::Uint(x),
            Value::Fixed(x) => value@ == ValueView::Fixed(x),
            Value::Object(x) => value@ == ValueView::Object(x),
            Value::NewId(x) => value@ == ValueView::NewId(x),
            Value::String(s) => value@ == ValueView::String(s@),
            Value::Array(a) => value@ == ValueView::Array(a@),
            Value::Fd(fd) => value@ == ValueView::Fd(fd),
        },
        views(values).len() == values.len(),
        0 <= i < values.len() ==> views(values)[i] == values[i]@,
{
}

/// An error says which argument is wrong, and which number it has.
pub proof fn errors_say_what_they_have(number: i32, value: u32, name: String)
    ensures
        (DeError::InvalidIntEnum(number, name))@ == DeErrorView::InvalidIntEnum(number, name@),
        (DeError::InvalidUintEnum(value, name))@ == DeErrorView::InvalidUintEnum(value, name@),
        (DeError::UnknownOpcode(value))@ == DeErrorView::UnknownOpcode(value),
        (DeError::MissingNul(name))@ == DeErrorView::MissingNul(name@),
{
}

/// A number is refused exactly if it is no value of the enum, or has a bit that no flag of
/// the bitfield has. What was read is kept in the error.
pub proof fn only_known_numbers_are_read(endian: Endian, arg: WireArg, bytes: Seq<u8>, fds: Seq<i32>)
    requires
        bytes.len() >= 4,
    ensures
        ({
            let n = endian.number(bytes.take(4));
            let known = match arg.check {
                Check::Any => true,
                Check::OneOf(values) => exists|i: int| 0 <= i < values@.len() && #[trigger] values@[i] == n,
                Check::Flags(flags) => n & flags == n,
            };
            &&& arg.typ == Type::Int ==> arg_value(endian, bytes, fds, arg) == if known {
                Ok::<ValueView, DeErrorView>(ValueView::Int(signed(n)))
            } else {
                Err(DeErrorView::InvalidIntEnum(signed(n), arg.name@))
            }
            &&& arg.typ == Type::Uint ==> arg_value(endian, bytes, fds, arg) == if known {
                Ok::<ValueView, DeErrorView>(ValueView::Uint(n))
            } else {
                Err(DeErrorView::InvalidUintEnum(n, arg.name@))
            }
        }),
{
    let n = endian.number(bytes.take(4));
    if let Check::Flags(flags) = arg.check {
        assert((n & !flags == 0) == (n & flags == n)) by (bit_vector);
    }
}

/// A text whose last byte is not zero is refused, under the name of the argument.
pub proof fn texts_end_with_zero(endian: Endian, arg: WireArg, bytes: Seq<u8>, fds: Seq<i32>)
    requires
        arg.typ == Type::String,
        arg_fits(endian, bytes, fds, arg),
    ensures
        ({
            let n = endian.number(bytes.take(4));
            &&& n > 0
            &&& bytes.len() >= 4 + n
            &&& match arg_value(endian, bytes, fds, arg) {
                Ok(ValueView::String(s)) => {
                    &&& bytes[4 + n - 1] == 0
                    &&& s.len() == n - 1
                    &&& forall|i: int| 0 <= i < s.len() ==> #[trigger] s[i] == bytes[4 + i]
                },
                Err(DeErrorView::MissingNul(name)) => bytes[4 + n - 1] != 0 && name == arg.name@,
                _ => false,
            }
        }),
{
}

} // verus!
