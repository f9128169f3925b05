//! What generated code does when it runs: what it writes for a value, and what it reads
//! back.
use vstd::prelude::*;
use crate::codegen::args::{
    arg_type, borrows, enum_path, primitive_path, support_path, texts, ArgType, ArgTypeView, Path,
};
use crate::codegen::enums::{enum_code, member_code, MemberValue};
use crate::codegen::infos::{lookup, Infos};
use crate::codegen::laws::has_value_type;
use crate::codegen::messages::{
    deserialize_step, field_code, length_term, message_code, messages_code, serialize_step, DeserializeStepView,
    DeserializeStep, EventOrRequest, FieldView, GeneratedMessage, GeneratedMessages, LengthTerm, SerializeStep,
};
use crate::codegen::names::pascal_case;
use crate::codegen::protocol::{arg_decided, protocol_code, GeneratedInterface};
use crate::spec_parser::protocol::{Arg, Entry, Enum, Message, Protocol, Type};
use crate::wire::endian::{bytes_round_trip, signed, unsigned, Endian};
use crate::wire::message::{value_bytes, value_fds, value_len, values_bytes, ValueView};
use crate::wire::pop::aligned;

verus! {

/// The value of a field of a generated struct, by the type of the field.
pub enum FieldValue {
    I32(i32),
    U32(u32),
    /// A value of an enum that is represented by an `i32` or a `u32`, by its bits.
    Enum { is_int: bool, bits: u32 },
    /// A set of flags, by its bits.
    Flags { bits: u32 },
    /// A `Fixed`, by its bits.
    Fixed(i32),
    Object(u32),
    NewId(u32),
    /// A text, without the terminating zero.
    Str(Seq<u8>),
    Bytes(Seq<u8>),
    Fd(i32),
}

/// A field has the type that a value of it has. What a type is called does not tell
/// whether an enum is a set of flags.
pub open spec fn of_type(field: FieldValue, ty: ArgTypeView, arg: Arg, versions: Map<Seq<char>, u32>) -> bool {
    match field {
        FieldValue::I32(_) => ty == ArgTypeView::Plain(primitive_path("i32"@)),
        FieldValue::U32(_) => ty == ArgTypeView::Plain(primitive_path("u32"@)),
        FieldValue::Enum { .. } | FieldValue::Flags { .. } => arg.enum_ is Some && ty == ArgTypeView::Plain(
            enum_path((arg.enum_->0)@, versions),
        ),
        FieldValue::Fixed(_) => ty == ArgTypeView::Plain(support_path("Fixed"@)),
        FieldValue::Object(_) => ty == ArgTypeView::Plain(support_path("Object"@)),
        FieldValue::NewId(_) => ty == ArgTypeView::Plain(support_path("NewId"@)),
        FieldValue::Str(_) => match ty {
            ArgTypeView::Borrowed(path, _) => path == support_path("Str"@),
            ArgTypeView::Plain(path) => path == support_path("String"@),
            _ => false,
        },
        FieldValue::Bytes(_) => ty is Slice || ty is BoxedSlice,
        FieldValue::Fd(_) => ty == ArgTypeView::Plain(support_path("Fd"@)),
    }
}

/// The field of an argument has a value of the message: a number stands for a value of
/// the enum of the argument, if it has one.
pub open spec fn stands_for(field: FieldValue, value: ValueView, arg: Arg, current: Seq<char>, infos: Infos) -> bool {
    let number = match value {
        ValueView::Int(x) => unsigned(x),
        ValueView::Uint(x) => x,
        _ => 0,
    };
    match value {
        ValueView::Int(_) | ValueView::Uint(_) => match arg.enum_ {
            Some(enum_) => match lookup(infos, current, enum_@) {
                Ok(info) => if info.is_bitfield {
                    field == FieldValue::Flags { bits: number }
                } else {
                    field == FieldValue::Enum { is_int: info.is_int == Some(true), bits: number }
                },
                Err(_) => false,
            },
            None => match value {
                ValueView::Int(x) => field == FieldValue::I32(x),
                _ => field == FieldValue::U32(number),
            },
        },
        ValueView::Fixed(x) => field == FieldValue::Fixed(x),
        ValueView::Object(x) => field == FieldValue::Object(x),
        ValueView::NewId(x) => field == FieldValue::NewId(x),
        ValueView::String(s) => field == FieldValue::Str(s),
        ValueView::Array(a) => field == FieldValue::Bytes(a),
        ValueView::Fd(fd) => field == FieldValue::Fd(fd),
    }
}

/// What the code of a step writes for the value of a field. None if there is no such code
/// for a field of that type.
pub open spec fn step_writes(step: SerializeStep, endian: Endian, field: FieldValue) -> Option<Seq<u8>> {
    match (step, field) {
        // Handed over beside the bytes.
        (SerializeStep::Fd, FieldValue::Fd(_)) => Some(Seq::empty()),
        (SerializeStep::Bits, FieldValue::Flags { bits }) => Some(endian.bytes(bits)),
        (SerializeStep::Enum { is_int: repr }, FieldValue::Enum { is_int, bits }) if repr == is_int => Some(
            endian.bytes(bits),
        ),
        (SerializeStep::Number, FieldValue::I32(x)) => Some(endian.bytes(unsigned(x))),
        (SerializeStep::Number, FieldValue::U32(x)) => Some(endian.bytes(x)),
        (SerializeStep::Wrapped, FieldValue::Fixed(x)) => Some(endian.bytes(unsigned(x))),
        (SerializeStep::Wrapped, FieldValue::Object(x)) => Some(endian.bytes(x)),
        (SerializeStep::Wrapped, FieldValue::NewId(x)) => Some(endian.bytes(x)),
        // The length with the terminating zero, the text, the zero, and zeros up to a
        // multiple of four.
        (SerializeStep::String, FieldValue::Str(s)) => Some(
            endian.bytes((s.len() + 1) as u32) + s.push(0u8) + Seq::new(
                ((4 - (s.len() + 1) % 4) % 4) as nat,
                |i: int| 0u8,
            ),
        ),
        // The length, the bytes, and zeros up to a multiple of four.
        (SerializeStep::Array, FieldValue::Bytes(a)) => Some(
            endian.bytes(a.len() as u32) + a + Seq::new(((4 - a.len() % 4) % 4) as nat, |i: int| 0u8),
        ),
        _ => None,
    }
}

/// The number in the first four bytes.
pub open spec fn first_number(endian: Endian, bytes: Seq<u8>) -> u32 {
    endian.number(bytes.take(4))
}

/// The code of a step reads the value of a field from the front of a message.
pub open spec fn step_reads(
    step: DeserializeStepView,
    endian: Endian,
    bytes: Seq<u8>,
    fds: Seq<i32>,
    field: FieldValue,
) -> bool {
    let n = first_number(endian, bytes);
    match (step, field) {
        (DeserializeStepView::Number { is_int: true }, FieldValue::I32(x)) => bytes.len() >= 4 && x == signed(n),
        (DeserializeStepView::Number { is_int: false }, FieldValue::U32(x)) => bytes.len() >= 4 && x == n,
        (
            DeserializeStepView::Enum { is_int: read, is_bitfield: false, .. },
            FieldValue::Enum { is_int, bits },
        ) => bytes.len() >= 4 && read == is_int && bits == n,
        (DeserializeStepView::Enum { is_bitfield: true, .. }, FieldValue::Flags { bits }) => bytes.len() >= 4 && bits
            == n,
        (DeserializeStepView::Fixed, FieldValue::Fixed(x)) => bytes.len() >= 4 && x == signed(n),
        (DeserializeStepView::Id, FieldValue::Object(x)) => bytes.len() >= 4 && x == n,
        (DeserializeStepView::Id, FieldValue::NewId(x)) => bytes.len() >= 4 && x == n,
        (DeserializeStepView::Fd, FieldValue::Fd(fd)) => fds.len() > 0 && fd == fds[0],
        // The length counts a terminating zero, which has to be there.
        (DeserializeStepView::String, FieldValue::Str(s)) => {
            &&& bytes.len() >= 4 + n
            &&& n == s.len() + 1
            &&& bytes[4 + n - 1] == 0
            &&& forall|i: int| 0 <= i < s.len() ==> #[trigger] s[i] == bytes[4 + i]
        },
        (DeserializeStepView::Array, FieldValue::Bytes(a)) => {
            &&& bytes.len() >= 4 + n
            &&& n == a.len()
            &&& forall|i: int| 0 <= i < a.len() ==> #[trigger] a[i] == bytes[4 + i]
        },
        _ => false,
    }
}

/// How many bytes the code of a step takes off the front of a message.
pub open spec fn step_takes(step: DeserializeStepView, endian: Endian, bytes: Seq<u8>) -> nat {
    match step {
        DeserializeStepView::Fd | DeserializeStepView::Nothing => 0,
        DeserializeStepView::String | DeserializeStepView::Array => 4 + aligned(first_number(endian, bytes) as nat),
        _ => 4,
    }
}

/// The field of an argument has a type that its values have.
pub proof fn fields_hold_values(
    arg: Arg,
    current: Seq<char>,
    infos: Infos,
    versions: Map<Seq<char>, u32>,
    lifetime: Option<Seq<char>>,
    value: ValueView,
    field: FieldValue,
)
    requires
        has_value_type(value, arg.typ),
        stands_for(field, value, arg, current, infos),
        arg.enum_ is Some ==> arg.typ == Type::Int || arg.typ == Type::Uint,
    ensures
        of_type(field, arg_type(arg, lifetime, versions), arg, versions),
        // Only what is borrowed has a lifetime.
        arg_type(arg, lifetime, versions) matches ArgTypeView::Borrowed(_, name) ==> lifetime == Some(name),
        arg_type(arg, lifetime, versions) matches ArgTypeView::Slice(name) ==> lifetime == Some(name),
        lifetime is Some && value is String ==> arg_type(arg, lifetime, versions) is Borrowed,
        lifetime is Some && value is Array ==> arg_type(arg, lifetime, versions) is Slice,
{
}

/// What generated code writes for a field is what the wire format has for its value: for
/// each argument, and each value of its type.
pub proof fn generated_code_writes_the_wire_format(
    endian: Endian,
    arg: Arg,
    current: Seq<char>,
    infos: Infos,
    value: ValueView,
    field: FieldValue,
)
    requires
        has_value_type(value, arg.typ),
        stands_for(field, value, arg, current, infos),
        value_len(value) <= u32::MAX,
    ensures
        step_writes(serialize_step(current, arg, infos), endian, field) == Some(value_bytes(endian, value)),
{
    match value {
        ValueView::String(s) => {
            lemma_padding(s.len() + 1);
            assert(value_bytes(endian, value) =~= endian.bytes((s.len() + 1) as u32) + s.push(0u8) + Seq::new(
                ((4 - (s.len() + 1) % 4) % 4) as nat,
                |i: int| 0u8,
            ));
        },
        ValueView::Array(a) => {
            lemma_padding(a.len());
            assert(value_bytes(endian, value) =~= endian.bytes(a.len() as u32) + a + Seq::new(
                ((4 - a.len() % 4) % 4) as nat,
                |i: int| 0u8,
            ));
        },
        _ => {},
    }
}

/// A length is aligned by as many bytes as are missing to a multiple of four.
proof fn lemma_padding(n: nat)
    ensures
        aligned(n) - n == (4 - n % 4) % 4,
{
}

/// Generated code reads back what it wrote for a field, whatever follows it, and takes as
/// many bytes as it wrote. Arguments agree on the type of the enum that they refer to.
pub proof fn generated_code_reads_what_it_writes(
    endian: Endian,
    arg: Arg,
    current: Seq<char>,
    infos: Infos,
    versions: Map<Seq<char>, u32>,
    value: ValueView,
    field: FieldValue,
    more: Seq<u8>,
    more_fds: Seq<i32>,
)
    requires
        has_value_type(value, arg.typ),
        stands_for(field, value, arg, current, infos),
        arg_decided(infos, current, arg),
        value_len(value) <= u32::MAX,
    ensures
        ({
            let written = step_writes(serialize_step(current, arg, infos), endian, field);
            let step = deserialize_step(current, arg, infos, versions);
            &&& written is Some
            &&& step_reads(step, endian, written->0 + more, value_fds(value) + more_fds, field)
            &&& step_takes(step, endian, written->0 + more) == written->0.len()
        }),
{
    generated_code_writes_the_wire_format(endian, arg, current, infos, value, field);
    let own = value_bytes(endian, value);
    let bytes = own + more;
    match value {
        ValueView::Int(x) | ValueView::Fixed(x) => {
            bytes_round_trip(endian, unsigned(x));
            assert(bytes.take(4) =~= own);
        },
        ValueView::Uint(x) | ValueView::Object(x) | ValueView::NewId(x) => {
            bytes_round_trip(endian, x);
            assert(bytes.take(4) =~= own);
        },
        ValueView::String(s) => {
            let n = (s.len() + 1) as u32;
            bytes_round_trip(endian, n);
            assert(bytes.take(4) =~= endian.bytes(n));
            assert(bytes[4 + n - 1] == 0);
        },
        ValueView::Array(a) => {
            let n = a.len() as u32;
            bytes_round_trip(endian, n);
            assert(bytes.take(4) =~= endian.bytes(n));
        },
        ValueView::Fd(fd) => {},
    }
}

/// What a field adds to the length that generated code computes is what it writes beyond a
/// word of four bytes.
pub proof fn generated_length_is_what_is_written(
    endian: Endian,
    arg: Arg,
    current: Seq<char>,
    infos: Infos,
    value: ValueView,
    field: FieldValue,
)
    requires
        has_value_type(value, arg.typ),
        stands_for(field, value, arg, current, infos),
        value_len(value) <= u32::MAX,
    ensures
        ({
            let written = step_writes(serialize_step(current, arg, infos), endian, field)->0.len();
            match (length_term(arg.typ), value) {
                (LengthTerm::String, ValueView::String(s)) => written == 4 + (s.len() + 1 + 3) / 4 * 4,
                (LengthTerm::Array, ValueView::Array(a)) => written == 4 + (a.len() + 3) / 4 * 4,
                (LengthTerm::Nothing, ValueView::Fd(_)) => written == 0,
                (LengthTerm::Nothing, _) => written == 4,
                _ => false,
            }
        }),
{
    generated_code_writes_the_wire_format(endian, arg, current, infos, value, field);
    match value {
        ValueView::Int(x) | ValueView::Fixed(x) => {
            bytes_round_trip(endian, unsigned(x));
        },
        ValueView::Uint(x) | ValueView::Object(x) | ValueView::NewId(x) => {
            bytes_round_trip(endian, x);
        },
        ValueView::String(s) => {
            bytes_round_trip(endian, (s.len() + 1) as u32);
        },
        ValueView::Array(a) => {
            bytes_round_trip(endian, a.len() as u32);
        },
        ValueView::Fd(_) => {},
    }
}

/// What the code of the first `n` fields writes, one after the other. None if there is no
/// such code.
pub open spec fn fields_write(fields: Seq<FieldView>, endian: Endian, values: Seq<FieldValue>, n: int) -> Option<Seq<u8>>
    decreases n,
{
    if n <= 0 {
        Some(Seq::empty())
    } else {
        match (fields_write(fields, endian, values, n - 1), step_writes(fields[n - 1].serialize, endian, values[n - 1])) {
            (Some(before), Some(own)) => Some(before + own),
            _ => None,
        }
    }
}

/// What the code of a generated struct writes behind the header is what the wire format
/// has for the arguments of the message, in their order.
pub proof fn generated_struct_writes_the_message(
    endian: Endian,
    current: Seq<char>,
    opcode: u16,
    message: Message,
    infos: Infos,
    versions: Map<Seq<char>, u32>,
    values: Seq<ValueView>,
    fields: Seq<FieldValue>,
    n: int,
)
    requires
        0 <= n <= message.args@.len(),
        values.len() == message.args@.len(),
        fields.len() == message.args@.len(),
        forall|i: int|
            #![trigger values[i]]
            0 <= i < values.len() ==> {
                &&& has_value_type(values[i], message.args@[i].typ)
                &&& stands_for(fields[i], values[i], message.args@[i], current, infos)
                &&& value_len(values[i]) <= u32::MAX
            },
    ensures
        fields_write(message_code(current, opcode, message, false, infos, versions).fields, endian, fields, n) == Some(
            values_bytes(endian, values, n),
        ),
    decreases n,
{
    if n > 0 {
        generated_struct_writes_the_message(endian, current, opcode, message, infos, versions, values, fields, n - 1);
        let arg = message.args@[n - 1];
        assert(has_value_type(values[n - 1], arg.typ));
        generated_code_writes_the_wire_format(endian, arg, current, infos, values[n - 1], fields[n - 1]);
        let code = message_code(current, opcode, message, false, infos, versions).fields;
        assert(code[n - 1] == field_code(current, arg, false, infos, versions));
    }
}

/// A generated struct has a field for each argument, with its name and in its place. Its
/// length without what the fields add is eight bytes for the header, and four for each
/// argument that is no file descriptor.
pub proof fn structs_have_a_field_for_each_argument(
    current: Seq<char>,
    opcode: u16,
    message: Message,
    is_owned: bool,
    infos: Infos,
    versions: Map<Seq<char>, u32>,
    i: int,
)
    requires
        0 <= i < message.args@.len(),
    ensures
        ({
            let code = message_code(current, opcode, message, is_owned, infos, versions);
            &&& code.fields.len() == message.args@.len()
            &&& code.fields[i].name == message.args@[i].name@
            &&& code.name == pascal_case(message.name@)
            &&& code.opcode == opcode
            &&& !is_owned && (message.args@[i].typ == Type::String || message.args@[i].typ == Type::Array)
                ==> code.is_borrowed
            &&& is_owned ==> !code.is_borrowed
        }),
{
    assert(borrows(message.args@[i].typ) || !borrows(message.args@[i].typ));
}

/// Each message of an interface has its position as its opcode, and a variant and a method
/// of its own, in that position.
pub proof fn opcodes_are_positions(
    current: Seq<char>,
    messages: Seq<Message>,
    infos: Infos,
    versions: Map<Seq<char>, u32>,
    event_or_request: EventOrRequest,
    i: int,
)
    requires
        0 <= i < messages.len(),
        messages.len() <= 0x1_0000,
    ensures
        ({
            let code = messages_code(current, messages, infos, versions, event_or_request);
            &&& code.messages.len() == messages.len()
            &&& code.messages[i].opcode == i
            &&& code.messages[i].name == pascal_case(messages[i].name@)
            &&& code.messages[i].fields.len() == messages[i].args@.len()
            &&& code.dispatch.methods.len() == messages.len()
            &&& code.dispatch.methods[i].args.len() == messages[i].args@.len()
            &&& forall|k: int|
                0 <= k < messages[i].args@.len() ==> {
                    &&& (#[trigger] code.dispatch.methods[i].args[k]).0 == messages[i].args@[k].name@
                    &&& code.dispatch.methods[i].args[k].1 == code.messages[i].fields[k].ty
                }
            &&& code.dispatch.methods[i].name.take(messages[i].name@.len() as int) == messages[i].name@
            &&& code.dispatch.methods[i].name == messages[i].name@ <==> messages[i].name@ != "move"@ && messages[i].name@
                != "type"@
            &&& code.dispatch.hidden == (event_or_request is Event)
        }),
{
    let name = messages[i].name@;
    assert((name + "_"@).take(name.len() as int) =~= name);
    assert(name.take(name.len() as int) =~= name);
    reveal_strlit("_");
    assert((name + "_"@).len() == name.len() + 1);
}

/// A value of a generated enum has the bits of the entry that it stands for.
pub proof fn enum_values_keep_their_bits(entry: Entry, is_bitfield: bool, is_int: bool)
    ensures
        match member_code(entry, is_bitfield, is_int).value {
            MemberValue::Int(x) => is_int && (x - entry.value) % 0x1_0000_0000 == 0,
            MemberValue::Uint(x) => !is_int && x == entry.value,
        },
{
}

/// An enum is represented in generated code as the arguments that refer to it are written
/// and read: by an `i32` exactly if they are of type `int`. It has a value for each entry,
/// in order.
pub proof fn enums_are_written_as_they_are_represented(
    e: Enum,
    current: Seq<char>,
    infos: Infos,
    versions: Map<Seq<char>, u32>,
    arg: Arg,
)
    requires
        arg.enum_ is Some,
        (arg.enum_->0)@ == e.name@,
        arg.typ == Type::Int || arg.typ == Type::Uint,
        arg_decided(infos, current, arg),
        lookup(infos, current, e.name@)->Ok_0.is_bitfield == e.bitfield,
    ensures
        ({
            let code = enum_code(e, current, infos);
            &&& code.is_int == (arg.typ == Type::Int)
            &&& code.is_bitfield == e.bitfield
            &&& code.members.len() == e.entries@.len()
            &&& match serialize_step(current, arg, infos) {
                SerializeStep::Bits => e.bitfield,
                SerializeStep::Enum { is_int } => !e.bitfield && is_int == code.is_int,
                _ => false,
            }
            &&& match deserialize_step(current, arg, infos, versions) {
                DeserializeStepView::Enum { is_int, is_bitfield, .. } => is_bitfield == e.bitfield && is_int
                    == code.is_int,
                _ => false,
            }
        }),
{
}

/// There is a module for each interface of a protocol, in order, with its name and its
/// version. Requests and events have modules where there are any, and each enum has a type.
pub proof fn interfaces_have_modules(proto: Protocol, infos: Infos, i: int)
    requires
        0 <= i < proto.interfaces@.len(),
    ensures
        ({
            let code = protocol_code(proto, infos);
            let iface = proto.interfaces@[i];
            &&& code.name == proto.name@
            &&& code.interfaces.len() == proto.interfaces@.len()
            &&& code.interfaces[i].name == iface.name@
            &&& code.interfaces[i].version == iface.version
            &&& code.interfaces[i].requests is Some <==> iface.requests@.len() > 0
            &&& code.interfaces[i].events is Some <==> iface.events@.len() > 0
            &&& code.interfaces[i].requests matches Some(messages) ==> {
                &&& messages.messages.len() == iface.requests@.len()
                &&& messages.mod_name == "requests"@
                &&& messages.enum_name == "Request"@
                &&& messages.dispatch.name == "RequestDispatch"@
                &&& !messages.dispatch.hidden
            }
            &&& code.interfaces[i].events matches Some(messages) ==> {
                &&& messages.messages.len() == iface.events@.len()
                &&& messages.mod_name == "events"@
                &&& messages.enum_name == "Event"@
                &&& messages.dispatch.name == "EventDispatch"@
                &&& messages.dispatch.hidden
            }
            &&& code.interfaces[i].enums.len() == iface.enums@.len()
        }),
{
}

/// What a generated struct says is what stands in it, with its fields in order.
pub proof fn structs_say_what_they_have(m: GeneratedMessage, i: int)
    ensures
        m@.name == m.name@,
        m@.opcode == m.opcode,
        m@.fixed_len == m.fixed_len,
        m@.nfds == m.nfds,
        m@.is_borrowed == m.is_borrowed,
        m@.doc == texts(m.doc@),
        m@.fields.len() == m.fields@.len(),
        0 <= i < m.fields@.len() ==> {
            let field = m.fields@[i];
            &&& m@.fields[i].name == field.name@
            &&& m@.fields[i].doc == texts(field.doc@)
            &&& m@.fields[i].ty == field.ty@
            &&& m@.fields[i].length == field.length
            &&& m@.fields[i].serialize == field.serialize
            &&& match field.deserialize {
                DeserializeStep::Number { is_int } => m@.fields[i].deserialize == (DeserializeStepView::Number { is_int }),
                DeserializeStep::Enum { is_int, is_bitfield, path } => m@.fields[i].deserialize == (
                DeserializeStepView::Enum { is_int, is_bitfield, path: path@ }),
                DeserializeStep::Fixed => m@.fields[i].deserialize is Fixed,
                DeserializeStep::Id => m@.fields[i].deserialize is Id,
                DeserializeStep::Fd => m@.fields[i].deserialize is Fd,
                DeserializeStep::String => m@.fields[i].deserialize is String,
                DeserializeStep::Array => m@.fields[i].deserialize is Array,
                DeserializeStep::Nothing => m@.fields[i].deserialize is Nothing,
            }
        },
{
}

/// What the code for messages says is what stands in it, each message and each method in
/// order.
pub proof fn messages_say_what_they_have(m: GeneratedMessages, i: int)
    ensures
        m@.mod_name == m.mod_name@,
        m@.enum_name == m.enum_name@,
        m@.is_borrowed == m.is_borrowed,
        m@.messages.len() == m.messages@.len(),
        0 <= i < m.messages@.len() ==> m@.messages[i] == m.messages@[i]@,
        m@.dispatch.name == m.dispatch.name@,
        m@.dispatch.hidden == m.dispatch.hidden,
        m@.dispatch.methods.len() == m.dispatch.methods@.len(),
        0 <= i < m.dispatch.methods@.len() ==> {
            let method = m.dispatch.methods@[i];
            &&& m@.dispatch.methods[i].name == method.name@
            &&& m@.dispatch.methods[i].future == method.future@
            &&& m@.dispatch.methods[i].doc == texts(method.doc@)
            &&& m@.dispatch.methods[i].args.len() == method.args@.len()
            &&& forall|k: int|
                0 <= k < method.args@.len() ==> #[trigger] m@.dispatch.methods[i].args[k] == (
                    method.args@[k].0@,
                    method.args@[k].1@,
                )
        },
{
}

/// What the code for an interface says is what stands in it.
pub proof fn modules_say_what_they_have(f: GeneratedInterface, i: int)
    ensures
        f@.name == f.name@,
        f@.version == f.version,
        f@.version_module == f.version_module@,
        f@.doc == texts(f.doc@),
        f.requests matches Some(messages) ==> f@.requests == Some(messages@),
        f.requests is None ==> f@.requests is None,
        f.events matches Some(messages) ==> f@.events == Some(messages@),
        f.events is None ==> f@.events is None,
        f@.enums.len() == f.enums@.len(),
        0 <= i < f.enums@.len() ==> {
            let e = f.enums@[i];
            &&& f@.enums[i].name == e.name@
            &&& f@.enums[i].doc == texts(e.doc@)
            &&& f@.enums[i].is_bitfield == e.is_bitfield
            &&& f@.enums[i].is_int == e.is_int
            &&& f@.enums[i].members.len() == e.members@.len()
            &&& forall|k: int|
                0 <= k < e.members@.len() ==> {
                    &&& (#[trigger] f@.enums[i].members[k]).name == e.members@[k].name@
                    &&& f@.enums[i].members[k].value == e.members@[k].value
                    &&& f@.enums[i].members[k].summary == e.members@[k].summary@
                }
        },
{
}

/// What a type says is what stands in it.
pub proof fn types_say_what_they_have(ty: ArgType, path: Path, i: int)
    ensures
        match ty {
            ArgType::Plain(p) => ty@ == ArgTypeView::Plain(p@),
            ArgType::Borrowed(p, lifetime) => ty@ == ArgTypeView::Borrowed(p@, lifetime@),
            ArgType::Slice(lifetime) => ty@ == ArgTypeView::Slice(lifetime@),
            ArgType::BoxedSlice => ty@ is BoxedSlice,
        },
        path@.leading_colon == path.leading_colon,
        path@.segments.len() == path.segments@.len(),
        0 <= i < path.segments@.len() ==> path@.segments[i] == path.segments@[i]@,
{
}

} // verus!
