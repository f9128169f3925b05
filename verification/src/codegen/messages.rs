//! The code that is generated for requests and events.
use ahash::AHashMap;
use vstd::prelude::*;
use vstd::string::*;
use crate::codegen::args::{
    arg_type, borrow_lifetime, borrows, enum_path, enum_type_name, generate_arg_type, has_type, texts,
    type_is_borrowed, ArgType, ArgTypeView, Path, PathView,
};
use crate::codegen::docs::{doc_lines, generate_doc_comment};
use crate::codegen::infos::{lookup, EnumInfos, Infos};
use crate::codegen::maps::versions_of;
use crate::codegen::names::{pascal_case, to_pascal_case};
use crate::spec_parser::protocol::{Arg, Message, Type};
use crate::text::str_eq;

verus! {

/// How a field is written to a message.
#[derive(Clone, Copy, Debug, PartialEq, Eq, Structural)]
pub enum SerializeStep {
    /// The file descriptor is handed over beside the bytes.
    Fd,
    /// The bits of a bitfield.
    Bits,
    /// The number of an enum value, as an `i32` or a `u32`.
    Enum { is_int: bool },
    /// The number itself.
    Number,
    /// The number in the first member of the field.
    Wrapped,
    /// Length, text, terminating zero, and padding.
    String,
    /// Length, bytes, and padding.
    Array,
    /// Nothing.
    Nothing,
}

/// What a field adds to the length of a message beyond its fixed part.
#[derive(Clone, Copy, Debug, PartialEq, Eq, Structural)]
pub enum LengthTerm {
    Nothing,
    /// The text, a terminating zero, and padding.
    String,
    /// The bytes and padding.
    Array,
}

/// How a field is read from a message.
#[derive(Debug)]
pub enum DeserializeStep {
    /// A number, an `i32` or a `u32`.
    Number { is_int: bool },
    /// The value of an enum or a bitfield, from such a number.
    Enum { is_int: bool, is_bitfield: bool, path: Path },
    /// A fixed point number.
    Fixed,
    /// The id of an object.
    Id,
    /// A file descriptor.
    Fd,
    /// A text, which must be terminated by a zero.
    String,
    /// Bytes.
    Array,
    /// Nothing.
    Nothing,
}

/// What a [`DeserializeStep`] says.
pub enum DeserializeStepView {
    Number { is_int: bool },
    Enum { is_int: bool, is_bitfield: bool, path: PathView },
    Fixed,
    Id,
    Fd,
    String,
    Array,
    Nothing,
}

impl View for DeserializeStep {
    type V = DeserializeStepView;

    open spec fn view(&self) -> DeserializeStepView {
        match *self {
            DeserializeStep::Number { is_int } => DeserializeStepView::Number { is_int },
            DeserializeStep::Enum { is_int, is_bitfield, path } => DeserializeStepView::Enum {
                is_int,
                is_bitfield,
                path: path@,
            },
            DeserializeStep::Fixed => DeserializeStepView::Fixed,
            DeserializeStep::Id => DeserializeStepView::Id,
            DeserializeStep::Fd => DeserializeStepView::Fd,
            DeserializeStep::String => DeserializeStepView::String,
            DeserializeStep::Array => DeserializeStepView::Array,
            DeserializeStep::Nothing => DeserializeStepView::Nothing,
        }
    }
}

/// The field that an argument becomes.
#[derive(Debug)]
pub struct GeneratedField {
    pub name: String,
    pub doc: Vec<String>,
    pub ty: ArgType,
    pub length: LengthTerm,
    pub serialize: SerializeStep,
    pub deserialize: DeserializeStep,
}

/// What a [`GeneratedField`] says.
pub struct FieldView {
    pub name: Seq<char>,
    pub doc: Seq<Seq<char>>,
    pub ty: ArgTypeView,
    pub length: LengthTerm,
    pub serialize: SerializeStep,
    pub deserialize: DeserializeStepView,
}

impl View for GeneratedField {
    type V = FieldView;

    open spec fn view(&self) -> FieldView {
        FieldView {
            name: self.name@,
            doc: texts(self.doc@),
            ty: self.ty@,
            length: self.length,
            serialize: self.serialize,
            deserialize: self.deserialize@,
        }
    }
}

/// The struct that a message becomes.
#[derive(Debug)]
pub struct GeneratedMessage {
    pub name: String,
    pub doc: Vec<String>,
    pub fields: Vec<GeneratedField>,
    /// The struct has the lifetime `'a`.
    pub is_borrowed: bool,
    pub opcode: u16,
    /// The length of the message in bytes, header included, without what
    /// [`LengthTerm`] adds.
    pub fixed_len: u32,
    /// The number of file descriptors. A message without any can be copied.
    pub nfds: u8,
}

/// What a [`GeneratedMessage`] says.
pub struct MessageView {
    pub name: Seq<char>,
    pub doc: Seq<Seq<char>>,
    pub fields: Seq<FieldView>,
    pub is_borrowed: bool,
    pub opcode: u16,
    pub fixed_len: u32,
    pub nfds: u8,
}

impl View for GeneratedMessage {
    type V = MessageView;

    open spec fn view(&self) -> MessageView {
        MessageView {
            name: self.name@,
            doc: texts(self.doc@),
            fields: self.fields@.map_values(|f: GeneratedField| f@),
            is_borrowed: self.is_borrowed,
            opcode: self.opcode,
            fixed_len: self.fixed_len,
            nfds: self.nfds,
        }
    }
}

/// The argument is a number that stands for the value of an enum.
pub open spec fn is_enum_number(arg: Arg) -> bool {
    (arg.typ == Type::Int || arg.typ == Type::Uint) && arg.enum_ is Some
}

/// All that the code for an argument needs is known: its type, and the enum that
/// it is a value of.
pub open spec fn arg_known(current: Seq<char>, arg: Arg, infos: Infos, versions: Map<Seq<char>, u32>) -> bool {
    &&& has_type(arg, versions)
    &&& is_enum_number(arg) ==> lookup(infos, current, (arg.enum_->0)@) is Ok
}

/// How a field is written to a message.
pub open spec fn serialize_step(current: Seq<char>, arg: Arg, infos: Infos) -> SerializeStep {
    match arg.typ {
        Type::Fd => SerializeStep::Fd,
        Type::Int | Type::Uint => match arg.enum_ {
            Some(enum_) => {
                let info = lookup(infos, current, enum_@)->Ok_0;
                if info.is_bitfield {
                    SerializeStep::Bits
                } else {
                    SerializeStep::Enum { is_int: info.is_int == Some(true) }
                }
            },
            None => SerializeStep::Number,
        },
        Type::Fixed | Type::Object | Type::NewId => SerializeStep::Wrapped,
        Type::String => SerializeStep::String,
        Type::Array => SerializeStep::Array,
        Type::Destructor => SerializeStep::Nothing,
    }
}

/// How a field is read from a message.
pub open spec fn deserialize_step(
    current: Seq<char>,
    arg: Arg,
    infos: Infos,
    versions: Map<Seq<char>, u32>,
) -> DeserializeStepView {
    match arg.typ {
        Type::Int | Type::Uint => match arg.enum_ {
            Some(enum_) => DeserializeStepView::Enum {
                is_int: arg.typ == Type::Int,
                is_bitfield: lookup(infos, current, enum_@)->Ok_0.is_bitfield,
                path: enum_path(enum_@, versions),
            },
            None => DeserializeStepView::Number { is_int: arg.typ == Type::Int },
        },
        Type::Fixed => DeserializeStepView::Fixed,
        Type::Object | Type::NewId => DeserializeStepView::Id,
        Type::Fd => DeserializeStepView::Fd,
        Type::String => DeserializeStepView::String,
        Type::Array => DeserializeStepView::Array,
        Type::Destructor => DeserializeStepView::Nothing,
    }
}

/// What a field adds to the length of a message.
pub open spec fn length_term(ty: Type) -> LengthTerm {
    match ty {
        Type::String => LengthTerm::String,
        Type::Array => LengthTerm::Array,
        _ => LengthTerm::Nothing,
    }
}

/// The field that an argument becomes.
pub open spec fn field_code(
    current: Seq<char>,
    arg: Arg,
    is_owned: bool,
    infos: Infos,
    versions: Map<Seq<char>, u32>,
) -> FieldView {
    FieldView {
        name: arg.name@,
        doc: doc_lines(arg.description),
        ty: arg_type(arg, borrow_lifetime(is_owned), versions),
        length: length_term(arg.typ),
        serialize: serialize_step(current, arg, infos),
        deserialize: deserialize_step(current, arg, infos, versions),
    }
}

/// The type has a word of four bytes in each message: the value, or its length.
pub open spec fn has_word(ty: Type) -> bool {
    ty != Type::Fd && ty != Type::Destructor
}

/// How many of the first `n` arguments have a word in the message.
pub open spec fn word_count(args: Seq<Arg>, n: int) -> nat
    decreases n,
{
    if n <= 0 {
        0
    } else {
        word_count(args, n - 1) + if has_word(args[n - 1].typ) {
            1nat
        } else {
            0
        }
    }
}

/// How many of the first `n` arguments are file descriptors.
pub open spec fn fd_count(args: Seq<Arg>, n: int) -> nat
    decreases n,
{
    if n <= 0 {
        0
    } else {
        fd_count(args, n - 1) + if args[n - 1].typ == Type::Fd {
            1nat
        } else {
            0
        }
    }
}

/// Some argument is borrowed from the message.
pub open spec fn borrows_any(args: Seq<Arg>) -> bool {
    exists|i: int| #![trigger args[i]] 0 <= i < args.len() && borrows(args[i].typ)
}

/// The struct that a message becomes.
pub open spec fn message_code(
    current: Seq<char>,
    opcode: u16,
    message: Message,
    is_owned: bool,
    infos: Infos,
    versions: Map<Seq<char>, u32>,
) -> MessageView {
    let args = message.args@;
    MessageView {
        name: pascal_case(message.name@),
        doc: doc_lines(message.description),
        fields: args.map_values(|arg: Arg| field_code(current, arg, is_owned, infos, versions)),
        is_borrowed: !is_owned && borrows_any(args),
        opcode,
        fixed_len: (4 * word_count(args, args.len() as int) + 8) as u32,
        nfds: fd_count(args, args.len() as int) as u8,
    }
}

/// Code can be generated for a message: all arguments are known, there are at
/// most 255 file descriptors, and the fixed length can be counted.
pub open spec fn message_known(current: Seq<char>, message: Message, infos: Infos, versions: Map<Seq<char>, u32>) -> bool {
    let args = message.args@;
    &&& forall|i: int| #![trigger args[i]] 0 <= i < args.len() ==> arg_known(current, args[i], infos, versions)
    &&& fd_count(args, args.len() as int) <= u8::MAX
    &&& 4 * word_count(args, args.len() as int) + 8 <= u32::MAX
}

/// How the field of an argument is written to a message.
pub fn generate_serialize_for_type(current_iface_name: &str, arg: &Arg, enum_info: &EnumInfos) -> (r: SerializeStep)
    requires
        is_enum_number(*arg) ==> lookup(enum_info@, current_iface_name@, (arg.enum_->0)@) is Ok,
    ensures
        r == serialize_step(current_iface_name@, *arg, enum_info@),
{
    match arg.typ {
        Type::Fd => SerializeStep::Fd,
        Type::Int | Type::Uint => if let Some(enum_) = &arg.enum_ {
            let info = match enum_info.get(current_iface_name, enum_.as_str()) {
                Ok(info) => info,
                Err(_) => vstd::pervasive::unreached(),
            };
            if info.is_bitfield {
                SerializeStep::Bits
            } else {
                SerializeStep::Enum { is_int: info.is_int.unwrap_or(false) }
            }
        } else {
            SerializeStep::Number
        },
        Type::Fixed | Type::Object | Type::NewId => SerializeStep::Wrapped,
        Type::String => SerializeStep::String,
        Type::Array => SerializeStep::Array,
        Type::Destructor => SerializeStep::Nothing,
    }
}

/// How the field of an argument is read from a message.
pub fn generate_deserialize_for_type(
    current_iface_name: &str,
    arg: &Arg,
    enum_info: &EnumInfos,
    iface_version: &AHashMap<String, u32>,
) -> (r: DeserializeStep)
    requires
        arg_known(current_iface_name@, *arg, enum_info@, versions_of(*iface_version)),
    ensures
        r@ == deserialize_step(current_iface_name@, *arg, enum_info@, versions_of(*iface_version)),
{
    match arg.typ {
        Type::Int | Type::Uint => {
            let is_int = arg.typ == Type::Int;
            if let Some(enum_) = &arg.enum_ {
                let info = match enum_info.get(current_iface_name, enum_.as_str()) {
                    Ok(info) => info,
                    Err(_) => vstd::pervasive::unreached(),
                };
                let path = enum_type_name(enum_.as_str(), iface_version);
                DeserializeStep::Enum { is_int, is_bitfield: info.is_bitfield, path }
            } else {
                DeserializeStep::Number { is_int }
            }
        },
        Type::Fixed => DeserializeStep::Fixed,
        Type::Object | Type::NewId => DeserializeStep::Id,
        Type::Fd => DeserializeStep::Fd,
        Type::String => DeserializeStep::String,
        Type::Array => DeserializeStep::Array,
        Type::Destructor => DeserializeStep::Nothing,
    }
}

/// The field that an argument becomes.
fn generate_field(
    iface_name: &str,
    arg: &Arg,
    is_owned: bool,
    iface_version: &AHashMap<String, u32>,
    enum_info: &EnumInfos,
) -> (r: GeneratedField)
    requires
        arg_known(iface_name@, *arg, enum_info@, versions_of(*iface_version)),
    ensures
        r@ == field_code(iface_name@, *arg, is_owned, enum_info@, versions_of(*iface_version)),
{
    GeneratedField {
        name: arg.name.clone(),
        doc: generate_doc_comment(&arg.description),
        ty: generate_arg_type(arg, is_owned, iface_version),
        length: match arg.typ {
            Type::String => LengthTerm::String,
            Type::Array => LengthTerm::Array,
            _ => LengthTerm::Nothing,
        },
        serialize: generate_serialize_for_type(iface_name, arg, enum_info),
        deserialize: generate_deserialize_for_type(iface_name, arg, enum_info, iface_version),
    }
}

/// Tells whether some argument is borrowed from the message.
fn any_borrowed(args: &Vec<Arg>) -> (r: bool)
    ensures
        r == borrows_any(args@),
{
    let mut i: usize = 0;
    while i < args.len()
        invariant
            0 <= i <= args@.len(),
            forall|j: int| #![trigger args@[j]] 0 <= j < i ==> !borrows(args@[j].typ),
        decreases args@.len() - i,
    {
        if type_is_borrowed(&args[i].typ) {
            return true;
        }
        i = i + 1;
    }
    false
}

/// There are no more file descriptors or words among some arguments than among
/// all.
proof fn lemma_counts(args: Seq<Arg>, a: int, b: int)
    requires
        0 <= a <= b,
    ensures
        fd_count(args, a) <= fd_count(args, b),
        word_count(args, a) <= word_count(args, b),
    decreases b - a,
{
    if a < b {
        lemma_counts(args, a, b - 1);
    }
}

/// The struct that a message becomes.
pub fn generate_message_variant(
    iface_name: &str,
    opcode: u16,
    request: &Message,
    is_owned: bool,
    iface_version: &AHashMap<String, u32>,
    enum_info: &EnumInfos,
) -> (r: GeneratedMessage)
    requires
        message_known(iface_name@, *request, enum_info@, versions_of(*iface_version)),
    ensures
        r@ == message_code(iface_name@, opcode, *request, is_owned, enum_info@, versions_of(*iface_version)),
{
    let ghost infos = enum_info@;
    let ghost versions = versions_of(*iface_version);
    let ghost args = request.args@;
    let mut fields: Vec<GeneratedField> = Vec::new();
    let mut nfds: u8 = 0;
    let mut fixed_len: u32 = 8;  // 8 bytes for header
    let mut i: usize = 0;
    while i < request.args.len()
        invariant
            0 <= i <= args.len(),
            args == request.args@,
            infos == enum_info@,
            versions == versions_of(*iface_version),
            message_known(iface_name@, *request, infos, versions),
            nfds == fd_count(args, i as int),
            fixed_len == 4 * word_count(args, i as int) + 8,
            fields@.len() == i,
            forall|j: int|
                #![trigger fields@[j]]
                0 <= j < i ==> fields@[j]@ == field_code(iface_name@, args[j], is_owned, infos, versions),
        decreases args.len() - i,
    {
        let arg = &request.args[i];
        proof {
            lemma_counts(args, i + 1, args.len() as int);
        }
        match arg.typ {
            Type::Fd => {
                nfds = nfds + 1;
            },
            Type::Destructor => {},
            // A string or an array has a length prefix, so they count, too.
            _ => {
                fixed_len = fixed_len + 4;
            },
        }
        fields.push(generate_field(iface_name, arg, is_owned, iface_version, enum_info));
        i = i + 1;
    }
    let is_borrowed = if !is_owned {
        any_borrowed(&request.args)
    } else {
        false
    };
    let r = GeneratedMessage {
        name: to_pascal_case(request.name.as_str()),
        doc: generate_doc_comment(&request.description),
        fields,
        is_borrowed,
        opcode,
        fixed_len,
        nfds,
    };
    proof {
        assert(r@.fields =~= message_code(iface_name@, opcode, *request, is_owned, infos, versions).fields);
    }
    r
}

/// A method of a dispatch trait.
#[derive(Debug)]
pub struct GeneratedMethod {
    pub name: String,
    /// The name of the associated type that is the future of the method.
    pub future: String,
    pub doc: Vec<String>,
    pub args: Vec<(String, ArgType)>,
}

/// What a [`GeneratedMethod`] says.
pub struct MethodView {
    pub name: Seq<char>,
    pub future: Seq<char>,
    pub doc: Seq<Seq<char>>,
    pub args: Seq<(Seq<char>, ArgTypeView)>,
}

impl View for GeneratedMethod {
    type V = MethodView;

    open spec fn view(&self) -> MethodView {
        MethodView {
            name: self.name@,
            future: self.future@,
            doc: texts(self.doc@),
            args: self.args@.map_values(|a: (String, ArgType)| (a.0@, a.1@)),
        }
    }
}

/// Whether messages come from the client or go to it.
#[derive(Clone, Copy, Debug, PartialEq, Eq, Structural)]
pub enum EventOrRequest {
    Event,
    Request,
}

/// The trait with a method for each message.
#[derive(Debug)]
pub struct GeneratedDispatch {
    pub name: String,
    /// The trait does not show up in the documentation.
    pub hidden: bool,
    pub methods: Vec<GeneratedMethod>,
}

/// What a [`GeneratedDispatch`] says.
pub struct DispatchView {
    pub name: Seq<char>,
    pub hidden: bool,
    pub methods: Seq<MethodView>,
}

impl View for GeneratedDispatch {
    type V = DispatchView;

    open spec fn view(&self) -> DispatchView {
        DispatchView {
            name: self.name@,
            hidden: self.hidden,
            methods: self.methods@.map_values(|m: GeneratedMethod| m@),
        }
    }
}

/// The name of the method for a message. Two names are keywords, and get an
/// underscore.
pub open spec fn method_name(name: Seq<char>) -> Seq<char> {
    if name == "move"@ || name == "type"@ {
        name + "_"@
    } else {
        name
    }
}

/// The method for a message.
pub open spec fn method_code(message: Message, versions: Map<Seq<char>, u32>) -> MethodView {
    MethodView {
        name: method_name(message.name@),
        future: pascal_case(message.name@) + "Fut"@,
        doc: doc_lines(message.description),
        args: message.args@.map_values(|arg: Arg| (arg.name@, arg_type(arg, borrow_lifetime(false), versions))),
    }
}

/// The trait with a method for each message.
pub open spec fn dispatch_code(
    messages: Seq<Message>,
    event_or_request: EventOrRequest,
    versions: Map<Seq<char>, u32>,
) -> DispatchView {
    DispatchView {
        name: match event_or_request {
            EventOrRequest::Event => "EventDispatch"@,
            EventOrRequest::Request => "RequestDispatch"@,
        },
        hidden: event_or_request == EventOrRequest::Event,
        methods: messages.map_values(|m: Message| method_code(m, versions)),
    }
}

/// All arguments of a message have a type in generated code.
pub open spec fn args_typed(message: Message, versions: Map<Seq<char>, u32>) -> bool {
    forall|i: int| #![trigger message.args@[i]] 0 <= i < message.args@.len() ==> has_type(message.args@[i], versions)
}

/// The method for a message.
fn generate_method(m: &Message, iface_version: &AHashMap<String, u32>) -> (r: GeneratedMethod)
    requires
        args_typed(*m, versions_of(*iface_version)),
    ensures
        r@ == method_code(*m, versions_of(*iface_version)),
{
    let ghost versions = versions_of(*iface_version);
    let mut args: Vec<(String, ArgType)> = Vec::new();
    let mut i: usize = 0;
    while i < m.args.len()
        invariant
            0 <= i <= m.args@.len(),
            versions == versions_of(*iface_version),
            args_typed(*m, versions),
            args@.len() == i,
            forall|j: int|
                #![trigger args@[j]]
                0 <= j < i ==> args@[j].0@ == m.args@[j].name@ && args@[j].1@ == arg_type(
                    m.args@[j],
                    borrow_lifetime(false),
                    versions,
                ),
        decreases m.args@.len() - i,
    {
        let arg = &m.args[i];
        args.push((arg.name.clone(), generate_arg_type(arg, false, iface_version)));
        i = i + 1;
    }
    let name = if str_eq(m.name.as_str(), "move") || str_eq(m.name.as_str(), "type") {
        m.name.clone().concat("_")
    } else {
        m.name.clone()
    };
    let r = GeneratedMethod {
        name,
        future: to_pascal_case(m.name.as_str()).concat("Fut"),
        doc: generate_doc_comment(&m.description),
        args,
    };
    proof {
        assert(r@.args =~= method_code(*m, versions).args);
    }
    r
}

/// The trait with a method for each message.
pub fn generate_dispatch_trait(
    messages: &Vec<Message>,
    event_or_request: EventOrRequest,
    iface_version: &AHashMap<String, u32>,
) -> (r: GeneratedDispatch)
    requires
        forall|i: int|
            #![trigger messages@[i]]
            0 <= i < messages@.len() ==> args_typed(messages@[i], versions_of(*iface_version)),
    ensures
        r@ == dispatch_code(messages@, event_or_request, versions_of(*iface_version)),
{
    let ghost versions = versions_of(*iface_version);
    let mut methods: Vec<GeneratedMethod> = Vec::new();
    let mut i: usize = 0;
    while i < messages.len()
        invariant
            0 <= i <= messages@.len(),
            versions == versions_of(*iface_version),
            forall|i: int| #![trigger messages@[i]] 0 <= i < messages@.len() ==> args_typed(messages@[i], versions),
            methods@.len() == i,
            forall|j: int| #![trigger methods@[j]] 0 <= j < i ==> methods@[j]@ == method_code(messages@[j], versions),
        decreases messages@.len() - i,
    {
        methods.push(generate_method(&messages[i], iface_version));
        i = i + 1;
    }
    let r = GeneratedDispatch {
        name: match event_or_request {
            EventOrRequest::Event => "EventDispatch".to_owned(),
            EventOrRequest::Request => "RequestDispatch".to_owned(),
        },
        hidden: event_or_request == EventOrRequest::Event,
        methods,
    };
    proof {
        assert(r@.methods =~= dispatch_code(messages@, event_or_request, versions).methods);
    }
    r
}

/// The code for all requests or all events of an interface.
#[derive(Debug)]
pub struct GeneratedMessages {
    /// The module with a struct for each message.
    pub mod_name: String,
    /// The enum with a variant for each message. The opcode of a variant is the
    /// one of the struct.
    pub enum_name: String,
    /// The enum has the lifetime `'a`.
    pub is_borrowed: bool,
    pub messages: Vec<GeneratedMessage>,
    pub dispatch: GeneratedDispatch,
}

/// What [`GeneratedMessages`] say.
pub struct MessagesView {
    pub mod_name: Seq<char>,
    pub enum_name: Seq<char>,
    pub is_borrowed: bool,
    pub messages: Seq<MessageView>,
    pub dispatch: DispatchView,
}

impl View for GeneratedMessages {
    type V = MessagesView;

    open spec fn view(&self) -> MessagesView {
        MessagesView {
            mod_name: self.mod_name@,
            enum_name: self.enum_name@,
            is_borrowed: self.is_borrowed,
            messages: self.messages@.map_values(|m: GeneratedMessage| m@),
            dispatch: self.dispatch@,
        }
    }
}

/// The code for all requests or all events of an interface. The opcode of a
/// message is its position, in 16 bits.
pub open spec fn messages_code(
    current: Seq<char>,
    messages: Seq<Message>,
    infos: Infos,
    versions: Map<Seq<char>, u32>,
    event_or_request: EventOrRequest,
) -> MessagesView {
    MessagesView {
        mod_name: match event_or_request {
            EventOrRequest::Event => "events"@,
            EventOrRequest::Request => "requests"@,
        },
        enum_name: match event_or_request {
            EventOrRequest::Event => "Event"@,
            EventOrRequest::Request => "Request"@,
        },
        is_borrowed: exists|i: int| #![trigger messages[i]] 0 <= i < messages.len() && borrows_any(messages[i].args@),
        messages: Seq::new(
            messages.len(),
            |i: int| message_code(current, (i % 0x1_0000) as u16, messages[i], false, infos, versions),
        ),
        dispatch: dispatch_code(messages, event_or_request, versions),
    }
}

/// Code can be generated for all messages.
pub open spec fn messages_known(
    current: Seq<char>,
    messages: Seq<Message>,
    infos: Infos,
    versions: Map<Seq<char>, u32>,
) -> bool {
    forall|i: int|
        #![trigger messages[i]]
        0 <= i < messages.len() ==> message_known(current, messages[i], infos, versions)
}

/// The code for all requests or all events of an interface. There is none where
/// there are no messages.
pub fn generate_event_or_request(
    iface_name: &str,
    messages: &Vec<Message>,
    iface_version: &AHashMap<String, u32>,
    enum_info: &EnumInfos,
    event_or_request: EventOrRequest,
) -> (r: Option<GeneratedMessages>)
    requires
        messages_known(iface_name@, messages@, enum_info@, versions_of(*iface_version)),
    ensures
        match r {
            Some(code) => messages@.len() > 0 && code@ == messages_code(
                iface_name@,
                messages@,
                enum_info@,
                versions_of(*iface_version),
                event_or_request,
            ),
            None => messages@.len() == 0,
        },
{
    if messages.len() == 0 {
        return None;
    }
    let ghost infos = enum_info@;
    let ghost versions = versions_of(*iface_version);
    let mut list: Vec<GeneratedMessage> = Vec::new();
    let mut is_borrowed = false;
    let mut i: usize = 0;
    while i < messages.len()
        invariant
            0 <= i <= messages@.len(),
            infos == enum_info@,
            versions == versions_of(*iface_version),
            messages_known(iface_name@, messages@, infos, versions),
            is_borrowed == exists|j: int| #![trigger messages@[j]] 0 <= j < i && borrows_any(messages@[j].args@),
            list@.len() == i,
            forall|j: int|
                #![trigger list@[j]]
                0 <= j < i ==> list@[j]@ == message_code(iface_name@, (j % 0x1_0000) as u16, messages@[j], false, infos, versions),
        decreases messages@.len() - i,
    {
        let message = &messages[i];
        if any_borrowed(&message.args) {
            is_borrowed = true;
        }
        list.push(generate_message_variant(iface_name, (i % 0x1_0000) as u16, message, false, iface_version, enum_info));
        i = i + 1;
    }
    proof {
        assert forall|i: int| #![trigger messages@[i]] 0 <= i < messages@.len() implies args_typed(messages@[i], versions) by {
            assert(message_known(iface_name@, messages@[i], infos, versions));
        }
    }
    let r = GeneratedMessages {
        mod_name: match event_or_request {
            EventOrRequest::Event => "events".to_owned(),
            EventOrRequest::Request => "requests".to_owned(),
        },
        enum_name: match event_or_request {
            EventOrRequest::Event => "Event".to_owned(),
            EventOrRequest::Request => "Request".to_owned(),
        },
        is_borrowed,
        messages: list,
        dispatch: generate_dispatch_trait(messages, event_or_request, iface_version),
    };
    proof {
        assert(r@.messages =~= messages_code(iface_name@, messages@, infos, versions, event_or_request).messages);
    }
    Some(r)
}

} // verus!
