//! What a wayland protocol file describes.
use vstd::prelude::*;

verus! {

/// A protocol.
#[derive(Debug)]
pub struct Protocol {
    pub name: String,
    pub copyright: Option<String>,
    /// Summary and full text.
    pub description: Option<(String, String)>,
    pub interfaces: Vec<Interface>,
}

impl Protocol {
    pub fn new(name: String) -> (r: Protocol)
        ensures
            r.name == name,
            r.copyright is None,
            r.description is None,
            r.interfaces@.len() == 0,
    {
        Protocol { name, copyright: None, description: None, interfaces: Vec::new() }
    }
}

/// An interface of a protocol.
#[derive(Debug)]
pub struct Interface {
    pub name: String,
    pub version: u32,
    /// Summary and full text.
    pub description: Option<(String, String)>,
    pub requests: Vec<Message>,
    pub events: Vec<Message>,
    pub enums: Vec<Enum>,
}

impl Interface {
    /// Nothing is said of the interface yet. Its version is 1.
    pub open spec fn is_blank(self) -> bool {
        &&& self.name@.len() == 0
        &&& self.version == 1
        &&& self.description is None
        &&& self.requests@.len() == 0
        &&& self.events@.len() == 0
        &&& self.enums@.len() == 0
    }

    pub fn new() -> (r: Interface)
        ensures
            r.is_blank(),
    {
        Interface::default()
    }
}

impl Default for Interface {
    fn default() -> (r: Interface)
        ensures
            r.is_blank(),
    {
        Interface {
            name: String::new(),
            version: 1,
            description: None,
            requests: Vec::new(),
            events: Vec::new(),
            enums: Vec::new(),
        }
    }
}

/// A request or an event.
#[derive(Debug)]
pub struct Message {
    pub name: String,
    pub typ: Option<Type>,
    pub since: u32,
    /// Summary and full text.
    pub description: Option<(String, String)>,
    pub args: Vec<Arg>,
}

impl Message {
    /// Nothing is said of the message yet. It exists since version 1.
    pub open spec fn is_blank(self) -> bool {
        &&& self.name@.len() == 0
        &&& self.typ is None
        &&& self.since == 1
        &&& self.description is None
        &&& self.args@.len() == 0
    }

    pub fn new() -> (r: Message)
        ensures
            r.is_blank(),
    {
        Message::default()
    }

    /// No argument is an object of a known interface.
    pub fn all_null(&self) -> (r: bool)
        ensures
            r == forall|i: int|
                #![trigger self.args@[i]]
                0 <= i < self.args@.len() ==> !((self.args@[i].typ == Type::Object || self.args@[i].typ == Type::NewId)
                    && self.args@[i].interface is Some),
    {
        let mut i: usize = 0;
        while i < self.args.len()
            invariant
                0 <= i <= self.args@.len(),
                forall|j: int|
                    #![trigger self.args@[j]]
                    0 <= j < i ==> !((self.args@[j].typ == Type::Object || self.args@[j].typ == Type::NewId)
                        && self.args@[j].interface is Some),
            decreases self.args@.len() - i,
        {
            let arg = &self.args[i];
            if (arg.typ == Type::Object || arg.typ == Type::NewId) && arg.interface.is_some() {
                return false;
            }
            i = i + 1;
        }
        true
    }
}

impl Default for Message {
    fn default() -> (r: Message)
        ensures
            r.is_blank(),
    {
        Message { name: String::new(), typ: None, since: 1, description: None, args: Vec::new() }
    }
}

/// An argument of a message.
#[derive(Debug)]
pub struct Arg {
    pub name: String,
    pub typ: Type,
    pub interface: Option<String>,
    pub summary: Option<String>,
    /// Summary and full text.
    pub description: Option<(String, String)>,
    pub allow_null: bool,
    pub enum_: Option<String>,
}

impl Arg {
    /// Nothing is said of the argument yet. Its type is `object`.
    pub open spec fn is_blank(self) -> bool {
        &&& self.name@.len() == 0
        &&& self.typ == Type::Object
        &&& self.interface is None
        &&& self.summary is None
        &&& self.description is None
        &&& !self.allow_null
        &&& self.enum_ is None
    }

    pub fn new() -> (r: Arg)
        ensures
            r.is_blank(),
    {
        Arg::default()
    }
}

impl Default for Arg {
    fn default() -> (r: Arg)
        ensures
            r.is_blank(),
    {
        Arg {
            name: String::new(),
            typ: Type::Object,
            interface: None,
            summary: None,
            description: None,
            allow_null: false,
            enum_: None,
        }
    }
}

/// An enum of an interface.
#[derive(Debug)]
pub struct Enum {
    pub name: String,
    pub since: u16,
    /// Summary and full text.
    pub description: Option<(String, String)>,
    pub entries: Vec<Entry>,
    pub bitfield: bool,
}

impl Enum {
    /// Nothing is said of the enum yet. It exists since version 1.
    pub open spec fn is_blank(self) -> bool {
        &&& self.name@.len() == 0
        &&& self.since == 1
        &&& self.description is None
        &&& self.entries@.len() == 0
        &&& !self.bitfield
    }

    pub fn new() -> (r: Enum)
        ensures
            r.is_blank(),
    {
        Enum::default()
    }
}

impl Default for Enum {
    fn default() -> (r: Enum)
        ensures
            r.is_blank(),
    {
        Enum { name: String::new(), since: 1, description: None, entries: Vec::new(), bitfield: false }
    }
}

/// A value of an enum.
#[derive(Debug)]
pub struct Entry {
    pub name: String,
    pub value: u32,
    pub since: u16,
    /// Summary and full text.
    pub description: Option<(String, String)>,
    pub summary: Option<String>,
}

impl Entry {
    /// Nothing is said of the entry yet. It exists since version 1.
    pub open spec fn is_blank(self) -> bool {
        &&& self.name@.len() == 0
        &&& self.value == 0
        &&& self.since == 1
        &&& self.description is None
        &&& self.summary is None
    }

    pub fn new() -> (r: Entry)
        ensures
            r.is_blank(),
    {
        Entry::default()
    }
}

impl Default for Entry {
    fn default() -> (r: Entry)
        ensures
            r.is_blank(),
    {
        Entry { name: String::new(), value: 0, since: 1, description: None, summary: None }
    }
}

/// The type of an argument.
#[derive(Clone, Copy, Debug, PartialEq, Eq, Structural)]
pub enum Type {
    Int,
    Uint,
    Fixed,
    String,
    Object,
    NewId,
    Array,
    Fd,
    Destructor,
}

impl Type {
    /// An argument of this type may be null.
    pub fn nullable(self) -> (r: bool)
        ensures
            r == (self == Type::String || self == Type::Object),
    {
        matches!(self, Type::String | Type::Object)
    }
}

/// What a text says, where there is one.
pub open spec fn view_text(text: Option<String>) -> Option<Seq<char>> {
    match text {
        Some(text) => Some(text@),
        None => None,
    }
}

/// What a description says, where there is one.
pub open spec fn view_description(description: Option<(String, String)>) -> Option<(Seq<char>, Seq<char>)> {
    match description {
        Some((summary, text)) => Some((summary@, text@)),
        None => None,
    }
}

/// What an argument says.
pub struct ArgView {
    pub name: Seq<char>,
    pub typ: Type,
    pub interface: Option<Seq<char>>,
    pub summary: Option<Seq<char>>,
    pub description: Option<(Seq<char>, Seq<char>)>,
    pub allow_null: bool,
    pub enum_: Option<Seq<char>>,
}

impl View for Arg {
    type V = ArgView;

    open spec fn view(&self) -> ArgView {
        ArgView {
            name: self.name@,
            typ: self.typ,
            interface: view_text(self.interface),
            summary: view_text(self.summary),
            description: view_description(self.description),
            allow_null: self.allow_null,
            enum_: view_text(self.enum_),
        }
    }
}

/// What a message says.
pub struct MessageView {
    pub name: Seq<char>,
    pub typ: Option<Type>,
    pub since: u32,
    pub description: Option<(Seq<char>, Seq<char>)>,
    pub args: Seq<ArgView>,
}

impl View for Message {
    type V = MessageView;

    open spec fn view(&self) -> MessageView {
        MessageView {
            name: self.name@,
            typ: self.typ,
            since: self.since,
            description: view_description(self.description),
            args: self.args@.map_values(|a: Arg| a@),
        }
    }
}

/// What an entry says.
pub struct EntryView {
    pub name: Seq<char>,
    pub value: u32,
    pub since: u16,
    pub description: Option<(Seq<char>, Seq<char>)>,
    pub summary: Option<Seq<char>>,
}

impl View for Entry {
    type V = EntryView;

    open spec fn view(&self) -> EntryView {
        EntryView {
            name: self.name@,
            value: self.value,
            since: self.since,
            description: view_description(self.description),
            summary: view_text(self.summary),
        }
    }
}

/// What an enum says.
pub struct EnumView {
    pub name: Seq<char>,
    pub since: u16,
    pub description: Option<(Seq<char>, Seq<char>)>,
    pub entries: Seq<EntryView>,
    pub bitfield: bool,
}

impl View for Enum {
    type V = EnumView;

    open spec fn view(&self) -> EnumView {
        EnumView {
            name: self.name@,
            since: self.since,
            description: view_description(self.description),
            entries: self.entries@.map_values(|e: Entry| e@),
            bitfield: self.bitfield,
        }
    }
}

/// What an interface says.
pub struct InterfaceView {
    pub name: Seq<char>,
    pub version: u32,
    pub description: Option<(Seq<char>, Seq<char>)>,
    pub requests: Seq<MessageView>,
    pub events: Seq<MessageView>,
    pub enums: Seq<EnumView>,
}

impl View for Interface {
    type V = InterfaceView;

    open spec fn view(&self) -> InterfaceView {
        InterfaceView {
            name: self.name@,
            version: self.version,
            description: view_description(self.description),
            requests: self.requests@.map_values(|m: Message| m@),
            events: self.events@.map_values(|m: Message| m@),
            enums: self.enums@.map_values(|e: Enum| e@),
        }
    }
}

/// What a protocol says.
pub struct ProtocolView {
    pub name: Seq<char>,
    pub copyright: Option<Seq<char>>,
    pub description: Option<(Seq<char>, Seq<char>)>,
    pub interfaces: Seq<InterfaceView>,
}

impl View for Protocol {
    type V = ProtocolView;

    open spec fn view(&self) -> ProtocolView {
        ProtocolView {
            name: self.name@,
            copyright: view_text(self.copyright),
            description: view_description(self.description),
            interfaces: self.interfaces@.map_values(|i: Interface| i@),
        }
    }
}

} // verus!
